//! Anti-entropy between replicas and the periodic work of a relay.

pub mod merkle;
pub mod rpc;
pub mod scheduler;
pub mod state;
