//! A relay of the Promtuz network: the peer mesh and its stores, the control
//! channel and the command line. What touches sockets and disks is outside.

pub mod cli;
pub mod cmd;
pub mod control;
pub mod dht;
pub mod text;
