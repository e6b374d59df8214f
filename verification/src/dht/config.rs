//! Protocol parameters and the operator-tunable [`DhtConfig`].
//!
//! The constants are the same in every relay of a network; only what may vary
//! from deployment to deployment lives on [`DhtConfig`].

use vstd::prelude::*;
use vstd::string::StringSliceAdditionalSpecFns;

verus! {

/// Replication factor: how many relays are home to a key.
pub const K: usize = 3;

/// Lookup parallelism: how many peers one hop of a walk asks.
pub const ALPHA: usize = 3;

/// Capacity of a bucket, for its active set and for its replacement cache.
pub const BUCKET_SIZE: usize = 16;

/// Number of buckets, one for each bit of an id.
pub const BUCKETS: usize = 256;

/// How long a hop waits for the next outcome before it asks another peer, or,
/// once one has come, before it ends, in milliseconds.
pub const LOOKUP_HEDGE_MS: u64 = 150;

/// Time limit of one remote call, in milliseconds.
pub const LOOKUP_RPC_TIMEOUT_MS: u64 = 1500;

/// Most hops that an iterative lookup takes.
pub const LOOKUP_MAX_HOPS: u32 = 8;

/// How long a presence record is valid, in milliseconds.
pub const PRESENCE_TTL_MS: u64 = 600_000;

/// How often a relay publishes its presence records anew, in milliseconds.
pub const PRESENCE_REPUBLISH_MS: u64 = 240_000;

/// How far ahead of the clock a presence record may begin, in milliseconds.
pub const PRESENCE_MAX_FUTURE_SKEW_MS: u64 = 60_000;

/// Bits of a key that tell its slice.
pub const MERKLE_SLICE_BITS: u32 = 8;

/// Bits of a key, behind those of its slice, that tell its leaf.
pub const MERKLE_LEAF_BITS: u32 = 16;

/// Branching factor of a slice tree.
pub const MERKLE_FANOUT: usize = 16;

/// Bits of the bloom filter of a slice.
pub const BLOOM_BITS: u32 = 65_536;

/// Hashes of the bloom filter of a slice.
pub const BLOOM_HASHES: u32 = 6;

/// Pause between two anti-entropy rounds, in milliseconds.
pub const ANTI_ENTROPY_INTERVAL_MS: u64 = 30_000;

/// Age at which a bucket is due for a refresh walk (one hour).
pub const BUCKET_REFRESH_MS: u64 = 3_600_000;

/// What the domain of every signature between relays begins with. A suffix for
/// the kind of packet follows, so that a signature of one kind is none of
/// another.
pub const DHT_DOMAIN_PREFIX: &'static str = "promtuz-dht-v1";

/// The bytes of [`DHT_DOMAIN_PREFIX`].
pub fn dht_domain_prefix() -> (r: &'static [u8])
    ensures
        r@ == "promtuz-dht-v1".spec_bytes(),
{
    DHT_DOMAIN_PREFIX.as_bytes()
}

/// Agreeing replies that a first lookup of a value needs.
pub const MIN_QUORUM: usize = 2;

/// Agreeing replies that an iterative lookup of a value needs.
pub const LOOKUP_QUORUM: usize = 2;

/// Entries that the lookup cache holds at most.
pub const LOOKUP_CACHE_CAP: usize = 4_096;

/// Keys that one record fetch answers at most.
pub const FETCH_RECORD_MAX: usize = 64;

/// Pairs in one reply about a leaf.
pub const MERKLE_DIFF_LEAVES_MAX: usize = 64;

/// Nibbles of the path to a leaf.
pub const MERKLE_DIFF_PATH_MAX: usize = 4;

/// Fetches that a relay has under way at once when it joins.
pub const FETCH_RECORD_CONCURRENCY: usize = 8;

/// Time limit of a fan-out to the homes of a key, in milliseconds.
pub const FORWARD_TIMEOUT_MS: u64 = 1500;

/// Homes that must have taken a message before its sender is told so.
pub const FORWARD_K_MIN: usize = 2;

/// Time limit of a queue drain over all homes, in milliseconds.
pub const QUEUE_FETCH_TIMEOUT_MS: u64 = 3000;

/// Pages that a drain asks of one home at most.
pub const MAX_QUEUE_FETCH_PAGES: usize = 10;

/// Queue rows that one sweep hands over at most.
pub const MAX_MIGRATE_PER_SWEEP: usize = 256;

/// Hand-overs that run at the same time.
pub const MAX_CONCURRENT_MIGRATIONS: usize = 8;

/// Sustained rate of cheap requests from one peer, per second.
pub const RATE_LIMIT_CHEAP_PER_SEC: u32 = 100;

/// Burst of cheap requests from one peer.
pub const RATE_LIMIT_CHEAP_BURST: u32 = 50;

/// Sustained rate of expensive requests from one peer, per second.
pub const RATE_LIMIT_EXPENSIVE_PER_SEC: u32 = 20;

/// Burst of expensive requests from one peer.
pub const RATE_LIMIT_EXPENSIVE_BURST: u32 = 10;

/// Sustained rate of bulk requests from one peer, per second.
pub const RATE_LIMIT_BULK_PER_SEC: u32 = 50;

/// Burst of bulk requests from one peer.
pub const RATE_LIMIT_BULK_BURST: u32 = 25;

/// The parameters that vary from deployment to deployment.
#[derive(Clone, Copy, Debug, PartialEq, Eq, Structural)]
pub struct DhtConfig {
    /// Whether the relay takes part in the mesh at all.
    pub enabled: bool,
    /// Replaces [`BUCKET_SIZE`] in test clusters.
    pub bucket_size: Option<usize>,
}

impl Default for DhtConfig {
    fn default() -> (r: DhtConfig)
        ensures
            !r.enabled,
            r.bucket_size is None,
    {
        DhtConfig { enabled: false, bucket_size: None }
    }
}

impl DhtConfig {
    /// The bucket size in force: the operator's, or else [`BUCKET_SIZE`].
    pub fn bucket_size(&self) -> (r: usize)
        ensures
            r == (match self.bucket_size {
                Some(n) => n,
                None => BUCKET_SIZE,
            }),
    {
        match self.bucket_size {
            Some(n) => n,
            None => BUCKET_SIZE,
        }
    }
}

} // verus!
