//! Per-relay operation counters.

use vstd::prelude::*;

verus! {

/// A counter after one more event. Counters wrap at 64 bits.
pub open spec fn bumped(n: u64) -> u64 {
    if n == u64::MAX {
        0
    } else {
        (n + 1) as u64
    }
}

/// A counter after one more event, where the event is of its kind.
pub open spec fn bumped_if(counts: bool, n: u64) -> u64 {
    if counts {
        bumped(n)
    } else {
        n
    }
}

/// One counter per kind of event that a relay can observe.
#[derive(Clone, Copy, Debug, PartialEq, Eq, Structural)]
pub struct Metrics {
    /// Iterative lookups begun.
    pub lookups_started: u64,
    /// Iterative lookups that returned a result.
    pub lookups_succeeded: u64,
    /// Iterative lookups that ended in an error.
    pub lookups_failed: u64,
    /// Store requests that arrived.
    pub stores_received: u64,
    /// Store requests that were honoured.
    pub stores_accepted: u64,
    /// Store requests that were refused.
    pub stores_rejected: u64,
    /// `FindNode` requests answered.
    pub find_node_rpcs: u64,
    /// `FindValue` requests answered.
    pub find_value_rpcs: u64,
    /// Liveness probes sent.
    pub pings_sent: u64,
    /// Liveness probes answered.
    pub pings_received: u64,
    /// Merkle summaries requested from peers.
    pub merkle_summaries_sent: u64,
    /// Merkle summaries served to peers.
    pub merkle_summaries_received: u64,
    /// Merkle diffs requested from peers.
    pub merkle_diffs_sent: u64,
    /// Merkle diffs served to peers.
    pub merkle_diffs_received: u64,
    /// Peers evicted from a bucket after failed probes.
    pub bucket_evictions: u64,
    /// Outbound peer connections opened.
    pub peer_conns_opened: u64,
    /// Cached peer connections closed.
    pub peer_conns_closed: u64,
    /// Inbound streams refused by a rate limiter.
    pub rate_limit_rejections: u64,
    /// Connections whose certificate gave no usable public key.
    pub cert_pubkey_extraction_failures: u64,
    /// Inbound connections that began with a valid hello.
    pub dht_hello_accepted: u64,
    /// Inbound connections refused at the hello.
    pub dht_hello_rejected: u64,
    /// Forward fan-outs begun.
    pub forwards_sent: u64,
    /// Forward fan-outs in which a home delivered.
    pub forwards_delivered: u64,
    /// Forward fan-outs in which enough homes stored.
    pub forwards_stored: u64,
    /// Forward fan-outs that fell back to the local queue.
    pub forward_fallbacks_to_local_queue: u64,
    /// Messages written to the home queue.
    pub dht_queue_writes: u64,
    /// Messages refused because a recipient was at the cap.
    pub dht_queue_full_rejections: u64,
    /// Drain authorisations accepted.
    pub drain_auth_received: u64,
    /// Drain authorisations refused.
    pub drain_auth_rejected: u64,
    /// Queue fetches sent to homes, per home and page.
    pub queue_fetches_sent: u64,
    /// Queue fetches that failed on the wire.
    pub queue_fetch_failures: u64,
    /// Drains that returned at least one message.
    pub queue_fetches_succeeded: u64,
    /// Queue rows handed to the migration driver.
    pub migrations_attempted: u64,
    /// Queue rows handed over and deleted here.
    pub migrations_succeeded: u64,
    /// Queue rows whose hand-over failed.
    pub migrations_failed: u64,
}

/// The kinds of events that are counted, one for each field of [`Metrics`].
#[derive(Clone, Copy, Debug, PartialEq, Eq, Structural)]
pub enum Counter {
    LookupsStarted,
    LookupsSucceeded,
    LookupsFailed,
    StoresReceived,
    StoresAccepted,
    StoresRejected,
    FindNodeRpcs,
    FindValueRpcs,
    PingsSent,
    PingsReceived,
    MerkleSummariesSent,
    MerkleSummariesReceived,
    MerkleDiffsSent,
    MerkleDiffsReceived,
    BucketEvictions,
    PeerConnsOpened,
    PeerConnsClosed,
    RateLimitRejections,
    CertPubkeyExtractionFailures,
    DhtHelloAccepted,
    DhtHelloRejected,
    ForwardsSent,
    ForwardsDelivered,
    ForwardsStored,
    ForwardFallbacksToLocalQueue,
    DhtQueueWrites,
    DhtQueueFullRejections,
    DrainAuthReceived,
    DrainAuthRejected,
    QueueFetchesSent,
    QueueFetchFailures,
    QueueFetchesSucceeded,
    MigrationsAttempted,
    MigrationsSucceeded,
    MigrationsFailed,
}

impl Metrics {
    /// What the counter of a kind of event reads.
    pub open spec fn reads(self, c: Counter) -> u64 {
        match c {
            Counter::LookupsStarted => self.lookups_started,
            Counter::LookupsSucceeded => self.lookups_succeeded,
            Counter::LookupsFailed => self.lookups_failed,
            Counter::StoresReceived => self.stores_received,
            Counter::StoresAccepted => self.stores_accepted,
            Counter::StoresRejected => self.stores_rejected,
            Counter::FindNodeRpcs => self.find_node_rpcs,
            Counter::FindValueRpcs => self.find_value_rpcs,
            Counter::PingsSent => self.pings_sent,
            Counter::PingsReceived => self.pings_received,
            Counter::MerkleSummariesSent => self.merkle_summaries_sent,
            Counter::MerkleSummariesReceived => self.merkle_summaries_received,
            Counter::MerkleDiffsSent => self.merkle_diffs_sent,
            Counter::MerkleDiffsReceived => self.merkle_diffs_received,
            Counter::BucketEvictions => self.bucket_evictions,
            Counter::PeerConnsOpened => self.peer_conns_opened,
            Counter::PeerConnsClosed => self.peer_conns_closed,
            Counter::RateLimitRejections => self.rate_limit_rejections,
            Counter::CertPubkeyExtractionFailures => self.cert_pubkey_extraction_failures,
            Counter::DhtHelloAccepted => self.dht_hello_accepted,
            Counter::DhtHelloRejected => self.dht_hello_rejected,
            Counter::ForwardsSent => self.forwards_sent,
            Counter::ForwardsDelivered => self.forwards_delivered,
            Counter::ForwardsStored => self.forwards_stored,
            Counter::ForwardFallbacksToLocalQueue => self.forward_fallbacks_to_local_queue,
            Counter::DhtQueueWrites => self.dht_queue_writes,
            Counter::DhtQueueFullRejections => self.dht_queue_full_rejections,
            Counter::DrainAuthReceived => self.drain_auth_received,
            Counter::DrainAuthRejected => self.drain_auth_rejected,
            Counter::QueueFetchesSent => self.queue_fetches_sent,
            Counter::QueueFetchFailures => self.queue_fetch_failures,
            Counter::QueueFetchesSucceeded => self.queue_fetches_succeeded,
            Counter::MigrationsAttempted => self.migrations_attempted,
            Counter::MigrationsSucceeded => self.migrations_succeeded,
            Counter::MigrationsFailed => self.migrations_failed,
        }
    }

    /// The counters after one more event: that of its kind is bumped, and the
    /// others stay.
    pub open spec fn counted(self, c: Counter) -> Metrics {
        Metrics {
            lookups_started: bumped_if(c == Counter::LookupsStarted, self.lookups_started),
            lookups_succeeded: bumped_if(c == Counter::LookupsSucceeded, self.lookups_succeeded),
            lookups_failed: bumped_if(c == Counter::LookupsFailed, self.lookups_failed),
            stores_received: bumped_if(c == Counter::StoresReceived, self.stores_received),
            stores_accepted: bumped_if(c == Counter::StoresAccepted, self.stores_accepted),
            stores_rejected: bumped_if(c == Counter::StoresRejected, self.stores_rejected),
            find_node_rpcs: bumped_if(c == Counter::FindNodeRpcs, self.find_node_rpcs),
            find_value_rpcs: bumped_if(c == Counter::FindValueRpcs, self.find_value_rpcs),
            pings_sent: bumped_if(c == Counter::PingsSent, self.pings_sent),
            pings_received: bumped_if(c == Counter::PingsReceived, self.pings_received),
            merkle_summaries_sent: bumped_if(c == Counter::MerkleSummariesSent, self.merkle_summaries_sent),
            merkle_summaries_received: bumped_if(c == Counter::MerkleSummariesReceived, self.merkle_summaries_received),
            merkle_diffs_sent: bumped_if(c == Counter::MerkleDiffsSent, self.merkle_diffs_sent),
            merkle_diffs_received: bumped_if(c == Counter::MerkleDiffsReceived, self.merkle_diffs_received),
            bucket_evictions: bumped_if(c == Counter::BucketEvictions, self.bucket_evictions),
            peer_conns_opened: bumped_if(c == Counter::PeerConnsOpened, self.peer_conns_opened),
            peer_conns_closed: bumped_if(c == Counter::PeerConnsClosed, self.peer_conns_closed),
            rate_limit_rejections: bumped_if(c == Counter::RateLimitRejections, self.rate_limit_rejections),
            cert_pubkey_extraction_failures: bumped_if(c == Counter::CertPubkeyExtractionFailures, self.cert_pubkey_extraction_failures),
            dht_hello_accepted: bumped_if(c == Counter::DhtHelloAccepted, self.dht_hello_accepted),
            dht_hello_rejected: bumped_if(c == Counter::DhtHelloRejected, self.dht_hello_rejected),
            forwards_sent: bumped_if(c == Counter::ForwardsSent, self.forwards_sent),
            forwards_delivered: bumped_if(c == Counter::ForwardsDelivered, self.forwards_delivered),
            forwards_stored: bumped_if(c == Counter::ForwardsStored, self.forwards_stored),
            forward_fallbacks_to_local_queue: bumped_if(c == Counter::ForwardFallbacksToLocalQueue, self.forward_fallbacks_to_local_queue),
            dht_queue_writes: bumped_if(c == Counter::DhtQueueWrites, self.dht_queue_writes),
            dht_queue_full_rejections: bumped_if(c == Counter::DhtQueueFullRejections, self.dht_queue_full_rejections),
            drain_auth_received: bumped_if(c == Counter::DrainAuthReceived, self.drain_auth_received),
            drain_auth_rejected: bumped_if(c == Counter::DrainAuthRejected, self.drain_auth_rejected),
            queue_fetches_sent: bumped_if(c == Counter::QueueFetchesSent, self.queue_fetches_sent),
            queue_fetch_failures: bumped_if(c == Counter::QueueFetchFailures, self.queue_fetch_failures),
            queue_fetches_succeeded: bumped_if(c == Counter::QueueFetchesSucceeded, self.queue_fetches_succeeded),
            migrations_attempted: bumped_if(c == Counter::MigrationsAttempted, self.migrations_attempted),
            migrations_succeeded: bumped_if(c == Counter::MigrationsSucceeded, self.migrations_succeeded),
            migrations_failed: bumped_if(c == Counter::MigrationsFailed, self.migrations_failed),
        }
    }
}

/// The counters after these events, one after the other.
pub open spec fn counted_all(m: Metrics, events: Seq<Counter>) -> Metrics
    decreases events.len(),
{
    if events.len() == 0 {
        m
    } else {
        counted_all(m, events.drop_last()).counted(events.last())
    }
}

/// How many of the events are of this kind.
pub open spec fn times(events: Seq<Counter>, c: Counter) -> nat
    decreases events.len(),
{
    if events.len() == 0 {
        0
    } else {
        times(events.drop_last(), c) + (if events.last() == c {
            1nat
        } else {
            0nat
        })
    }
}

/// All counters at zero.
pub open spec fn zeroed() -> Metrics {
    Metrics {
        lookups_started: 0,
        lookups_succeeded: 0,
        lookups_failed: 0,
        stores_received: 0,
        stores_accepted: 0,
        stores_rejected: 0,
        find_node_rpcs: 0,
        find_value_rpcs: 0,
        pings_sent: 0,
        pings_received: 0,
        merkle_summaries_sent: 0,
        merkle_summaries_received: 0,
        merkle_diffs_sent: 0,
        merkle_diffs_received: 0,
        bucket_evictions: 0,
        peer_conns_opened: 0,
        peer_conns_closed: 0,
        rate_limit_rejections: 0,
        cert_pubkey_extraction_failures: 0,
        dht_hello_accepted: 0,
        dht_hello_rejected: 0,
        forwards_sent: 0,
        forwards_delivered: 0,
        forwards_stored: 0,
        forward_fallbacks_to_local_queue: 0,
        dht_queue_writes: 0,
        dht_queue_full_rejections: 0,
        drain_auth_received: 0,
        drain_auth_rejected: 0,
        queue_fetches_sent: 0,
        queue_fetch_failures: 0,
        queue_fetches_succeeded: 0,
        migrations_attempted: 0,
        migrations_succeeded: 0,
        migrations_failed: 0,
    }
}

impl Default for Metrics {
    fn default() -> (r: Metrics)
        ensures
            r == zeroed(),
    {
        Metrics {
            lookups_started: 0,
            lookups_succeeded: 0,
            lookups_failed: 0,
            stores_received: 0,
            stores_accepted: 0,
            stores_rejected: 0,
            find_node_rpcs: 0,
            find_value_rpcs: 0,
            pings_sent: 0,
            pings_received: 0,
            merkle_summaries_sent: 0,
            merkle_summaries_received: 0,
            merkle_diffs_sent: 0,
            merkle_diffs_received: 0,
            bucket_evictions: 0,
            peer_conns_opened: 0,
            peer_conns_closed: 0,
            rate_limit_rejections: 0,
            cert_pubkey_extraction_failures: 0,
            dht_hello_accepted: 0,
            dht_hello_rejected: 0,
            forwards_sent: 0,
            forwards_delivered: 0,
            forwards_stored: 0,
            forward_fallbacks_to_local_queue: 0,
            dht_queue_writes: 0,
            dht_queue_full_rejections: 0,
            drain_auth_received: 0,
            drain_auth_rejected: 0,
            queue_fetches_sent: 0,
            queue_fetch_failures: 0,
            queue_fetches_succeeded: 0,
            migrations_attempted: 0,
            migrations_succeeded: 0,
            migrations_failed: 0,
        }
    }
}

impl Metrics {
    /// All counters at zero.
    pub fn new() -> (r: Metrics)
        ensures
            r == zeroed(),
    {
        Metrics::default()
    }

    /// Counts one event: iterative lookups begun.
    pub fn inc_lookups_started(&mut self)
        ensures
            *final(self) == old(self).counted(Counter::LookupsStarted),
    {
        self.lookups_started = self.lookups_started.wrapping_add(1);
    }

    /// Counts one event: iterative lookups that returned a result.
    pub fn inc_lookups_succeeded(&mut self)
        ensures
            *final(self) == old(self).counted(Counter::LookupsSucceeded),
    {
        self.lookups_succeeded = self.lookups_succeeded.wrapping_add(1);
    }

    /// Counts one event: iterative lookups that ended in an error.
    pub fn inc_lookups_failed(&mut self)
        ensures
            *final(self) == old(self).counted(Counter::LookupsFailed),
    {
        self.lookups_failed = self.lookups_failed.wrapping_add(1);
    }

    /// Counts one event: store requests that arrived.
    pub fn inc_stores_received(&mut self)
        ensures
            *final(self) == old(self).counted(Counter::StoresReceived),
    {
        self.stores_received = self.stores_received.wrapping_add(1);
    }

    /// Counts one event: store requests that were honoured.
    pub fn inc_stores_accepted(&mut self)
        ensures
            *final(self) == old(self).counted(Counter::StoresAccepted),
    {
        self.stores_accepted = self.stores_accepted.wrapping_add(1);
    }

    /// Counts one event: store requests that were refused.
    pub fn inc_stores_rejected(&mut self)
        ensures
            *final(self) == old(self).counted(Counter::StoresRejected),
    {
        self.stores_rejected = self.stores_rejected.wrapping_add(1);
    }

    /// Counts one event: `FindNode` requests answered.
    pub fn inc_find_node_rpcs(&mut self)
        ensures
            *final(self) == old(self).counted(Counter::FindNodeRpcs),
    {
        self.find_node_rpcs = self.find_node_rpcs.wrapping_add(1);
    }

    /// Counts one event: `FindValue` requests answered.
    pub fn inc_find_value_rpcs(&mut self)
        ensures
            *final(self) == old(self).counted(Counter::FindValueRpcs),
    {
        self.find_value_rpcs = self.find_value_rpcs.wrapping_add(1);
    }

    /// Counts one event: liveness probes sent.
    pub fn inc_pings_sent(&mut self)
        ensures
            *final(self) == old(self).counted(Counter::PingsSent),
    {
        self.pings_sent = self.pings_sent.wrapping_add(1);
    }

    /// Counts one event: liveness probes answered.
    pub fn inc_pings_received(&mut self)
        ensures
            *final(self) == old(self).counted(Counter::PingsReceived),
    {
        self.pings_received = self.pings_received.wrapping_add(1);
    }

    /// Counts one event: merkle summaries requested from peers.
    pub fn inc_merkle_summaries_sent(&mut self)
        ensures
            *final(self) == old(self).counted(Counter::MerkleSummariesSent),
    {
        self.merkle_summaries_sent = self.merkle_summaries_sent.wrapping_add(1);
    }

    /// Counts one event: merkle summaries served to peers.
    pub fn inc_merkle_summaries_received(&mut self)
        ensures
            *final(self) == old(self).counted(Counter::MerkleSummariesReceived),
    {
        self.merkle_summaries_received = self.merkle_summaries_received.wrapping_add(1);
    }

    /// Counts one event: merkle diffs requested from peers.
    pub fn inc_merkle_diffs_sent(&mut self)
        ensures
            *final(self) == old(self).counted(Counter::MerkleDiffsSent),
    {
        self.merkle_diffs_sent = self.merkle_diffs_sent.wrapping_add(1);
    }

    /// Counts one event: merkle diffs served to peers.
    pub fn inc_merkle_diffs_received(&mut self)
        ensures
            *final(self) == old(self).counted(Counter::MerkleDiffsReceived),
    {
        self.merkle_diffs_received = self.merkle_diffs_received.wrapping_add(1);
    }

    /// Counts one event: peers evicted from a bucket after failed probes.
    pub fn inc_bucket_evictions(&mut self)
        ensures
            *final(self) == old(self).counted(Counter::BucketEvictions),
    {
        self.bucket_evictions = self.bucket_evictions.wrapping_add(1);
    }

    /// Counts one event: outbound peer connections opened.
    pub fn inc_peer_conns_opened(&mut self)
        ensures
            *final(self) == old(self).counted(Counter::PeerConnsOpened),
    {
        self.peer_conns_opened = self.peer_conns_opened.wrapping_add(1);
    }

    /// Counts one event: cached peer connections closed.
    pub fn inc_peer_conns_closed(&mut self)
        ensures
            *final(self) == old(self).counted(Counter::PeerConnsClosed),
    {
        self.peer_conns_closed = self.peer_conns_closed.wrapping_add(1);
    }

    /// Counts one event: inbound streams refused by a rate limiter.
    pub fn inc_rate_limit_rejections(&mut self)
        ensures
            *final(self) == old(self).counted(Counter::RateLimitRejections),
    {
        self.rate_limit_rejections = self.rate_limit_rejections.wrapping_add(1);
    }

    /// Counts one event: connections whose certificate gave no usable public key.
    pub fn inc_cert_pubkey_extraction_failures(&mut self)
        ensures
            *final(self) == old(self).counted(Counter::CertPubkeyExtractionFailures),
    {
        self.cert_pubkey_extraction_failures = self.cert_pubkey_extraction_failures.wrapping_add(1);
    }

    /// Counts one event: inbound connections that began with a valid hello.
    pub fn inc_dht_hello_accepted(&mut self)
        ensures
            *final(self) == old(self).counted(Counter::DhtHelloAccepted),
    {
        self.dht_hello_accepted = self.dht_hello_accepted.wrapping_add(1);
    }

    /// Counts one event: inbound connections refused at the hello.
    pub fn inc_dht_hello_rejected(&mut self)
        ensures
            *final(self) == old(self).counted(Counter::DhtHelloRejected),
    {
        self.dht_hello_rejected = self.dht_hello_rejected.wrapping_add(1);
    }

    /// Counts one event: forward fan-outs begun.
    pub fn inc_forwards_sent(&mut self)
        ensures
            *final(self) == old(self).counted(Counter::ForwardsSent),
    {
        self.forwards_sent = self.forwards_sent.wrapping_add(1);
    }

    /// Counts one event: forward fan-outs in which a home delivered.
    pub fn inc_forwards_delivered(&mut self)
        ensures
            *final(self) == old(self).counted(Counter::ForwardsDelivered),
    {
        self.forwards_delivered = self.forwards_delivered.wrapping_add(1);
    }

    /// Counts one event: forward fan-outs in which enough homes stored.
    pub fn inc_forwards_stored(&mut self)
        ensures
            *final(self) == old(self).counted(Counter::ForwardsStored),
    {
        self.forwards_stored = self.forwards_stored.wrapping_add(1);
    }

    /// Counts one event: forward fan-outs that fell back to the local queue.
    pub fn inc_forward_fallbacks_to_local_queue(&mut self)
        ensures
            *final(self) == old(self).counted(Counter::ForwardFallbacksToLocalQueue),
    {
        self.forward_fallbacks_to_local_queue = self.forward_fallbacks_to_local_queue.wrapping_add(1);
    }

    /// Counts one event: messages written to the home queue.
    pub fn inc_dht_queue_writes(&mut self)
        ensures
            *final(self) == old(self).counted(Counter::DhtQueueWrites),
    {
        self.dht_queue_writes = self.dht_queue_writes.wrapping_add(1);
    }

    /// Counts one event: messages refused because a recipient was at the cap.
    pub fn inc_dht_queue_full_rejections(&mut self)
        ensures
            *final(self) == old(self).counted(Counter::DhtQueueFullRejections),
    {
        self.dht_queue_full_rejections = self.dht_queue_full_rejections.wrapping_add(1);
    }

    /// Counts one event: drain authorisations accepted.
    pub fn inc_drain_auth_received(&mut self)
        ensures
            *final(self) == old(self).counted(Counter::DrainAuthReceived),
    {
        self.drain_auth_received = self.drain_auth_received.wrapping_add(1);
    }

    /// Counts one event: drain authorisations refused.
    pub fn inc_drain_auth_rejected(&mut self)
        ensures
            *final(self) == old(self).counted(Counter::DrainAuthRejected),
    {
        self.drain_auth_rejected = self.drain_auth_rejected.wrapping_add(1);
    }

    /// Counts one event: queue fetches sent to homes, per home and page.
    pub fn inc_queue_fetches_sent(&mut self)
        ensures
            *final(self) == old(self).counted(Counter::QueueFetchesSent),
    {
        self.queue_fetches_sent = self.queue_fetches_sent.wrapping_add(1);
    }

    /// Counts one event: queue fetches that failed on the wire.
    pub fn inc_queue_fetch_failures(&mut self)
        ensures
            *final(self) == old(self).counted(Counter::QueueFetchFailures),
    {
        self.queue_fetch_failures = self.queue_fetch_failures.wrapping_add(1);
    }

    /// Counts one event: drains that returned at least one message.
    pub fn inc_queue_fetches_succeeded(&mut self)
        ensures
            *final(self) == old(self).counted(Counter::QueueFetchesSucceeded),
    {
        self.queue_fetches_succeeded = self.queue_fetches_succeeded.wrapping_add(1);
    }

    /// Counts one event: queue rows handed to the migration driver.
    pub fn inc_migrations_attempted(&mut self)
        ensures
            *final(self) == old(self).counted(Counter::MigrationsAttempted),
    {
        self.migrations_attempted = self.migrations_attempted.wrapping_add(1);
    }

    /// Counts one event: queue rows handed over and deleted here.
    pub fn inc_migrations_succeeded(&mut self)
        ensures
            *final(self) == old(self).counted(Counter::MigrationsSucceeded),
    {
        self.migrations_succeeded = self.migrations_succeeded.wrapping_add(1);
    }

    /// Counts one event: queue rows whose hand-over failed.
    pub fn inc_migrations_failed(&mut self)
        ensures
            *final(self) == old(self).counted(Counter::MigrationsFailed),
    {
        self.migrations_failed = self.migrations_failed.wrapping_add(1);
    }
}

// ---------------------------------------------------------------------------
// Laws
// ---------------------------------------------------------------------------

/// One event changes the counter of its kind, and no other.
proof fn lemma_one_event(m: Metrics, e: Counter, c: Counter)
    ensures
        m.counted(e).reads(c) == bumped_if(e == c, m.reads(c)),
{
}

/// One more, as far as 64 bits hold.
proof fn lemma_bumped_wraps(start: int, n: nat, read: u64)
    requires
        read as int == (start + n) % 0x1_0000_0000_0000_0000,
        0 <= start,
    ensures
        bumped(read) as int == (start + n + 1) % 0x1_0000_0000_0000_0000,
{
}

/// No event is lost, and none is counted as one of another kind: whatever
/// events come, in whatever order, a counter has grown by as many as were of
/// its kind, as far as 64 bits hold. Counters are changed one event at a time,
/// so events of several threads come in some order too.
pub proof fn law_every_event_is_counted(m: Metrics, events: Seq<Counter>, c: Counter)
    ensures
        counted_all(m, events).reads(c) as int == (m.reads(c) + times(events, c)) % 0x1_0000_0000_0000_0000,
        m.reads(c) + times(events, c) <= u64::MAX ==> counted_all(m, events).reads(c) == m.reads(c) + times(events, c),
    decreases events.len(),
{
    if events.len() > 0 {
        let init = events.drop_last();
        law_every_event_is_counted(m, init, c);
        let before = counted_all(m, init);
        lemma_one_event(before, events.last(), c);
        lemma_bumped_wraps(m.reads(c) as int, times(init, c), before.reads(c));
    }
}

/// The order of events does not matter: orders in which every kind comes as
/// often give the same counters.
pub proof fn law_order_of_events_is_irrelevant(m: Metrics, a: Seq<Counter>, b: Seq<Counter>)
    requires
        forall|c: Counter| #[trigger] times(a, c) == times(b, c),
    ensures
        counted_all(m, a) == counted_all(m, b),
{
    assert forall|c: Counter| #[trigger] counted_all(m, a).reads(c) == counted_all(m, b).reads(c) by {
        law_every_event_is_counted(m, a, c);
        law_every_event_is_counted(m, b, c);
        assert(times(a, c) == times(b, c));
    }
    assert(counted_all(m, a).reads(Counter::LookupsStarted) == counted_all(m, b).reads(Counter::LookupsStarted));
    assert(counted_all(m, a).reads(Counter::LookupsSucceeded) == counted_all(m, b).reads(Counter::LookupsSucceeded));
    assert(counted_all(m, a).reads(Counter::LookupsFailed) == counted_all(m, b).reads(Counter::LookupsFailed));
    assert(counted_all(m, a).reads(Counter::StoresReceived) == counted_all(m, b).reads(Counter::StoresReceived));
    assert(counted_all(m, a).reads(Counter::StoresAccepted) == counted_all(m, b).reads(Counter::StoresAccepted));
    assert(counted_all(m, a).reads(Counter::StoresRejected) == counted_all(m, b).reads(Counter::StoresRejected));
    assert(counted_all(m, a).reads(Counter::FindNodeRpcs) == counted_all(m, b).reads(Counter::FindNodeRpcs));
    assert(counted_all(m, a).reads(Counter::FindValueRpcs) == counted_all(m, b).reads(Counter::FindValueRpcs));
    assert(counted_all(m, a).reads(Counter::PingsSent) == counted_all(m, b).reads(Counter::PingsSent));
    assert(counted_all(m, a).reads(Counter::PingsReceived) == counted_all(m, b).reads(Counter::PingsReceived));
    assert(counted_all(m, a).reads(Counter::MerkleSummariesSent) == counted_all(m, b).reads(Counter::MerkleSummariesSent));
    assert(counted_all(m, a).reads(Counter::MerkleSummariesReceived) == counted_all(m, b).reads(Counter::MerkleSummariesReceived));
    assert(counted_all(m, a).reads(Counter::MerkleDiffsSent) == counted_all(m, b).reads(Counter::MerkleDiffsSent));
    assert(counted_all(m, a).reads(Counter::MerkleDiffsReceived) == counted_all(m, b).reads(Counter::MerkleDiffsReceived));
    assert(counted_all(m, a).reads(Counter::BucketEvictions) == counted_all(m, b).reads(Counter::BucketEvictions));
    assert(counted_all(m, a).reads(Counter::PeerConnsOpened) == counted_all(m, b).reads(Counter::PeerConnsOpened));
    assert(counted_all(m, a).reads(Counter::PeerConnsClosed) == counted_all(m, b).reads(Counter::PeerConnsClosed));
    assert(counted_all(m, a).reads(Counter::RateLimitRejections) == counted_all(m, b).reads(Counter::RateLimitRejections));
    assert(counted_all(m, a).reads(Counter::CertPubkeyExtractionFailures) == counted_all(m, b).reads(Counter::CertPubkeyExtractionFailures));
    assert(counted_all(m, a).reads(Counter::DhtHelloAccepted) == counted_all(m, b).reads(Counter::DhtHelloAccepted));
    assert(counted_all(m, a).reads(Counter::DhtHelloRejected) == counted_all(m, b).reads(Counter::DhtHelloRejected));
    assert(counted_all(m, a).reads(Counter::ForwardsSent) == counted_all(m, b).reads(Counter::ForwardsSent));
    assert(counted_all(m, a).reads(Counter::ForwardsDelivered) == counted_all(m, b).reads(Counter::ForwardsDelivered));
    assert(counted_all(m, a).reads(Counter::ForwardsStored) == counted_all(m, b).reads(Counter::ForwardsStored));
    assert(counted_all(m, a).reads(Counter::ForwardFallbacksToLocalQueue) == counted_all(m, b).reads(Counter::ForwardFallbacksToLocalQueue));
    assert(counted_all(m, a).reads(Counter::DhtQueueWrites) == counted_all(m, b).reads(Counter::DhtQueueWrites));
    assert(counted_all(m, a).reads(Counter::DhtQueueFullRejections) == counted_all(m, b).reads(Counter::DhtQueueFullRejections));
    assert(counted_all(m, a).reads(Counter::DrainAuthReceived) == counted_all(m, b).reads(Counter::DrainAuthReceived));
    assert(counted_all(m, a).reads(Counter::DrainAuthRejected) == counted_all(m, b).reads(Counter::DrainAuthRejected));
    assert(counted_all(m, a).reads(Counter::QueueFetchesSent) == counted_all(m, b).reads(Counter::QueueFetchesSent));
    assert(counted_all(m, a).reads(Counter::QueueFetchFailures) == counted_all(m, b).reads(Counter::QueueFetchFailures));
    assert(counted_all(m, a).reads(Counter::QueueFetchesSucceeded) == counted_all(m, b).reads(Counter::QueueFetchesSucceeded));
    assert(counted_all(m, a).reads(Counter::MigrationsAttempted) == counted_all(m, b).reads(Counter::MigrationsAttempted));
    assert(counted_all(m, a).reads(Counter::MigrationsSucceeded) == counted_all(m, b).reads(Counter::MigrationsSucceeded));
    assert(counted_all(m, a).reads(Counter::MigrationsFailed) == counted_all(m, b).reads(Counter::MigrationsFailed));
}

/// Each kind of event is read from the counter with its name.
pub proof fn law_counters_go_by_their_names(m: Metrics)
    ensures
        m.reads(Counter::LookupsStarted) == m.lookups_started,
        m.reads(Counter::LookupsSucceeded) == m.lookups_succeeded,
        m.reads(Counter::LookupsFailed) == m.lookups_failed,
        m.reads(Counter::StoresReceived) == m.stores_received,
        m.reads(Counter::StoresAccepted) == m.stores_accepted,
        m.reads(Counter::StoresRejected) == m.stores_rejected,
        m.reads(Counter::FindNodeRpcs) == m.find_node_rpcs,
        m.reads(Counter::FindValueRpcs) == m.find_value_rpcs,
        m.reads(Counter::PingsSent) == m.pings_sent,
        m.reads(Counter::PingsReceived) == m.pings_received,
        m.reads(Counter::MerkleSummariesSent) == m.merkle_summaries_sent,
        m.reads(Counter::MerkleSummariesReceived) == m.merkle_summaries_received,
        m.reads(Counter::MerkleDiffsSent) == m.merkle_diffs_sent,
        m.reads(Counter::MerkleDiffsReceived) == m.merkle_diffs_received,
        m.reads(Counter::BucketEvictions) == m.bucket_evictions,
        m.reads(Counter::PeerConnsOpened) == m.peer_conns_opened,
        m.reads(Counter::PeerConnsClosed) == m.peer_conns_closed,
        m.reads(Counter::RateLimitRejections) == m.rate_limit_rejections,
        m.reads(Counter::CertPubkeyExtractionFailures) == m.cert_pubkey_extraction_failures,
        m.reads(Counter::DhtHelloAccepted) == m.dht_hello_accepted,
        m.reads(Counter::DhtHelloRejected) == m.dht_hello_rejected,
        m.reads(Counter::ForwardsSent) == m.forwards_sent,
        m.reads(Counter::ForwardsDelivered) == m.forwards_delivered,
        m.reads(Counter::ForwardsStored) == m.forwards_stored,
        m.reads(Counter::ForwardFallbacksToLocalQueue) == m.forward_fallbacks_to_local_queue,
        m.reads(Counter::DhtQueueWrites) == m.dht_queue_writes,
        m.reads(Counter::DhtQueueFullRejections) == m.dht_queue_full_rejections,
        m.reads(Counter::DrainAuthReceived) == m.drain_auth_received,
        m.reads(Counter::DrainAuthRejected) == m.drain_auth_rejected,
        m.reads(Counter::QueueFetchesSent) == m.queue_fetches_sent,
        m.reads(Counter::QueueFetchFailures) == m.queue_fetch_failures,
        m.reads(Counter::QueueFetchesSucceeded) == m.queue_fetches_succeeded,
        m.reads(Counter::MigrationsAttempted) == m.migrations_attempted,
        m.reads(Counter::MigrationsSucceeded) == m.migrations_succeeded,
        m.reads(Counter::MigrationsFailed) == m.migrations_failed,
{
}

/// A relay starts with every counter at zero.
pub proof fn law_counters_start_at_zero()
    ensures
        zeroed().lookups_started == 0,
        zeroed().lookups_succeeded == 0,
        zeroed().lookups_failed == 0,
        zeroed().stores_received == 0,
        zeroed().stores_accepted == 0,
        zeroed().stores_rejected == 0,
        zeroed().find_node_rpcs == 0,
        zeroed().find_value_rpcs == 0,
        zeroed().pings_sent == 0,
        zeroed().pings_received == 0,
        zeroed().merkle_summaries_sent == 0,
        zeroed().merkle_summaries_received == 0,
        zeroed().merkle_diffs_sent == 0,
        zeroed().merkle_diffs_received == 0,
        zeroed().bucket_evictions == 0,
        zeroed().peer_conns_opened == 0,
        zeroed().peer_conns_closed == 0,
        zeroed().rate_limit_rejections == 0,
        zeroed().cert_pubkey_extraction_failures == 0,
        zeroed().dht_hello_accepted == 0,
        zeroed().dht_hello_rejected == 0,
        zeroed().forwards_sent == 0,
        zeroed().forwards_delivered == 0,
        zeroed().forwards_stored == 0,
        zeroed().forward_fallbacks_to_local_queue == 0,
        zeroed().dht_queue_writes == 0,
        zeroed().dht_queue_full_rejections == 0,
        zeroed().drain_auth_received == 0,
        zeroed().drain_auth_rejected == 0,
        zeroed().queue_fetches_sent == 0,
        zeroed().queue_fetch_failures == 0,
        zeroed().queue_fetches_succeeded == 0,
        zeroed().migrations_attempted == 0,
        zeroed().migrations_succeeded == 0,
        zeroed().migrations_failed == 0,
{
}

} // verus!
