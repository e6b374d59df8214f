//! The periodic work of a relay: when to join the mesh again, which buckets to
//! refresh, and how queued messages move to their new homes.

use crate::dht::bootstrap::{BootstrapError, BootstrapState};
use crate::dht::config::{FORWARD_K_MIN, MAX_CONCURRENT_MIGRATIONS, MAX_MIGRATE_PER_SWEEP};
use crate::dht::hash::blake3_hash;
use crate::dht::id::NodeId;
use crate::dht::keyspace::{
    has_key, key_differs, law_filter_keeps_order, lemma_filter_empty, lemma_filter_step, without_row,
};
use crate::dht::metrics::{bumped, Metrics};
use crate::dht::store::{delete_migrated_entry, drifted_from, is_batch, plan_drift_migrations, MessageKey};
use crate::dht::wire::{DispatchP, DispatchView};
use crate::dht::{Dht, DhtView, PeerConn};
use vstd::prelude::*;

verus! {

/// How often queued messages are looked at for new homes, in milliseconds.
pub const EVICT_INTERVAL_MS: u64 = 60_000;

/// How often buckets are looked at for a refresh, in milliseconds.
pub const BUCKET_REFRESH_SCAN_INTERVAL_MS: u64 = 300_000;

/// Buckets that one look refreshes at most.
pub const MAX_BUCKET_REFRESH_PER_SCAN: usize = 4;

/// A table with fewer peers is sparse: the relay joins again.
pub const BOOTSTRAP_RETRY_THRESHOLD: usize = 8;

/// The shortest wait between two attempts to join, in milliseconds.
pub const BOOTSTRAP_RETRY_BASE_MS: u64 = 5_000;

/// The longest wait between two attempts to join, in milliseconds.
pub const BOOTSTRAP_RETRY_MAX_BACKOFF_MS: u64 = 300_000;

// ---------------------------------------------------------------------------
// Joining again
// ---------------------------------------------------------------------------

/// When the relay joined last, and how long it waits before it does again.
#[derive(Clone, Copy, Debug, PartialEq, Eq, Structural)]
pub struct BootstrapRetry {
    pub backoff_ms: u64,
    pub last_attempt_ms: u64,
}

/// What a tick asks for.
#[derive(Clone, Copy, Debug, PartialEq, Eq, Structural)]
pub enum RetryStep {
    /// Join through the resolver session with this handle, and report with
    /// [`BootstrapRetry::on_outcome`].
    Attempt(u64),
    /// Nothing.
    Wait,
    /// The table is well filled: what is pending may be tried again.
    Settled,
}

/// Twice the wait, up to the longest.
pub open spec fn longer(backoff_ms: u64) -> u64 {
    if backoff_ms * 2 <= BOOTSTRAP_RETRY_MAX_BACKOFF_MS {
        (backoff_ms * 2) as u64
    } else {
        BOOTSTRAP_RETRY_MAX_BACKOFF_MS
    }
}

impl BootstrapRetry {
    /// The wait is between the shortest and the longest.
    pub open spec fn wf(self) -> bool {
        BOOTSTRAP_RETRY_BASE_MS <= self.backoff_ms <= BOOTSTRAP_RETRY_MAX_BACKOFF_MS
    }

    /// Nothing was attempted yet.
    pub fn new() -> (r: BootstrapRetry)
        ensures
            r.wf(),
            r.backoff_ms == BOOTSTRAP_RETRY_BASE_MS,
            r.last_attempt_ms == 0,
    {
        BootstrapRetry { backoff_ms: BOOTSTRAP_RETRY_BASE_MS, last_attempt_ms: 0 }
    }

    /// Enough time has passed since the last attempt.
    pub open spec fn is_due(self, now_ms: u64) -> bool {
        now_ms >= self.last_attempt_ms + self.backoff_ms
    }

    /// What the state is after a tick, and what the tick asks for.
    pub open spec fn ticked(self, known: nat, resolver: Option<u64>, now_ms: u64) -> (BootstrapRetry, RetryStep) {
        if known >= BOOTSTRAP_RETRY_THRESHOLD {
            (BootstrapRetry { backoff_ms: BOOTSTRAP_RETRY_BASE_MS, ..self }, RetryStep::Settled)
        } else if !self.is_due(now_ms) {
            (self, RetryStep::Wait)
        } else {
            match resolver {
                Some(handle) => (
                    BootstrapRetry { last_attempt_ms: now_ms, ..self },
                    RetryStep::Attempt(handle),
                ),
                None => (
                    BootstrapRetry { backoff_ms: longer(self.backoff_ms), last_attempt_ms: now_ms },
                    RetryStep::Wait,
                ),
            }
        }
    }

    /// Takes a tick: a sparse table joins again when the wait is over. Without
    /// a resolver session the wait gets longer.
    pub fn on_tick(&mut self, known: usize, resolver: Option<u64>, now_ms: u64) -> (r: RetryStep)
        requires
            old(self).wf(),
        ensures
            final(self).wf(),
            *final(self) == old(self).ticked(known as nat, resolver, now_ms).0,
            r == old(self).ticked(known as nat, resolver, now_ms).1,
    {
        if known >= BOOTSTRAP_RETRY_THRESHOLD {
            self.backoff_ms = BOOTSTRAP_RETRY_BASE_MS;
            return RetryStep::Settled;
        }
        let since: u64 = if now_ms >= self.last_attempt_ms {
            now_ms - self.last_attempt_ms
        } else {
            0
        };
        if since < self.backoff_ms {
            return RetryStep::Wait;
        }
        self.last_attempt_ms = now_ms;
        match resolver {
            Some(handle) => RetryStep::Attempt(handle),
            None => {
                self.lengthen();
                RetryStep::Wait
            },
        }
    }

    /// Doubles the wait, up to the longest.
    fn lengthen(&mut self)
        requires
            old(self).wf(),
        ensures
            final(self).wf(),
            *final(self) == (BootstrapRetry { backoff_ms: longer(old(self).backoff_ms), ..*old(self) }),
    {
        let doubled: u64 = self.backoff_ms * 2;
        self.backoff_ms = if doubled <= BOOTSTRAP_RETRY_MAX_BACKOFF_MS {
            doubled
        } else {
            BOOTSTRAP_RETRY_MAX_BACKOFF_MS
        };
    }

    /// Takes the outcome of an attempt; tells whether what is pending may be
    /// tried again. A resolver that knows nobody is no failure: the wait stays
    /// short. Any other failure makes it longer.
    pub fn on_outcome(&mut self, outcome: &Result<BootstrapState, BootstrapError>) -> (r: bool)
        requires
            old(self).wf(),
        ensures
            final(self).wf(),
            r == outcome is Ok,
            *final(self) == (BootstrapRetry {
                backoff_ms: match outcome {
                    Ok(_) => BOOTSTRAP_RETRY_BASE_MS,
                    Err(BootstrapError::EmptyRegistry) => BOOTSTRAP_RETRY_BASE_MS,
                    Err(_) => longer(old(self).backoff_ms),
                },
                ..*old(self)
            }),
            outcome is Ok ==> final(self).backoff_ms == 5_000,
            outcome is Err && !(outcome->Err_0 is EmptyRegistry) ==> {
                &&& final(self).backoff_ms >= old(self).backoff_ms
                &&& final(self).backoff_ms == 2 * old(self).backoff_ms || final(self).backoff_ms == 300_000
            },
            final(self).last_attempt_ms == old(self).last_attempt_ms,
    {
        match outcome {
            Ok(_) => {
                self.backoff_ms = BOOTSTRAP_RETRY_BASE_MS;
                true
            },
            Err(BootstrapError::EmptyRegistry) => {
                self.backoff_ms = BOOTSTRAP_RETRY_BASE_MS;
                false
            },
            Err(_) => {
                self.lengthen();
                false
            },
        }
    }
}

/// The tick that watches the routing table: the rate limiters forget idle
/// peers, and a sparse table joins again when the wait is over.
pub fn bootstrap_tick(dht: &Dht, retry: &mut BootstrapRetry, now_ms: u64) -> (r: RetryStep)
    requires
        dht.wf(),
        old(retry).wf(),
    ensures
        final(retry).wf(),
        *final(retry) == old(retry).ticked(dht@.routing.active().len(), dht@.resolver, now_ms).0,
        r == old(retry).ticked(dht@.routing.active().len(), dht@.resolver, now_ms).1,
{
    dht.rate_limiters.sweep();
    let known: usize = dht.routing.total_known();
    retry.on_tick(known, dht.resolver, now_ms)
}

// ---------------------------------------------------------------------------
// Bucket refresh
// ---------------------------------------------------------------------------

/// `all` lists the buckets that are due for a refresh, in ascending order.
pub open spec fn lists_due(dht: DhtView, now: u64, all: Seq<usize>) -> bool {
    &&& forall|i: int, j: int| 0 <= i < j < all.len() ==> all[i] < all[j]
    &&& forall|b: int|
        0 <= b < crate::dht::config::BUCKETS ==> ((exists|i: int| 0 <= i < all.len() && all[i] == b) <==> (
        #[trigger] dht.routing.buckets[b]).refresh_at + crate::dht::config::BUCKET_REFRESH_MS <= now)
    &&& forall|i: int| 0 <= i < all.len() ==> #[trigger] all[i] < crate::dht::config::BUCKETS
}

/// The first few of the buckets that are due for a refresh.
pub fn stale_buckets(dht: &Dht, now: u64) -> (r: Vec<usize>)
    requires
        dht.wf(),
    ensures
        exists|all: Seq<usize>|
            #[trigger] lists_due(dht@, now, all) && r@ == crate::dht::lookup::at_most(
                all,
                MAX_BUCKET_REFRESH_PER_SCAN as nat,
            ),
{
    let all: Vec<usize> = dht.routing.buckets_needing_refresh(now);
    let mut out: Vec<usize> = Vec::new();
    let mut i: usize = 0;
    while i < all.len() && i < MAX_BUCKET_REFRESH_PER_SCAN
        invariant
            0 <= i <= all.len(),
            i <= MAX_BUCKET_REFRESH_PER_SCAN,
            out@ == all@.take(i as int),
        decreases all.len() - i,
    {
        out.push(all[i]);
        i = i + 1;
        assert(out@ =~= all@.take(i as int));
    }
    assert(lists_due(dht@, now, all@));
    assert(out@ =~= crate::dht::lookup::at_most(all@, MAX_BUCKET_REFRESH_PER_SCAN as nat));
    out
}

// ---------------------------------------------------------------------------
// Drift
// ---------------------------------------------------------------------------

/// A sweep over messages that have new homes: a few hand-overs run at a time.
#[derive(Debug)]
pub struct Sweep {
    pub planned: Vec<(MessageKey, DispatchP)>,
    /// How many of the hand-overs have begun.
    pub begun: usize,
    pub running: usize,
}

impl Sweep {
    /// No more hand-overs run than have begun, nor than may.
    pub open spec fn wf(&self) -> bool {
        &&& self.begun <= self.planned@.len()
        &&& self.running <= self.begun
        &&& self.running <= MAX_CONCURRENT_MIGRATIONS
    }

    /// Plans a sweep.
    pub fn plan(dht: &Dht) -> (r: Sweep)
        requires
            dht.wf(),
        ensures
            r.wf(),
            r.begun == 0,
            r.running == 0,
            is_batch(
                dht@.queue.rows.filter(drifted_from(dht@.routing, dht@.node_id)),
                MAX_MIGRATE_PER_SWEEP as nat,
                r.planned@,
            ),
    {
        Sweep { planned: plan_drift_migrations(dht, MAX_MIGRATE_PER_SWEEP), begun: 0, running: 0 }
    }

    /// The next hand-over to begin, where one is left and one may begin.
    pub fn next(&mut self) -> (r: Option<(MessageKey, DispatchP)>)
        requires
            old(self).wf(),
        ensures
            final(self).wf(),
            match r {
                Some((key, dispatch)) => {
                    &&& old(self).running < MAX_CONCURRENT_MIGRATIONS
                    &&& old(self).begun < old(self).planned@.len()
                    &&& key == old(self).planned@[old(self).begun as int].0
                    &&& dispatch@ == old(self).planned@[old(self).begun as int].1@
                    &&& final(self).planned == old(self).planned
                    &&& final(self).begun == old(self).begun + 1
                    &&& final(self).running == old(self).running + 1
                },
                None => {
                    &&& old(self).running == MAX_CONCURRENT_MIGRATIONS || old(self).begun == old(self).planned@.len()
                    &&& *final(self) == *old(self)
                },
            },
    {
        if self.running >= MAX_CONCURRENT_MIGRATIONS || self.begun >= self.planned.len() {
            return None;
        }
        let key: MessageKey = self.planned[self.begun].0;
        let dispatch: DispatchP = self.planned[self.begun].1.copy();
        self.begun = self.begun + 1;
        self.running = self.running + 1;
        Some((key, dispatch))
    }

    /// A hand-over has ended.
    pub fn ended(&mut self)
        requires
            old(self).wf(),
            old(self).running > 0,
        ensures
            final(self).wf(),
            final(self).running == old(self).running - 1,
            final(self).begun == old(self).begun,
            final(self).planned == old(self).planned,
    {
        self.running = self.running - 1;
    }
}

/// Which homes took a forwarded message.
#[derive(Debug)]
pub struct ForwardSummary {
    pub delivered_at: Vec<NodeId>,
    pub stored_at: Vec<NodeId>,
}

/// A peer with this id is cached under a public key with this id.
pub open spec fn attests(dht: DhtView, id: NodeId) -> bool {
    exists|i: int|
        0 <= i < dht.peer_conns.len() && (#[trigger] dht.peer_conns[i]).id == id && blake3_hash(
            dht.peer_conns[i].pubkey@,
        ) == id.bytes
}

/// The other relays that are bound to their keys.
pub open spec fn attested_by(dht: DhtView) -> spec_fn(NodeId) -> bool {
    |id: NodeId| id != dht.node_id && attests(dht, id)
}

/// Enough other relays that are bound to their keys took the message.
pub open spec fn is_durable(dht: DhtView, summary: ForwardSummary) -> bool {
    (summary.delivered_at@ + summary.stored_at@).filter(attested_by(dht)).len() >= FORWARD_K_MIN
}

/// Whether a peer with this id is cached under a public key with this id.
fn is_attested(dht: &Dht, id: &NodeId) -> (r: bool)
    requires
        dht.wf(),
    ensures
        r == attests(dht@, *id),
{
    let mut i: usize = 0;
    while i < dht.peer_conns.len()
        invariant
            0 <= i <= dht.peer_conns.len(),
            forall|k: int|
                0 <= k < i ==> !((#[trigger] dht.peer_conns@[k]).id == *id && blake3_hash(dht.peer_conns@[k].pubkey@)
                    == id.bytes),
        decreases dht.peer_conns.len() - i,
    {
        let c: &PeerConn = &dht.peer_conns[i];
        if c.id.same(id) {
            let derived: NodeId = NodeId::new(&c.pubkey);
            if derived.same(id) {
                assert(dht@.peer_conns[i as int].id == *id);
                return true;
            }
        }
        i = i + 1;
    }
    false
}

/// Counts the attested relays of a list.
fn count_attested(dht: &Dht, ids: &Vec<NodeId>) -> (r: usize)
    requires
        dht.wf(),
    ensures
        r == ids@.filter(attested_by(dht@)).len(),
{
    let ghost keep = attested_by(dht@);
    let mut n: usize = 0;
    let mut i: usize = 0;
    proof {
        lemma_filter_empty(ids@, keep);
    }
    while i < ids.len()
        invariant
            0 <= i <= ids.len(),
            dht.wf(),
            keep == attested_by(dht@),
            n <= i,
            n == ids@.take(i as int).filter(keep).len(),
        decreases ids.len() - i,
    {
        proof {
            lemma_filter_step(ids@, keep, i as int);
        }
        if !ids[i].same(&dht.node_id) && is_attested(dht, &ids[i]) {
            n = n + 1;
        }
        i = i + 1;
    }
    assert(ids@.take(i as int) =~= ids@);
    n
}

/// Whether a hand-over justifies that the copy here is deleted: a relay's word
/// counts only where this relay has itself bound its id to a public key.
pub fn handover_is_durable(dht: &Dht, summary: &ForwardSummary) -> (r: bool)
    requires
        dht.wf(),
    ensures
        r == is_durable(dht@, *summary),
{
    proof {
        Seq::filter_distributes_over_add(summary.delivered_at@, summary.stored_at@, attested_by(dht@));
    }
    let delivered: usize = count_attested(dht, &summary.delivered_at);
    if delivered >= FORWARD_K_MIN {
        return true;
    }
    let stored: usize = count_attested(dht, &summary.stored_at);
    stored >= FORWARD_K_MIN - delivered
}

/// Begins a hand-over.
pub fn begin_migration(dht: &mut Dht)
    requires
        old(dht).wf(),
    ensures
        final(dht).wf(),
        final(dht)@ == (DhtView {
            metrics: Metrics {
                migrations_attempted: bumped(old(dht)@.metrics.migrations_attempted),
                ..old(dht)@.metrics
            },
            ..old(dht)@
        }),
{
    dht.metrics.inc_migrations_attempted();
}

/// Ends a hand-over, given where the message went; `None` where the fan-out
/// failed. The copy here is deleted only after a durable hand-over; otherwise,
/// and where the medium does not take the deletion, it is kept for the next
/// sweep. Tells whether the copy here is gone.
pub fn migrate_one(dht: &mut Dht, key: &MessageKey, summary: &Option<ForwardSummary>) -> (r: bool)
    requires
        old(dht).wf(),
    ensures
        final(dht).wf(),
        ({
            let before = old(dht)@;
            let durable = summary matches Some(s) && is_durable(before, *s);
            &&& r == (durable && before.queue.writable)
            &&& final(dht)@ == if !durable {
                DhtView {
                    metrics: Metrics {
                        migrations_failed: bumped(before.metrics.migrations_failed),
                        ..before.metrics
                    },
                    ..before
                }
            } else if before.queue.writable {
                DhtView {
                    queue: before.queue.with_rows(without_row(before.queue.rows, key.bytes())),
                    metrics: Metrics {
                        migrations_succeeded: bumped(before.metrics.migrations_succeeded),
                        ..before.metrics
                    },
                    ..before
                }
            } else {
                before
            }
        }),
        r ==> summary is Some && old(dht)@.queue.writable && !has_key(final(dht)@.queue.rows, key.bytes()),
        !r ==> final(dht)@.queue == old(dht)@.queue,
        forall|k: int|
            0 <= k < old(dht)@.queue.rows.len() && (#[trigger] old(dht)@.queue.rows[k]).0 != key.bytes()
                ==> final(dht)@.queue.rows.contains(old(dht)@.queue.rows[k]),
{
    let durable: bool = match summary {
        Some(s) => handover_is_durable(dht, s),
        None => false,
    };
    if !durable {
        dht.metrics.inc_migrations_failed();
        return false;
    }
    let deleted: bool = delete_migrated_entry(dht, key);
    proof {
        let keep = key_differs::<DispatchView>(key.bytes());
        law_filter_keeps_order(old(dht)@.queue.rows, keep);
        assert forall|k: int| 0 <= k < old(dht)@.queue.rows.len() && (#[trigger] old(dht)@.queue.rows[k]).0
            != key.bytes() implies dht@.queue.rows.contains(old(dht)@.queue.rows[k]) by {
            assert(keep(old(dht)@.queue.rows[k]));
        }
        if deleted && has_key(dht@.queue.rows, key.bytes()) {
            let k = choose|k: int| 0 <= k < dht@.queue.rows.len() && #[trigger] dht@.queue.rows[k].0 == key.bytes();
            assert(keep(dht@.queue.rows[k]));
        }
    }
    if deleted {
        dht.metrics.inc_migrations_succeeded();
    }
    deleted
}

// ---------------------------------------------------------------------------
// Laws
// ---------------------------------------------------------------------------

/// The wait after `n` failures in a row.
pub open spec fn wait_after(n: nat) -> u64
    decreases n,
{
    if n == 0 {
        BOOTSTRAP_RETRY_BASE_MS
    } else {
        longer(wait_after((n - 1) as nat))
    }
}

/// Failures never shorten the wait, and never take it over the longest; six
/// in a row reach it.
pub proof fn law_wait_grows_to_its_bound(n: nat)
    ensures
        BOOTSTRAP_RETRY_BASE_MS <= wait_after(n) <= BOOTSTRAP_RETRY_MAX_BACKOFF_MS,
        wait_after(n) <= wait_after(n + 1),
        n >= 6 ==> wait_after(n) == BOOTSTRAP_RETRY_MAX_BACKOFF_MS,
    decreases n,
{
    reveal_with_fuel(wait_after, 8);
    if n > 0 {
        law_wait_grows_to_its_bound((n - 1) as nat);
    }
}

/// Between two attempts at least the wait passes: right after an attempt, no
/// tick within the wait asks for another.
pub proof fn law_attempts_are_spaced(
    retry: BootstrapRetry,
    known: nat,
    resolver: Option<u64>,
    now_ms: u64,
    later_ms: u64,
    known_later: nat,
    resolver_later: Option<u64>,
)
    requires
        retry.wf(),
        retry.ticked(known, resolver, now_ms).1 is Attempt,
        later_ms < now_ms + retry.ticked(known, resolver, now_ms).0.backoff_ms,
    ensures
        !(retry.ticked(known, resolver, now_ms).0.ticked(known_later, resolver_later, later_ms).1 is Attempt),
{
}

/// What a tick comes to. With eight peers or more the table is well filled and
/// the wait starts over at five seconds. With fewer the relay joins again,
/// through the session that there is, once the wait since the last attempt is
/// over, and not before; without a session it waits twice as long, five minutes
/// at most.
pub proof fn law_sparse_table_joins_again(retry: BootstrapRetry, known: nat, resolver: Option<u64>, now_ms: u64)
    requires
        retry.wf(),
    ensures
        ({
            let (after, step) = retry.ticked(known, resolver, now_ms);
            let due = now_ms - retry.last_attempt_ms >= retry.backoff_ms;
            &&& step == RetryStep::Settled <==> known >= 8
            &&& step is Attempt <==> known < 8 && due && resolver is Some
            &&& step matches RetryStep::Attempt(handle) ==> resolver == Some(handle)
            &&& known >= 8 ==> after.backoff_ms == 5_000 && after.last_attempt_ms == retry.last_attempt_ms
            &&& known < 8 && !due ==> after == retry
            &&& known < 8 && due ==> after.last_attempt_ms == now_ms
            &&& known < 8 && due && resolver is Some ==> after.backoff_ms == retry.backoff_ms
            &&& known < 8 && due && resolver is None ==> after.backoff_ms == longer(retry.backoff_ms)
        }),
        longer(retry.backoff_ms) <= 300_000,
        longer(retry.backoff_ms) == 2 * retry.backoff_ms || (longer(retry.backoff_ms) == 300_000 && 2 * retry.backoff_ms
            > 300_000),
{
}

/// The buckets that are due are those that were not touched for an hour, each
/// once, the lowest first.
pub proof fn law_untouched_buckets_are_due(dht: DhtView, now: u64, all: Seq<usize>, b: usize)
    requires
        lists_due(dht, now, all),
        b < 256,
    ensures
        all.contains(b) <==> dht.routing.buckets[b as int].refresh_at + 60 * 60 * 1000 <= now,
        forall|i: int, j: int| 0 <= i < j < all.len() ==> all[i] < all[j],
{
    let due = dht.routing.buckets[b as int].refresh_at + 60 * 60 * 1000 <= now;
    assert(due == (exists|i: int| 0 <= i < all.len() && all[i] == b));
    if due {
        let i = choose|i: int| 0 <= i < all.len() && all[i] == b;
        assert(all[i] == b);
    }
    if all.contains(b) {
        let i = choose|i: int| 0 <= i < all.len() && all[i] == b;
        assert(all[i] == b);
    }
}

/// The copy here may be deleted only on the word of two others: two of those
/// that are said to have taken the message, at different places of the list, are
/// other relays to which this relay has a connection under a public key whose
/// digest is their id. And on such a word it may.
pub proof fn law_handover_needs_two_attested_words(dht: DhtView, summary: ForwardSummary, said: Seq<NodeId>)
    requires
        said == summary.delivered_at@ + summary.stored_at@,
    ensures
        is_durable(dht, summary) <==> exists|i: int, j: int|
            0 <= i < j < said.len() && is_bound_other(dht, #[trigger] said[i]) && is_bound_other(dht, #[trigger] said[j]),
{
    lemma_two_kept(dht, said);
}

/// Another relay, to which there is a connection under a public key whose digest
/// is its id.
pub open spec fn is_bound_other(dht: DhtView, id: NodeId) -> bool {
    id != dht.node_id && exists|k: int|
        0 <= k < dht.peer_conns.len() && (#[trigger] dht.peer_conns[k]).id == id && blake3_hash(
            dht.peer_conns[k].pubkey@,
        ) == id.bytes
}

/// How many words count.
proof fn lemma_two_kept(dht: DhtView, said: Seq<NodeId>)
    ensures
        said.filter(attested_by(dht)).len() >= 1 <==> exists|i: int|
            0 <= i < said.len() && is_bound_other(dht, #[trigger] said[i]),
        said.filter(attested_by(dht)).len() >= 2 <==> exists|i: int, j: int|
            0 <= i < j < said.len() && is_bound_other(dht, #[trigger] said[i]) && is_bound_other(dht, #[trigger] said[j]),
    decreases said.len(),
{
    reveal(Seq::filter);
    if said.len() > 0 {
        let init = said.drop_last();
        let n = said.len() - 1;
        lemma_two_kept(dht, init);
        let f0 = init.filter(attested_by(dht));
        let f = said.filter(attested_by(dht));
        assert(attested_by(dht)(said[n]) == is_bound_other(dht, said[n]));
        if f0.len() >= 1 {
            let i = choose|i: int| 0 <= i < init.len() && is_bound_other(dht, #[trigger] init[i]);
            assert(is_bound_other(dht, said[i]));
        }
        if f0.len() >= 2 {
            let (i, j) = choose|i: int, j: int|
                0 <= i < j < init.len() && is_bound_other(dht, #[trigger] init[i]) && is_bound_other(
                    dht,
                    #[trigger] init[j],
                );
            assert(is_bound_other(dht, said[i]) && is_bound_other(dht, said[j]));
        }
        if exists|i: int| 0 <= i < said.len() && is_bound_other(dht, #[trigger] said[i]) {
            let i = choose|i: int| 0 <= i < said.len() && is_bound_other(dht, #[trigger] said[i]);
            if i < n {
                assert(is_bound_other(dht, init[i]));
            }
        }
        if exists|i: int, j: int|
            0 <= i < j < said.len() && is_bound_other(dht, #[trigger] said[i]) && is_bound_other(dht, #[trigger] said[j]) {
            let (i, j) = choose|i: int, j: int|
                0 <= i < j < said.len() && is_bound_other(dht, #[trigger] said[i]) && is_bound_other(
                    dht,
                    #[trigger] said[j],
                );
            assert(is_bound_other(dht, init[i]));
            if j < n {
                assert(is_bound_other(dht, init[j]));
            }
        }
    }
}

} // verus!
