//! The queue of messages that this relay keeps as a home of offline users.
//!
//! A message stands under its recipient, the time it arrived and its id, so
//! that the messages of a user stand together, oldest first.

use super::bytes::{
    append_bytes, be8, be_bytes, be_nat, bytes_eq, lemma_be_bytes_spell, lemma_be_nat_injective, less32, starts_with,
    take16, take32, take8, xor32,
};
use super::config::K;
use super::id::{distance, NodeDescriptor, NodeId};
use super::keyspace::{
    decoded_under, has_key, in_key_order, is_scan, law_filter_keeps_order, lemma_filter_empty,
    lemma_filter_step, under_prefix, value_at, with_row, without_row, RowView,
};
use super::metrics::{bumped, Counter, Metrics};
use super::routing::{
    among_k_closest, descriptors, is_nearest, law_kth_decides, RoutingEntry, RoutingTable,
    TableView,
};
use super::wire::{same_array, DispatchP, DispatchView, ForwardOutcome};
use super::{Dht, DhtView};
use vstd::prelude::*;

verus! {

/// Messages that one user's queue holds at most.
pub const MAX_QUEUED_PER_RECIPIENT: usize = 1024;

/// Bytes of a [`MessageKey`].
pub const MESSAGE_KEY_SIZE: usize = 56;

/// The key of a queued message.
#[derive(Clone, Copy, Debug, PartialEq, Eq)]
pub struct MessageKey {
    pub recipient: [u8; 32],
    /// Arrival time in milliseconds, most significant byte first.
    pub ts_be: [u8; 8],
    pub id: [u8; 16],
}

/// The bytes of the key of a message.
pub open spec fn message_key(recipient: [u8; 32], ts_ms: u64, id: [u8; 16]) -> Seq<u8> {
    recipient@ + be_bytes(ts_ms as nat, 8) + id@
}

impl MessageKey {
    /// The bytes of the key.
    pub open spec fn bytes(self) -> Seq<u8> {
        self.recipient@ + self.ts_be@ + self.id@
    }

    /// The key of a message that arrived at `ts_ms`.
    pub fn new(recipient: &[u8; 32], ts_ms: u64, id: &[u8; 16]) -> (r: MessageKey)
        ensures
            r.recipient == *recipient,
            r.id == *id,
            r.ts_be@ == be_bytes(ts_ms as nat, 8),
            r.bytes() == message_key(*recipient, ts_ms, *id),
    {
        MessageKey { recipient: *recipient, ts_be: be8(ts_ms), id: *id }
    }

    /// The bytes of the key.
    pub fn as_bytes(&self) -> (r: Vec<u8>)
        ensures
            r@ == self.bytes(),
    {
        let mut out: Vec<u8> = Vec::new();
        append_bytes(&mut out, &self.recipient);
        append_bytes(&mut out, &self.ts_be);
        append_bytes(&mut out, &self.id);
        assert(out@ =~= self.bytes());
        out
    }

    /// The key with these bytes, if they are as many as a key has.
    pub fn parse(bytes: &[u8]) -> (r: Option<MessageKey>)
        ensures
            match r {
                Some(k) => bytes.len() == MESSAGE_KEY_SIZE && k.bytes() == bytes@,
                None => bytes.len() != MESSAGE_KEY_SIZE,
            },
    {
        if bytes.len() != MESSAGE_KEY_SIZE {
            return None;
        }
        let k = MessageKey { recipient: take32(bytes, 0), ts_be: take8(bytes, 32), id: take16(bytes, 40) };
        assert(k.bytes() =~= bytes@);
        Some(k)
    }
}

/// The messages of a user, oldest first.
pub open spec fn queue_of(rows: Seq<RowView<DispatchView>>, user_ipk: [u8; 32]) -> Seq<RowView<DispatchView>> {
    rows.filter(decoded_under(user_ipk@, MESSAGE_KEY_SIZE as nat))
}

/// `r` is the first `max` of the messages `found`.
pub open spec fn is_batch(
    found: Seq<RowView<DispatchView>>,
    max: nat,
    r: Seq<(MessageKey, DispatchP)>,
) -> bool {
    &&& r.len() == (if found.len() < max {
        found.len()
    } else {
        max
    })
    &&& forall|i: int| 0 <= i < r.len() ==> (#[trigger] r[i]).0.bytes() == found[i].0 && found[i].1 == Some(r[i].1@)
}

// ---------------------------------------------------------------------------
// Writing
// ---------------------------------------------------------------------------

/// What queueing a message for `user_ipk` does to the state, and what comes of
/// it.
pub open spec fn enqueued(
    before: DhtView,
    after: DhtView,
    user_ipk: [u8; 32],
    dispatch: DispatchView,
    now_ms: u64,
    r: ForwardOutcome,
) -> bool {
    let queued = before.queue.rows.filter(under_prefix(user_ipk@)).len();
    let key = message_key(user_ipk, now_ms, dispatch.id);
    if queued <= MAX_QUEUED_PER_RECIPIENT && !before.queue.readable {
        r == ForwardOutcome::BadSig && after == before
    } else if queued >= MAX_QUEUED_PER_RECIPIENT {
        r == ForwardOutcome::QueueFull && after == (DhtView {
            metrics: Metrics {
                dht_queue_full_rejections: bumped(before.metrics.dht_queue_full_rejections),
                ..before.metrics
            },
            ..before
        })
    } else if !before.queue.writable {
        r == ForwardOutcome::BadSig && after == before
    } else {
        r == ForwardOutcome::Stored && after == (DhtView {
            queue: before.queue.with_rows(with_row(before.queue.rows, key, dispatch)),
            metrics: Metrics { dht_queue_writes: bumped(before.metrics.dht_queue_writes), ..before.metrics },
            ..before
        })
    }
}

/// Queues a message for `user_ipk` unless the user's queue is full. A medium
/// that fails, before the queue was seen to be over its cap, is reported as
/// [`ForwardOutcome::BadSig`]: the message was not accepted.
pub fn enqueue_for_home(dht: &mut Dht, user_ipk: &[u8; 32], dispatch: &DispatchP, now_ms: u64) -> (r: ForwardOutcome)
    requires
        old(dht).wf(),
    ensures
        final(dht).wf(),
        enqueued(old(dht)@, final(dht)@, *user_ipk, dispatch@, now_ms, r),
{
    let ghost before = dht@;
    let count: usize = dht.store.queue.count_under(user_ipk);
    if count <= MAX_QUEUED_PER_RECIPIENT && !dht.store.queue.readable {
        return ForwardOutcome::BadSig;
    }
    if count >= MAX_QUEUED_PER_RECIPIENT {
        dht.metrics.inc_dht_queue_full_rejections();
        return ForwardOutcome::QueueFull;
    }
    let key: MessageKey = MessageKey::new(user_ipk, now_ms, &dispatch.id);
    match dht.store.queue.put(key.as_bytes(), dispatch.copy()) {
        Err(_) => ForwardOutcome::BadSig,
        Ok(()) => {
            dht.metrics.inc_dht_queue_writes();
            ForwardOutcome::Stored
        },
    }
}

// ---------------------------------------------------------------------------
// Reading
// ---------------------------------------------------------------------------

/// The first `max` messages of `user_ipk`, oldest first. Rows that are not
/// well formed are passed over; where the medium fails, what it gave before
/// still counts.
pub fn lookup_queue_for_user(dht: &Dht, user_ipk: &[u8; 32], max: usize) -> (r: Vec<(MessageKey, DispatchP)>)
    requires
        dht.wf(),
    ensures
        is_batch(queue_of(dht@.queue.rows, *user_ipk), max as nat, r@),
{
    let mut out: Vec<(MessageKey, DispatchP)> = Vec::new();
    if max == 0 {
        return out;
    }
    let places: Vec<usize> = dht.store.queue.scan(user_ipk, MESSAGE_KEY_SIZE);
    let ghost rows = dht@.queue.rows;
    let ghost found = queue_of(rows, *user_ipk);
    proof {
        law_filter_keeps_order(rows, decoded_under::<DispatchView>(user_ipk@, MESSAGE_KEY_SIZE as nat));
    }
    let mut i: usize = 0;
    while i < places.len() && out.len() < max
        invariant
            0 <= i <= places.len(),
            rows == dht@.queue.rows,
            found == queue_of(rows, *user_ipk),
            is_scan(rows, user_ipk@, MESSAGE_KEY_SIZE as nat, places@),
            forall|k: int|
                0 <= k < found.len() ==> decoded_under::<DispatchView>(user_ipk@, MESSAGE_KEY_SIZE as nat)(
                    #[trigger] found[k],
                ),
            out.len() == i,
            i <= max,
            forall|k: int| 0 <= k < i ==> (#[trigger] out@[k]).0.bytes() == found[k].0 && found[k].1 == Some(out@[k].1@),
        decreases places.len() - i,
    {
        let row = &dht.store.queue.rows[places[i]];
        assert(rows[places@[i as int] as int] == row.row_view());
        assert(decoded_under::<DispatchView>(user_ipk@, MESSAGE_KEY_SIZE as nat)(found[i as int]));
        if let Some(key) = MessageKey::parse(&row.key) {
            if let Some(dispatch) = &row.value {
                out.push((key, dispatch.copy()));
            }
        }
        i = i + 1;
    }
    out
}

// ---------------------------------------------------------------------------
// Deleting
// ---------------------------------------------------------------------------

/// One of the ids is that of the message under `key`.
pub open spec fn names_message(ids: Seq<[u8; 16]>, key: Seq<u8>) -> bool {
    exists|k: int| 0 <= k < ids.len() && (#[trigger] ids[k])@ == key.subrange(40, 56)
}

/// The rows of `user_ipk` whose message is one of `ids`.
pub open spec fn listed_of(user_ipk: Seq<u8>, ids: Seq<[u8; 16]>) -> spec_fn(RowView<DispatchView>) -> bool {
    |r: RowView<DispatchView>|
        starts_with(r.0, user_ipk) && r.0.len() == MESSAGE_KEY_SIZE && names_message(ids, r.0)
}

/// Whether one of the ids is that of the message under `key`.
fn is_named(ids: &[[u8; 16]], key: &[u8]) -> (r: bool)
    requires
        key.len() == MESSAGE_KEY_SIZE,
    ensures
        r == names_message(ids@, key@),
{
    let id: [u8; 16] = take16(key, 40);
    let mut i: usize = 0;
    while i < ids.len()
        invariant
            0 <= i <= ids.len(),
            id@ == key@.subrange(40, 56),
            forall|k: int| 0 <= k < i ==> (#[trigger] ids@[k])@ != key@.subrange(40, 56),
        decreases ids.len() - i,
    {
        if bytes_eq(&ids[i], &id) {
            assert(ids@[i as int]@ == key@.subrange(40, 56));
            return true;
        }
        i = i + 1;
    }
    false
}

/// Deletes the messages of `user_ipk` with one of these ids, and tells how
/// many there were. A medium that takes no writes deletes nothing.
pub fn delete_queue_entries(dht: &mut Dht, user_ipk: &[u8; 32], dispatch_ids: &[[u8; 16]]) -> (r: usize)
    requires
        old(dht).wf(),
    ensures
        final(dht).wf(),
        old(dht)@.queue.writable ==> {
            let listed = listed_of(user_ipk@, dispatch_ids@);
            &&& r == old(dht)@.queue.rows.filter(listed).len()
            &&& final(dht)@ == (DhtView {
                queue: old(dht)@.queue.with_rows(
                    old(dht)@.queue.rows.filter(super::keyspace::others(listed)),
                ),
                ..old(dht)@
            })
        },
        !old(dht)@.queue.writable ==> r == 0 && final(dht)@ == old(dht)@,
{
    if !dht.store.queue.writable {
        return 0;
    }
    let ghost before = dht@;
    let ghost rows0 = dht@.queue.rows;
    let ghost listed = listed_of(user_ipk@, dispatch_ids@);
    let ghost kept = super::keyspace::others(listed);
    let ghost mut seen: int = 0;
    let mut count: usize = 0;
    let mut i: usize = 0;
    proof {
        lemma_filter_empty(rows0, listed);
        lemma_filter_empty(rows0, kept);
        assert(Seq::<RowView<DispatchView>>::empty() + rows0.skip(0) =~= rows0);
        assert(rows0.len() == dht.store.queue.rows.len());
    }
    while i < dht.store.queue.rows.len()
        invariant
            0 <= seen <= rows0.len(),
            i == rows0.take(seen).filter(kept).len(),
            count == rows0.take(seen).filter(listed).len(),
            count + i == seen,
            rows0.len() <= usize::MAX,
            listed == listed_of(user_ipk@, dispatch_ids@),
            kept == super::keyspace::others(listed),
            dht@.queue.rows == rows0.take(seen).filter(kept) + rows0.skip(seen),
            dht@ == (DhtView { queue: before.queue.with_rows(dht@.queue.rows), ..before }),
            dht.routing@.wf(),
            dht.routing@.self_id == dht.node_id,
            dht.store.keypackage@.wf(),
            dht.store.welcome@.wf(),
            super::conns_distinct(dht.peer_conns@),
            dht.merkle.wf(),
            dht.limits.max_find_node_results < usize::MAX,
        decreases dht.store.queue.rows.len() - i,
    {
        let ghost now = dht@.queue.rows;
        proof {
            assert(now.len() == dht.store.queue.rows@.len());
            assert(seen < rows0.len());
            assert(now[i as int] == rows0[seen]);
            assert(now[i as int] == dht.store.queue.rows@[i as int].row_view());
            lemma_filter_step(rows0, listed, seen);
            lemma_filter_step(rows0, kept, seen);
            assert(rows0.skip(seen) =~= seq![rows0[seen]] + rows0.skip(seen + 1));
        }
        let key = &dht.store.queue.rows[i].key;
        let victim: bool = super::keyspace::has_prefix(key, user_ipk) && key.len() == MESSAGE_KEY_SIZE && is_named(
            dispatch_ids,
            key,
        );
        assert(victim == listed(rows0[seen]));
        if victim {
            dht.store.queue.rows.remove(i);
            count = count + 1;
            assert(dht@.queue.rows =~= now.remove(i as int));
            assert(dht@.queue.rows =~= rows0.take(seen + 1).filter(kept) + rows0.skip(seen + 1));
        } else {
            i = i + 1;
            assert(dht@.queue.rows =~= rows0.take(seen + 1).filter(kept) + rows0.skip(seen + 1));
        }
        proof {
            seen = seen + 1;
        }
    }
    proof {
        assert(rows0.skip(seen).len() == 0);
        assert(rows0.take(seen) =~= rows0);
        assert(dht@.queue.rows =~= rows0.filter(kept));
        law_filter_keeps_order(rows0, kept);
    }
    count
}

// ---------------------------------------------------------------------------
// Drift
// ---------------------------------------------------------------------------

/// The id with these bytes.
pub open spec fn id_with_bytes(bytes: Seq<u8>) -> NodeId {
    choose|id: NodeId| id@ == bytes
}

/// An id is determined by its bytes.
pub proof fn lemma_id_with_bytes(id: NodeId)
    ensures
        id_with_bytes(id@) == id,
{
    let other = id_with_bytes(id@);
    assert(other.bytes =~= id.bytes);
}

/// The rows of users of whom this relay is no longer a home.
pub open spec fn drifted_from(routing: TableView, node_id: NodeId) -> spec_fn(RowView<DispatchView>) -> bool {
    |r: RowView<DispatchView>|
        r.0.len() == MESSAGE_KEY_SIZE && r.1 is Some && !among_k_closest(
            routing,
            node_id,
            id_with_bytes(r.0.subrange(0, 32)),
        )
}

/// Whether `node_id` is not one of the [`K`] closest to `target`. A table with
/// fewer than [`K`] peers displaces nobody.
fn is_displaced(routing: &RoutingTable, node_id: &NodeId, target: &NodeId) -> (r: bool)
    requires
        routing@.wf(),
    ensures
        r == !among_k_closest(routing@, *node_id, *target),
{
    let candidates: Vec<NodeDescriptor> = routing.find_closest(target, K);
    let ghost s = choose|s: Seq<RoutingEntry>|
        #[trigger] is_nearest(routing@.active(), *target, K as nat, s) && candidates@ == descriptors(s);
    proof {
        law_kth_decides(routing@, *target, K as nat, s, distance(*node_id, *target));
    }
    if candidates.len() < K {
        return false;
    }
    let self_dist: [u8; 32] = xor32(node_id.as_bytes(), target.as_bytes());
    let kth_dist: [u8; 32] = xor32(candidates[K - 1].id.as_bytes(), target.as_bytes());
    less32(&kth_dist, &self_dist)
}

/// The first `max` messages of users of whom this relay is no longer a home,
/// in the order of their keys. They are to be handed over before they are
/// deleted here.
pub fn plan_drift_migrations(dht: &Dht, max: usize) -> (r: Vec<(MessageKey, DispatchP)>)
    requires
        dht.wf(),
    ensures
        is_batch(dht@.queue.rows.filter(drifted_from(dht@.routing, dht@.node_id)), max as nat, r@),
{
    let mut out: Vec<(MessageKey, DispatchP)> = Vec::new();
    if max == 0 {
        return out;
    }
    let ghost rows = dht@.queue.rows;
    let ghost keep = drifted_from(dht@.routing, dht@.node_id);
    let mut last: Option<([u8; 32], bool)> = None;
    let mut i: usize = 0;
    proof {
        lemma_filter_empty(rows, keep);
    }
    while i < dht.store.queue.rows.len() && out.len() < max
        invariant
            0 <= i <= dht.store.queue.rows.len(),
            dht.wf(),
            rows == dht@.queue.rows,
            keep == drifted_from(dht@.routing, dht@.node_id),
            out.len() <= max,
            is_batch(rows.take(i as int).filter(keep), out.len() as nat, out@),
            out.len() == rows.take(i as int).filter(keep).len(),
            last matches Some((ipk, d)) ==> d == !among_k_closest(
                dht@.routing,
                dht@.node_id,
                NodeId { bytes: ipk },
            ),
        decreases dht.store.queue.rows.len() - i,
    {
        let row = &dht.store.queue.rows[i];
        proof {
            assert(rows[i as int] == row.row_view());
            lemma_filter_step(rows, keep, i as int);
        }
        if row.key.len() == MESSAGE_KEY_SIZE {
            let user_ipk: [u8; 32] = take32(&row.key, 0);
            let target: NodeId = NodeId::from_bytes(user_ipk);
            proof {
                lemma_id_with_bytes(target);
            }
            let cached: Option<bool> = match last {
                Some((ipk, d)) => if same_array(&ipk, &user_ipk) {
                    Some(d)
                } else {
                    None
                },
                None => None,
            };
            let drifted: bool = match cached {
                Some(d) => d,
                None => is_displaced(&dht.routing, &dht.node_id, &target),
            };
            last = Some((user_ipk, drifted));
            if drifted {
                if let Some(key) = MessageKey::parse(&row.key) {
                    if let Some(dispatch) = &row.value {
                        out.push((key, dispatch.copy()));
                    }
                }
            }
        }
        i = i + 1;
    }
    proof {
        let all = rows.filter(keep);
        let part = rows.take(i as int).filter(keep);
        Seq::filter_distributes_over_add(rows.take(i as int), rows.skip(i as int), keep);
        assert(rows =~= rows.take(i as int) + rows.skip(i as int));
        if i == rows.len() {
            assert(rows.take(i as int) =~= rows);
        }
    }
    out
}

/// Deletes a message that was handed over. Tells whether the medium took the
/// deletion.
pub fn delete_migrated_entry(dht: &mut Dht, key: &MessageKey) -> (r: bool)
    requires
        old(dht).wf(),
    ensures
        final(dht).wf(),
        r == old(dht)@.queue.writable,
        r ==> final(dht)@ == (DhtView {
            queue: old(dht)@.queue.with_rows(without_row(old(dht)@.queue.rows, key.bytes())),
            ..old(dht)@
        }),
        !r ==> final(dht)@ == old(dht)@,
{
    let bytes: Vec<u8> = key.as_bytes();
    dht.store.queue.delete(&bytes).is_ok()
}

// ---------------------------------------------------------------------------
// Laws
// ---------------------------------------------------------------------------

/// A message that was stored is in its recipient's queue.
pub proof fn law_stored_is_queued(rows: Seq<RowView<DispatchView>>, user_ipk: [u8; 32], now_ms: u64, d: DispatchView)
    requires
        in_key_order(rows),
    ensures
        ({
            let key = message_key(user_ipk, now_ms, d.id);
            queue_of(with_row(rows, key, d), user_ipk).contains((key, Some(d)))
        }),
{
    let key = message_key(user_ipk, now_ms, d.id);
    let after = with_row(rows, key, d);
    super::keyspace::law_put(rows, key, d, key);
    lemma_be_bytes_spell(now_ms);
    assert(key.take(32) =~= user_ipk@);
    let k = choose|k: int| 0 <= k < after.len() && #[trigger] after[k].0 == key;
    super::keyspace::lemma_found_at_slot(after, key, k);
    law_filter_keeps_order(after, decoded_under::<DispatchView>(user_ipk@, MESSAGE_KEY_SIZE as nat));
    assert(after[k] == (key, Some(d)));
}

/// Queueing for one user leaves the queue of every other user as it is.
pub proof fn law_queues_are_apart(
    rows: Seq<RowView<DispatchView>>,
    user_ipk: [u8; 32],
    other: [u8; 32],
    now_ms: u64,
    d: DispatchView,
)
    requires
        in_key_order(rows),
        user_ipk != other,
    ensures
        queue_of(with_row(rows, message_key(user_ipk, now_ms, d.id), d), other) == queue_of(rows, other),
{
    let key = message_key(user_ipk, now_ms, d.id);
    let keep = decoded_under::<DispatchView>(other@, MESSAGE_KEY_SIZE as nat);
    lemma_be_bytes_spell(now_ms);
    assert(key.take(32) =~= user_ipk@);
    if user_ipk@ == other@ {
        super::wire::lemma_array_eq(user_ipk, other);
    }
    if has_key(rows, key) {
        let k = choose|k: int| 0 <= k < rows.len() && #[trigger] rows[k].0 == key;
        super::keyspace::lemma_found_at_slot(rows, key, k);
    }
    super::keyspace::law_put_filtered(rows, key, d, keep);
}

/// Queueing never takes a queue over its cap.
pub proof fn law_cap_holds(rows: Seq<RowView<DispatchView>>, user_ipk: [u8; 32], now_ms: u64, d: DispatchView)
    requires
        in_key_order(rows),
        rows.filter(under_prefix(user_ipk@)).len() < MAX_QUEUED_PER_RECIPIENT,
    ensures
        with_row(rows, message_key(user_ipk, now_ms, d.id), d).filter(under_prefix(user_ipk@)).len()
            <= MAX_QUEUED_PER_RECIPIENT,
{
    super::keyspace::law_put_filtered(
        rows,
        message_key(user_ipk, now_ms, d.id),
        d,
        under_prefix::<DispatchView>(user_ipk@),
    );
}

/// The messages of a user stand oldest first: of two, the earlier one in the
/// queue did not arrive later.
pub proof fn law_oldest_first(rows: Seq<RowView<DispatchView>>, user_ipk: [u8; 32], i: int, j: int)
    requires
        in_key_order(rows),
        0 <= i < j < queue_of(rows, user_ipk).len(),
    ensures
        be_nat(queue_of(rows, user_ipk)[i].0.subrange(32, 40)) <= be_nat(
            queue_of(rows, user_ipk)[j].0.subrange(32, 40),
        ),
{
    let keep = decoded_under::<DispatchView>(user_ipk@, MESSAGE_KEY_SIZE as nat);
    law_filter_keeps_order(rows, keep);
    let q = queue_of(rows, user_ipk);
    let a = q[i].0;
    let b = q[j].0;
    assert(keep(q[i]) && keep(q[j]));
    assert(super::keyspace::lex_less(a, b));
    let ta = a.subrange(32, 40);
    let tb = b.subrange(32, 40);
    if be_nat(tb) < be_nat(ta) {
        super::keyspace::law_lex_is_numeric(tb, ta);
        super::keyspace::lemma_lex_extends(b, a, 32, 40);
        super::keyspace::lemma_lex_transitive(a, b, a);
        super::keyspace::lemma_lex_irreflexive(a);
    }
}

/// Acknowledged messages leave the queue and no other message does.
pub proof fn law_acked_leave(rows: Seq<RowView<DispatchView>>, user_ipk: [u8; 32], ids: Seq<[u8; 16]>, row: RowView<DispatchView>)
    requires
        in_key_order(rows),
        rows.contains(row),
    ensures
        rows.filter(super::keyspace::others(listed_of(user_ipk@, ids))).contains(row) <==> !(starts_with(
            row.0,
            user_ipk@,
        ) && row.0.len() == MESSAGE_KEY_SIZE && names_message(ids, row.0)),
{
    let kept = super::keyspace::others(listed_of(user_ipk@, ids));
    law_filter_keeps_order(rows, kept);
    let k = choose|k: int| 0 <= k < rows.len() && rows[k] == row;
    assert(rows[k] == row);
    let f = rows.filter(kept);
    if f.contains(row) {
        let i = choose|i: int| 0 <= i < f.len() && f[i] == row;
        assert(kept(f[i]));
    }
}

/// The key of a message holds its recipient in the first 32 bytes, its arrival
/// time in the next eight, the most significant first, and its id in the last
/// sixteen; so no two messages share one.
pub proof fn law_message_key_layout(recipient: [u8; 32], ts_ms: u64, id: [u8; 16])
    ensures
        message_key(recipient, ts_ms, id).len() == 56,
        message_key(recipient, ts_ms, id).take(32) == recipient@,
        be_nat(message_key(recipient, ts_ms, id).subrange(32, 40)) == ts_ms,
        message_key(recipient, ts_ms, id).subrange(40, 56) == id@,
{
    let key = message_key(recipient, ts_ms, id);
    lemma_be_bytes_spell(ts_ms);
    assert(key.take(32) =~= recipient@);
    assert(key.subrange(32, 40) =~= be_bytes(ts_ms as nat, 8));
    assert(key.subrange(40, 56) =~= id@);
}

/// The bytes of a key are its three parts, one behind the other.
pub proof fn law_key_bytes_layout(k: MessageKey)
    ensures
        k.bytes().len() == 56,
        k.bytes().take(32) == k.recipient@,
        k.bytes().subrange(32, 40) == k.ts_be@,
        k.bytes().subrange(40, 56) == k.id@,
{
    assert(k.bytes().take(32) =~= k.recipient@);
    assert(k.bytes().subrange(32, 40) =~= k.ts_be@);
    assert(k.bytes().subrange(40, 56) =~= k.id@);
}

/// The queue of a user is every row of the table that could be read, has a key
/// of 56 bytes and begins with the user's key, and nothing else.
pub proof fn law_queue_is_the_users_rows(rows: Seq<RowView<DispatchView>>, user_ipk: [u8; 32], row: RowView<DispatchView>)
    requires
        in_key_order(rows),
    ensures
        queue_of(rows, user_ipk).contains(row) <==> rows.contains(row) && row.1 is Some && row.0.len() == 56
            && row.0.take(32) == user_ipk@,
{
    let keep = decoded_under::<DispatchView>(user_ipk@, MESSAGE_KEY_SIZE as nat);
    law_filter_keeps_order(rows, keep);
    let q = queue_of(rows, user_ipk);
    if q.contains(row) {
        let i = choose|i: int| 0 <= i < q.len() && q[i] == row;
        assert(keep(q[i]) && rows.contains(q[i]));
    }
    if rows.contains(row) {
        let k = choose|k: int| 0 <= k < rows.len() && rows[k] == row;
        assert(rows[k] == row);
    }
}

/// Deleting by id goes by all sixteen bytes of it: a row stays in the table
/// unless it is the user's, has a key of 56 bytes, and the last sixteen of them
/// are one of the ids; and then it goes.
pub proof fn law_only_named_messages_leave(
    rows: Seq<RowView<DispatchView>>,
    user_ipk: [u8; 32],
    ids: Seq<[u8; 16]>,
    row: RowView<DispatchView>,
)
    requires
        in_key_order(rows),
        rows.contains(row),
    ensures
        (forall|k: int| 0 <= k < ids.len() ==> (#[trigger] ids[k])@ != row.0.subrange(40, 56)) ==> rows.filter(
            super::keyspace::others(listed_of(user_ipk@, ids)),
        ).contains(row),
        row.0.take(32) != user_ipk@ || row.0.len() != 56 ==> rows.filter(
            super::keyspace::others(listed_of(user_ipk@, ids)),
        ).contains(row),
        row.0.len() == 56 && row.0.take(32) == user_ipk@ && (exists|k: int|
            0 <= k < ids.len() && (#[trigger] ids[k])@ == row.0.subrange(40, 56)) ==> !rows.filter(
            super::keyspace::others(listed_of(user_ipk@, ids)),
        ).contains(row),
{
    law_acked_leave(rows, user_ipk, ids, row);
}

/// How many rows a deletion by ids counts: those that leave.
pub proof fn law_deletion_is_counted(rows: Seq<RowView<DispatchView>>, user_ipk: [u8; 32], ids: Seq<[u8; 16]>)
    ensures
        rows.filter(listed_of(user_ipk@, ids)).len() + rows.filter(
            super::keyspace::others(listed_of(user_ipk@, ids)),
        ).len() == rows.len(),
    decreases rows.len(),
{
    reveal(Seq::filter);
    if rows.len() > 0 {
        law_deletion_is_counted(rows.drop_last(), user_ipk, ids);
    }
}

/// What becomes of a message for a user: on a medium that answers it is stored
/// where fewer than 1024 rows begin with the user's key, and refused as one too
/// many where there are as many as that; on a medium that does not, it is never
/// said to be stored. A message that is not stored leaves the queues as they
/// were.
pub proof fn law_enqueue_outcome(
    before: DhtView,
    after: DhtView,
    user_ipk: [u8; 32],
    d: DispatchView,
    now_ms: u64,
    r: ForwardOutcome,
)
    requires
        enqueued(before, after, user_ipk, d, now_ms, r),
    ensures
        ({
            let queued = before.queue.rows.filter(
                |row: RowView<DispatchView>| 32 <= row.0.len() && row.0.take(32) == user_ipk@,
            ).len();
            &&& before.queue.readable && before.queue.writable ==> (r == ForwardOutcome::Stored <==> queued < 1024)
            &&& before.queue.readable ==> (r == ForwardOutcome::QueueFull <==> queued >= 1024)
            &&& r == ForwardOutcome::Stored ==> before.queue.readable && before.queue.writable
            &&& r == ForwardOutcome::Stored || r == ForwardOutcome::QueueFull || r == ForwardOutcome::BadSig
            &&& r != ForwardOutcome::Stored ==> after.queue == before.queue
        }),
{
    let raw = |row: RowView<DispatchView>| 32 <= row.0.len() && row.0.take(32) == user_ipk@;
    super::keyspace::lemma_filter_agree(before.queue.rows, under_prefix::<DispatchView>(user_ipk@), raw);
}

/// A message that is stored stands in the table, whole, under its recipient, the
/// time it came and its id; what stands under other keys stays.
pub proof fn law_stored_stands_under_its_key(
    before: DhtView,
    after: DhtView,
    user_ipk: [u8; 32],
    d: DispatchView,
    now_ms: u64,
    key: Seq<u8>,
    other: Seq<u8>,
)
    requires
        before.queue.wf(),
        enqueued(before, after, user_ipk, d, now_ms, ForwardOutcome::Stored),
        key.len() == 56,
        key.take(32) == user_ipk@,
        be_nat(key.subrange(32, 40)) == now_ms,
        key.subrange(40, 56) == d.id@,
        other != key,
    ensures
        value_at(after.queue.rows, key) == Some(Some(d)),
        value_at(after.queue.rows, other) == value_at(before.queue.rows, other),
{
    let k = message_key(user_ipk, now_ms, d.id);
    law_message_key_layout(user_ipk, now_ms, d.id);
    lemma_be_nat_injective(key.subrange(32, 40), k.subrange(32, 40));
    assert(key =~= key.take(32) + key.subrange(32, 40) + key.subrange(40, 56));
    assert(k =~= k.take(32) + k.subrange(32, 40) + k.subrange(40, 56));
    super::keyspace::law_put(before.queue.rows, k, d, other);
}

/// What a sweep hands over: the rows that could be read, have a key of 56 bytes
/// and belong to a user of whom this relay is none of the closest, and no
/// others.
pub proof fn law_drifted_rows(
    rows: Seq<RowView<DispatchView>>,
    routing: TableView,
    node_id: NodeId,
    row: RowView<DispatchView>,
    user: NodeId,
)
    requires
        in_key_order(rows),
        rows.contains(row),
        row.0.take(32) == user.bytes@,
    ensures
        rows.filter(drifted_from(routing, node_id)).contains(row) <==> row.1 is Some && row.0.len() == 56
            && !among_k_closest(routing, node_id, user),
{
    let keep = drifted_from(routing, node_id);
    law_filter_keeps_order(rows, keep);
    lemma_id_with_bytes(user);
    if row.0.len() == 56 {
        assert(row.0.subrange(0, 32) =~= row.0.take(32));
    }
    let q = rows.filter(keep);
    if q.contains(row) {
        let i = choose|i: int| 0 <= i < q.len() && q[i] == row;
        assert(keep(q[i]));
    }
    let k = choose|k: int| 0 <= k < rows.len() && rows[k] == row;
    assert(rows[k] == row);
}

/// A batch of messages is the first ones of a queue, as many as it may hold,
/// each with its key.
pub proof fn law_batch_is_a_beginning(
    found: Seq<RowView<DispatchView>>,
    max: nat,
    r: Seq<(MessageKey, DispatchP)>,
    i: int,
)
    requires
        is_batch(found, max, r),
        0 <= i < found.len(),
        i < max,
    ensures
        i < r.len() <= max,
        r.len() <= found.len(),
        found[i] == (r[i].0.recipient@ + r[i].0.ts_be@ + r[i].0.id@, Some(r[i].1@)),
{
    assert(r[i].0.bytes() == found[i].0);
}

/// A message that is stored counts as one write, one that finds the queue full
/// as one rejection, and nothing else is counted.
pub proof fn law_enqueue_is_counted(
    before: DhtView,
    after: DhtView,
    user_ipk: [u8; 32],
    dispatch: DispatchView,
    now_ms: u64,
    r: ForwardOutcome,
)
    requires
        enqueued(before, after, user_ipk, dispatch, now_ms, r),
    ensures
        r == ForwardOutcome::Stored ==> after.metrics == before.metrics.counted(Counter::DhtQueueWrites),
        r == ForwardOutcome::QueueFull ==> after.metrics == before.metrics.counted(Counter::DhtQueueFullRejections),
        r != ForwardOutcome::Stored && r != ForwardOutcome::QueueFull ==> after.metrics == before.metrics,
        r != ForwardOutcome::Stored ==> after.queue == before.queue,
{
}

} // verus!
