//! Draining a user's queue from its other homes when the user comes online,
//! and serving such drains to other relays.

use super::bytes::copy_bytes;
use super::config::{K, MAX_QUEUE_FETCH_PAGES};
use super::dedupe::{firsts, has_one, keys_distinct, lemma_firsts_push};
use super::id::{NodeDescriptor, NodeId};
use super::metrics::{bumped, Metrics};
use super::routing::{among_k_closest, nearest_descriptors, self_in_top_k};
use super::sig::{ed25519_signed, signature_holds};
use super::store::{delete_queue_entries, enqueued, listed_of, lookup_queue_for_user, queue_of, MessageKey};
use super::wire::{
    same_array, DispatchP, DispatchView, ForwardOutcome, QueueFetch, QueueFetchAck, QueueFetchAckResp,
    QueueFetchResp,
};
use super::{Dht, DhtView};
use vstd::prelude::*;

verus! {

/// Messages in one page of a queue.
pub const MAX_FETCH_QUEUE_BATCH: usize = 64;

/// Why a drain brought nothing.
#[derive(Clone, Copy, Debug, PartialEq, Eq, Structural)]
pub enum QueueDrainError {
    /// The time of the drain was up before any home had answered.
    Timeout,
    /// No other relay is a home of the user.
    NoHomes,
    /// Every home failed, before the time was up.
    AllFailed,
}

// ---------------------------------------------------------------------------
// Asking the homes
// ---------------------------------------------------------------------------

/// The peers other than `id`.
pub open spec fn not_the(id: NodeId) -> spec_fn(NodeDescriptor) -> bool {
    |d: NodeDescriptor| d.id != id
}

/// The peers other than `id`, in their order.
pub fn without_peer(peers: &Vec<NodeDescriptor>, id: &NodeId) -> (r: Vec<NodeDescriptor>)
    ensures
        r@ == peers@.filter(not_the(*id)),
{
    let ghost keep = not_the(*id);
    let mut out: Vec<NodeDescriptor> = Vec::new();
    let mut i: usize = 0;
    proof {
        super::keyspace::lemma_filter_empty(peers@, keep);
    }
    while i < peers.len()
        invariant
            0 <= i <= peers.len(),
            keep == not_the(*id),
            out@ == peers@.take(i as int).filter(keep),
        decreases peers.len() - i,
    {
        proof {
            super::keyspace::lemma_filter_step(peers@, keep, i as int);
        }
        if !peers[i].id.same(id) {
            out.push(peers[i]);
        }
        i = i + 1;
    }
    assert(peers@.take(i as int) =~= peers@);
    out
}

/// Begins a drain: the homes of the user other than this relay are to be
/// asked, all with one request, which the user signed for this relay.
pub fn begin_drain(
    dht: &Dht,
    user_ipk: &[u8; 32],
    self_relay_id: &NodeId,
    timestamp: u64,
    user_sig: &[u8; 64],
    transcript: &[u8],
) -> (r: Result<(Vec<NodeDescriptor>, QueueFetch), QueueDrainError>)
    requires
        dht.wf(),
    ensures
        exists|near: Seq<NodeDescriptor>|
            {
                &&& #[trigger] nearest_descriptors(dht@.routing, NodeId { bytes: *user_ipk }, K as nat, near)
                &&& match r {
                    Ok((homes, _)) => homes@ == near.filter(not_the(*self_relay_id)) && homes@.len() > 0,
                    Err(e) => e == QueueDrainError::NoHomes && near.filter(not_the(*self_relay_id)).len() == 0,
                }
            },
        r matches Ok((_, req)) ==> {
            &&& req.user_ipk == *user_ipk
            &&& req.requester_relay_id == *self_relay_id
            &&& req.timestamp == timestamp
            &&& req.user_sig == *user_sig
            &&& req.transcript@ == transcript@
        },
{
    let near: Vec<NodeDescriptor> = dht.routing.find_closest(&NodeId::from_bytes(*user_ipk), K);
    let homes: Vec<NodeDescriptor> = without_peer(&near, self_relay_id);
    assert(nearest_descriptors(dht@.routing, NodeId { bytes: *user_ipk }, K as nat, near@));
    if homes.len() == 0 {
        return Err(QueueDrainError::NoHomes);
    }
    let req = QueueFetch {
        user_ipk: *user_ipk,
        requester_relay_id: *self_relay_id,
        timestamp,
        user_sig: *user_sig,
        transcript: copy_bytes(transcript),
    };
    Ok((homes, req))
}

/// The acknowledgement that goes to every home after a drain, as the user
/// signed it for this relay; `None` where there is no home to tell.
pub fn ack_remote_queues(
    dht: &Dht,
    user_ipk: &[u8; 32],
    delivered_ids: Vec<[u8; 16]>,
    timestamp: u64,
    user_sig: &[u8; 64],
    transcript: &[u8],
    homes: &Vec<NodeDescriptor>,
) -> (r: Option<QueueFetchAck>)
    ensures
        r is None <==> homes@.len() == 0,
        r matches Some(ack) ==> {
            &&& ack.user_ipk == *user_ipk
            &&& ack.requester_relay_id == dht@.node_id
            &&& ack.delivered_ids == delivered_ids
            &&& ack.timestamp == timestamp
            &&& ack.user_sig == *user_sig
            &&& ack.transcript@ == transcript@
        },
{
    if homes.len() == 0 {
        return None;
    }
    Some(
        QueueFetchAck {
            user_ipk: *user_ipk,
            requester_relay_id: dht.node_id,
            delivered_ids,
            timestamp,
            user_sig: *user_sig,
            transcript: copy_bytes(transcript),
        },
    )
}

/// What is to be done after a reply of a home.
#[derive(Clone, Copy, Debug, PartialEq, Eq, Structural)]
pub enum PageStep {
    /// Ask for another page.
    Again,
    /// The messages of this home are complete, as far as they are drained.
    Done,
    /// The home failed; what it sent is dropped.
    Failed,
}

/// The drain of one home, page by page.
#[derive(Debug)]
pub struct HomeDrain {
    pub messages: Vec<DispatchP>,
    pub pages: usize,
}

/// The messages in a list.
pub open spec fn views(messages: Seq<DispatchP>) -> Seq<DispatchView> {
    Seq::new(messages.len(), |i: int| messages[i]@)
}

impl HomeDrain {
    /// A drain that has not asked yet.
    pub fn new() -> (r: HomeDrain)
        ensures
            r.pages == 0,
            views(r.messages@) == Seq::<DispatchView>::empty(),
    {
        let r = HomeDrain { messages: Vec::new(), pages: 0 };
        assert(views(r.messages@) =~= Seq::<DispatchView>::empty());
        r
    }

    /// Notes that a page is asked for, whatever comes of it.
    pub fn ask(&self, dht: &mut Dht)
        requires
            old(dht).wf(),
        ensures
            final(dht).wf(),
            final(dht)@ == (DhtView {
                metrics: Metrics {
                    queue_fetches_sent: bumped(old(dht)@.metrics.queue_fetches_sent),
                    ..old(dht)@.metrics
                },
                ..old(dht)@
            }),
    {
        dht.metrics.inc_queue_fetches_sent();
    }

    /// Takes one reply of the home; `None` where it failed on the wire or was
    /// of another kind. A home is asked until its queue is exhausted, at most
    /// [`MAX_QUEUE_FETCH_PAGES`] times.
    pub fn on_reply(&mut self, reply: Option<QueueFetchResp>) -> (r: PageStep)
        requires
            old(self).pages < MAX_QUEUE_FETCH_PAGES,
        ensures
            match reply {
                None => r == PageStep::Failed && *final(self) == *old(self),
                Some(page) => {
                    &&& final(self).pages == old(self).pages + 1
                    &&& views(final(self).messages@) == views(old(self).messages@) + views(page.messages@)
                    &&& r == (if page.exhausted || final(self).pages == MAX_QUEUE_FETCH_PAGES {
                        PageStep::Done
                    } else {
                        PageStep::Again
                    })
                },
            },
            r is Again ==> reply is Some && !(reply->0).exhausted && final(self).pages < 10,
            r is Done ==> reply is Some && ((reply->0).exhausted || final(self).pages == 10),
            r is Failed <==> reply is None,
            reply matches Some(page) ==> final(self).messages@.len() == old(self).messages@.len()
                + page.messages@.len(),
            forall|i: int|
                0 <= i < old(self).messages@.len() ==> (#[trigger] final(self).messages@[i])@ == old(
                    self,
                ).messages@[i]@,
    {
        match reply {
            None => PageStep::Failed,
            Some(page) => {
                let exhausted: bool = page.exhausted;
                let ghost before = views(self.messages@);
                let mut i: usize = 0;
                while i < page.messages.len()
                    invariant
                        0 <= i <= page.messages.len(),
                        self.pages == old(self).pages,
                        views(self.messages@) == before + views(page.messages@).take(i as int),
                    decreases page.messages.len() - i,
                {
                    let ghost m0 = self.messages@;
                    self.messages.push(page.messages[i].copy());
                    proof {
                        let got = views(page.messages@);
                        assert(views(self.messages@) =~= views(m0).push(got[i as int]));
                        assert(got.take(i + 1) =~= got.take(i as int).push(got[i as int]));
                        assert((before + got.take(i as int)).push(got[i as int]) =~= before + got.take(i + 1));
                    }
                    i = i + 1;
                }
                assert(views(page.messages@).take(i as int) =~= views(page.messages@));
                proof {
                    assert(views(self.messages@).len() == before.len() + page.messages@.len());
                    assert forall|k: int| 0 <= k < old(self).messages@.len() implies (#[trigger] self.messages@[k])@
                        == old(self).messages@[k]@ by {
                        assert(views(self.messages@)[k] == before[k]);
                    }
                }
                self.pages = self.pages + 1;
                if exhausted || self.pages == MAX_QUEUE_FETCH_PAGES {
                    PageStep::Done
                } else {
                    PageStep::Again
                }
            },
        }
    }
}

/// Notes what one home brought; `None` where it failed, or had not ended when
/// the time of the drain was up.
pub fn note_home(
    dht: &mut Dht,
    results: &mut Vec<(NodeId, Vec<DispatchP>)>,
    reply: Option<(NodeId, Vec<DispatchP>)>,
)
    requires
        old(dht).wf(),
    ensures
        final(dht).wf(),
        match reply {
            Some(item) => final(results)@ == old(results)@.push(item) && final(dht)@ == old(dht)@,
            None => final(results)@ == old(results)@ && final(dht)@ == (DhtView {
                metrics: Metrics {
                    queue_fetch_failures: bumped(old(dht)@.metrics.queue_fetch_failures),
                    ..old(dht)@.metrics
                },
                ..old(dht)@
            }),
        },
{
    match reply {
        Some(item) => results.push(item),
        None => dht.metrics.inc_queue_fetch_failures(),
    }
}

/// Notes whether a home answered an acknowledgement. What it answers does not
/// matter; a home that could not be reached, or did not answer in time, counts
/// as a failure, as it does for a fetch.
pub fn note_ack(dht: &mut Dht, answered: bool)
    requires
        old(dht).wf(),
    ensures
        final(dht).wf(),
        final(dht)@ == (if answered {
            old(dht)@
        } else {
            DhtView {
                metrics: Metrics {
                    queue_fetch_failures: bumped(old(dht)@.metrics.queue_fetch_failures),
                    ..old(dht)@.metrics
                },
                ..old(dht)@
            }
        }),
{
    if !answered {
        dht.metrics.inc_queue_fetch_failures();
    }
}

// ---------------------------------------------------------------------------
// Gathering
// ---------------------------------------------------------------------------

/// The id of a message.
pub open spec fn message_id() -> spec_fn(DispatchView) -> [u8; 16] {
    |d: DispatchView| d.id
}

/// What one home brought.
pub open spec fn brought(batch: (NodeId, Vec<DispatchP>)) -> (NodeId, Seq<DispatchView>) {
    (batch.0, views(batch.1@))
}

/// What the homes brought, home by home.
pub open spec fn all_brought(batches: Seq<(NodeId, Vec<DispatchP>)>) -> Seq<(NodeId, Seq<DispatchView>)> {
    Seq::new(batches.len(), |i: int| brought(batches[i]))
}

/// All messages that the homes brought, home after home.
pub open spec fn joined(batches: Seq<(NodeId, Seq<DispatchView>)>) -> Seq<DispatchView>
    decreases batches.len(),
{
    if batches.len() == 0 {
        Seq::empty()
    } else {
        joined(batches.drop_last()) + batches.last().1
    }
}

/// The ids of messages.
pub open spec fn ids_of(messages: Seq<DispatchView>) -> Seq<[u8; 16]> {
    Seq::new(messages.len(), |i: int| messages[i].id)
}

/// The ids of the messages that one home brought.
pub open spec fn ids_from(batches: Seq<(NodeId, Seq<DispatchView>)>, node: NodeId) -> Seq<[u8; 16]>
    decreases batches.len(),
{
    if batches.len() == 0 {
        Seq::empty()
    } else {
        let before = ids_from(batches.drop_last(), node);
        if batches.last().0 == node {
            before + ids_of(batches.last().1)
        } else {
            before
        }
    }
}

/// The home of a batch.
pub open spec fn home_of() -> spec_fn((NodeId, Seq<DispatchView>)) -> NodeId {
    |b: (NodeId, Seq<DispatchView>)| b.0
}

/// The home of an entry in the list of who brought what.
pub open spec fn home_in_list() -> spec_fn((NodeId, Vec<[u8; 16]>)) -> NodeId {
    |b: (NodeId, Vec<[u8; 16]>)| b.0
}

/// `r` says for each home that brought a batch, and for no other, once which
/// messages it brought.
pub open spec fn lists_homes(batches: Seq<(NodeId, Seq<DispatchView>)>, r: Seq<(NodeId, Vec<[u8; 16]>)>) -> bool {
    &&& keys_distinct(r, home_in_list())
    &&& forall|node: NodeId| has_one(batches, home_of(), node) <==> #[trigger] has_one(r, home_in_list(), node)
    &&& forall|i: int| 0 <= i < r.len() ==> (#[trigger] r[i]).1@ == ids_from(batches, r[i].0)
}

/// Whether a message with this id is in the list.
fn has_message(messages: &Vec<DispatchP>, id: &[u8; 16]) -> (r: bool)
    ensures
        r == has_one(views(messages@), message_id(), *id),
{
    let mut i: usize = 0;
    while i < messages.len()
        invariant
            0 <= i <= messages.len(),
            forall|k: int| 0 <= k < i ==> message_id()(#[trigger] views(messages@)[k]) != *id,
        decreases messages.len() - i,
    {
        if same_array(&messages[i].id, id) {
            assert(message_id()(views(messages@)[i as int]) == *id);
            return true;
        }
        i = i + 1;
    }
    false
}

/// Makes one list of what the homes brought: each message once, where it came
/// first.
pub fn union_of(batches: &Vec<(NodeId, Vec<DispatchP>)>) -> (r: Vec<DispatchP>)
    ensures
        views(r@) == firsts(joined(all_brought(batches@)), message_id()),
{
    let ghost all = all_brought(batches@);
    let mut out: Vec<DispatchP> = Vec::new();
    let mut i: usize = 0;
    assert(views(out@) =~= firsts(joined(all.take(0)), message_id()));
    while i < batches.len()
        invariant
            0 <= i <= batches.len(),
            all == all_brought(batches@),
            views(out@) == firsts(joined(all.take(i as int)), message_id()),
        decreases batches.len() - i,
    {
        let batch: &Vec<DispatchP> = &batches[i].1;
        let ghost base = joined(all.take(i as int));
        let ghost here = views(batch@);
        let mut j: usize = 0;
        assert(base + here.take(0) =~= base);
        while j < batch.len()
            invariant
                0 <= j <= batch.len(),
                here == views(batch@),
                views(out@) == firsts(base + here.take(j as int), message_id()),
            decreases batch.len() - j,
        {
            let ghost before = out@;
            proof {
                lemma_firsts_push(base + here.take(j as int), message_id(), here[j as int]);
                assert((base + here.take(j as int)).push(here[j as int]) =~= base + here.take(j + 1));
            }
            if !has_message(&out, &batch[j].id) {
                out.push(batch[j].copy());
                assert(views(out@) =~= views(before).push(here[j as int]));
            }
            j = j + 1;
        }
        proof {
            assert(here.take(j as int) =~= here);
            assert(all.take(i + 1).drop_last() =~= all.take(i as int));
            assert(all.take(i + 1).last() == brought(batches@[i as int]));
        }
        i = i + 1;
    }
    assert(all.take(i as int) =~= all);
    out
}

/// Tells which messages each home brought.
pub fn homes_of(batches: &Vec<(NodeId, Vec<DispatchP>)>) -> (r: Vec<(NodeId, Vec<[u8; 16]>)>)
    ensures
        lists_homes(all_brought(batches@), r@),
{
    let ghost all = all_brought(batches@);
    let mut out: Vec<(NodeId, Vec<[u8; 16]>)> = Vec::new();
    let mut i: usize = 0;
    while i < batches.len()
        invariant
            0 <= i <= batches.len(),
            all == all_brought(batches@),
            lists_homes(all.take(i as int), out@),
        decreases batches.len() - i,
    {
        let ghost seen = all.take(i as int);
        let ghost next = all.take(i + 1);
        let ghost before = out@;
        let node: NodeId = batches[i].0;
        let batch: &Vec<DispatchP> = &batches[i].1;
        proof {
            assert(next.drop_last() =~= seen);
            assert(next.last() == brought(batches@[i as int]));
            lemma_homes_grow(seen, next);
        }
        let mut at: usize = 0;
        while at < out.len() && !out[at].0.same(&node)
            invariant
                0 <= at <= out.len(),
                forall|k: int| 0 <= k < at ==> home_in_list()(#[trigger] out@[k]) != node,
            decreases out.len() - at,
        {
            at = at + 1;
        }
        let fresh: bool = at == out.len();
        let mut ids: Vec<[u8; 16]> = if fresh {
            Vec::new()
        } else {
            out.remove(at).1
        };
        let ghost rest = out@;
        let ghost had = ids@;
        let mut j: usize = 0;
        assert(had + ids_of(views(batch@)).take(0) =~= had);
        while j < batch.len()
            invariant
                0 <= j <= batch.len(),
                ids@ == had + ids_of(views(batch@)).take(j as int),
            decreases batch.len() - j,
        {
            let ghost b = ids@;
            ids.push(batch[j].id);
            j = j + 1;
            assert(ids@ =~= had + ids_of(views(batch@)).take(j as int));
        }
        assert(ids_of(views(batch@)).take(j as int) =~= ids_of(views(batch@)));
        out.insert(at, (node, ids));
        proof {
            lemma_home_noted(seen, next, before, out@, at as int, node, fresh, had);
        }
        i = i + 1;
    }
    assert(all.take(i as int) =~= all);
    out
}

/// The homes after one more batch.
proof fn lemma_homes_grow(seen: Seq<(NodeId, Seq<DispatchView>)>, next: Seq<(NodeId, Seq<DispatchView>)>)
    requires
        next.len() > 0,
        next.drop_last() == seen,
    ensures
        forall|node: NodeId| #[trigger]
            has_one(next, home_of(), node) <==> has_one(seen, home_of(), node) || node == next.last().0,
{
    assert forall|node: NodeId| #[trigger] has_one(next, home_of(), node) <==> has_one(seen, home_of(), node) || node
        == next.last().0 by {
        if has_one(next, home_of(), node) {
            let i = choose|i: int| 0 <= i < next.len() && home_of()(#[trigger] next[i]) == node;
            if i < seen.len() {
                assert(home_of()(seen[i]) == node);
            }
        }
        if has_one(seen, home_of(), node) {
            let i = choose|i: int| 0 <= i < seen.len() && home_of()(#[trigger] seen[i]) == node;
            assert(home_of()(next[i]) == node);
        }
        if node == next.last().0 {
            assert(home_of()(next[next.len() - 1]) == node);
        }
    }
}

/// The list of homes after one more batch was noted.
proof fn lemma_home_noted(
    seen: Seq<(NodeId, Seq<DispatchView>)>,
    next: Seq<(NodeId, Seq<DispatchView>)>,
    before: Seq<(NodeId, Vec<[u8; 16]>)>,
    after: Seq<(NodeId, Vec<[u8; 16]>)>,
    at: int,
    node: NodeId,
    fresh: bool,
    had: Seq<[u8; 16]>,
)
    requires
        lists_homes(seen, before),
        next.len() > 0,
        next.drop_last() == seen,
        next.last().0 == node,
        forall|n: NodeId| #[trigger]
            has_one(next, home_of(), n) <==> has_one(seen, home_of(), n) || n == next.last().0,
        0 <= at <= before.len(),
        fresh <==> at == before.len(),
        forall|k: int| 0 <= k < at ==> home_in_list()(#[trigger] before[k]) != node,
        !fresh ==> before[at].0 == node && had == before[at].1@,
        fresh ==> had == Seq::<[u8; 16]>::empty(),
        after.len() == (if fresh {
            before.len() + 1
        } else {
            before.len()
        }),
        0 <= at < after.len(),
        after[at].0 == node,
        after[at].1@ == had + ids_of(next.last().1),
        forall|k: int| 0 <= k < before.len() && k != at ==> after[k] == #[trigger] before[k],
    ensures
        lists_homes(next, after),
{
    let key = home_in_list();
    assert forall|k: int| 0 <= k < before.len() && k != at implies key(#[trigger] before[k]) != node by {
        if k > at {
            assert(key(before[at]) != key(before[k]));
        }
    }
    assert(keys_distinct(after, key)) by {
        assert forall|i: int, j: int| 0 <= i < j < after.len() implies key(#[trigger] after[i]) != key(
            #[trigger] after[j],
        ) by {
            if i != at {
                assert(after[i] == before[i]);
            }
            if j != at {
                assert(after[j] == before[j]);
            }
        }
    }
    assert forall|n: NodeId| has_one(next, home_of(), n) <==> #[trigger] has_one(after, key, n) by {
        assert(has_one(seen, home_of(), n) <==> has_one(before, key, n));
        assert(has_one(next, home_of(), n) <==> has_one(seen, home_of(), n) || n == node);
        if has_one(after, key, n) {
            let i = choose|i: int| 0 <= i < after.len() && key(#[trigger] after[i]) == n;
            if i != at {
                assert(after[i] == before[i]);
            }
        }
        if has_one(before, key, n) {
            let i = choose|i: int| 0 <= i < before.len() && key(#[trigger] before[i]) == n;
            assert(key(after[i]) == n);
        }
        if n == node {
            assert(key(after[at]) == n);
        }
    }
    assert forall|i: int| 0 <= i < after.len() implies (#[trigger] after[i]).1@ == ids_from(next, after[i].0) by {
        if i == at {
            if fresh {
                lemma_nothing_from(seen, node);
                assert(!has_one(before, key, node)) by {
                    if has_one(before, key, node) {
                        let k = choose|k: int| 0 <= k < before.len() && key(#[trigger] before[k]) == node;
                        assert(key(before[k]) != node);
                    }
                }
                assert(!has_one(seen, home_of(), node));
            } else {
                assert(before[at].1@ == ids_from(seen, node));
            }
        } else {
            assert(after[i] == before[i]);
            assert(before[i].1@ == ids_from(seen, before[i].0));
            assert(key(before[i]) != node);
        }
    }
}

/// A home without a batch brought nothing.
proof fn lemma_nothing_from(batches: Seq<(NodeId, Seq<DispatchView>)>, node: NodeId)
    ensures
        !has_one(batches, home_of(), node) ==> ids_from(batches, node) == Seq::<[u8; 16]>::empty(),
    decreases batches.len(),
{
    if batches.len() > 0 && !has_one(batches, home_of(), node) {
        let init = batches.drop_last();
        if has_one(init, home_of(), node) {
            let i = choose|i: int| 0 <= i < init.len() && home_of()(#[trigger] init[i]) == node;
            assert(home_of()(batches[i]) == node);
        }
        lemma_nothing_from(init, node);
        assert(home_of()(batches[batches.len() - 1]) != node);
    }
}

/// Ends a drain, given what the homes that answered brought and whether its
/// time was up before all had ended.
pub fn finish_drain(dht: &mut Dht, batches: &Vec<(NodeId, Vec<DispatchP>)>, timed_out: bool) -> (r: Result<
    (Vec<DispatchP>, Vec<(NodeId, Vec<[u8; 16]>)>),
    QueueDrainError,
>)
    requires
        old(dht).wf(),
    ensures
        final(dht).wf(),
        match r {
            Err(e) => {
                &&& batches@.len() == 0
                &&& e == (if timed_out {
                    QueueDrainError::Timeout
                } else {
                    QueueDrainError::AllFailed
                })
                &&& final(dht)@ == old(dht)@
            },
            Ok((messages, homes)) => {
                &&& batches@.len() > 0
                &&& views(messages@) == firsts(joined(all_brought(batches@)), message_id())
                &&& lists_homes(all_brought(batches@), homes@)
                &&& final(dht)@ == (if messages@.len() > 0 {
                    DhtView {
                        metrics: Metrics {
                            queue_fetches_succeeded: bumped(old(dht)@.metrics.queue_fetches_succeeded),
                            ..old(dht)@.metrics
                        },
                        ..old(dht)@
                    }
                } else {
                    old(dht)@
                })
            },
        },
{
    if batches.len() == 0 {
        if timed_out {
            return Err(QueueDrainError::Timeout);
        }
        return Err(QueueDrainError::AllFailed);
    }
    let messages: Vec<DispatchP> = union_of(batches);
    let homes: Vec<(NodeId, Vec<[u8; 16]>)> = homes_of(batches);
    if messages.len() > 0 {
        dht.metrics.inc_queue_fetches_succeeded();
    }
    Ok((messages, homes))
}

// ---------------------------------------------------------------------------
// Serving a drain
// ---------------------------------------------------------------------------

/// Two clock readings are no farther apart than `max`.
pub open spec fn clocks_agree(a: u64, b: u64, max: u64) -> bool {
    a <= b + max && b <= a + max
}

/// Whether two clock readings are no farther apart than `max`.
fn clocks_ok(a: u64, b: u64, max: u64) -> (r: bool)
    ensures
        r == clocks_agree(a, b, max),
{
    let skew: u64 = if a <= b {
        b - a
    } else {
        a - b
    };
    skew <= max
}

/// `r` is the first page of these rows, and says whether there are no more.
pub open spec fn is_page(rows: Seq<super::keyspace::RowView<DispatchView>>, r: QueueFetchResp) -> bool {
    &&& r.messages@.len() == (if rows.len() < MAX_FETCH_QUEUE_BATCH {
        rows.len()
    } else {
        MAX_FETCH_QUEUE_BATCH as nat
    })
    &&& forall|i: int| 0 <= i < r.messages@.len() ==> rows[i].1 == Some((#[trigger] r.messages@[i])@)
    &&& r.exhausted == (rows.len() <= MAX_FETCH_QUEUE_BATCH)
}

/// A fetch of a queue is served to the relay that it names, within the clock
/// skew, where the user signed it and this relay is a home of the user.
pub open spec fn fetch_is_served(dht: DhtView, req: QueueFetch, peer: NodeId, now_ms: u64, signed: bool) -> bool {
    &&& req.requester_relay_id == peer
    &&& clocks_agree(now_ms, req.timestamp, dht.limits.queue_skew_ms)
    &&& signed
    &&& among_k_closest(dht.routing, dht.node_id, NodeId { bytes: req.user_ipk })
}

/// The page that answers a fetch, given whether the user signed it. A fetch
/// that is not served gives an empty page after which there is nothing.
pub open spec fn fetch_page(
    dht: DhtView,
    req: QueueFetch,
    peer: NodeId,
    now_ms: u64,
    signed: bool,
    r: QueueFetchResp,
) -> bool {
    if fetch_is_served(dht, req, peer, now_ms, signed) {
        is_page(queue_of(dht.queue.rows, req.user_ipk), r)
    } else {
        r.messages@.len() == 0 && r.exhausted
    }
}

/// Answers a fetch of a queue, given whether the user signed it.
pub fn answer_queue_fetch(dht: &Dht, req: &QueueFetch, peer: &NodeId, now_ms: u64, signed: bool) -> (r: QueueFetchResp)
    requires
        dht.wf(),
    ensures
        fetch_page(dht@, *req, *peer, now_ms, signed, r),
{
    if !req.requester_relay_id.same(peer) {
        return QueueFetchResp { messages: Vec::new(), exhausted: true };
    }
    if !signed || !clocks_ok(now_ms, req.timestamp, dht.limits.queue_skew_ms) {
        return QueueFetchResp { messages: Vec::new(), exhausted: true };
    }
    if !self_in_top_k(&dht.routing, &dht.node_id, &NodeId::from_bytes(req.user_ipk)) {
        return QueueFetchResp { messages: Vec::new(), exhausted: true };
    }
    let peek: Vec<(MessageKey, DispatchP)> = lookup_queue_for_user(dht, &req.user_ipk, MAX_FETCH_QUEUE_BATCH + 1);
    let exhausted: bool = peek.len() <= MAX_FETCH_QUEUE_BATCH;
    let mut messages: Vec<DispatchP> = Vec::new();
    let ghost rows = queue_of(dht@.queue.rows, req.user_ipk);
    let mut i: usize = 0;
    while i < peek.len() && i < MAX_FETCH_QUEUE_BATCH
        invariant
            0 <= i <= peek.len(),
            i <= MAX_FETCH_QUEUE_BATCH,
            messages.len() == i,
            rows == queue_of(dht@.queue.rows, req.user_ipk),
            super::store::is_batch(rows, (MAX_FETCH_QUEUE_BATCH + 1) as nat, peek@),
            forall|k: int| 0 <= k < i ==> rows[k].1 == Some((#[trigger] messages@[k])@),
        decreases peek.len() - i,
    {
        messages.push(peek[i].1.copy());
        i = i + 1;
    }
    QueueFetchResp { messages, exhausted }
}

/// Answers a fetch of a queue with its first page.
pub fn handle_queue_fetch_rpc(dht: &Dht, req: &QueueFetch, peer: &NodeId, now_ms: u64) -> (r: QueueFetchResp)
    requires
        dht.wf(),
    ensures
        fetch_page(
            dht@,
            *req,
            *peer,
            now_ms,
            ed25519_signed(req.user_ipk@, req.transcript@, req.user_sig@),
            r,
        ),
{
    let signed: bool = req.requester_relay_id.same(peer) && signature_holds(
        &req.user_ipk,
        &req.transcript,
        &req.user_sig,
    );
    answer_queue_fetch(dht, req, peer, now_ms, signed)
}

/// An acknowledgement is honoured when it is sent by the relay that it names,
/// within the clock skew, lists no more ids than one may, and the user signed
/// it.
pub open spec fn ack_is_honoured(dht: DhtView, req: QueueFetchAck, peer: NodeId, now_ms: u64, signed: bool) -> bool {
    &&& req.requester_relay_id == peer
    &&& clocks_agree(now_ms, req.timestamp, dht.limits.queue_skew_ms)
    &&& req.delivered_ids@.len() <= dht.limits.max_fetch_queue_ack_ids
    &&& signed
}

/// The state after an acknowledgement, given whether the user signed it: the
/// acknowledged messages are gone, where the medium takes the deletion.
pub open spec fn after_ack(dht: DhtView, req: QueueFetchAck, peer: NodeId, now_ms: u64, signed: bool) -> DhtView {
    if ack_is_honoured(dht, req, peer, now_ms, signed) && dht.queue.writable {
        DhtView {
            queue: dht.queue.with_rows(
                dht.queue.rows.filter(super::keyspace::others(listed_of(req.user_ipk@, req.delivered_ids@))),
            ),
            ..dht
        }
    } else {
        dht
    }
}

/// Answers an acknowledgement, given whether the user signed it. An
/// acknowledgement of messages that are not here is honoured too.
pub fn answer_queue_ack(dht: &mut Dht, req: &QueueFetchAck, peer: &NodeId, now_ms: u64, signed: bool) -> (r:
    QueueFetchAckResp)
    requires
        old(dht).wf(),
    ensures
        final(dht).wf(),
        r.ok == ack_is_honoured(old(dht)@, *req, *peer, now_ms, signed),
        final(dht)@ == after_ack(old(dht)@, *req, *peer, now_ms, signed),
{
    if !req.requester_relay_id.same(peer) {
        return QueueFetchAckResp { ok: false };
    }
    if !signed || !clocks_ok(now_ms, req.timestamp, dht.limits.queue_skew_ms) || req.delivered_ids.len()
        > dht.limits.max_fetch_queue_ack_ids {
        return QueueFetchAckResp { ok: false };
    }
    delete_queue_entries(dht, &req.user_ipk, &req.delivered_ids);
    QueueFetchAckResp { ok: true }
}

/// Deletes messages that their recipient has.
pub fn handle_queue_fetch_ack_rpc(dht: &mut Dht, req: &QueueFetchAck, peer: &NodeId, now_ms: u64) -> (r:
    QueueFetchAckResp)
    requires
        old(dht).wf(),
    ensures
        final(dht).wf(),
        ({
            let signed = ed25519_signed(req.user_ipk@, req.transcript@, req.user_sig@);
            &&& r.ok == ack_is_honoured(old(dht)@, *req, *peer, now_ms, signed)
            &&& final(dht)@ == after_ack(old(dht)@, *req, *peer, now_ms, signed)
        }),
{
    let signed: bool = req.requester_relay_id.same(peer) && signature_holds(
        &req.user_ipk,
        &req.transcript,
        &req.user_sig,
    );
    answer_queue_ack(dht, req, peer, now_ms, signed)
}

// ---------------------------------------------------------------------------
// Laws
// ---------------------------------------------------------------------------

/// Every message that some home brought is in the union exactly once: its id
/// occurs, and no id occurs twice.
pub proof fn law_union_is_complete(batches: Seq<(NodeId, Seq<DispatchView>)>, i: int, j: int)
    requires
        0 <= i < batches.len(),
        0 <= j < batches[i].1.len(),
    ensures
        has_one(firsts(joined(batches), message_id()), message_id(), batches[i].1[j].id),
        keys_distinct(firsts(joined(batches), message_id()), message_id()),
{
    lemma_joined_has(batches, i, j);
    super::dedupe::law_every_key_stays(joined(batches), message_id(), batches[i].1[j].id);
    super::dedupe::law_no_repeats(joined(batches), message_id());
}

proof fn lemma_joined_has(batches: Seq<(NodeId, Seq<DispatchView>)>, i: int, j: int)
    requires
        0 <= i < batches.len(),
        0 <= j < batches[i].1.len(),
    ensures
        has_one(joined(batches), message_id(), batches[i].1[j].id),
    decreases batches.len(),
{
    let init = joined(batches.drop_last());
    let all = joined(batches);
    if i < batches.len() - 1 {
        lemma_joined_has(batches.drop_last(), i, j);
        let k = choose|k: int| 0 <= k < init.len() && message_id()(#[trigger] init[k]) == batches[i].1[j].id;
        assert(message_id()(all[k]) == batches[i].1[j].id);
    } else {
        assert(message_id()(all[init.len() + j]) == batches[i].1[j].id);
    }
}

/// A drained page that its user acknowledges does not come again: after an
/// acknowledgement of every message of a page, none of them is in the queue.
pub proof fn law_acked_page_does_not_return(dht: DhtView, req: QueueFetchAck, peer: NodeId, now_ms: u64, k: int)
    requires
        dht.queue.wf(),
        dht.queue.writable,
        ack_is_honoured(dht, req, peer, now_ms, true),
        0 <= k < req.delivered_ids@.len(),
    ensures
        ({
            let left = queue_of(after_ack(dht, req, peer, now_ms, true).queue.rows, req.user_ipk);
            forall|i: int| 0 <= i < left.len() ==> (#[trigger] left[i]).0.subrange(40, 56) != req.delivered_ids@[k]@
        }),
{
    let listed = listed_of(req.user_ipk@, req.delivered_ids@);
    let kept = super::keyspace::others(listed);
    let rows = dht.queue.rows.filter(kept);
    let own = super::keyspace::decoded_under::<DispatchView>(req.user_ipk@, super::store::MESSAGE_KEY_SIZE as nat);
    super::keyspace::law_filter_keeps_order(dht.queue.rows, kept);
    super::keyspace::law_filter_keeps_order(rows, own);
    let left = queue_of(rows, req.user_ipk);
    assert forall|i: int| 0 <= i < left.len() implies (#[trigger] left[i]).0.subrange(40, 56)
        != req.delivered_ids@[k]@ by {
        assert(rows.contains(left[i]) && own(left[i]));
        let m = choose|m: int| 0 <= m < rows.len() && rows[m] == left[i];
        assert(kept(rows[m]));
        if left[i].0.subrange(40, 56) == req.delivered_ids@[k]@ {
            assert(super::store::names_message(req.delivered_ids@, left[i].0));
        }
    }
}

/// What was queued for a user is fetched: a page that is served after a message
/// was stored holds the message, unless older ones fill the page, and then it
/// says that there are more.
pub proof fn law_stored_is_fetched(
    before: DhtView,
    after: DhtView,
    d: DispatchView,
    stored_ms: u64,
    req: QueueFetch,
    peer: NodeId,
    now_ms: u64,
    page: QueueFetchResp,
)
    requires
        before.queue.wf(),
        enqueued(before, after, req.user_ipk, d, stored_ms, ForwardOutcome::Stored),
        fetch_is_served(after, req, peer, now_ms, true),
        fetch_page(after, req, peer, now_ms, true, page),
    ensures
        page.exhausted ==> exists|i: int| 0 <= i < page.messages@.len() && (#[trigger] page.messages@[i])@ == d,
        !page.exhausted ==> page.messages@.len() == MAX_FETCH_QUEUE_BATCH,
{
    let queue = queue_of(after.queue.rows, req.user_ipk);
    super::store::law_stored_is_queued(before.queue.rows, req.user_ipk, stored_ms, d);
    let row = (super::store::message_key(req.user_ipk, stored_ms, d.id), Some(d));
    assert(queue.contains(row));
    let k = choose|k: int| 0 <= k < queue.len() && queue[k] == row;
    if page.exhausted {
        assert(page.messages@[k]@ == d);
    }
}

/// An acknowledgement takes out of the table the messages that it names and
/// nothing else: a row of which no acknowledged id is the last sixteen of its 56
/// key bytes, or which is another user's, is still there; and where the
/// acknowledgement is honoured and the medium takes the deletion, every other
/// row of the user is gone.
pub proof fn law_unacknowledged_stay(
    dht: DhtView,
    req: QueueFetchAck,
    peer: NodeId,
    now_ms: u64,
    signed: bool,
    row: super::keyspace::RowView<DispatchView>,
)
    requires
        dht.queue.wf(),
        dht.queue.rows.contains(row),
    ensures
        ({
            let ids = req.delivered_ids@;
            let after = after_ack(dht, req, peer, now_ms, signed);
            &&& (forall|k: int| 0 <= k < ids.len() ==> (#[trigger] ids[k])@ != row.0.subrange(40, 56))
                ==> after.queue.rows.contains(row)
            &&& row.0.take(32) != req.user_ipk@ || row.0.len() != 56 ==> after.queue.rows.contains(row)
            &&& ack_is_honoured(dht, req, peer, now_ms, signed) && dht.queue.writable && row.0.len() == 56
                && row.0.take(32) == req.user_ipk@ && (exists|k: int|
                0 <= k < ids.len() && (#[trigger] ids[k])@ == row.0.subrange(40, 56)) ==> !after.queue.rows.contains(row)
            &&& after == (DhtView { queue: after.queue, ..dht })
        }),
{
    super::store::law_only_named_messages_leave(dht.queue.rows, req.user_ipk, req.delivered_ids@, row);
}

/// An acknowledgement takes nothing out of the table unless the relay that it
/// names sent it, it is not off the clock by more than the skew allowed, it
/// lists no more ids than one may, and the user signed it; one for which all of
/// that holds is honoured, and it alone is answered so.
pub proof fn law_ack_needs_all_of_it(dht: DhtView, req: QueueFetchAck, peer: NodeId, now_ms: u64, signed: bool)
    ensures
        req.requester_relay_id != peer || now_ms > req.timestamp + dht.limits.queue_skew_ms || req.timestamp > now_ms
            + dht.limits.queue_skew_ms || req.delivered_ids@.len() > dht.limits.max_fetch_queue_ack_ids || !signed ==> !ack_is_honoured(
            dht,
            req,
            peer,
            now_ms,
            signed,
        ) && after_ack(dht, req, peer, now_ms, signed) == dht,
        req.requester_relay_id == peer && now_ms <= req.timestamp + dht.limits.queue_skew_ms && req.timestamp <= now_ms
            + dht.limits.queue_skew_ms && req.delivered_ids@.len() <= dht.limits.max_fetch_queue_ack_ids && signed
            ==> ack_is_honoured(dht, req, peer, now_ms, signed),
{
}

/// A page hands out nothing unless the relay that the fetch names sent it, it is
/// not off the clock by more than the skew allowed, the user signed it, and this
/// relay is one of the closest to the user; where all of that holds it hands out
/// something of every queue that is not empty.
pub proof fn law_fetch_needs_all_of_it(
    dht: DhtView,
    req: QueueFetch,
    peer: NodeId,
    now_ms: u64,
    signed: bool,
    r: QueueFetchResp,
)
    requires
        fetch_page(dht, req, peer, now_ms, signed, r),
    ensures
        req.requester_relay_id != peer || now_ms > req.timestamp + dht.limits.queue_skew_ms || req.timestamp > now_ms
            + dht.limits.queue_skew_ms || !signed || !among_k_closest(
            dht.routing,
            dht.node_id,
            NodeId { bytes: req.user_ipk },
        ) ==> r.messages@.len() == 0 && r.exhausted,
        req.requester_relay_id == peer && now_ms <= req.timestamp + dht.limits.queue_skew_ms && req.timestamp <= now_ms
            + dht.limits.queue_skew_ms && signed && among_k_closest(
            dht.routing,
            dht.node_id,
            NodeId { bytes: req.user_ipk },
        ) ==> {
            let queued = queue_of(dht.queue.rows, req.user_ipk).len();
            &&& r.messages@.len() == (if queued <= 64 {
                queued
            } else {
                64
            })
            &&& r.exhausted <==> queued <= 64
        },
{
}

/// What a page hands out stands in the table under the user who is asked for,
/// in the order of arrival: the message at place `i` is that of the `i`-th
/// oldest row of the user.
pub proof fn law_page_is_the_oldest(
    dht: DhtView,
    req: QueueFetch,
    peer: NodeId,
    now_ms: u64,
    signed: bool,
    r: QueueFetchResp,
    i: int,
)
    requires
        dht.queue.wf(),
        fetch_page(dht, req, peer, now_ms, signed, r),
        0 <= i < r.messages@.len(),
    ensures
        ({
            let queue = queue_of(dht.queue.rows, req.user_ipk);
            &&& i < queue.len()
            &&& queue[i].1 == Some(r.messages@[i]@)
            &&& dht.queue.rows.contains(queue[i])
            &&& queue[i].0.len() == 56
            &&& queue[i].0.take(32) == req.user_ipk@
        }),
{
    let queue = queue_of(dht.queue.rows, req.user_ipk);
    assert(queue[i].1 == Some(r.messages@[i]@));
    assert(queue.contains(queue[i]));
    super::store::law_queue_is_the_users_rows(dht.queue.rows, req.user_ipk, queue[i]);
}

/// After an honoured acknowledgement the user's queue is what it was without the
/// messages whose id was named, in the same order.
pub proof fn law_ack_leaves_the_rest_of_the_queue(
    dht: DhtView,
    req: QueueFetchAck,
    peer: NodeId,
    now_ms: u64,
    other: [u8; 32],
)
    requires
        dht.queue.wf(),
        dht.queue.writable,
        ack_is_honoured(dht, req, peer, now_ms, true),
    ensures
        ({
            let after = after_ack(dht, req, peer, now_ms, true).queue.rows;
            &&& queue_of(after, req.user_ipk) == queue_of(dht.queue.rows, req.user_ipk).filter(
                |r: super::keyspace::RowView<DispatchView>|
                    !exists|k: int|
                        0 <= k < req.delivered_ids@.len() && (#[trigger] req.delivered_ids@[k])@ == r.0.subrange(40, 56),
            )
            &&& other != req.user_ipk ==> queue_of(after, other) == queue_of(dht.queue.rows, other)
        }),
{
    let rows = dht.queue.rows;
    let ids = req.delivered_ids@;
    let kept = super::keyspace::others(listed_of(req.user_ipk@, ids));
    let own = super::keyspace::decoded_under::<DispatchView>(req.user_ipk@, super::store::MESSAGE_KEY_SIZE as nat);
    let unnamed = |r: super::keyspace::RowView<DispatchView>|
        !exists|k: int| 0 <= k < ids.len() && (#[trigger] ids[k])@ == r.0.subrange(40, 56);
    let both = |r: super::keyspace::RowView<DispatchView>| own(r) && unnamed(r);
    super::keyspace::lemma_filter_twice(rows, kept, own, both);
    super::keyspace::lemma_filter_twice(rows, own, unnamed, both);
    if other != req.user_ipk {
        let theirs = super::keyspace::decoded_under::<DispatchView>(other@, super::store::MESSAGE_KEY_SIZE as nat);
        if other@ == req.user_ipk@ {
            super::wire::lemma_array_eq(other, req.user_ipk);
        }
        super::keyspace::lemma_filter_twice(rows, kept, theirs, theirs);
    }
}

/// The union of what homes brought invents nothing: every message in it was
/// brought, whole, by some home.
pub proof fn law_union_invents_nothing(batches: Seq<(NodeId, Seq<DispatchView>)>, k: int)
    requires
        0 <= k < firsts(joined(batches), message_id()).len(),
    ensures
        exists|i: int, j: int|
            0 <= i < batches.len() && 0 <= j < batches[i].1.len() && #[trigger] batches[i].1[j] == firsts(
                joined(batches),
                message_id(),
            )[k],
{
    let all = joined(batches);
    super::dedupe::law_first_occurrence_stays(all, message_id());
    let at = choose|at: Seq<int>| super::dedupe::stood_first(all, message_id(), firsts(all, message_id()), at);
    assert(0 <= at[k] < all.len());
    lemma_joined_from(batches, at[k]);
}

proof fn lemma_joined_from(batches: Seq<(NodeId, Seq<DispatchView>)>, k: int)
    requires
        0 <= k < joined(batches).len(),
    ensures
        exists|i: int, j: int|
            0 <= i < batches.len() && 0 <= j < batches[i].1.len() && #[trigger] batches[i].1[j] == joined(batches)[k],
    decreases batches.len(),
{
    let init = batches.drop_last();
    let n = joined(init).len();
    if k < n {
        lemma_joined_from(init, k);
        let (i, j) = choose|i: int, j: int|
            0 <= i < init.len() && 0 <= j < init[i].1.len() && #[trigger] init[i].1[j] == joined(init)[k];
        assert(batches[i].1[j] == joined(batches)[k]);
    } else {
        assert(batches[batches.len() - 1].1[k - n] == joined(batches)[k]);
    }
}

/// The list of who brought what names under a home exactly the messages that it
/// brought, and lists every home that brought a batch.
pub proof fn law_homes_are_told_what_they_brought(
    batches: Seq<(NodeId, Seq<DispatchView>)>,
    r: Seq<(NodeId, Vec<[u8; 16]>)>,
    h: int,
    id: [u8; 16],
    b: int,
)
    requires
        lists_homes(batches, r),
        0 <= h < r.len(),
        0 <= b < batches.len(),
    ensures
        r[h].1@.contains(id) <==> exists|i: int, j: int|
            0 <= i < batches.len() && batches[i].0 == r[h].0 && 0 <= j < batches[i].1.len()
                && (#[trigger] batches[i].1[j]).id == id,
        exists|k: int| 0 <= k < r.len() && (#[trigger] r[k]).0 == batches[b].0,
        forall|k: int| 0 <= k < r.len() && k != h ==> (#[trigger] r[k]).0 != r[h].0,
{
    lemma_ids_from_contains(batches, r[h].0, id);
    assert(r[h].1@ == ids_from(batches, r[h].0));
    assert(home_of()(batches[b]) == batches[b].0);
    assert(has_one(batches, home_of(), batches[b].0));
    assert(has_one(r, home_in_list(), batches[b].0));
    let k = choose|k: int| 0 <= k < r.len() && home_in_list()(#[trigger] r[k]) == batches[b].0;
    assert(r[k].0 == batches[b].0);
    assert forall|k: int| 0 <= k < r.len() && k != h implies (#[trigger] r[k]).0 != r[h].0 by {
        if k < h {
            assert(home_in_list()(r[k]) != home_in_list()(r[h]));
        } else {
            assert(home_in_list()(r[h]) != home_in_list()(r[k]));
        }
    }
}

proof fn lemma_ids_from_contains(batches: Seq<(NodeId, Seq<DispatchView>)>, node: NodeId, id: [u8; 16])
    ensures
        ids_from(batches, node).contains(id) <==> exists|i: int, j: int|
            0 <= i < batches.len() && batches[i].0 == node && 0 <= j < batches[i].1.len()
                && (#[trigger] batches[i].1[j]).id == id,
    decreases batches.len(),
{
    if batches.len() > 0 {
        let init = batches.drop_last();
        let last = batches.last();
        let n = batches.len() - 1;
        lemma_ids_from_contains(init, node, id);
        let all = ids_from(batches, node);
        let before = ids_from(init, node);
        if all.contains(id) {
            let k = choose|k: int| 0 <= k < all.len() && all[k] == id;
            if k < before.len() {
                assert(before[k] == id);
                let (i, j) = choose|i: int, j: int|
                    0 <= i < init.len() && init[i].0 == node && 0 <= j < init[i].1.len()
                        && (#[trigger] init[i].1[j]).id == id;
                assert(batches[i].1[j].id == id);
            } else {
                assert(batches[n].1[k - before.len()].id == id);
            }
        }
        if exists|i: int, j: int|
            0 <= i < batches.len() && batches[i].0 == node && 0 <= j < batches[i].1.len()
                && (#[trigger] batches[i].1[j]).id == id {
            let (i, j) = choose|i: int, j: int|
                0 <= i < batches.len() && batches[i].0 == node && 0 <= j < batches[i].1.len()
                    && (#[trigger] batches[i].1[j]).id == id;
            if i < n {
                assert(init[i].1[j].id == id);
                let k = choose|k: int| 0 <= k < before.len() && before[k] == id;
                assert(all[k] == id);
            } else {
                assert(all[before.len() + j] == id);
            }
        }
    }
}

/// What the homes brought is gathered home after home: before the messages of
/// one stand those of the homes before it, and behind them the rest.
pub proof fn law_homes_come_in_order(batches: Seq<(NodeId, Seq<DispatchView>)>, i: int, k: int)
    requires
        0 <= i < batches.len(),
        0 <= k < batches[i].1.len(),
    ensures
        joined(batches.take(i)).len() + batches[i].1.len() <= joined(batches).len(),
        joined(batches)[joined(batches.take(i)).len() + k] == batches[i].1[k],
    decreases batches.len(),
{
    let init = batches.drop_last();
    if i < batches.len() - 1 {
        assert(init.take(i) =~= batches.take(i));
        law_homes_come_in_order(init, i, k);
    } else {
        assert(init =~= batches.take(i));
    }
}

/// A message that several homes brought stands in the union where the first of
/// them put it: what the first home brought, each message once, comes first.
pub proof fn law_first_home_comes_first(batches: Seq<(NodeId, Seq<DispatchView>)>)
    requires
        batches.len() > 0,
    ensures
        ({
            let first = firsts(batches[0].1, message_id());
            let all = firsts(joined(batches), message_id());
            first.len() <= all.len() && all.take(first.len() as int) == first
        }),
    decreases batches.len(),
{
    if batches.len() == 1 {
        assert(joined(batches.drop_last()) =~= Seq::empty());
        assert(joined(batches) =~= batches[0].1);
        let first = firsts(batches[0].1, message_id());
        assert(first.take(first.len() as int) =~= first);
    } else {
        let init = batches.drop_last();
        assert(init[0] == batches[0]);
        law_first_home_comes_first(init);
        lemma_firsts_grow(joined(init), batches.last().1, message_id());
        let first = firsts(batches[0].1, message_id());
        let mid = firsts(joined(init), message_id());
        let all = firsts(joined(batches), message_id());
        assert(all.take(first.len() as int) =~= mid.take(first.len() as int));
    }
}

/// More elements leave the first occurrences of those before where they stand.
proof fn lemma_firsts_grow(s: Seq<DispatchView>, more: Seq<DispatchView>, key: spec_fn(DispatchView) -> [u8; 16])
    ensures
        firsts(s, key).len() <= firsts(s + more, key).len(),
        firsts(s + more, key).take(firsts(s, key).len() as int) == firsts(s, key),
    decreases more.len(),
{
    if more.len() == 0 {
        assert(s + more =~= s);
        assert(firsts(s, key).take(firsts(s, key).len() as int) =~= firsts(s, key));
    } else {
        lemma_firsts_grow(s, more.drop_last(), key);
        assert((s + more).drop_last() =~= s + more.drop_last());
        let before = firsts(s + more.drop_last(), key);
        let n = firsts(s, key).len() as int;
        assert(firsts(s + more, key).take(n) =~= before.take(n));
    }
}

} // verus!
