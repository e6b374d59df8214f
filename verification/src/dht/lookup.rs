//! Iterative lookups: the walk towards the peers closest to a target.
//!
//! A [`Lookup`] decides whom to ask next and when the walk has converged; its
//! owner sends the requests and hands the replies back. The connections that
//! the walk needs are remembered here too.

use super::bytes::{less32, xor32, xor_seq};
use super::config::{ALPHA, K, LOOKUP_HEDGE_MS, LOOKUP_MAX_HOPS};
use super::dedupe::{firsts, has_one, keys_distinct, law_every_key_stays, lemma_firsts_push};
use super::id::{distance, law_distance_tells_apart, NodeDescriptor, NodeId};
use super::keyspace::{lemma_drop_all, lemma_filter_empty, lemma_filter_one, lemma_filter_step};
use super::metrics::{bumped, Counter, Metrics};
use super::routing::{
    bucket_of, descriptors, holds_id, is_nearest, law_active_peers, law_bucket_exists, law_probe_failed_keeps_bucket,
    law_probe_failure_is_noted, law_probe_success_is_noted,
    law_three_failures_evict, nearest_descriptors, place_of, PingFailedOutcome, RoutingEntry,
};
use super::wire::CloseReason;
use super::{conns_distinct, Dht, DhtView, PeerConn};
use vstd::prelude::*;
use vstd::string::StringExecFns;

verus! {

/// Peers that a walk begins with: twice [`K`].
pub const LOOKUP_SEEDS: usize = K + K;

/// Why a lookup failed.
#[derive(Debug)]
pub enum LookupError {
    /// The routing table is empty.
    NoCandidates,
    /// The time of the whole walk was up before it converged.
    Timeout,
    /// The walk took [`LOOKUP_MAX_HOPS`] hops and had not converged.
    MaxHopsExceeded,
    /// Every peer that was asked failed; with what there is to say of it.
    PeerConnect(String),
}

/// A peer of the walk with its distance from the target.
#[derive(Clone, Copy, Debug)]
pub struct Candidate {
    pub desc: NodeDescriptor,
    pub distance: [u8; 32],
}

impl Candidate {
    /// The peer with its distance from `target`.
    fn new(target: &NodeId, desc: NodeDescriptor) -> (r: Candidate)
        ensures
            r.desc == desc,
            r.of(*target),
    {
        Candidate { desc, distance: xor32(desc.id.as_bytes(), target.as_bytes()) }
    }

    /// The distance is that of the peer from `target`.
    pub open spec fn of(self, target: NodeId) -> bool {
        self.distance@ == xor_seq(self.desc.id@, target@)
    }
}

/// A walk towards the peers closest to a target.
#[derive(Debug)]
pub struct Lookup {
    pub target: NodeId,
    pub candidates: Vec<Candidate>,
    pub queried: Vec<NodeId>,
    pub closest: Vec<Candidate>,
    pub hops: u32,
    pub failed: usize,
}

/// What a [`Lookup`] holds.
#[verifier::ext_equal]
pub struct LookupView {
    pub target: NodeId,
    /// Peers that the walk knows.
    pub candidates: Seq<NodeDescriptor>,
    /// Peers that are not to be asked, for they were asked or are this relay.
    pub queried: Seq<NodeId>,
    /// The closest candidates after the last hop.
    pub closest: Seq<NodeDescriptor>,
    pub hops: u32,
    /// How many of the requests failed.
    pub failed: usize,
}

/// The peers of candidates.
pub open spec fn peers_of(cs: Seq<Candidate>) -> Seq<NodeDescriptor> {
    Seq::new(cs.len(), |i: int| cs[i].desc)
}

impl View for Lookup {
    type V = LookupView;

    open spec fn view(&self) -> LookupView {
        LookupView {
            target: self.target,
            candidates: peers_of(self.candidates@),
            queried: self.queried@,
            closest: peers_of(self.closest@),
            hops: self.hops,
            failed: self.failed,
        }
    }
}

/// Peers stand in the order of their distance from `target`.
pub open spec fn by_distance(target: NodeId, peers: Seq<NodeDescriptor>) -> bool {
    forall|i: int, j: int|
        0 <= i < j < peers.len() ==> distance(#[trigger] peers[i].id, target) <= distance(
            #[trigger] peers[j].id,
            target,
        )
}

/// The id of a peer.
pub open spec fn peer_id() -> spec_fn(NodeDescriptor) -> NodeId {
    |d: NodeDescriptor| d.id
}

impl Lookup {
    /// The distances are those of the peers, and no peer is there twice.
    pub open spec fn wf(&self) -> bool {
        &&& forall|i: int| 0 <= i < self.candidates@.len() ==> (#[trigger] self.candidates@[i]).of(self.target)
        &&& forall|i: int| 0 <= i < self.closest@.len() ==> (#[trigger] self.closest@[i]).of(self.target)
        &&& keys_distinct(self@.candidates, peer_id())
        &&& keys_distinct(self@.closest, peer_id())
    }
}

/// The first `n` of these, or all where there are fewer.
pub open spec fn at_most<A>(s: Seq<A>, n: nat) -> Seq<A> {
    if s.len() <= n {
        s
    } else {
        s.take(n as int)
    }
}

// ---------------------------------------------------------------------------
// Beginning
// ---------------------------------------------------------------------------

/// A walk that has not asked anybody: it knows `near`, and will not ask
/// `self_id`.
pub open spec fn first_state(target: NodeId, self_id: NodeId, near: Seq<NodeDescriptor>) -> LookupView {
    LookupView { target, candidates: near, queried: seq![self_id], closest: Seq::empty(), hops: 0, failed: 0 }
}

/// Begins a walk from the peers that the routing table knows closest to the
/// target. This relay is never asked.
pub fn begin_lookup(dht: &mut Dht, target: &NodeId) -> (r: Result<Lookup, LookupError>)
    requires
        old(dht).wf(),
    ensures
        final(dht).wf(),
        exists|near: Seq<NodeDescriptor>|
            {
                &&& #[trigger] nearest_descriptors(old(dht)@.routing, *target, LOOKUP_SEEDS as nat, near)
                &&& match r {
                    Ok(walk) => near.len() > 0 && walk@ == first_state(*target, old(dht)@.node_id, near),
                    Err(e) => near.len() == 0 && e is NoCandidates,
                }
            },
        match r {
            Ok(walk) => {
                &&& walk.wf()
                &&& by_distance(*target, walk@.candidates)
                &&& final(dht)@ == (DhtView {
                    metrics: Metrics {
                        lookups_started: bumped(old(dht)@.metrics.lookups_started),
                        ..old(dht)@.metrics
                    },
                    ..old(dht)@
                })
            },
            Err(_) => final(dht)@ == (DhtView {
                metrics: Metrics {
                    lookups_started: bumped(old(dht)@.metrics.lookups_started),
                    lookups_failed: bumped(old(dht)@.metrics.lookups_failed),
                    ..old(dht)@.metrics
                },
                ..old(dht)@
            }),
        },
{
    dht.metrics.inc_lookups_started();
    let initial: Vec<NodeDescriptor> = dht.routing.find_closest(target, LOOKUP_SEEDS);
    assert(nearest_descriptors(dht@.routing, *target, LOOKUP_SEEDS as nat, initial@));
    if initial.len() == 0 {
        dht.metrics.inc_lookups_failed();
        return Err(LookupError::NoCandidates);
    }
    let mut candidates: Vec<Candidate> = Vec::new();
    let mut i: usize = 0;
    while i < initial.len()
        invariant
            0 <= i <= initial.len(),
            candidates.len() == i,
            forall|k: int|
                0 <= k < i ==> (#[trigger] candidates@[k]).of(*target) && candidates@[k].desc == initial@[k],
        decreases initial.len() - i,
    {
        candidates.push(Candidate::new(target, initial[i]));
        i = i + 1;
    }
    let mut queried: Vec<NodeId> = Vec::new();
    queried.push(dht.node_id);
    let walk = Lookup { target: *target, candidates, queried, closest: Vec::new(), hops: 0, failed: 0 };
    proof {
        assert(walk@.candidates =~= initial@);
        assert(walk@.closest =~= Seq::empty());
        assert(walk@ =~= first_state(*target, dht@.node_id, initial@));
        let s = choose|s: Seq<RoutingEntry>|
            #[trigger] is_nearest(dht@.routing.active(), *target, LOOKUP_SEEDS as nat, s) && initial@ == descriptors(s);
        assert forall|a: int, b: int| 0 <= a < b < initial@.len() implies distance(
            #[trigger] initial@[a].id,
            *target,
        ) <= distance(#[trigger] initial@[b].id, *target) by {
            assert(distance(s[a].id, *target) < distance(s[b].id, *target));
        }
        assert forall|a: int, b: int| 0 <= a < b < initial@.len() implies peer_id()(#[trigger] initial@[a])
            != peer_id()(#[trigger] initial@[b]) by {
            assert(distance(s[a].id, *target) < distance(s[b].id, *target));
        }
    }
    Ok(walk)
}

// ---------------------------------------------------------------------------
// A hop
// ---------------------------------------------------------------------------

/// What a walk does next.
#[derive(Debug)]
pub enum LookupStep {
    /// Ask these peers.
    Ask(Vec<NodeDescriptor>),
    /// The walk is over.
    Done,
    /// The walk failed.
    Failed(LookupError),
}

/// The peers that are not in this list.
pub open spec fn unasked(queried: Seq<NodeId>) -> spec_fn(NodeDescriptor) -> bool {
    |d: NodeDescriptor| !queried.contains(d.id)
}

/// The ids of peers.
pub open spec fn ids_of(peers: Seq<NodeDescriptor>) -> Seq<NodeId> {
    Seq::new(peers.len(), |i: int| peers[i].id)
}

/// Whether an id is in a list.
fn contains_id(ids: &Vec<NodeId>, id: &NodeId) -> (r: bool)
    ensures
        r == ids@.contains(*id),
{
    let mut i: usize = 0;
    while i < ids.len()
        invariant
            0 <= i <= ids.len(),
            forall|k: int| 0 <= k < i ==> ids@[k] != *id,
        decreases ids.len() - i,
    {
        if ids[i].same(id) {
            assert(ids@[i as int] == *id);
            return true;
        }
        i = i + 1;
    }
    false
}

impl Lookup {
    /// The first candidates that were not asked, at most `most` of them.
    fn choose_unasked(&self, most: usize) -> (r: Vec<NodeDescriptor>)
        requires
            self.wf(),
        ensures
            r@ == at_most(self@.candidates.filter(unasked(self@.queried)), most as nat),
    {
        let ghost before = self@;
        let ghost keep = unasked(self@.queried);
        let mut batch: Vec<NodeDescriptor> = Vec::new();
        let mut i: usize = 0;
        proof {
            lemma_filter_empty(before.candidates, keep);
        }
        while i < self.candidates.len() && batch.len() < most
            invariant
                0 <= i <= self.candidates.len(),
                self@ == before,
                self.wf(),
                keep == unasked(before.queried),
                batch.len() <= most,
                batch@ == before.candidates.take(i as int).filter(keep),
            decreases self.candidates.len() - i,
        {
            proof {
                lemma_filter_step(before.candidates, keep, i as int);
            }
            if !contains_id(&self.queried, &self.candidates[i].desc.id) {
                batch.push(self.candidates[i].desc);
            }
            i = i + 1;
        }
        proof {
            let all = before.candidates;
            assert(all =~= all.take(i as int) + all.skip(i as int));
            Seq::filter_distributes_over_add(all.take(i as int), all.skip(i as int), keep);
            if i == all.len() {
                assert(all.take(i as int) =~= all);
            }
            assert(batch@ =~= at_most(all.filter(keep), most as nat));
        }
        batch
    }

    /// Begins a hop: the first [`ALPHA`] candidates that were not asked are to
    /// be asked. `timed_out` says whether the time of the whole walk is up.
    pub fn next_batch(&mut self, timed_out: bool) -> (r: LookupStep)
        requires
            old(self).wf(),
        ensures
            final(self).wf(),
            ({
                let batch = at_most(old(self)@.candidates.filter(unasked(old(self)@.queried)), ALPHA as nat);
                if timed_out {
                    r matches LookupStep::Failed(e) && e is Timeout && final(self)@ == old(self)@
                } else if old(self)@.hops >= LOOKUP_MAX_HOPS {
                    r matches LookupStep::Failed(e) && e is MaxHopsExceeded && final(self)@ == old(self)@
                } else if batch.len() == 0 {
                    r is Done && final(self)@ == old(self)@
                } else {
                    &&& r matches LookupStep::Ask(peers)
                    &&& peers@ == batch
                    &&& final(self)@ == (LookupView { queried: old(self)@.queried + ids_of(batch), ..old(self)@ })
                }
            }),
            r matches LookupStep::Ask(peers) ==> {
                &&& !timed_out
                &&& old(self)@.hops < 8
                &&& 0 < peers@.len() <= 3
                &&& forall|i: int|
                    0 <= i < peers@.len() ==> !old(self)@.queried.contains((#[trigger] peers@[i]).id)
                        && final(self)@.queried.contains(peers@[i].id)
                &&& final(self)@.queried.len() == old(self)@.queried.len() + peers@.len()
            },
            r is Done ==> forall|i: int|
                0 <= i < old(self)@.candidates.len() ==> old(self)@.queried.contains(
                    (#[trigger] old(self)@.candidates[i]).id,
                ),
    {
        if timed_out {
            return LookupStep::Failed(LookupError::Timeout);
        }
        if self.hops >= LOOKUP_MAX_HOPS {
            return LookupStep::Failed(LookupError::MaxHopsExceeded);
        }
        let ghost before = self@;
        let batch: Vec<NodeDescriptor> = self.choose_unasked(ALPHA);
        let ghost keep = unasked(before.queried);
        let ghost rest = before.candidates.filter(keep);
        if batch.len() == 0 {
            proof {
                assert forall|i: int| 0 <= i < before.candidates.len() implies before.queried.contains(
                    (#[trigger] before.candidates[i]).id,
                ) by {
                    if keep(before.candidates[i]) {
                        lemma_kept_stays(before.candidates, keep, i);
                    }
                }
            }
            return LookupStep::Done;
        }
        let mut j: usize = 0;
        assert(before.queried + ids_of(batch@).take(0) =~= before.queried);
        while j < batch.len()
            invariant
                0 <= j <= batch.len(),
                self@ == (LookupView { queried: before.queried + ids_of(batch@).take(j as int), ..before }),
                self.wf(),
            decreases batch.len() - j,
        {
            self.queried.push(batch[j].id);
            j = j + 1;
            assert(self@.queried =~= before.queried + ids_of(batch@).take(j as int));
        }
        assert(ids_of(batch@).take(j as int) =~= ids_of(batch@));
        proof {
            assert forall|i: int| 0 <= i < batch@.len() implies !before.queried.contains((#[trigger] batch@[i]).id)
                && self@.queried.contains(batch@[i].id) by {
                let at = lemma_filter_member(before.candidates, keep, i);
                assert(self@.queried[before.queried.len() + i] == batch@[i].id);
            }
        }
        LookupStep::Ask(batch)
    }
}

/// How long to wait for the next reply of a hop.
#[derive(Clone, Copy, Debug, PartialEq, Eq, Structural)]
pub enum HopWait {
    /// The time of the whole walk is up.
    TimedOut,
    /// Wait this many milliseconds.
    For(u64),
}

/// How long to wait for the next reply before the hop hedges: a short while,
/// or what is left of the time of the whole walk.
pub fn hop_wait(remaining_ms: u64) -> (r: HopWait)
    ensures
        r == (if remaining_ms == 0 {
            HopWait::TimedOut
        } else if LOOKUP_HEDGE_MS < remaining_ms {
            HopWait::For(LOOKUP_HEDGE_MS)
        } else {
            HopWait::For(remaining_ms)
        }),
        r matches HopWait::For(ms) ==> 0 < ms <= remaining_ms && ms <= 150 && (ms == remaining_ms || ms == 150),
{
    if remaining_ms == 0 {
        return HopWait::TimedOut;
    }
    if LOOKUP_HEDGE_MS < remaining_ms {
        return HopWait::For(LOOKUP_HEDGE_MS);
    }
    HopWait::For(remaining_ms)
}

/// The peers whose id is not among these.
pub open spec fn new_to(known: Seq<NodeId>) -> spec_fn(NodeDescriptor) -> bool {
    |d: NodeDescriptor| !known.contains(d.id)
}

/// The candidates after a reply: those that were there, and behind them each
/// peer that the reply names and they did not hold, once.
pub open spec fn widened(candidates: Seq<NodeDescriptor>, closer: Seq<NodeDescriptor>) -> Seq<NodeDescriptor> {
    candidates + firsts(closer.filter(new_to(ids_of(candidates))), peer_id())
}

impl Lookup {
    /// Whether the walk knows a peer.
    fn knows(&self, id: &NodeId) -> (r: bool)
        ensures
            r == has_one(self@.candidates, peer_id(), *id),
    {
        let mut i: usize = 0;
        while i < self.candidates.len()
            invariant
                0 <= i <= self.candidates.len(),
                forall|k: int| 0 <= k < i ==> peer_id()(#[trigger] self@.candidates[k]) != *id,
            decreases self.candidates.len() - i,
        {
            if self.candidates[i].desc.id.same(id) {
                assert(peer_id()(self@.candidates[i as int]) == *id);
                return true;
            }
            i = i + 1;
        }
        false
    }

    /// Takes the peers of a reply into the walk. Those that it knew before are
    /// passed over, and those that the reply names again.
    pub fn integrate_descriptors(&mut self, closer: &Vec<NodeDescriptor>)
        requires
            old(self).wf(),
        ensures
            final(self).wf(),
            final(self)@ == (LookupView {
                candidates: widened(old(self)@.candidates, closer@),
                ..old(self)@
            }),
    {
        let ghost before = self@;
        let ghost known = before.candidates;
        let ghost keep = new_to(ids_of(known));
        let target: NodeId = self.target;
        let mut j: usize = 0;
        proof {
            lemma_filter_empty(closer@, keep);
            assert(known + firsts(Seq::<NodeDescriptor>::empty(), peer_id()) =~= known);
        }
        while j < closer.len()
            invariant
                0 <= j <= closer.len(),
                known == before.candidates,
                keep == new_to(ids_of(known)),
                target == before.target,
                self.wf(),
                self@ == (LookupView {
                    candidates: known + firsts(closer@.take(j as int).filter(keep), peer_id()),
                    ..before
                }),
            decreases closer.len() - j,
        {
            let ghost had = self@.candidates;
            let ghost cs = self.candidates@;
            let ghost sofar = closer@.take(j as int).filter(keep);
            let ghost d = closer@[j as int];
            proof {
                lemma_filter_step(closer@, keep, j as int);
                lemma_firsts_push(sofar, peer_id(), d);
                lemma_joined_has(known, firsts(sofar, peer_id()), d.id);
            }
            if !self.knows(&closer[j].id) {
                self.candidates.push(Candidate::new(&target, closer[j]));
                proof {
                    assert(self@.candidates =~= had.push(d));
                    assert(self@.candidates =~= known + firsts(sofar.push(d), peer_id()));
                    assert forall|k: int| 0 <= k < self.candidates@.len() implies (#[trigger] self.candidates@[k]).of(
                        self.target,
                    ) by {
                        if k < cs.len() {
                            assert(cs[k].of(self.target));
                        }
                    }
                    lemma_distinct_push(had, d);
                }
            }
            j = j + 1;
        }
        assert(closer@.take(j as int) =~= closer@);
    }
}

/// Who is in two lists together.
proof fn lemma_joined_has(a: Seq<NodeDescriptor>, b: Seq<NodeDescriptor>, id: NodeId)
    ensures
        has_one(a + b, peer_id(), id) <==> has_one(a, peer_id(), id) || has_one(b, peer_id(), id),
        has_one(a, peer_id(), id) <==> ids_of(a).contains(id),
{
    let key = peer_id();
    if has_one(a + b, key, id) {
        let i = choose|i: int| 0 <= i < (a + b).len() && key(#[trigger] (a + b)[i]) == id;
        if i < a.len() {
            assert(key(a[i]) == id);
        } else {
            assert(key(b[i - a.len()]) == id);
        }
    }
    if has_one(a, key, id) {
        let i = choose|i: int| 0 <= i < a.len() && key(#[trigger] a[i]) == id;
        assert(key((a + b)[i]) == id);
        assert(ids_of(a)[i] == id);
    }
    if has_one(b, key, id) {
        let i = choose|i: int| 0 <= i < b.len() && key(#[trigger] b[i]) == id;
        assert(key((a + b)[a.len() + i]) == id);
    }
    if ids_of(a).contains(id) {
        let i = choose|i: int| 0 <= i < ids_of(a).len() && ids_of(a)[i] == id;
        assert(key(a[i]) == id);
    }
}

/// A list without repeats and a peer that it does not hold.
proof fn lemma_distinct_push(s: Seq<NodeDescriptor>, d: NodeDescriptor)
    requires
        keys_distinct(s, peer_id()),
        !has_one(s, peer_id(), d.id),
    ensures
        keys_distinct(s.push(d), peer_id()),
{
    let t = s.push(d);
    assert forall|i: int, j: int| 0 <= i < j < t.len() implies peer_id()(#[trigger] t[i]) != peer_id()(
        #[trigger] t[j],
    ) by {
        assert(t[i] == s[i]);
        if j < s.len() {
            assert(t[j] == s[j]);
        } else {
            assert(peer_id()(s[i]) != d.id);
        }
    }
}

/// What a hop can hear while it waits.
#[derive(Debug)]
pub enum HopEvent {
    /// A peer named closer ones.
    Reply(Vec<NodeDescriptor>),
    /// A peer could not be reached or answered something else.
    Failed,
    /// A request was lost before it had an outcome.
    Lost,
    /// Nothing came for as long as the hop waited.
    Silence,
    /// Every request has had its outcome.
    Drained,
}

/// What a hop does after an event.
#[derive(Debug)]
pub enum HopStep {
    /// Wait on.
    Wait,
    /// Ask this peer too, and wait on. Nothing that is on its way is given up.
    Hedge(NodeDescriptor),
    /// The hop is over.
    End,
}

/// One more failure. As many as there can be requests are counted.
pub open spec fn one_more(failed: usize) -> usize {
    if failed == usize::MAX {
        failed
    } else {
        (failed + 1) as usize
    }
}

/// The walk after an event of a hop, and whether a request has had its outcome
/// in the hop then.
pub open spec fn after_event(walk: LookupView, got_one: bool, event: HopEvent) -> (LookupView, bool) {
    match event {
        HopEvent::Reply(closer) => (
            LookupView { candidates: widened(walk.candidates, closer@), ..walk },
            true,
        ),
        HopEvent::Failed => (LookupView { failed: one_more(walk.failed), ..walk }, true),
        HopEvent::Silence => {
            let rest = walk.candidates.filter(unasked(walk.queried));
            if !got_one && rest.len() > 0 {
                (LookupView { queried: walk.queried.push(rest[0].id), ..walk }, got_one)
            } else {
                (walk, got_one)
            }
        },
        HopEvent::Lost | HopEvent::Drained => (walk, got_one),
    }
}

impl Lookup {
    /// Takes one event of a hop; `got_one` says whether a request has had its
    /// outcome in this hop. The hop is over when every request has had its
    /// outcome, or when nothing more came after one. While there was none,
    /// silence makes the hop ask the next candidate in parallel.
    pub fn on_event(&mut self, got_one: &mut bool, event: &HopEvent) -> (r: HopStep)
        requires
            old(self).wf(),
        ensures
            final(self).wf(),
            match event {
                HopEvent::Reply(closer) => {
                    &&& r is Wait
                    &&& *final(got_one)
                    &&& final(self)@ == (LookupView {
                        candidates: widened(old(self)@.candidates, closer@),
                        ..old(self)@
                    })
                },
                HopEvent::Failed => {
                    &&& r is Wait
                    &&& *final(got_one)
                    &&& final(self)@ == (LookupView { failed: one_more(old(self)@.failed), ..old(self)@ })
                },
                HopEvent::Lost => r is Wait && *final(got_one) == *old(got_one) && final(self)@ == old(self)@,
                HopEvent::Silence => {
                    let rest = old(self)@.candidates.filter(unasked(old(self)@.queried));
                    &&& *final(got_one) == *old(got_one)
                    &&& if *old(got_one) {
                        r is End && final(self)@ == old(self)@
                    } else if rest.len() == 0 {
                        r is Wait && final(self)@ == old(self)@
                    } else {
                        &&& r == HopStep::Hedge(rest[0])
                        &&& final(self)@ == (LookupView {
                            queried: old(self)@.queried.push(rest[0].id),
                            ..old(self)@
                        })
                    }
                },
                HopEvent::Drained => r is End && *final(got_one) == *old(got_one) && final(self)@ == old(self)@,
            },
            final(self)@ == after_event(old(self)@, *old(got_one), *event).0,
            *final(got_one) == after_event(old(self)@, *old(got_one), *event).1,
    {
        match event {
            HopEvent::Reply(closer) => {
                *got_one = true;
                self.integrate_descriptors(closer);
                HopStep::Wait
            },
            HopEvent::Failed => {
                *got_one = true;
                self.failed = self.failed.saturating_add(1);
                HopStep::Wait
            },
            HopEvent::Lost => HopStep::Wait,
            HopEvent::Silence => {
                if *got_one {
                    return HopStep::End;
                }
                let next: Vec<NodeDescriptor> = self.choose_unasked(1);
                if next.len() == 0 {
                    return HopStep::Wait;
                }
                self.queried.push(next[0].id);
                HopStep::Hedge(next[0])
            },
            HopEvent::Drained => HopStep::End,
        }
    }
}

// ---------------------------------------------------------------------------
// Ending a hop
// ---------------------------------------------------------------------------

/// The peers with this id.
pub open spec fn with_id(id: NodeId) -> spec_fn(NodeDescriptor) -> bool {
    |d: NodeDescriptor| d.id == id
}

/// `after` holds what `before` holds in the order of distance, and peers with
/// one id in the order in which they stood.
pub open spec fn is_sort_of(target: NodeId, before: Seq<NodeDescriptor>, after: Seq<NodeDescriptor>) -> bool {
    &&& by_distance(target, after)
    &&& forall|id: NodeId| #[trigger] after.filter(with_id(id)) == before.filter(with_id(id))
}

/// Puts a peer after those that are not farther away.
fn insert_sorted(target: &NodeId, out: &mut Vec<Candidate>, c: Candidate)
    requires
        by_distance(*target, peers_of(old(out)@)),
        forall|i: int| 0 <= i < old(out)@.len() ==> (#[trigger] old(out)@[i]).of(*target),
        c.of(*target),
    ensures
        by_distance(*target, peers_of(final(out)@)),
        forall|i: int| 0 <= i < final(out)@.len() ==> (#[trigger] final(out)@[i]).of(*target),
        final(out)@.len() == old(out)@.len() + 1,
        forall|id: NodeId| #[trigger]
            peers_of(final(out)@).filter(with_id(id)) == peers_of(old(out)@).push(c.desc).filter(with_id(id)),
{
    let ghost before = out@;
    let ghost peers = peers_of(out@);
    let mut at: usize = out.len();
    while at > 0 && less32(&c.distance, &out[at - 1].distance)
        invariant
            0 <= at <= out.len(),
            out@ == before,
            peers == peers_of(before),
            c.of(*target),
            forall|i: int| 0 <= i < before.len() ==> (#[trigger] before[i]).of(*target),
            forall|i: int|
                at <= i < peers.len() ==> distance(c.desc.id, *target) < distance(#[trigger] peers[i].id, *target),
        decreases at,
    {
        at = at - 1;
    }
    out.insert(at, c);
    proof {
        let k = at as int;
        let after = peers_of(out@);
        assert(after =~= peers.insert(k, c.desc));
        if k > 0 {
            assert(distance(peers[k - 1].id, *target) <= distance(c.desc.id, *target));
        }
        assert(by_distance(*target, after)) by {
            assert forall|i: int, j: int| 0 <= i < j < after.len() implies distance(
                #[trigger] after[i].id,
                *target,
            ) <= distance(#[trigger] after[j].id, *target) by {
                if i < k {
                    assert(after[i] == peers[i]);
                    if i < k - 1 {
                        assert(distance(peers[i].id, *target) <= distance(peers[k - 1].id, *target));
                    }
                    if j < k {
                        assert(after[j] == peers[j]);
                    } else if j > k {
                        assert(after[j] == peers[j - 1]);
                    }
                } else {
                    assert(after[j] == peers[j - 1]);
                    if i > k {
                        assert(after[i] == peers[i - 1]);
                    }
                }
            }
        }
        assert forall|i: int| 0 <= i < out@.len() implies (#[trigger] out@[i]).of(*target) by {
            if i < k {
                assert(out@[i] == before[i]);
            } else if i > k {
                assert(out@[i] == before[i - 1]);
            }
        }
        assert forall|id: NodeId| #[trigger] after.filter(with_id(id)) == peers.push(c.desc).filter(
            with_id(id),
        ) by {
            lemma_inserted_filter(*target, peers, k, c.desc, id);
        }
    }
}

/// What a peer put among others changes for one id.
proof fn lemma_inserted_filter(target: NodeId, peers: Seq<NodeDescriptor>, k: int, d: NodeDescriptor, id: NodeId)
    requires
        0 <= k <= peers.len(),
        forall|i: int| k <= i < peers.len() ==> distance(d.id, target) < distance(#[trigger] peers[i].id, target),
    ensures
        peers.insert(k, d).filter(with_id(id)) == peers.push(d).filter(with_id(id)),
{
    let keep = with_id(id);
    let head = peers.take(k);
    let tail = peers.skip(k);
    let one = seq![d];
    assert(peers.insert(k, d) =~= (head + one) + tail);
    assert(peers.push(d) =~= (head + tail) + one);
    Seq::filter_distributes_over_add(head + one, tail, keep);
    Seq::filter_distributes_over_add(head, one, keep);
    Seq::filter_distributes_over_add(head + tail, one, keep);
    Seq::filter_distributes_over_add(head, tail, keep);
    lemma_filter_one(d, keep);
    if d.id == id {
        assert forall|i: int| 0 <= i < tail.len() implies !keep(#[trigger] tail[i]) by {
            assert(tail[i] == peers[k + i]);
        }
        lemma_drop_all(tail, keep);
    }
    assert(peers.insert(k, d).filter(keep) =~= peers.push(d).filter(keep));
}

/// Of a list without repeats, one peer at most has a given id.
proof fn lemma_one_of_each(s: Seq<NodeDescriptor>, id: NodeId)
    requires
        keys_distinct(s, peer_id()),
    ensures
        s.filter(with_id(id)).len() <= 1,
    decreases s.len(),
{
    reveal(Seq::filter);
    if s.len() > 0 {
        let init = s.drop_last();
        assert forall|i: int, j: int| 0 <= i < j < init.len() implies peer_id()(#[trigger] init[i]) != peer_id()(
            #[trigger] init[j],
        ) by {
            assert(peer_id()(s[i]) != peer_id()(s[j]));
        }
        lemma_one_of_each(init, id);
        if s.last().id == id {
            assert forall|i: int| 0 <= i < init.len() implies !with_id(id)(#[trigger] init[i]) by {
                assert(peer_id()(s[i]) != peer_id()(s[s.len() - 1]));
            }
            lemma_drop_all(init, with_id(id));
        }
    }
}

/// Sorting brings in no repeats.
proof fn lemma_sort_distinct(before: Seq<NodeDescriptor>, after: Seq<NodeDescriptor>)
    requires
        keys_distinct(before, peer_id()),
        forall|id: NodeId| #[trigger] after.filter(with_id(id)) == before.filter(with_id(id)),
    ensures
        keys_distinct(after, peer_id()),
{
    assert forall|i: int, j: int| 0 <= i < j < after.len() implies peer_id()(#[trigger] after[i]) != peer_id()(
        #[trigger] after[j],
    ) by {
        let id = after[i].id;
        if after[j].id == id {
            let keep = with_id(id);
            let head = after.take(j);
            let tail = after.skip(j);
            assert(after =~= head + tail);
            Seq::filter_distributes_over_add(head, tail, keep);
            broadcast use vstd::seq_lib::group_filter_ensures;
            assert(keep(head[i]) && keep(tail[0]));
            assert(head.filter(keep).contains(head[i]));
            assert(tail.filter(keep).contains(tail[0]));
            lemma_one_of_each(before, id);
            assert(after.filter(keep) == before.filter(keep));
        }
    }
}

/// Some candidate that was not asked is no farther away than the farthest of
/// `closest`, or `closest` is empty.
pub open spec fn may_improve(
    target: NodeId,
    candidates: Seq<NodeDescriptor>,
    queried: Seq<NodeId>,
    closest: Seq<NodeDescriptor>,
) -> bool {
    exists|i: int|
        {
            &&& 0 <= i < candidates.len()
            &&& !queried.contains((#[trigger] candidates[i]).id)
            &&& (closest.len() == 0 || distance(candidates[i].id, target) <= distance(closest.last().id, target))
        }
}

impl Lookup {
    /// Brings the candidates into the order of their distance.
    fn sort_candidates(&mut self)
        requires
            old(self).wf(),
        ensures
            final(self).wf(),
            is_sort_of(old(self)@.target, old(self)@.candidates, final(self)@.candidates),
            final(self)@.candidates.len() == old(self)@.candidates.len(),
            final(self)@ == (LookupView { candidates: final(self)@.candidates, ..old(self)@ }),
    {
        let ghost before = self@;
        let target: NodeId = self.target;
        let mut out: Vec<Candidate> = Vec::new();
        let mut i: usize = 0;
        assert(peers_of(out@) =~= before.candidates.take(0));
        while i < self.candidates.len()
            invariant
                0 <= i <= self.candidates.len(),
                self@ == before,
                self.wf(),
                target == before.target,
                out.len() == i,
                by_distance(target, peers_of(out@)),
                forall|k: int| 0 <= k < out@.len() ==> (#[trigger] out@[k]).of(target),
                forall|id: NodeId| #[trigger]
                    peers_of(out@).filter(with_id(id)) == before.candidates.take(i as int).filter(with_id(id)),
            decreases self.candidates.len() - i,
        {
            let ghost had = out@;
            insert_sorted(&target, &mut out, self.candidates[i]);
            proof {
                assert forall|id: NodeId| #[trigger] peers_of(out@).filter(with_id(id)) == before.candidates.take(
                    i + 1,
                ).filter(with_id(id)) by {
                    let x = before.candidates[i as int];
                    let sofar = before.candidates.take(i as int);
                    assert(before.candidates.take(i + 1) =~= sofar + seq![x]);
                    Seq::filter_distributes_over_add(sofar, seq![x], with_id(id));
                    assert(peers_of(had).push(x) =~= peers_of(had) + seq![x]);
                    Seq::filter_distributes_over_add(peers_of(had), seq![x], with_id(id));
                    assert(peers_of(had).filter(with_id(id)) == sofar.filter(with_id(id)));
                }
            }
            i = i + 1;
        }
        assert(before.candidates.take(i as int) =~= before.candidates);
        proof {
            lemma_sort_distinct(before.candidates, peers_of(out@));
        }
        self.candidates = out;
    }

    /// Whether some candidate that was not asked is no farther away than the
    /// farthest of the closest.
    fn improvable(&self) -> (r: bool)
        requires
            self.wf(),
        ensures
            r == may_improve(self@.target, self@.candidates, self@.queried, self@.closest),
    {
        let mut j: usize = 0;
        while j < self.candidates.len()
            invariant
                0 <= j <= self.candidates.len(),
                self.wf(),
                forall|k: int|
                    0 <= k < j ==> self@.queried.contains((#[trigger] self@.candidates[k]).id) || (self@.closest.len()
                        > 0 && distance(self@.candidates[k].id, self@.target) > distance(
                        self@.closest.last().id,
                        self@.target,
                    )),
            decreases self.candidates.len() - j,
        {
            let c: &Candidate = &self.candidates[j];
            let within: bool = if self.closest.len() == 0 {
                true
            } else {
                let far: &Candidate = &self.closest[self.closest.len() - 1];
                assert(far.of(self.target));
                !less32(&far.distance, &c.distance)
            };
            assert(c.of(self.target));
            assert(self@.candidates[j as int] == c.desc);
            if within && !contains_id(&self.queried, &c.desc.id) {
                return true;
            }
            j = j + 1;
        }
        false
    }

    /// Ends a hop: the closest candidates are chosen anew. Tells whether the
    /// walk has converged, that is whether all of them were asked, and nobody
    /// closer is known.
    pub fn end_hop(&mut self) -> (r: bool)
        requires
            old(self).wf(),
            old(self)@.hops < LOOKUP_MAX_HOPS,
        ensures
            final(self).wf(),
            is_sort_of(old(self)@.target, old(self)@.candidates, final(self)@.candidates),
            final(self)@.candidates.len() == old(self)@.candidates.len(),
            final(self)@ == (LookupView {
                candidates: final(self)@.candidates,
                closest: at_most(final(self)@.candidates, K as nat),
                hops: (old(self)@.hops + 1) as u32,
                ..old(self)@
            }),
            r == !may_improve(
                final(self)@.target,
                final(self)@.candidates,
                final(self)@.queried,
                final(self)@.closest,
            ),
    {
        let ghost before = self@;
        self.hops = self.hops + 1;
        self.sort_candidates();
        let ghost sorted = self@.candidates;
        let mut closest: Vec<Candidate> = Vec::new();
        let mut i: usize = 0;
        while i < self.candidates.len() && i < K
            invariant
                0 <= i <= self.candidates.len(),
                i <= K,
                self.wf(),
                closest@ == self.candidates@.take(i as int),
            decreases self.candidates.len() - i,
        {
            closest.push(self.candidates[i]);
            i = i + 1;
            assert(closest@ =~= self.candidates@.take(i as int));
        }
        proof {
            assert(peers_of(closest@) =~= at_most(sorted, K as nat));
            assert forall|a: int, b: int| 0 <= a < b < peers_of(closest@).len() implies peer_id()(
                #[trigger] peers_of(closest@)[a],
            ) != peer_id()(#[trigger] peers_of(closest@)[b]) by {
                assert(peer_id()(sorted[a]) != peer_id()(sorted[b]));
            }
            assert forall|k: int| 0 <= k < closest@.len() implies (#[trigger] closest@[k]).of(self.target) by {
                assert(closest@[k] == self.candidates@[k]);
            }
        }
        self.closest = closest;
        !self.improvable()
    }
}

// ---------------------------------------------------------------------------
// Ending
// ---------------------------------------------------------------------------

/// Somebody was asked, and every request failed. The first of those that are
/// not to be asked is this relay.
pub open spec fn all_failed(walk: LookupView) -> bool {
    walk.queried.len() > 1 && walk.failed >= walk.queried.len() - 1
}

/// What is said of a walk whose every request failed.
pub open spec fn nobody_reached() -> Seq<char> {
    "no peer could be reached"@
}

/// Ends a walk: the closest candidates are the result of one that converged. A
/// peer that failed is passed over in silence, but a walk on which every peer
/// failed has no result.
pub fn finish_lookup(dht: &mut Dht, walk: &Lookup, failure: Option<LookupError>) -> (r: Result<
    Vec<NodeDescriptor>,
    LookupError,
>)
    requires
        old(dht).wf(),
    ensures
        final(dht).wf(),
        match failure {
            Some(e) => r == Err::<Vec<NodeDescriptor>, LookupError>(e),
            None => if all_failed(walk@) {
                r matches Err(LookupError::PeerConnect(why)) && why@ == nobody_reached()
            } else {
                r matches Ok(peers) && peers@ == at_most(walk@.closest, K as nat)
            },
        },
        failure is None && walk@.failed < walk@.queried.len() - 1 ==> r is Ok,
        failure is None && walk@.queried.len() <= 1 ==> r is Ok,
        failure is None && r is Err ==> r->Err_0 is PeerConnect && walk@.failed >= walk@.queried.len() - 1,
        r matches Ok(peers) ==> failure is None && peers@.len() <= 3 && peers@ == walk@.closest.take(
            peers@.len() as int,
        ) && (peers@.len() == 3 || peers@.len() == walk@.closest.len()),
        r is Ok ==> final(dht)@.metrics == old(dht)@.metrics.counted(Counter::LookupsSucceeded),
        r is Err ==> final(dht)@.metrics == old(dht)@.metrics.counted(Counter::LookupsFailed),
        final(dht)@ == (DhtView {
            metrics: if r is Ok {
                Metrics {
                    lookups_succeeded: bumped(old(dht)@.metrics.lookups_succeeded),
                    ..old(dht)@.metrics
                }
            } else {
                Metrics { lookups_failed: bumped(old(dht)@.metrics.lookups_failed), ..old(dht)@.metrics }
            },
            ..old(dht)@
        }),
{
    if let Some(e) = failure {
        dht.metrics.inc_lookups_failed();
        return Err(e);
    }
    if walk.queried.len() > 1 && walk.failed >= walk.queried.len() - 1 {
        dht.metrics.inc_lookups_failed();
        return Err(LookupError::PeerConnect(String::from_str("no peer could be reached")));
    }
    dht.metrics.inc_lookups_succeeded();
    let mut out: Vec<NodeDescriptor> = Vec::new();
    let mut i: usize = 0;
    while i < walk.closest.len() && i < K
        invariant
            0 <= i <= walk.closest.len(),
            i <= K,
            out@ == walk@.closest.take(i as int),
        decreases walk.closest.len() - i,
    {
        out.push(walk.closest[i].desc);
        i = i + 1;
        assert(out@ =~= walk@.closest.take(i as int));
    }
    assert(out@ =~= at_most(walk@.closest, K as nat));
    Ok(out)
}

// ---------------------------------------------------------------------------
// Liveness
// ---------------------------------------------------------------------------

/// The state after a walk asked `id`, which answered after `rtt_ms`
/// milliseconds, or failed where there is none: the routing table is told, and
/// an eviction is counted.
pub open spec fn after_liveness(dht: DhtView, id: NodeId, rtt_ms: Option<u32>, now: u64) -> DhtView {
    match rtt_ms {
        Some(ms) => DhtView { routing: dht.routing.probe_succeeded(id, ms, now), ..dht },
        None => {
            let (routing, outcome) = dht.routing.probe_failed(id, now);
            let gone = outcome == PingFailedOutcome::Evicted || outcome == PingFailedOutcome::EvictedAndPromoted;
            DhtView {
                routing,
                metrics: if gone {
                    Metrics { bucket_evictions: bumped(dht.metrics.bucket_evictions), ..dht.metrics }
                } else {
                    dht.metrics
                },
                ..dht
            }
        },
    }
}

/// Tells the routing table what became of a request of a walk to `id`: how
/// many milliseconds its answer took, or `None` where it failed. An eviction
/// is counted.
pub fn record_liveness(dht: &mut Dht, id: &NodeId, rtt_ms: Option<u32>, now: u64)
    requires
        old(dht).wf(),
    ensures
        final(dht).wf(),
        final(dht)@ == after_liveness(old(dht)@, *id, rtt_ms, now),
{
    match rtt_ms {
        Some(ms) => {
            dht.routing.ping_succeeded(id, ms, now);
        },
        None => match dht.routing.ping_failed(id, now) {
            PingFailedOutcome::Evicted | PingFailedOutcome::EvictedAndPromoted => {
                dht.metrics.inc_bucket_evictions();
            },
            PingFailedOutcome::Unknown | PingFailedOutcome::Continued => {},
        },
    }
}

// ---------------------------------------------------------------------------
// Connections
// ---------------------------------------------------------------------------

/// `r` is the handle of the connection to `id`, where one is cached.
pub open spec fn is_cached(conns: Seq<PeerConn>, id: NodeId, r: Option<u64>) -> bool {
    match r {
        Some(conn) => exists|i: int| 0 <= i < conns.len() && (#[trigger] conns[i]).id == id && conns[i].conn == conn,
        None => forall|i: int| 0 <= i < conns.len() ==> (#[trigger] conns[i]).id != id,
    }
}

/// The handle of the connection to a peer, where one is cached. Whether it is
/// still open is for its owner to see.
pub fn cached_conn(dht: &Dht, id: &NodeId) -> (r: Option<u64>)
    ensures
        is_cached(dht@.peer_conns, *id, r),
        r matches Some(conn) ==> exists|i: int|
            0 <= i < dht@.peer_conns.len() && (#[trigger] dht@.peer_conns[i]).id == *id && dht@.peer_conns[i].conn == conn,
        r is None ==> forall|i: int| 0 <= i < dht@.peer_conns.len() ==> (#[trigger] dht@.peer_conns[i]).id != *id,
{
    let mut i: usize = 0;
    while i < dht.peer_conns.len()
        invariant
            0 <= i <= dht.peer_conns.len(),
            forall|k: int| 0 <= k < i ==> (#[trigger] dht.peer_conns@[k]).id != *id,
        decreases dht.peer_conns.len() - i,
    {
        if dht.peer_conns[i].id.same(id) {
            return Some(dht.peer_conns[i].conn);
        }
        i = i + 1;
    }
    None
}

/// Why a peer cannot be dialled.
#[derive(Clone, Copy, Debug, PartialEq, Eq, Structural)]
pub enum DialError {
    NoEndpoint,
    NoClientConfig,
}

/// The endpoint and the client configuration to dial a peer with.
pub fn dial_with(dht: &Dht) -> (r: Result<(u64, u64), DialError>)
    ensures
        r == (match (dht@.endpoint, dht@.peer_client_cfg) {
            (None, _) => Err(DialError::NoEndpoint),
            (Some(_), None) => Err(DialError::NoClientConfig),
            (Some(e), Some(c)) => Ok((e, c)),
        }),
{
    match dht.endpoint {
        None => Err(DialError::NoEndpoint),
        Some(e) => match dht.peer_client_cfg {
            None => Err(DialError::NoClientConfig),
            Some(c) => Ok((e, c)),
        },
    }
}

/// What went wrong with a connection that was just opened.
#[derive(Clone, Copy, Debug, PartialEq, Eq, Structural)]
pub enum DialFault {
    /// The certificate gave no public key with the id that was dialled.
    Pubkey,
    /// The hello could not be sent.
    Hello,
}

/// Counts a connection that is given up, and says why it is closed.
pub fn dial_failed(dht: &mut Dht, fault: DialFault) -> (r: CloseReason)
    requires
        old(dht).wf(),
    ensures
        final(dht).wf(),
        r == CloseReason::DhtMalformedKey,
        final(dht)@ == (DhtView {
            metrics: match fault {
                DialFault::Pubkey => Metrics {
                    cert_pubkey_extraction_failures: bumped(old(dht)@.metrics.cert_pubkey_extraction_failures),
                    ..old(dht)@.metrics
                },
                DialFault::Hello => Metrics {
                    dht_hello_rejected: bumped(old(dht)@.metrics.dht_hello_rejected),
                    ..old(dht)@.metrics
                },
            },
            ..old(dht)@
        }),
{
    match fault {
        DialFault::Pubkey => dht.metrics.inc_cert_pubkey_extraction_failures(),
        DialFault::Hello => dht.metrics.inc_dht_hello_rejected(),
    }
    CloseReason::DhtMalformedKey
}

/// The connections other than those of `id`.
pub open spec fn conns_but(id: NodeId) -> spec_fn(PeerConn) -> bool {
    |c: PeerConn| c.id != id
}

/// Remembers a connection that was opened, unless another to the same peer is
/// cached and still open; `cached_open` says whether the cached one is. The
/// handle of the connection to use comes back.
pub fn remember_conn(dht: &mut Dht, opened: PeerConn, cached_open: bool) -> (r: u64)
    requires
        old(dht).wf(),
    ensures
        final(dht).wf(),
        is_cached(final(dht)@.peer_conns, opened.id, Some(r)),
        ({
            let cached = exists|i: int|
                0 <= i < old(dht)@.peer_conns.len() && (#[trigger] old(dht)@.peer_conns[i]).id == opened.id;
            if cached && cached_open {
                is_cached(old(dht)@.peer_conns, opened.id, Some(r)) && final(dht)@ == old(dht)@
            } else {
                &&& r == opened.conn
                &&& final(dht)@ == (DhtView {
                    peer_conns: old(dht)@.peer_conns.filter(conns_but(opened.id)).push(opened),
                    metrics: Metrics {
                        peer_conns_opened: bumped(old(dht)@.metrics.peer_conns_opened),
                        ..old(dht)@.metrics
                    },
                    ..old(dht)@
                })
            }
        }),
        exists|i: int|
            0 <= i < final(dht)@.peer_conns.len() && (#[trigger] final(dht)@.peer_conns[i]).id == opened.id
                && final(dht)@.peer_conns[i].conn == r,
        r != opened.conn ==> cached_open && final(dht)@ == old(dht)@,
        !cached_open ==> r == opened.conn && final(dht)@.peer_conns.last() == opened,
{
    let cached: Option<u64> = cached_conn(dht, &opened.id);
    if let Some(conn) = cached {
        if cached_open {
            return conn;
        }
    }
    forget_peer(dht, &opened.id);
    let ghost left = dht@.peer_conns;
    dht.peer_conns.push(opened);
    proof {
        assert(conns_distinct(dht.peer_conns@)) by {
            assert forall|i: int, j: int| 0 <= i < j < dht.peer_conns@.len() implies (#[trigger] dht.peer_conns@[i]).id
                != (#[trigger] dht.peer_conns@[j]).id by {
                assert(dht.peer_conns@[i] == left[i]);
                assert(conns_but(opened.id)(left[i]));
                if j < left.len() {
                    assert(dht.peer_conns@[j] == left[j]);
                }
            }
        }
    }
    dht.metrics.inc_peer_conns_opened();
    assert(dht@.peer_conns[left.len() as int] == opened);
    opened.conn
}

/// Forgets the connection to a peer.
fn forget_peer(dht: &mut Dht, id: &NodeId)
    requires
        old(dht).wf(),
    ensures
        final(dht).wf(),
        final(dht)@ == (DhtView { peer_conns: old(dht)@.peer_conns.filter(conns_but(*id)), ..old(dht)@ }),
        forall|i: int| 0 <= i < final(dht)@.peer_conns.len() ==> conns_but(*id)(#[trigger] final(dht)@.peer_conns[i]),
{
    let ghost before = dht@;
    let ghost all = dht@.peer_conns;
    let ghost keep = conns_but(*id);
    let mut kept: Vec<PeerConn> = Vec::new();
    let mut i: usize = 0;
    proof {
        lemma_filter_empty(all, keep);
    }
    while i < dht.peer_conns.len()
        invariant
            0 <= i <= dht.peer_conns.len(),
            all == dht.peer_conns@,
            conns_distinct(all),
            keep == conns_but(*id),
            kept@ == all.take(i as int).filter(keep),
            conns_distinct(kept@),
            forall|k: int| 0 <= k < kept@.len() ==> keep(#[trigger] kept@[k]),
            forall|k: int| 0 <= k < kept@.len() ==> all.take(i as int).contains(#[trigger] kept@[k]),
        decreases dht.peer_conns.len() - i,
    {
        let ghost k0 = kept@;
        proof {
            lemma_filter_step(all, keep, i as int);
            assert forall|k: int| 0 <= k < k0.len() implies all.take(i + 1).contains(#[trigger] k0[k]) && k0[k].id
                != all[i as int].id by {
                assert(all.take(i as int).contains(k0[k]));
                let m = choose|m: int| 0 <= m < i && all.take(i as int)[m] == k0[k];
                assert(all.take(i + 1)[m] == k0[k]);
                assert(all[m].id != all[i as int].id);
            }
        }
        let c: PeerConn = dht.peer_conns[i];
        if !c.id.same(id) {
            kept.push(c);
            assert(all.take(i + 1)[i as int] == c);
        }
        i = i + 1;
    }
    assert(all.take(i as int) =~= all);
    dht.peer_conns = kept;
}

// ---------------------------------------------------------------------------
// Laws
// ---------------------------------------------------------------------------

/// Nobody is asked twice, and this relay never: whom a hop asks was not asked
/// before, is asked once in the hop, and will not be asked again.
pub proof fn law_nobody_is_asked_twice(walk: LookupView, i: int)
    requires
        keys_distinct(walk.candidates, peer_id()),
        ({
            let batch = at_most(walk.candidates.filter(unasked(walk.queried)), ALPHA as nat);
            0 <= i < batch.len()
        }),
    ensures
        ({
            let batch = at_most(walk.candidates.filter(unasked(walk.queried)), ALPHA as nat);
            let after = walk.queried + ids_of(batch);
            &&& !walk.queried.contains(batch[i].id)
            &&& forall|j: int| 0 <= j < batch.len() && j != i ==> (#[trigger] batch[j]).id != batch[i].id
            &&& after.contains(batch[i].id)
            &&& forall|id: NodeId| walk.queried.contains(id) ==> #[trigger] after.contains(id)
        }),
{
    let all = walk.candidates.filter(unasked(walk.queried));
    let batch = at_most(all, ALPHA as nat);
    lemma_filtered(walk.candidates, unasked(walk.queried), i);
    lemma_filter_distinct(walk.candidates, unasked(walk.queried));
    assert forall|j: int| 0 <= j < batch.len() && j != i implies (#[trigger] batch[j]).id != batch[i].id by {
        if j < i {
            assert(peer_id()(all[j]) != peer_id()(all[i]));
        } else {
            assert(peer_id()(all[i]) != peer_id()(all[j]));
        }
    }
    let after = walk.queried + ids_of(batch);
    assert(after[walk.queried.len() + i] == batch[i].id);
    assert forall|id: NodeId| walk.queried.contains(id) implies #[trigger] after.contains(id) by {
        let k = choose|k: int| 0 <= k < walk.queried.len() && walk.queried[k] == id;
        assert(after[k] == id);
    }
}

/// What a filter keeps of a list without repeats has none.
proof fn lemma_filter_distinct(s: Seq<NodeDescriptor>, keep: spec_fn(NodeDescriptor) -> bool)
    requires
        keys_distinct(s, peer_id()),
    ensures
        keys_distinct(s.filter(keep), peer_id()),
    decreases s.len(),
{
    reveal(Seq::filter);
    if s.len() > 0 {
        let init = s.drop_last();
        assert forall|i: int, j: int| 0 <= i < j < init.len() implies peer_id()(#[trigger] init[i]) != peer_id()(
            #[trigger] init[j],
        ) by {
            assert(peer_id()(s[i]) != peer_id()(s[j]));
        }
        lemma_filter_distinct(init, keep);
        if keep(s.last()) {
            let kept = init.filter(keep);
            if has_one(kept, peer_id(), s.last().id) {
                let i = choose|i: int| 0 <= i < kept.len() && peer_id()(#[trigger] kept[i]) == s.last().id;
                let k = lemma_filter_member(init, keep, i);
                assert(peer_id()(s[k]) != peer_id()(s[s.len() - 1]));
            }
            lemma_distinct_push(kept, s.last());
        }
    }
}

/// A reply is taken whole: afterwards the walk knows whom it knew and whom the
/// reply names, and nobody else; whom it knew stand where they stood.
pub proof fn law_reply_is_taken(candidates: Seq<NodeDescriptor>, closer: Seq<NodeDescriptor>, id: NodeId)
    ensures
        has_one(widened(candidates, closer), peer_id(), id) <==> has_one(candidates, peer_id(), id) || has_one(
            closer,
            peer_id(),
            id,
        ),
        widened(candidates, closer).take(candidates.len() as int) == candidates,
{
    let key = peer_id();
    let keep = new_to(ids_of(candidates));
    let fresh = closer.filter(keep);
    assert(widened(candidates, closer).take(candidates.len() as int) =~= candidates);
    lemma_joined_has(candidates, firsts(fresh, key), id);
    law_every_key_stays(fresh, key, id);
    if has_one(fresh, key, id) {
        let i = choose|i: int| 0 <= i < fresh.len() && key(#[trigger] fresh[i]) == id;
        let k = lemma_filter_member(closer, keep, i);
        assert(key(closer[k]) == id);
    }
    if has_one(closer, key, id) && !has_one(candidates, key, id) {
        let k = choose|k: int| 0 <= k < closer.len() && key(#[trigger] closer[k]) == id;
        assert(keep(closer[k]));
        broadcast use vstd::seq_lib::group_filter_ensures;
        assert(fresh.contains(closer[k]));
        let i = choose|i: int| 0 <= i < fresh.len() && fresh[i] == closer[k];
        assert(key(fresh[i]) == id);
    }
}

/// What a filter keeps passes it.
proof fn lemma_filtered<A>(s: Seq<A>, keep: spec_fn(A) -> bool, i: int)
    requires
        0 <= i < s.filter(keep).len(),
    ensures
        keep(s.filter(keep)[i]),
    decreases s.len(),
{
    reveal(Seq::filter);
    if s.len() > 0 {
        if i < s.drop_last().filter(keep).len() {
            lemma_filtered(s.drop_last(), keep, i);
        }
    }
}

/// A hop that hedges asks the best candidate that is left: it was not asked
/// before, and no candidate that was not asked is closer.
pub proof fn law_hedge_asks_the_next_best(walk: LookupView, i: int)
    requires
        by_distance(walk.target, walk.candidates),
        0 <= i < walk.candidates.len(),
        !walk.queried.contains(walk.candidates[i].id),
    ensures
        ({
            let rest = walk.candidates.filter(unasked(walk.queried));
            &&& rest.len() > 0
            &&& !walk.queried.contains(rest[0].id)
            &&& distance(rest[0].id, walk.target) <= distance(walk.candidates[i].id, walk.target)
        }),
{
    let keep = unasked(walk.queried);
    broadcast use vstd::seq_lib::group_filter_ensures;
    assert(keep(walk.candidates[i]));
    assert(walk.candidates.filter(keep).contains(walk.candidates[i]));
    lemma_first_kept(walk.candidates, keep);
}

/// What a filter keeps first is the first that it keeps.
proof fn lemma_first_kept(s: Seq<NodeDescriptor>, keep: spec_fn(NodeDescriptor) -> bool)
    requires
        s.filter(keep).len() > 0,
    ensures
        exists|j: int|
            {
                &&& 0 <= j < s.len()
                &&& #[trigger] s[j] == s.filter(keep)[0]
                &&& keep(s[j])
                &&& forall|k: int| 0 <= k < j ==> !keep(#[trigger] s[k])
            },
    decreases s.len(),
{
    reveal(Seq::filter);
    let init = s.drop_last();
    if init.filter(keep).len() > 0 {
        lemma_first_kept(init, keep);
        let j = choose|j: int|
            {
                &&& 0 <= j < init.len()
                &&& #[trigger] init[j] == init.filter(keep)[0]
                &&& keep(init[j])
                &&& forall|k: int| 0 <= k < j ==> !keep(#[trigger] init[k])
            };
        assert(s[j] == s.filter(keep)[0]);
        assert forall|k: int| 0 <= k < j implies !keep(#[trigger] s[k]) by {
            assert(init[k] == s[k]);
        }
    } else {
        let j = s.len() - 1;
        assert(s[j] == s.filter(keep)[0]);
        assert forall|k: int| 0 <= k < j implies !keep(#[trigger] s[k]) by {
            broadcast use vstd::seq_lib::group_filter_ensures;
            if keep(s[k]) {
                assert(init[k] == s[k]);
                assert(init.filter(keep).contains(init[k]));
            }
        }
    }
}

/// A walk has converged exactly when everybody in its result was asked: a hop
/// that ends with somebody in it who was not goes on.
pub proof fn law_converged_walk_asked_the_closest(walk: LookupView)
    requires
        by_distance(walk.target, walk.candidates),
        walk.closest == at_most(walk.candidates, K as nat),
        walk.candidates.len() > 0,
    ensures
        !may_improve(walk.target, walk.candidates, walk.queried, walk.closest) <==> forall|i: int|
            0 <= i < walk.closest.len() ==> walk.queried.contains((#[trigger] walk.closest[i]).id),
{
    let last = walk.closest.last();
    let n = walk.closest.len() as int;
    assert(last == walk.candidates[n - 1]);
    if may_improve(walk.target, walk.candidates, walk.queried, walk.closest) {
        let i = choose|i: int|
            {
                &&& 0 <= i < walk.candidates.len()
                &&& !walk.queried.contains((#[trigger] walk.candidates[i]).id)
                &&& distance(walk.candidates[i].id, walk.target) <= distance(last.id, walk.target)
            };
        if i < n {
            assert(walk.closest[i] == walk.candidates[i]);
        } else {
            assert(distance(walk.candidates[n - 1].id, walk.target) <= distance(walk.candidates[i].id, walk.target));
            law_distance_tells_apart(walk.candidates[i].id, last.id, walk.target);
            assert(walk.closest[n - 1].id == walk.candidates[i].id);
        }
    } else {
        assert forall|i: int| 0 <= i < n implies walk.queried.contains((#[trigger] walk.closest[i]).id) by {
            assert(walk.closest[i] == walk.candidates[i]);
            if i < n - 1 {
                assert(distance(walk.candidates[i].id, walk.target) <= distance(
                    walk.candidates[n - 1].id,
                    walk.target,
                ));
            }
        }
    }
}

/// A walk that finds nobody to ask has asked everybody it knows.
pub proof fn law_done_walk_asked_everybody(walk: LookupView, i: int)
    requires
        at_most(walk.candidates.filter(unasked(walk.queried)), ALPHA as nat).len() == 0,
        0 <= i < walk.candidates.len(),
    ensures
        walk.queried.contains(walk.candidates[i].id),
{
    let keep = unasked(walk.queried);
    if keep(walk.candidates[i]) {
        broadcast use vstd::seq_lib::group_filter_ensures;
        assert(walk.candidates.filter(keep).contains(walk.candidates[i]));
    }
}

/// Dead peers leave: a peer whose last request was answered, and which then
/// fails three walks in a row, is not known any more, and one eviction was
/// counted.
pub proof fn law_dead_peer_is_evicted(dht: DhtView, id: NodeId, t1: u64, t2: u64, t3: u64)
    requires
        dht.routing.wf(),
        dht.routing.knows(id),
        ({
            let entries = dht.routing.buckets[bucket_of(dht.routing.self_id, id)].entries;
            entries[place_of(entries, id)].failed_pings == 0
        }),
    ensures
        ({
            let after = after_liveness(
                after_liveness(after_liveness(dht, id, None, t1), id, None, t2),
                id,
                None,
                t3,
            );
            &&& !after.routing.knows(id)
            &&& after == (DhtView {
                routing: after.routing,
                metrics: Metrics { bucket_evictions: bumped(dht.metrics.bucket_evictions), ..dht.metrics },
                ..dht
            })
        }),
{
    let t = dht.routing;
    law_active_peers(t);
    law_bucket_exists(t.self_id, id);
    let i = bucket_of(t.self_id, id);
    let b = t.buckets[i];
    assert(b.wf(t.self_id, i));
    law_three_failures_evict(b, t.self_id, i, id, t1, t2, t3);
    law_probe_failed_keeps_bucket(b, t.self_id, i, id, t1);
    let b1 = b.probe_failed(id, t1).0;
    law_probe_failed_keeps_bucket(b1, t.self_id, i, id, t2);
    let b2 = b1.probe_failed(id, t2).0;
    law_probe_failed_keeps_bucket(b2, t.self_id, i, id, t3);
    let d1 = after_liveness(dht, id, None, t1);
    let d2 = after_liveness(d1, id, None, t2);
    let d3 = after_liveness(d2, id, None, t3);
    assert(d1.routing.buckets[i] == b1);
    assert(d2.routing.buckets[i] == b2);
    assert(d3.routing.wf());
    law_active_peers(d3.routing);
}

/// The result of a hop holds the closest of the candidates: nobody outside it
/// is closer than anybody in it.
pub proof fn law_closest_are_nearest(target: NodeId, candidates: Seq<NodeDescriptor>, i: int, j: int)
    requires
        by_distance(target, candidates),
        0 <= i < at_most(candidates, K as nat).len() <= j < candidates.len(),
    ensures
        distance(at_most(candidates, K as nat)[i].id, target) <= distance(candidates[j].id, target),
{
    assert(at_most(candidates, K as nat)[i] == candidates[i]);
}

/// There is one way to sort: peers in the order of distance, those with one id
/// as they stood.
pub proof fn law_sort_is_unique(
    target: NodeId,
    before: Seq<NodeDescriptor>,
    a: Seq<NodeDescriptor>,
    b: Seq<NodeDescriptor>,
)
    requires
        is_sort_of(target, before, a),
        is_sort_of(target, before, b),
    ensures
        a == b,
{
    assert forall|id: NodeId| #[trigger] a.filter(with_id(id)) == b.filter(with_id(id)) by {
        assert(a.filter(with_id(id)) == before.filter(with_id(id)));
        assert(b.filter(with_id(id)) == before.filter(with_id(id)));
    }
    lemma_same_sorted(target, a, b);
}

proof fn lemma_same_sorted(target: NodeId, a: Seq<NodeDescriptor>, b: Seq<NodeDescriptor>)
    requires
        by_distance(target, a),
        by_distance(target, b),
        forall|id: NodeId| #[trigger] a.filter(with_id(id)) == b.filter(with_id(id)),
    ensures
        a == b,
    decreases a.len(),
{
    if a.len() == 0 {
        if b.len() > 0 {
            lemma_head_of_filter(b);
            assert(a.filter(with_id(b[0].id)) == b.filter(with_id(b[0].id)));
            assert(a.filter(with_id(b[0].id)).len() == 0) by {
                lemma_drop_all(a, with_id(b[0].id));
            }
        }
        assert(a =~= b);
    } else {
        lemma_head_of_filter(a);
        assert(a.filter(with_id(a[0].id)) == b.filter(with_id(a[0].id)));
        let k = lemma_filter_member(b, with_id(a[0].id), 0);
        lemma_head_of_filter(b);
        assert(a.filter(with_id(b[0].id)) == b.filter(with_id(b[0].id)));
        let m = lemma_filter_member(a, with_id(b[0].id), 0);
        assert(distance(b[0].id, target) <= distance(b[k].id, target));
        assert(distance(a[0].id, target) <= distance(a[m].id, target));
        law_distance_tells_apart(a[0].id, b[0].id, target);
        assert(a[0] == b[0]);
        let ta = a.drop_first();
        let tb = b.drop_first();
        assert(a =~= seq![a[0]] + ta);
        assert(b =~= seq![b[0]] + tb);
        assert forall|id: NodeId| #[trigger] ta.filter(with_id(id)) == tb.filter(with_id(id)) by {
            Seq::filter_distributes_over_add(seq![a[0]], ta, with_id(id));
            Seq::filter_distributes_over_add(seq![b[0]], tb, with_id(id));
            let head = seq![a[0]].filter(with_id(id));
            assert(a.filter(with_id(id)) == b.filter(with_id(id)));
            assert(head + ta.filter(with_id(id)) == head + tb.filter(with_id(id)));
            let x = head + ta.filter(with_id(id));
            let y = head + tb.filter(with_id(id));
            assert(x.skip(head.len() as int) =~= ta.filter(with_id(id)));
            assert(y.skip(head.len() as int) =~= tb.filter(with_id(id)));
        }
        assert(by_distance(target, ta)) by {
            assert forall|i: int, j: int| 0 <= i < j < ta.len() implies distance(#[trigger] ta[i].id, target)
                <= distance(#[trigger] ta[j].id, target) by {
                assert(distance(a[i + 1].id, target) <= distance(a[j + 1].id, target));
            }
        }
        assert(by_distance(target, tb)) by {
            assert forall|i: int, j: int| 0 <= i < j < tb.len() implies distance(#[trigger] tb[i].id, target)
                <= distance(#[trigger] tb[j].id, target) by {
                assert(distance(b[i + 1].id, target) <= distance(b[j + 1].id, target));
            }
        }
        lemma_same_sorted(target, ta, tb);
    }
}

/// The first peer is the first of those with its id.
proof fn lemma_head_of_filter(s: Seq<NodeDescriptor>)
    ensures
        s.len() > 0 ==> s.filter(with_id(s[0].id)).len() > 0 && s.filter(with_id(s[0].id))[0] == s[0],
{
    if s.len() > 0 {
        let keep = with_id(s[0].id);
        assert(s =~= seq![s[0]] + s.drop_first());
        Seq::filter_distributes_over_add(seq![s[0]], s.drop_first(), keep);
        lemma_filter_one(s[0], keep);
    }
}

/// What a filter keeps is not lost.
proof fn lemma_kept_stays<A>(s: Seq<A>, keep: spec_fn(A) -> bool, i: int)
    requires
        0 <= i < s.len(),
        keep(s[i]),
    ensures
        s.filter(keep).len() > 0,
    decreases s.len(),
{
    reveal(Seq::filter);
    if i < s.len() - 1 {
        assert(s.drop_last()[i] == s[i]);
        lemma_kept_stays(s.drop_last(), keep, i);
    }
}

/// Where an element that a filter keeps stood.
proof fn lemma_filter_member<A>(s: Seq<A>, keep: spec_fn(A) -> bool, i: int) -> (k: int)
    requires
        0 <= i < s.filter(keep).len(),
    ensures
        0 <= k < s.len(),
        s[k] == s.filter(keep)[i],
        keep(s[k]),
    decreases s.len(),
{
    reveal(Seq::filter);
    let init = s.drop_last();
    if i < init.filter(keep).len() {
        lemma_filter_member(init, keep, i)
    } else {
        s.len() - 1
    }
}

/// A list cut to a length is as long as both allow, and its beginning.
pub proof fn law_at_most_is_a_beginning<A>(s: Seq<A>, n: nat, i: int)
    ensures
        at_most(s, n).len() == (if s.len() < n {
            s.len()
        } else {
            n
        }),
        0 <= i < s.len() && i < n ==> at_most(s, n)[i] == s[i],
{
}

/// A walk begins with the peers that the table knows, and with nobody asked but
/// this relay, nothing found and nothing failed.
pub proof fn law_walk_begins_with_nothing(target: NodeId, self_id: NodeId, near: Seq<NodeDescriptor>)
    ensures
        ({
            let walk = first_state(target, self_id, near);
            &&& walk.target == target
            &&& walk.candidates == near
            &&& walk.queried.len() == 1 && walk.queried[0] == self_id
            &&& walk.closest.len() == 0 && walk.hops == 0 && walk.failed == 0
            &&& !all_failed(walk)
        }),
{
}

/// Events of a hop that were failures.
pub open spec fn failures(events: Seq<HopEvent>) -> nat
    decreases events.len(),
{
    if events.len() == 0 {
        0
    } else {
        failures(events.drop_last()) + (if events.last() is Failed {
            1nat
        } else {
            0nat
        })
    }
}

/// What events make of a walk, one after the other.
pub open spec fn after_events(walk: LookupView, got_one: bool, events: Seq<HopEvent>) -> (LookupView, bool)
    decreases events.len(),
{
    if events.len() == 0 {
        (walk, got_one)
    } else {
        let (w, g) = after_events(walk, got_one, events.drop_last());
        after_event(w, g, events.last())
    }
}

/// Failures are counted, and nothing but failures is: after some events of a
/// hop a walk has failed as often as before and once for each event that was a
/// failure. Whom it has asked stays asked.
pub proof fn law_failures_are_counted(walk: LookupView, got_one: bool, events: Seq<HopEvent>)
    requires
        walk.failed + events.len() <= usize::MAX,
    ensures
        ({
            let after = after_events(walk, got_one, events).0;
            &&& after.failed == walk.failed + failures(events)
            &&& after.queried.len() >= walk.queried.len()
            &&& after.queried.take(walk.queried.len() as int) == walk.queried
            &&& after.target == walk.target
            &&& after.hops == walk.hops
            &&& after.closest == walk.closest
        }),
    decreases events.len(),
{
    if events.len() > 0 {
        let init = events.drop_last();
        law_failures_are_counted(walk, got_one, init);
        let w = after_events(walk, got_one, init).0;
        let after = after_events(walk, got_one, events).0;
        lemma_failures_bound(init);
        assert(after.queried.take(w.queried.len() as int) =~= w.queried);
        assert(after.queried.take(walk.queried.len() as int) =~= w.queried.take(walk.queried.len() as int));
    } else {
        assert(walk.queried.take(walk.queried.len() as int) =~= walk.queried);
    }
}

proof fn lemma_failures_bound(events: Seq<HopEvent>)
    ensures
        failures(events) <= events.len(),
    decreases events.len(),
{
    if events.len() > 0 {
        lemma_failures_bound(events.drop_last());
    }
}

/// `after` is the walk that one hop leaves behind: the first unasked candidates
/// were asked, these events came, and the hop ended.
pub open spec fn is_hop(before: LookupView, events: Seq<HopEvent>, after: LookupView) -> bool {
    let batch = at_most(before.candidates.filter(unasked(before.queried)), ALPHA as nat);
    let begun = LookupView { queried: before.queried + ids_of(batch), ..before };
    let heard = after_events(begun, false, events).0;
    &&& is_sort_of(heard.target, heard.candidates, after.candidates)
    &&& after == (LookupView {
        candidates: after.candidates,
        closest: at_most(after.candidates, K as nat),
        hops: (heard.hops + 1) as u32,
        ..heard
    })
}

/// The failures of several hops.
pub open spec fn failures_of(hops: Seq<Seq<HopEvent>>) -> nat
    decreases hops.len(),
{
    if hops.len() == 0 {
        0
    } else {
        failures_of(hops.drop_last()) + failures(hops.last())
    }
}

/// The events of several hops.
pub open spec fn events_of(hops: Seq<Seq<HopEvent>>) -> nat
    decreases hops.len(),
{
    if hops.len() == 0 {
        0
    } else {
        events_of(hops.drop_last()) + hops.last().len()
    }
}

/// A walk comes to nothing only where every peer that it asked failed. Over all
/// its hops, with `asked` peers asked and `failed` of the events failures: a
/// walk with fewer failures than peers asked has a result, one on which nobody
/// was asked has one too, and one with as many failures as peers asked has
/// none.
pub proof fn law_one_answer_is_enough(
    target: NodeId,
    self_id: NodeId,
    near: Seq<NodeDescriptor>,
    states: Seq<LookupView>,
    hops: Seq<Seq<HopEvent>>,
)
    requires
        states.len() == hops.len() + 1,
        states[0] == first_state(target, self_id, near),
        forall|i: int| 0 <= i < hops.len() ==> is_hop(states[i], #[trigger] hops[i], states[i + 1]),
        events_of(hops) <= usize::MAX,
    ensures
        ({
            let walk = states.last();
            let asked = walk.queried.len() - 1;
            let failed = failures_of(hops);
            &&& walk.failed == failed
            &&& walk.queried[0] == self_id
            &&& failed < asked ==> !all_failed(walk)
            &&& asked == 0 ==> !all_failed(walk)
            &&& asked > 0 && failed >= asked ==> all_failed(walk)
        }),
{
    assert(hops.take(hops.len() as int) =~= hops);
    lemma_walk_counts(target, self_id, near, states, hops, hops.len() as int);
}

proof fn lemma_walk_counts(
    target: NodeId,
    self_id: NodeId,
    near: Seq<NodeDescriptor>,
    states: Seq<LookupView>,
    hops: Seq<Seq<HopEvent>>,
    n: int,
)
    requires
        0 <= n <= hops.len(),
        states.len() == hops.len() + 1,
        states[0] == first_state(target, self_id, near),
        forall|i: int| 0 <= i < hops.len() ==> is_hop(states[i], #[trigger] hops[i], states[i + 1]),
        events_of(hops.take(n)) <= usize::MAX,
    ensures
        states[n].failed == failures_of(hops.take(n)),
        failures_of(hops.take(n)) <= events_of(hops.take(n)),
        states[n].queried.len() >= 1,
        states[n].queried[0] == self_id,
    decreases n,
{
    if n > 0 {
        let before = states[n - 1];
        let events = hops[n - 1];
        assert(hops.take(n).drop_last() =~= hops.take(n - 1));
        assert(hops.take(n).last() == events);
        lemma_walk_counts(target, self_id, near, states, hops, n - 1);
        assert(is_hop(states[n - 1], hops[n - 1], states[n - 1 + 1]));
        let batch = at_most(before.candidates.filter(unasked(before.queried)), ALPHA as nat);
        let begun = LookupView { queried: before.queried + ids_of(batch), ..before };
        law_failures_are_counted(begun, false, events);
        lemma_failures_bound(events);
        let heard = after_events(begun, false, events).0;
        assert(heard.queried[0] == heard.queried.take(begun.queried.len() as int)[0]);
    }
}

/// What a hop asks first: as many as three of those that were not asked, and
/// nobody that it passes over was closer.
pub proof fn law_hop_asks_the_closest_unasked(walk: LookupView, i: int, j: int)
    requires
        by_distance(walk.target, walk.candidates),
        ({
            let batch = at_most(walk.candidates.filter(unasked(walk.queried)), ALPHA as nat);
            0 <= i < batch.len()
        }),
        0 <= j < walk.candidates.len(),
        !walk.queried.contains(walk.candidates[j].id),
    ensures
        ({
            let batch = at_most(walk.candidates.filter(unasked(walk.queried)), ALPHA as nat);
            &&& batch.len() <= 3
            &&& walk.candidates.contains(batch[i])
            &&& batch.contains(walk.candidates[j]) || (batch.len() == 3 && distance(batch[i].id, walk.target) <= distance(
                walk.candidates[j].id,
                walk.target,
            ))
        }),
{
    let keep = unasked(walk.queried);
    let all = walk.candidates.filter(keep);
    let batch = at_most(all, ALPHA as nat);
    broadcast use vstd::seq_lib::group_filter_ensures;
    assert(keep(walk.candidates[j]));
    assert(all.contains(walk.candidates[j]));
    let k = choose|k: int| 0 <= k < all.len() && all[k] == walk.candidates[j];
    lemma_filter_by_distance(walk.target, walk.candidates, keep);
    let m = lemma_filter_member(walk.candidates, keep, i);
    assert(batch[i] == all[i]);
    if k < batch.len() {
        assert(batch[k] == walk.candidates[j]);
    } else {
        assert(distance(all[i].id, walk.target) <= distance(all[k].id, walk.target));
    }
}

/// What a filter keeps of peers in the order of distance is in that order.
proof fn lemma_filter_by_distance(target: NodeId, s: Seq<NodeDescriptor>, keep: spec_fn(NodeDescriptor) -> bool)
    requires
        by_distance(target, s),
    ensures
        by_distance(target, s.filter(keep)),
    decreases s.len(),
{
    reveal(Seq::filter);
    if s.len() > 0 {
        let init = s.drop_last();
        assert(by_distance(target, init)) by {
            assert forall|i: int, j: int| 0 <= i < j < init.len() implies distance(#[trigger] init[i].id, target)
                <= distance(#[trigger] init[j].id, target) by {
                assert(distance(s[i].id, target) <= distance(s[j].id, target));
            }
        }
        lemma_filter_by_distance(target, init, keep);
        let f0 = init.filter(keep);
        let f = s.filter(keep);
        assert forall|i: int, j: int| 0 <= i < j < f.len() implies distance(#[trigger] f[i].id, target) <= distance(
            #[trigger] f[j].id,
            target,
        ) by {
            assert(f[i] == f0[i]);
            if j < f0.len() {
                assert(distance(f0[i].id, target) <= distance(f0[j].id, target));
            } else {
                let k = lemma_filter_member(init, keep, i);
                assert(distance(s[k].id, target) <= distance(s[s.len() - 1].id, target));
            }
        }
    }
}

/// Sorting loses nobody and brings in nobody, and puts the closer before the
/// farther.
pub proof fn law_sort_keeps_everybody(
    target: NodeId,
    before: Seq<NodeDescriptor>,
    after: Seq<NodeDescriptor>,
    d: NodeDescriptor,
    i: int,
)
    requires
        is_sort_of(target, before, after),
    ensures
        after.contains(d) <==> before.contains(d),
        0 <= i < after.len() - 1 ==> distance(after[i].id, target) <= distance(after[i + 1].id, target),
{
    broadcast use vstd::seq_lib::group_filter_ensures;
    let keep = with_id(d.id);
    assert(after.filter(keep) == before.filter(keep));
    if after.contains(d) {
        let k = choose|k: int| 0 <= k < after.len() && after[k] == d;
        assert(keep(after[k]));
        assert(after.filter(keep).contains(after[k]));
        let m = choose|m: int| 0 <= m < before.filter(keep).len() && before.filter(keep)[m] == d;
        let n = lemma_filter_member(before, keep, m);
        assert(before[n] == d);
    }
    if before.contains(d) {
        let k = choose|k: int| 0 <= k < before.len() && before[k] == d;
        assert(keep(before[k]));
        assert(before.filter(keep).contains(before[k]));
        let m = choose|m: int| 0 <= m < after.filter(keep).len() && after.filter(keep)[m] == d;
        let n = lemma_filter_member(after, keep, m);
        assert(after[n] == d);
    }
    if 0 <= i < after.len() - 1 {
        assert(distance(after[i].id, target) <= distance(after[i + 1].id, target));
    }
}

/// The result of a walk is closest: the three that a hop ends with, or all
/// where the walk knows fewer, were known to it, and nobody that it knows and
/// leaves out is closer than one of them.
pub proof fn law_hop_ends_with_the_closest(before: LookupView, events: Seq<HopEvent>, after: LookupView, i: int, j: int)
    requires
        is_hop(before, events, after),
        0 <= i < after.closest.len(),
        0 <= j < after.candidates.len(),
    ensures
        after.closest.len() <= 3,
        after.closest.len() == 3 || after.closest.len() == after.candidates.len(),
        after.candidates.contains(after.closest[i]),
        after.closest.contains(after.candidates[j]) || distance(after.closest[i].id, after.target) <= distance(
            after.candidates[j].id,
            after.target,
        ),
{
    assert(after.closest[i] == after.candidates[i]);
    if j < after.closest.len() {
        assert(after.closest[j] == after.candidates[j]);
    } else {
        assert(distance(after.candidates[i].id, after.target) <= distance(after.candidates[j].id, after.target));
    }
}

/// A reply adds peers as it names them: whoever the walk knows afterwards it
/// knew before, or the reply named, with the same address and key.
pub proof fn law_reply_adds_as_named(candidates: Seq<NodeDescriptor>, closer: Seq<NodeDescriptor>, k: int)
    requires
        0 <= k < widened(candidates, closer).len(),
    ensures
        k < candidates.len() ==> widened(candidates, closer)[k] == candidates[k],
        k >= candidates.len() ==> closer.contains(widened(candidates, closer)[k]),
{
    if k >= candidates.len() {
        let keep = new_to(ids_of(candidates));
        let fresh = closer.filter(keep);
        let f = firsts(fresh, peer_id());
        super::dedupe::law_first_occurrence_stays(fresh, peer_id());
        let at = choose|at: Seq<int>| super::dedupe::stood_first(fresh, peer_id(), f, at);
        let m = at[k - candidates.len()];
        assert(fresh[m] == f[k - candidates.len()]);
        let n = lemma_filter_member(closer, keep, m);
        assert(closer[n] == fresh[m]);
    }
}

/// What the routing table learns of a request: who answered is known as before
/// and has no failures; an eviction is counted exactly where a peer that was
/// known is not known any more.
pub proof fn law_requests_teach_the_table(dht: DhtView, id: NodeId, rtt_ms: Option<u32>, now: u64, e: RoutingEntry)
    requires
        dht.routing.wf(),
    ensures
        ({
            let after = after_liveness(dht, id, rtt_ms, now);
            &&& rtt_ms is Some ==> (after.routing.knows(id) <==> dht.routing.knows(id))
            &&& rtt_ms is Some && after.routing.active().contains(e) && e.id == id ==> e.failed_pings == 0
                && e.last_seen == now
            &&& dht.routing.knows(id) && !after.routing.knows(id) ==> after.metrics == (Metrics {
                bucket_evictions: bumped(dht.metrics.bucket_evictions),
                ..dht.metrics
            })
            &&& !dht.routing.knows(id) || after.routing.knows(id) ==> after.metrics == dht.metrics
            &&& after == (DhtView { routing: after.routing, metrics: after.metrics, ..dht })
        }),
{
    match rtt_ms {
        Some(ms) => {
            law_probe_success_is_noted(dht.routing, id, ms, now, e, e);
        },
        None => {
            let all = dht.routing.active();
            if dht.routing.knows(id) {
                let had = all[place_of(all, id)];
                assert(all.contains(had));
                law_probe_failure_is_noted(dht.routing, id, now, e, had);
            } else {
                law_probe_failure_is_noted(dht.routing, id, now, e, e);
            }
        },
    }
}

/// Forgetting a peer forgets its connections and no others.
pub proof fn law_others_stay_connected(conns: Seq<PeerConn>, id: NodeId, c: PeerConn)
    ensures
        conns.filter(conns_but(id)).contains(c) <==> conns.contains(c) && c.id != id,
{
    let keep = conns_but(id);
    broadcast use vstd::seq_lib::group_filter_ensures;
    let f = conns.filter(keep);
    if f.contains(c) {
        let i = choose|i: int| 0 <= i < f.len() && f[i] == c;
        let k = lemma_filter_member(conns, keep, i);
        assert(conns[k] == c);
    }
    if conns.contains(c) && c.id != id {
        let k = choose|k: int| 0 <= k < conns.len() && conns[k] == c;
        assert(keep(conns[k]));
        assert(f.contains(conns[k]));
    }
}

/// What silence does: after an outcome in the hop, nothing; before one, it has
/// the first candidate asked that was not asked yet, and nobody else. Nothing
/// that silence does is counted as a failure.
pub proof fn law_silence_asks_one_more(walk: LookupView, got_one: bool, k: int)
    ensures
        ({
            let (after, got) = after_event(walk, got_one, HopEvent::Silence);
            &&& got == got_one
            &&& got_one ==> after == walk
            &&& after == (LookupView { queried: after.queried, ..walk })
            &&& !got_one && 0 <= k < walk.candidates.len() && !walk.queried.contains(walk.candidates[k].id) && (
            forall|j: int| 0 <= j < k ==> walk.queried.contains((#[trigger] walk.candidates[j]).id))
                ==> after.queried == walk.queried.push(walk.candidates[k].id)
            &&& (forall|j: int|
                0 <= j < walk.candidates.len() ==> walk.queried.contains((#[trigger] walk.candidates[j]).id))
                ==> after == walk
        }),
{
    let keep = unasked(walk.queried);
    let all = walk.candidates;
    let rest = all.filter(keep);
    if rest.len() > 0 {
        let at = lemma_filter_member(all, keep, 0);
        assert(!walk.queried.contains(all[at].id));
    }
    if 0 <= k < all.len() && !walk.queried.contains(all[k].id) && (forall|j: int|
        0 <= j < k ==> walk.queried.contains((#[trigger] all[j]).id)) {
        assert(all =~= all.take(k) + (seq![all[k]] + all.skip(k + 1)));
        Seq::filter_distributes_over_add(all.take(k), seq![all[k]] + all.skip(k + 1), keep);
        Seq::filter_distributes_over_add(seq![all[k]], all.skip(k + 1), keep);
        let head = all.take(k);
        if head.filter(keep).len() > 0 {
            let at = lemma_filter_member(head, keep, 0);
            assert(head[at] == all[at]);
        }
        reveal_with_fuel(Seq::filter, 2);
        assert(seq![all[k]].drop_last() =~= Seq::empty());
        assert(rest[0] == all[k]);
    }
}

/// A walk knows nobody twice, however often a reply names a peer, and whether
/// or not the walk knew it.
pub proof fn law_reply_doubles_nobody(candidates: Seq<NodeDescriptor>, closer: Seq<NodeDescriptor>, i: int, j: int)
    requires
        forall|a: int, b: int|
            0 <= a < b < candidates.len() ==> (#[trigger] candidates[a]).id != (#[trigger] candidates[b]).id,
        0 <= i < j < widened(candidates, closer).len(),
    ensures
        widened(candidates, closer)[i].id != widened(candidates, closer)[j].id,
{
    let n = candidates.len();
    let keep = new_to(ids_of(candidates));
    let fresh = closer.filter(keep);
    let f = firsts(fresh, peer_id());
    let all = widened(candidates, closer);
    super::dedupe::law_no_repeats(fresh, peer_id());
    if j < n {
        assert(candidates[i].id != candidates[j].id);
    } else if i >= n {
        assert(peer_id()(f[i - n]) != peer_id()(f[j - n]));
    } else {
        super::dedupe::law_first_occurrence_stays(fresh, peer_id());
        let at = choose|at: Seq<int>| super::dedupe::stood_first(fresh, peer_id(), f, at);
        let m = at[j - n];
        assert(fresh[m] == f[j - n]);
        let c = lemma_filter_member(closer, keep, m);
        assert(ids_of(candidates)[i] == candidates[i].id);
        assert(ids_of(candidates).contains(candidates[i].id));
    }
}

} // verus!
