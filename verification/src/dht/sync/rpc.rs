//! Anti-entropy between two relays: summaries and differences of their Merkle
//! trees, and the descent that finds what one of them lacks.

use super::merkle::{contents_hash, is_listing, leaf_path, listing, LeafEntry, NodePath, TREE_DEPTH};
use super::state::{
    is_diff, is_summary, law_equal_hash_equal_contents, MerkleDiffResp, MerkleState, SliceView,
};
use crate::dht::bytes::copy_bytes;
use crate::dht::config::{FETCH_RECORD_MAX, MERKLE_FANOUT};
use crate::dht::hash::{digest_is_zero, digests_collide};
use crate::dht::id::NodeDescriptor;
use crate::dht::keyspace::{lemma_filter_empty, lemma_filter_step, strings};
use crate::dht::lookup::at_most;
use crate::dht::metrics::{bumped, Metrics};
use crate::dht::routing::descriptors;
use crate::dht::wire::{same_array, PresenceRecord, TombstoneRecord};
use crate::dht::{Dht, DhtView};
use rand::seq::IteratorRandom;
use rand::SeedableRng;
use vstd::prelude::*;

verus! {

/// How deep a descent goes: to the leaves.
pub const MAX_BISECT_DEPTH: usize = TREE_DEPTH;

// ---------------------------------------------------------------------------
// Serving
// ---------------------------------------------------------------------------

/// Answers which root hashes the slices have that a peer asks for.
pub fn handle_merkle_summary(dht: &mut Dht, slices: &[u8; 32]) -> (r: Vec<(u8, [u8; 32])>)
    requires
        old(dht).wf(),
    ensures
        final(dht).wf(),
        is_summary(old(dht)@.merkle, *slices, r@),
        final(dht)@ == (DhtView {
            metrics: Metrics {
                merkle_summaries_received: bumped(old(dht)@.metrics.merkle_summaries_received),
                ..old(dht)@.metrics
            },
            ..old(dht)@
        }),
{
    dht.metrics.inc_merkle_summaries_received();
    dht.merkle.summary(slices)
}

/// Answers what is found at a node of a tree. A path beyond the leaves finds
/// nothing.
pub fn handle_merkle_diff(dht: &mut Dht, slice_id: u8, path: &NodePath) -> (r: MerkleDiffResp)
    requires
        old(dht).wf(),
    ensures
        final(dht).wf(),
        is_diff(old(dht)@.merkle[slice_id as int], path@, r),
        final(dht)@ == (DhtView {
            metrics: Metrics {
                merkle_diffs_received: bumped(old(dht)@.metrics.merkle_diffs_received),
                ..old(dht)@.metrics
            },
            ..old(dht)@
        }),
{
    dht.metrics.inc_merkle_diffs_received();
    dht.merkle.diff(slice_id, path)
}

/// What this relay holds for a user.
#[derive(Clone, Copy, Debug)]
pub struct Held {
    pub tombstone: Option<TombstoneRecord>,
    pub record: Option<PresenceRecord>,
}

/// What a fetch is answered.
#[derive(Debug)]
pub struct FetchRecordResp {
    pub records: Vec<PresenceRecord>,
    pub tombstones: Vec<TombstoneRecord>,
}

/// The tombstones among what is held, in their order.
pub open spec fn tombstones_of(held: Seq<Held>) -> Seq<TombstoneRecord>
    decreases held.len(),
{
    if held.len() == 0 {
        Seq::empty()
    } else {
        let before = tombstones_of(held.drop_last());
        match held.last().tombstone {
            Some(t) => before.push(t),
            None => before,
        }
    }
}

/// The records of the users without a tombstone, in their order.
pub open spec fn records_of(held: Seq<Held>) -> Seq<PresenceRecord>
    decreases held.len(),
{
    if held.len() == 0 {
        Seq::empty()
    } else {
        let before = records_of(held.drop_last());
        match (held.last().tombstone, held.last().record) {
            (None, Some(rec)) => before.push(rec),
            _ => before,
        }
    }
}

/// Answers a fetch, given what is held for the users that it names, in their
/// order. A tombstone goes before a record, and no more than
/// [`FETCH_RECORD_MAX`] users are looked at.
pub fn handle_fetch_record(held: &Vec<Held>) -> (r: FetchRecordResp)
    ensures
        r.records@ == records_of(at_most(held@, FETCH_RECORD_MAX as nat)),
        r.tombstones@ == tombstones_of(at_most(held@, FETCH_RECORD_MAX as nat)),
        held@.len() <= 64 ==> r.records@ == records_of(held@) && r.tombstones@ == tombstones_of(held@),
        held@.len() > 64 ==> r.records@ == records_of(held@.take(64)) && r.tombstones@ == tombstones_of(held@.take(64)),
{
    let mut records: Vec<PresenceRecord> = Vec::new();
    let mut tombstones: Vec<TombstoneRecord> = Vec::new();
    let mut i: usize = 0;
    while i < held.len() && i < FETCH_RECORD_MAX
        invariant
            0 <= i <= held.len(),
            i <= FETCH_RECORD_MAX,
            records@ == records_of(held@.take(i as int)),
            tombstones@ == tombstones_of(held@.take(i as int)),
        decreases held.len() - i,
    {
        proof {
            assert(held@.take(i + 1).drop_last() =~= held@.take(i as int));
            assert(held@.take(i + 1).last() == held@[i as int]);
        }
        match held[i].tombstone {
            Some(t) => tombstones.push(t),
            None => {
                if let Some(rec) = held[i].record {
                    records.push(rec);
                }
            },
        }
        i = i + 1;
    }
    assert(held@.take(i as int) =~= at_most(held@, FETCH_RECORD_MAX as nat));
    FetchRecordResp { records, tombstones }
}

// ---------------------------------------------------------------------------
// A round
// ---------------------------------------------------------------------------

/// The place that a seed chooses among `len`.
pub uninterp spec fn chosen_place(len: usize, seed: u64) -> Option<usize>;

/// Calls `rand::seq::IteratorRandom::choose` on the places below `len` with a
/// `rand::rngs::StdRng` made by `seed_from_u64`. Trusted: which place comes
/// out depends on the two numbers alone, which [`chosen_place`] names; it is
/// one of them, and there is one unless `len` is zero.
#[verifier::external_body]
fn choose_place(len: usize, seed: u64) -> (r: Option<usize>)
    ensures
        r == chosen_place(len, seed),
        r matches Some(i) ==> i < len,
        r is None <==> len == 0,
{
    let mut rng = rand::rngs::StdRng::seed_from_u64(seed);
    (0..len).choose(&mut rng)
}

/// Picks the peer of a round among the active ones; `None` where there is
/// none.
pub fn pick_peer(dht: &Dht, seed: u64) -> (r: Option<NodeDescriptor>)
    requires
        dht.wf(),
    ensures
        match r {
            Some(peer) => {
                let all = descriptors(dht@.routing.active());
                let i = chosen_place(all.len() as usize, seed);
                i is Some && i->0 < all.len() && peer == all[i->0 as int]
            },
            None => dht@.routing.active().len() == 0,
        },
{
    let all: Vec<NodeDescriptor> = dht.routing.active_peers();
    match choose_place(all.len(), seed) {
        Some(i) => Some(all[i]),
        None => None,
    }
}

/// The roots that differ from those of `m`.
pub open spec fn root_differs(m: Seq<SliceView>) -> spec_fn((u8, [u8; 32])) -> bool {
    |x: (u8, [u8; 32])| x.1 != contents_hash(m[x.0 as int], Seq::<u8>::empty())
}

/// The slices whose root at a peer differs from the one here, in the order in
/// which the peer named them.
pub fn differing_slices(dht: &Dht, roots: &Vec<(u8, [u8; 32])>) -> (r: Vec<u8>)
    requires
        dht.wf(),
    ensures
        ({
            let differing = roots@.filter(root_differs(dht@.merkle));
            r@ == Seq::new(differing.len(), |i: int| differing[i].0)
        }),
{
    let ghost keep = root_differs(dht@.merkle);
    let mut out: Vec<u8> = Vec::new();
    let mut i: usize = 0;
    proof {
        lemma_filter_empty(roots@, keep);
    }
    while i < roots.len()
        invariant
            0 <= i <= roots.len(),
            dht.wf(),
            keep == root_differs(dht@.merkle),
            out@.len() == roots@.take(i as int).filter(keep).len(),
            forall|k: int| 0 <= k < out@.len() ==> out@[k] == (#[trigger] roots@.take(i as int).filter(keep)[k]).0,
        decreases roots.len() - i,
    {
        proof {
            lemma_filter_step(roots@, keep, i as int);
        }
        let ours: [u8; 32] = dht.merkle.root(roots[i].0);
        if !same_array(&roots[i].1, &ours) {
            out.push(roots[i].0);
        }
        i = i + 1;
    }
    proof {
        assert(roots@.take(i as int) =~= roots@);
        let differing = roots@.filter(keep);
        assert(out@ =~= Seq::new(differing.len(), |k: int| differing[k].0));
    }
    out
}

// ---------------------------------------------------------------------------
// The descent
// ---------------------------------------------------------------------------

/// The descent into one slice, depth first: the nodes that are still to be
/// asked for, and the users whose state is to be fetched.
#[derive(Debug)]
pub struct Bisect {
    pub slice_id: u8,
    pub stack: Vec<NodePath>,
    pub to_fetch: Vec<[u8; 32]>,
}

/// What a [`Bisect`] holds.
#[verifier::ext_equal]
pub struct BisectView {
    pub slice_id: u8,
    pub stack: Seq<Seq<u8>>,
    pub to_fetch: Seq<[u8; 32]>,
}

impl View for Bisect {
    type V = BisectView;

    open spec fn view(&self) -> BisectView {
        BisectView { slice_id: self.slice_id, stack: strings(self.stack@), to_fetch: self.to_fetch@ }
    }
}

/// The children of a node whose hash at a peer differs from the one here.
pub open spec fn differing_children(m: SliceView, path: Seq<u8>, hashes: Seq<[u8; 32]>, n: nat) -> Seq<Seq<u8>>
    decreases n,
{
    if n == 0 {
        Seq::empty()
    } else {
        let before = differing_children(m, path, hashes, (n - 1) as nat);
        let child = path.push((n - 1) as u8);
        if hashes[n - 1] == contents_hash(m, child) {
            before
        } else {
            before.push(child)
        }
    }
}

/// The pairs that are not among ours.
pub open spec fn unlike(ours: Seq<LeafEntry>) -> spec_fn(LeafEntry) -> bool {
    |e: LeafEntry| !ours.contains(e)
}

/// The users of pairs.
pub open spec fn users_in(entries: Seq<LeafEntry>) -> Seq<[u8; 32]> {
    Seq::new(entries.len(), |i: int| entries[i].0)
}

/// The descent after a reply about the node at `path`, over what this relay
/// holds in the slice. A reply of the wrong shape, or none, is passed over.
pub open spec fn after_reply(v: BisectView, m: SliceView, path: Seq<u8>, reply: Option<MerkleDiffResp>) -> BisectView {
    match reply {
        Some(MerkleDiffResp::Leaves(entries)) => if path.len() >= MAX_BISECT_DEPTH {
            BisectView {
                to_fetch: v.to_fetch + users_in(entries@.filter(unlike(listing(m, path)))),
                ..v
            }
        } else {
            v
        },
        Some(MerkleDiffResp::Children(hashes)) => if path.len() < MAX_BISECT_DEPTH && hashes@.len()
            == MERKLE_FANOUT {
            BisectView { stack: v.stack + differing_children(m, path, hashes@, MERKLE_FANOUT as nat), ..v }
        } else {
            v
        },
        None => v,
    }
}

impl Bisect {
    /// No node below the leaves is asked for.
    pub open spec fn wf(&self) -> bool {
        forall|i: int| 0 <= i < self.stack@.len() ==> (#[trigger] self.stack@[i])@.len() <= TREE_DEPTH
    }

    /// A descent that begins at the root.
    pub fn new(slice_id: u8) -> (r: Bisect)
        ensures
            r.wf(),
            r@ == (BisectView { slice_id, stack: seq![Seq::<u8>::empty()], to_fetch: Seq::empty() }),
    {
        let mut stack: Vec<NodePath> = Vec::new();
        let root: NodePath = Vec::new();
        stack.push(root);
        let r = Bisect { slice_id, stack, to_fetch: Vec::new() };
        assert(r@.stack =~= seq![Seq::<u8>::empty()]);
        r
    }

    /// The node that is to be asked for next, each of which is counted; `None`
    /// where the descent is over.
    pub fn next(&mut self, dht: &mut Dht) -> (r: Option<NodePath>)
        requires
            old(self).wf(),
            old(dht).wf(),
        ensures
            final(self).wf(),
            final(dht).wf(),
            match r {
                None => {
                    &&& old(self)@.stack.len() == 0
                    &&& final(self)@ == old(self)@
                    &&& final(dht)@ == old(dht)@
                },
                Some(path) => {
                    &&& old(self)@.stack.len() > 0
                    &&& path@ == old(self)@.stack.last()
                    &&& path@.len() <= TREE_DEPTH
                    &&& final(self)@ == (BisectView { stack: old(self)@.stack.drop_last(), ..old(self)@ })
                    &&& final(dht)@ == (DhtView {
                        metrics: Metrics {
                            merkle_diffs_sent: bumped(old(dht)@.metrics.merkle_diffs_sent),
                            ..old(dht)@.metrics
                        },
                        ..old(dht)@
                    })
                },
            },
    {
        match self.stack.pop() {
            None => None,
            Some(path) => {
                assert(self@.stack =~= old(self)@.stack.drop_last());
                dht.metrics.inc_merkle_diffs_sent();
                Some(path)
            },
        }
    }

    /// Takes the reply about a node; `None` where it failed on the wire or was
    /// of another kind.
    pub fn on_reply(&mut self, dht: &Dht, path: &NodePath, reply: &Option<MerkleDiffResp>)
        requires
            old(self).wf(),
            dht.wf(),
            path@.len() <= TREE_DEPTH,
        ensures
            final(self).wf(),
            final(self)@ == after_reply(
                old(self)@,
                dht@.merkle[old(self)@.slice_id as int],
                path@,
                *reply,
            ),
    {
        match reply {
            None => {},
            Some(MerkleDiffResp::Leaves(entries)) => {
                if path.len() >= MAX_BISECT_DEPTH {
                    diff_leaves(dht, self.slice_id, path, entries, &mut self.to_fetch);
                }
            },
            Some(MerkleDiffResp::Children(hashes)) => {
                if path.len() < MAX_BISECT_DEPTH && hashes.len() == MERKLE_FANOUT {
                    self.push_children(dht, path, hashes);
                }
            },
        }
    }

    /// Notes the children whose hashes differ.
    fn push_children(&mut self, dht: &Dht, path: &NodePath, hashes: &Vec<[u8; 32]>)
        requires
            old(self).wf(),
            dht.wf(),
            path@.len() < TREE_DEPTH,
            hashes@.len() == MERKLE_FANOUT,
        ensures
            final(self).wf(),
            final(self)@ == (BisectView {
                stack: old(self)@.stack + differing_children(
                    dht@.merkle[old(self)@.slice_id as int],
                    path@,
                    hashes@,
                    MERKLE_FANOUT as nat,
                ),
                ..old(self)@
            }),
    {
        let ghost before = self@;
        let ghost m = dht@.merkle[self.slice_id as int];
        let ours: [[u8; 32]; 16] = dht.merkle.children_at(self.slice_id, path);
        let mut i: usize = 0;
        assert(before.stack + differing_children(m, path@, hashes@, 0) =~= before.stack);
        while i < MERKLE_FANOUT
            invariant
                0 <= i <= MERKLE_FANOUT,
                path@.len() < TREE_DEPTH,
                hashes@.len() == MERKLE_FANOUT,
                forall|k: int|
                    0 <= k < MERKLE_FANOUT ==> #[trigger] ours@[k] == contents_hash(m, path@.push(k as u8)),
                self.wf(),
                self@ == (BisectView {
                    stack: before.stack + differing_children(m, path@, hashes@, i as nat),
                    ..before
                }),
            decreases MERKLE_FANOUT - i,
        {
            let ghost s0 = self@.stack;
            assert(ours@[i as int] == contents_hash(m, path@.push(i as u8)));
            if !same_array(&hashes[i], &ours[i]) {
                let mut child: NodePath = copy_bytes(path);
                child.push(i as u8);
                let ghost old_stack = self.stack@;
                self.stack.push(child);
                proof {
                    assert(self@.stack =~= s0.push(path@.push(i as u8)));
                    assert(self@.stack =~= before.stack + differing_children(m, path@, hashes@, (i + 1) as nat));
                    assert forall|k: int| 0 <= k < self.stack@.len() implies (#[trigger] self.stack@[k])@.len()
                        <= TREE_DEPTH by {
                        if k < old_stack.len() {
                            assert(self.stack@[k] == old_stack[k]);
                        }
                    }
                }
            }
            i = i + 1;
        }
    }
}

/// Whether a pair is in a list.
fn contains_entry(entries: &Vec<LeafEntry>, ipk: &[u8; 32], value_hash: &[u8; 32]) -> (r: bool)
    ensures
        r == entries@.contains((*ipk, *value_hash)),
{
    let mut i: usize = 0;
    while i < entries.len()
        invariant
            0 <= i <= entries.len(),
            forall|k: int| 0 <= k < i ==> entries@[k] != (*ipk, *value_hash),
        decreases entries.len() - i,
    {
        if same_array(&entries[i].0, ipk) && same_array(&entries[i].1, value_hash) {
            assert(entries@[i as int] == (*ipk, *value_hash));
            return true;
        }
        i = i + 1;
    }
    false
}

/// Notes the users for whom a peer's leaf has a pair that the leaf here has
/// not. What only this relay has is not looked at.
pub fn diff_leaves(
    dht: &Dht,
    slice_id: u8,
    path: &NodePath,
    peer_entries: &Vec<LeafEntry>,
    to_fetch: &mut Vec<[u8; 32]>,
)
    requires
        dht.wf(),
        path@.len() == TREE_DEPTH,
    ensures
        final(to_fetch)@ == old(to_fetch)@ + users_in(
            peer_entries@.filter(unlike(listing(dht@.merkle[slice_id as int], path@))),
        ),
{
    let ours: Vec<LeafEntry> = dht.merkle.leaves_at(slice_id, path);
    let ghost keep = unlike(ours@);
    let ghost before = to_fetch@;
    let mut i: usize = 0;
    proof {
        lemma_filter_empty(peer_entries@, keep);
        assert(before + users_in(peer_entries@.take(0).filter(keep)) =~= before);
    }
    while i < peer_entries.len()
        invariant
            0 <= i <= peer_entries.len(),
            keep == unlike(ours@),
            to_fetch@ == before + users_in(peer_entries@.take(i as int).filter(keep)),
        decreases peer_entries.len() - i,
    {
        proof {
            lemma_filter_step(peer_entries@, keep, i as int);
        }
        if !contains_entry(&ours, &peer_entries[i].0, &peer_entries[i].1) {
            to_fetch.push(peer_entries[i].0);
        }
        i = i + 1;
        assert(to_fetch@ =~= before + users_in(peer_entries@.take(i as int).filter(keep)));
    }
    assert(peer_entries@.take(i as int) =~= peer_entries@);
}

// ---------------------------------------------------------------------------
// Fetching
// ---------------------------------------------------------------------------

/// The chunks of a list, one after the other.
pub open spec fn flattened(chunks: Seq<Vec<[u8; 32]>>) -> Seq<[u8; 32]>
    decreases chunks.len(),
{
    if chunks.len() == 0 {
        Seq::empty()
    } else {
        flattened(chunks.drop_last()) + chunks.last()@
    }
}

/// Cuts the users whose state is to be fetched into requests: all of them in
/// their order, as many in each as one request takes, and the rest in the last.
pub fn fetch_chunks(ipks: &Vec<[u8; 32]>, batch: usize) -> (r: Vec<Vec<[u8; 32]>>)
    requires
        batch > 0,
    ensures
        flattened(r@) == ipks@,
        forall|i: int| 0 <= i < r@.len() ==> 0 < (#[trigger] r@[i])@.len() <= batch,
        forall|i: int| 0 <= i < r@.len() - 1 ==> (#[trigger] r@[i])@.len() == batch,
{
    let mut out: Vec<Vec<[u8; 32]>> = Vec::new();
    let mut at: usize = 0;
    assert(flattened(out@) =~= ipks@.take(0));
    while at < ipks.len()
        invariant
            0 <= at <= ipks.len(),
            batch > 0,
            flattened(out@) == ipks@.take(at as int),
            forall|i: int| 0 <= i < out@.len() ==> 0 < (#[trigger] out@[i])@.len() <= batch,
            at < ipks.len() ==> forall|i: int| 0 <= i < out@.len() ==> (#[trigger] out@[i])@.len() == batch,
            forall|i: int| 0 <= i < out@.len() - 1 ==> (#[trigger] out@[i])@.len() == batch,
        decreases ipks.len() - at,
    {
        let ghost before = out@;
        let start: usize = at;
        let mut chunk: Vec<[u8; 32]> = Vec::new();
        while at < ipks.len() && chunk.len() < batch
            invariant
                start <= at <= ipks.len(),
                chunk.len() <= batch,
                chunk@ == ipks@.subrange(start as int, at as int),
            decreases ipks.len() - at,
        {
            chunk.push(ipks[at]);
            at = at + 1;
            assert(chunk@ =~= ipks@.subrange(start as int, at as int));
        }
        out.push(chunk);
        proof {
            assert(out@.drop_last() =~= before);
            assert(ipks@.take(start as int) + ipks@.subrange(start as int, at as int) =~= ipks@.take(at as int));
            assert forall|i: int| 0 <= i < out@.len() implies 0 < (#[trigger] out@[i])@.len() <= batch by {
                if i < before.len() {
                    assert(out@[i] == before[i]);
                }
            }
            assert forall|i: int| 0 <= i < out@.len() - 1 implies (#[trigger] out@[i])@.len() == batch by {
                assert(out@[i] == before[i]);
            }
        }
    }
    assert(ipks@.take(at as int) =~= ipks@);
    out
}

// ---------------------------------------------------------------------------
// Laws
// ---------------------------------------------------------------------------

/// What a descent below `path` fetches from a peer that holds `p`, when this
/// relay holds `m` and the peer answers as it holds.
pub open spec fn wanted(p: SliceView, m: SliceView, path: Seq<u8>) -> Seq<[u8; 32]>
    decreases TREE_DEPTH - path.len(), MERKLE_FANOUT + 1,
{
    if path.len() >= TREE_DEPTH {
        users_in(listing(p, path).filter(unlike(listing(m, path))))
    } else {
        wanted_of_children(p, m, path, MERKLE_FANOUT as nat)
    }
}

/// What a descent fetches below the first `n` children of a node, the last of
/// them first.
pub open spec fn wanted_of_children(p: SliceView, m: SliceView, path: Seq<u8>, n: nat) -> Seq<[u8; 32]>
    decreases TREE_DEPTH - path.len(), n,
{
    if n == 0 || path.len() >= TREE_DEPTH {
        Seq::empty()
    } else {
        let child = path.push((n - 1) as u8);
        let rest = wanted_of_children(p, m, path, (n - 1) as nat);
        if contents_hash(p, child) == contents_hash(m, child) {
            rest
        } else {
            wanted(p, m, child) + rest
        }
    }
}

/// What a descent fetches below the nodes that are still to be asked for.
pub open spec fn wanted_of_stack(p: SliceView, m: SliceView, stack: Seq<Seq<u8>>) -> Seq<[u8; 32]>
    decreases stack.len(),
{
    if stack.len() == 0 {
        Seq::empty()
    } else {
        wanted(p, m, stack.last()) + wanted_of_stack(p, m, stack.drop_last())
    }
}

/// What a descent has fetched when it is over, if the peer answers as it
/// holds.
pub open spec fn fetched_in_all(v: BisectView, p: SliceView, m: SliceView) -> Seq<[u8; 32]> {
    v.to_fetch + wanted_of_stack(p, m, v.stack)
}

/// A step keeps its course: while the peer answers as it holds, what the
/// descent will have fetched in the end does not change from reply to reply.
/// In the end nothing is left to be asked for, so that is what it then holds.
pub proof fn law_descent_keeps_course(v: BisectView, p: SliceView, m: SliceView, r: MerkleDiffResp)
    requires
        v.stack.len() > 0,
        v.stack.last().len() <= TREE_DEPTH,
        is_diff(p, v.stack.last(), r),
    ensures
        ({
            let popped = BisectView { stack: v.stack.drop_last(), ..v };
            let next = after_reply(popped, m, v.stack.last(), Some(r));
            fetched_in_all(next, p, m) == fetched_in_all(v, p, m)
        }),
        v.stack.len() == 1 && v.stack.last().len() == TREE_DEPTH ==> after_reply(
            BisectView { stack: v.stack.drop_last(), ..v },
            m,
            v.stack.last(),
            Some(r),
        ).to_fetch == fetched_in_all(v, p, m),
{
    let path = v.stack.last();
    let rest = v.stack.drop_last();
    let popped = BisectView { stack: rest, ..v };
    let next = after_reply(popped, m, path, Some(r));
    if path.len() == TREE_DEPTH {
        assert((v.to_fetch + wanted(p, m, path)) + wanted_of_stack(p, m, rest) =~= v.to_fetch + (wanted(p, m, path)
            + wanted_of_stack(p, m, rest)));
        if v.stack.len() == 1 {
            assert(wanted_of_stack(p, m, rest) =~= Seq::<[u8; 32]>::empty());
            assert(next.to_fetch =~= fetched_in_all(v, p, m));
        }
    } else {
        let hashes = r->Children_0@;
        assert forall|i: int| 0 <= i < MERKLE_FANOUT implies #[trigger] hashes[i] == contents_hash(
            p,
            path.push(i as u8),
        ) by {}
        lemma_children_on_stack(p, m, path, hashes, rest, MERKLE_FANOUT as nat);
    }
}

proof fn lemma_children_on_stack(
    p: SliceView,
    m: SliceView,
    path: Seq<u8>,
    hashes: Seq<[u8; 32]>,
    rest: Seq<Seq<u8>>,
    n: nat,
)
    requires
        path.len() < TREE_DEPTH,
        n <= MERKLE_FANOUT,
        forall|i: int| 0 <= i < MERKLE_FANOUT ==> #[trigger] hashes[i] == contents_hash(p, path.push(i as u8)),
    ensures
        wanted_of_stack(p, m, rest + differing_children(m, path, hashes, n)) == wanted_of_children(p, m, path, n)
            + wanted_of_stack(p, m, rest),
    decreases n,
{
    if n == 0 {
        assert(rest + differing_children(m, path, hashes, 0) =~= rest);
        assert(wanted_of_children(p, m, path, 0) + wanted_of_stack(p, m, rest) =~= wanted_of_stack(p, m, rest));
    } else {
        let k = (n - 1) as nat;
        lemma_children_on_stack(p, m, path, hashes, rest, k);
        let child = path.push(k as u8);
        assert(hashes[k as int] == contents_hash(p, child));
        let before = rest + differing_children(m, path, hashes, k);
        let now = rest + differing_children(m, path, hashes, n);
        if hashes[k as int] != contents_hash(m, child) {
            assert(now =~= before.push(child));
            assert(now.drop_last() =~= before);
            assert(wanted(p, m, child) + (wanted_of_children(p, m, path, k) + wanted_of_stack(p, m, rest)) =~= (wanted(
                p,
                m,
                child,
            ) + wanted_of_children(p, m, path, k)) + wanted_of_stack(p, m, rest));
        } else {
            assert(now =~= before);
        }
    }
}

/// The nodes above the leaf of `ipk` have different hashes in the two trees.
pub open spec fn hashes_tell_apart(p: SliceView, m: SliceView, ipk: [u8; 32]) -> bool {
    forall|d: int|
        1 <= d <= TREE_DEPTH ==> contents_hash(p, #[trigger] leaf_path(ipk).take(d)) != contents_hash(
            m,
            leaf_path(ipk).take(d),
        )
}

/// A descent finds what this relay lacks: a user whose state at the peer is
/// not the one here is fetched, unless hashes of subtrees that differ are the
/// same.
pub proof fn law_descent_finds_what_is_lacking(peer: &MerkleState, ours: &MerkleState, slice_id: u8, ipk: [u8; 32])
    requires
        peer.wf(),
        ours.wf(),
        peer@[slice_id as int].contains_key(ipk),
        !ours@[slice_id as int].contains_pair(ipk, peer@[slice_id as int][ipk]),
        hashes_tell_apart(peer@[slice_id as int], ours@[slice_id as int], ipk),
    ensures
        wanted(peer@[slice_id as int], ours@[slice_id as int], Seq::<u8>::empty()).contains(ipk),
{
    let path = leaf_path(ipk);
    peer.lemma_listing(slice_id, path);
    ours.lemma_listing(slice_id, path);
    lemma_wanted_at_depth(peer@[slice_id as int], ours@[slice_id as int], ipk, 0);
    assert(path.take(0) =~= Seq::<u8>::empty());
}

proof fn lemma_wanted_at_depth(p: SliceView, m: SliceView, ipk: [u8; 32], d: nat)
    requires
        d <= TREE_DEPTH,
        p.contains_key(ipk),
        !m.contains_pair(ipk, p[ipk]),
        hashes_tell_apart(p, m, ipk),
        is_listing(p, leaf_path(ipk), listing(p, leaf_path(ipk))),
        is_listing(m, leaf_path(ipk), listing(m, leaf_path(ipk))),
    ensures
        wanted(p, m, leaf_path(ipk).take(d as int)).contains(ipk),
    decreases TREE_DEPTH - d,
{
    let full = leaf_path(ipk);
    let path = full.take(d as int);
    if d == TREE_DEPTH {
        assert(path =~= full);
        let theirs = listing(p, full);
        let keep = unlike(listing(m, full));
        let i = choose|i: int| 0 <= i < theirs.len() && #[trigger] theirs[i].0 == ipk;
        assert(theirs[i] == (ipk, p[ipk]));
        assert(keep(theirs[i])) by {
            if listing(m, full).contains(theirs[i]) {
                let j = choose|j: int| 0 <= j < listing(m, full).len() && listing(m, full)[j] == theirs[i];
                assert(m.contains_pair(listing(m, full)[j].0, listing(m, full)[j].1));
            }
        }
        lemma_filter_has(theirs, keep, i);
        let kept = theirs.filter(keep);
        let j = choose|j: int| 0 <= j < kept.len() && kept[j] == theirs[i];
        assert(users_in(kept)[j] == ipk);
    } else {
        lemma_wanted_at_depth(p, m, ipk, d + 1);
        let child = full.take(d as int + 1);
        assert(child =~= path.push(full[d as int]));
        assert(full[d as int] < 16);
        assert(contents_hash(p, child) != contents_hash(m, child));
        lemma_wanted_through_child(p, m, path, full[d as int], MERKLE_FANOUT as nat, ipk);
    }
}

/// What a child is wanted for, its parent is.
proof fn lemma_wanted_through_child(p: SliceView, m: SliceView, path: Seq<u8>, i: u8, n: nat, ipk: [u8; 32])
    requires
        path.len() < TREE_DEPTH,
        i < n <= MERKLE_FANOUT,
        contents_hash(p, path.push(i)) != contents_hash(m, path.push(i)),
        wanted(p, m, path.push(i)).contains(ipk),
    ensures
        wanted_of_children(p, m, path, n).contains(ipk),
    decreases n,
{
    let child = path.push((n - 1) as u8);
    let rest = wanted_of_children(p, m, path, (n - 1) as nat);
    let all = wanted_of_children(p, m, path, n);
    if i == n - 1 {
        let w = wanted(p, m, child);
        let k = choose|k: int| 0 <= k < w.len() && w[k] == ipk;
        assert(all[k] == ipk);
    } else {
        lemma_wanted_through_child(p, m, path, i, (n - 1) as nat, ipk);
        let k = choose|k: int| 0 <= k < rest.len() && rest[k] == ipk;
        if contents_hash(p, child) == contents_hash(m, child) {
            assert(all[k] == ipk);
        } else {
            assert(all[wanted(p, m, child).len() + k] == ipk);
        }
    }
}

/// What passes a filter is kept.
proof fn lemma_filter_has(s: Seq<LeafEntry>, keep: spec_fn(LeafEntry) -> bool, i: int)
    requires
        0 <= i < s.len(),
        keep(s[i]),
    ensures
        s.filter(keep).contains(s[i]),
    decreases s.len(),
{
    reveal(Seq::filter);
    let init = s.drop_last();
    let f = s.filter(keep);
    if i < init.len() {
        lemma_filter_has(init, keep, i);
        let k = choose|k: int| 0 <= k < init.filter(keep).len() && init.filter(keep)[k] == init[i];
        assert(f[k] == s[i]);
    } else {
        assert(f[f.len() - 1] == s[i]);
    }
}

/// What a filter keeps was there and passes it.
proof fn lemma_filter_from(s: Seq<LeafEntry>, keep: spec_fn(LeafEntry) -> bool, i: int) -> (k: int)
    requires
        0 <= i < s.filter(keep).len(),
    ensures
        0 <= k < s.len(),
        s[k] == s.filter(keep)[i],
        keep(s[k]),
    decreases s.len(),
{
    reveal(Seq::filter);
    let init = s.drop_last();
    if i < init.filter(keep).len() {
        lemma_filter_from(init, keep, i)
    } else {
        s.len() - 1
    }
}

/// A descent fetches nothing that this relay has: every user it fetches has
/// another state at the peer than here, or none here.
pub proof fn law_descent_fetches_only_what_is_lacking(
    peer: &MerkleState,
    ours: &MerkleState,
    slice_id: u8,
    path: Seq<u8>,
    k: int,
)
    requires
        peer.wf(),
        ours.wf(),
        path.len() <= TREE_DEPTH,
        0 <= k < wanted(peer@[slice_id as int], ours@[slice_id as int], path).len(),
    ensures
        ({
            let p = peer@[slice_id as int];
            let m = ours@[slice_id as int];
            let ipk = wanted(p, m, path)[k];
            p.contains_key(ipk) && !m.contains_pair(ipk, p[ipk])
        }),
    decreases TREE_DEPTH - path.len(), MERKLE_FANOUT + 1,
{
    let p = peer@[slice_id as int];
    let m = ours@[slice_id as int];
    if path.len() >= TREE_DEPTH {
        peer.lemma_listing(slice_id, path);
        ours.lemma_listing(slice_id, path);
        let theirs = listing(p, path);
        let mine = listing(m, path);
        let i = lemma_filter_from(theirs, unlike(mine), k);
        let (ipk, v) = theirs[i];
        assert(p.contains_pair(theirs[i].0, theirs[i].1));
        if m.contains_pair(ipk, v) {
            assert(m.contains_key(ipk));
            assert(leaf_path(ipk) == path);
            let j = choose|j: int| 0 <= j < mine.len() && #[trigger] mine[j].0 == ipk;
            assert(m.contains_pair(mine[j].0, mine[j].1));
            assert(mine[j] == theirs[i]);
        }
    } else {
        lemma_children_lack(peer, ours, slice_id, path, MERKLE_FANOUT as nat, k);
    }
}

proof fn lemma_children_lack(peer: &MerkleState, ours: &MerkleState, slice_id: u8, path: Seq<u8>, n: nat, k: int)
    requires
        peer.wf(),
        ours.wf(),
        path.len() < TREE_DEPTH,
        0 <= k < wanted_of_children(peer@[slice_id as int], ours@[slice_id as int], path, n).len(),
    ensures
        ({
            let p = peer@[slice_id as int];
            let m = ours@[slice_id as int];
            let ipk = wanted_of_children(p, m, path, n)[k];
            p.contains_key(ipk) && !m.contains_pair(ipk, p[ipk])
        }),
    decreases TREE_DEPTH - path.len(), n,
{
    let p = peer@[slice_id as int];
    let m = ours@[slice_id as int];
    let child = path.push((n - 1) as u8);
    if contents_hash(p, child) == contents_hash(m, child) {
        lemma_children_lack(peer, ours, slice_id, path, (n - 1) as nat, k);
    } else {
        let w = wanted(p, m, child);
        if k < w.len() {
            law_descent_fetches_only_what_is_lacking(peer, ours, slice_id, child, k);
        } else {
            lemma_children_lack(peer, ours, slice_id, path, (n - 1) as nat, k - w.len());
        }
    }
}

/// Nodes above the leaf of a user whose state differs have different hashes, but
/// for a collision of digests or a digest of zero.
pub proof fn law_differing_states_have_differing_hashes(
    peer: &MerkleState,
    ours: &MerkleState,
    slice_id: u8,
    ipk: [u8; 32],
)
    requires
        peer.wf(),
        ours.wf(),
        peer@[slice_id as int].contains_key(ipk),
        !ours@[slice_id as int].contains_pair(ipk, peer@[slice_id as int][ipk]),
        !digests_collide(),
        !digest_is_zero(),
    ensures
        hashes_tell_apart(peer@[slice_id as int], ours@[slice_id as int], ipk),
{
    let p = peer@[slice_id as int];
    let m = ours@[slice_id as int];
    assert forall|d: int| 1 <= d <= TREE_DEPTH implies contents_hash(p, #[trigger] leaf_path(ipk).take(d))
        != contents_hash(m, leaf_path(ipk).take(d)) by {
        let path = leaf_path(ipk).take(d);
        if contents_hash(p, path) == contents_hash(m, path) {
            law_equal_hash_equal_contents(peer, ours, slice_id, path, ipk, p[ipk]);
        }
    }
}

/// A descent finds everything that this relay lacks: every user whose state at
/// the peer is not the one here is fetched, but for a collision of digests or a
/// digest of zero.
pub proof fn law_descent_finds_everything(peer: &MerkleState, ours: &MerkleState, slice_id: u8, ipk: [u8; 32])
    requires
        peer.wf(),
        ours.wf(),
        peer@[slice_id as int].contains_key(ipk),
        !ours@[slice_id as int].contains_pair(ipk, peer@[slice_id as int][ipk]),
        !digests_collide(),
        !digest_is_zero(),
    ensures
        fetched_in_all(
            BisectView { slice_id, stack: seq![Seq::<u8>::empty()], to_fetch: Seq::empty() },
            peer@[slice_id as int],
            ours@[slice_id as int],
        ).contains(ipk),
{
    let p = peer@[slice_id as int];
    let m = ours@[slice_id as int];
    law_differing_states_have_differing_hashes(peer, ours, slice_id, ipk);
    law_descent_finds_what_is_lacking(peer, ours, slice_id, ipk);
    let stack = seq![Seq::<u8>::empty()];
    let w = wanted(p, m, Seq::<u8>::empty());
    assert(stack.drop_last() =~= Seq::<Seq<u8>>::empty());
    let k = choose|k: int| 0 <= k < w.len() && w[k] == ipk;
    let all = fetched_in_all(BisectView { slice_id, stack, to_fetch: Seq::empty() }, p, m);
    assert(all[k] == ipk);
}

/// What a fetch is answered: the record of each user that is asked for, in full,
/// unless there is a tombstone, and then that in its place; and nothing that is
/// not held.
pub proof fn law_tombstones_go_before_records(held: Seq<Held>, rec: PresenceRecord, tomb: TombstoneRecord)
    ensures
        records_of(held).contains(rec) <==> exists|i: int|
            0 <= i < held.len() && (#[trigger] held[i]).tombstone is None && held[i].record == Some(rec),
        tombstones_of(held).contains(tomb) <==> exists|i: int|
            0 <= i < held.len() && (#[trigger] held[i]).tombstone == Some(tomb),
        records_of(held).len() + tombstones_of(held).len() <= held.len(),
    decreases held.len(),
{
    if held.len() > 0 {
        let init = held.drop_last();
        let n = held.len() - 1;
        law_tombstones_go_before_records(init, rec, tomb);
        let r0 = records_of(init);
        let r = records_of(held);
        let t0 = tombstones_of(init);
        let t = tombstones_of(held);
        if r.contains(rec) {
            let k = choose|k: int| 0 <= k < r.len() && r[k] == rec;
            if k < r0.len() {
                assert(r0[k] == rec);
                let i = choose|i: int|
                    0 <= i < init.len() && (#[trigger] init[i]).tombstone is None && init[i].record == Some(rec);
                assert(held[i].tombstone is None);
            } else {
                assert(held[n].tombstone is None);
            }
        }
        if exists|i: int| 0 <= i < held.len() && (#[trigger] held[i]).tombstone is None && held[i].record == Some(rec) {
            let i = choose|i: int|
                0 <= i < held.len() && (#[trigger] held[i]).tombstone is None && held[i].record == Some(rec);
            if i < n {
                assert(init[i].tombstone is None);
                let k = choose|k: int| 0 <= k < r0.len() && r0[k] == rec;
                assert(r[k] == rec);
            } else {
                assert(r[r0.len() as int] == rec);
            }
        }
        if t.contains(tomb) {
            let k = choose|k: int| 0 <= k < t.len() && t[k] == tomb;
            if k < t0.len() {
                assert(t0[k] == tomb);
                let i = choose|i: int| 0 <= i < init.len() && (#[trigger] init[i]).tombstone == Some(tomb);
                assert(held[i].tombstone == Some(tomb));
            } else {
                assert(held[n].tombstone == Some(tomb));
            }
        }
        if exists|i: int| 0 <= i < held.len() && (#[trigger] held[i]).tombstone == Some(tomb) {
            let i = choose|i: int| 0 <= i < held.len() && (#[trigger] held[i]).tombstone == Some(tomb);
            if i < n {
                assert(init[i].tombstone == Some(tomb));
                let k = choose|k: int| 0 <= k < t0.len() && t0[k] == tomb;
                assert(t[k] == tomb);
            } else {
                assert(t[t0.len() as int] == tomb);
            }
        }
    }
}

/// The slices that are looked into are those whose root at the peer is not the
/// one here.
pub proof fn law_differing_roots_are_kept(m: Seq<SliceView>, roots: Seq<(u8, [u8; 32])>, x: (u8, [u8; 32]))
    ensures
        roots.filter(root_differs(m)).contains(x) <==> roots.contains(x) && x.1 != contents_hash(
            m[x.0 as int],
            Seq::<u8>::empty(),
        ),
    decreases roots.len(),
{
    reveal(Seq::filter);
    let keep = root_differs(m);
    if roots.len() > 0 {
        let init = roots.drop_last();
        let n = roots.len() - 1;
        law_differing_roots_are_kept(m, init, x);
        let f0 = init.filter(keep);
        let f = roots.filter(keep);
        if f.contains(x) {
            let k = choose|k: int| 0 <= k < f.len() && f[k] == x;
            if k < f0.len() {
                assert(f0[k] == x);
                let i = choose|i: int| 0 <= i < init.len() && init[i] == x;
                assert(roots[i] == x);
            } else {
                assert(roots[n] == x);
            }
        }
        if roots.contains(x) && keep(x) {
            let i = choose|i: int| 0 <= i < roots.len() && roots[i] == x;
            if i < n {
                assert(init[i] == x);
                let k = choose|k: int| 0 <= k < f0.len() && f0[k] == x;
                assert(f[k] == x);
            } else {
                assert(f[f0.len() as int] == x);
            }
        }
    }
}

/// The children that a descent goes into are those whose hash at the peer is not
/// the one here, all sixteen looked at.
pub proof fn law_differing_children_are_entered(m: SliceView, path: Seq<u8>, hashes: Seq<[u8; 32]>, n: nat, i: int)
    requires
        n <= 16,
        0 <= i < n,
    ensures
        differing_children(m, path, hashes, n).contains(path.push(i as u8)) <==> hashes[i] != contents_hash(
            m,
            path.push(i as u8),
        ),
        forall|k: int| 0 <= k < differing_children(m, path, hashes, n).len() ==> exists|j: int|
            0 <= j < n && #[trigger] path.push(j as u8) == #[trigger] differing_children(m, path, hashes, n)[k],
    decreases n,
{
    let before = differing_children(m, path, hashes, (n - 1) as nat);
    let all = differing_children(m, path, hashes, n);
    let child = path.push((n - 1) as u8);
    lemma_entered_are_children(m, path, hashes, (n - 1) as nat);
    lemma_entered_are_children(m, path, hashes, n);
    if i < n - 1 {
        law_differing_children_are_entered(m, path, hashes, (n - 1) as nat, i);
        let mine = path.push(i as u8);
        assert(mine.last() == i as u8 && child.last() == (n - 1) as u8);
        if before.contains(mine) {
            let k = choose|k: int| 0 <= k < before.len() && before[k] == mine;
            assert(all[k] == mine);
        }
        if all.contains(mine) {
            let k = choose|k: int| 0 <= k < all.len() && all[k] == mine;
            assert(k < before.len());
            assert(before[k] == mine);
        }
    } else {
        if hashes[i] != contents_hash(m, child) {
            assert(all[before.len() as int] == child);
        } else if all.contains(child) {
            let k = choose|k: int| 0 <= k < before.len() && before[k] == child;
            let j = choose|j: int| 0 <= j < n - 1 && #[trigger] path.push(j as u8) == before[k];
            assert(path.push(j as u8).last() == j as u8);
            assert(child.last() == (n - 1) as u8);
        }
    }
}

proof fn lemma_entered_are_children(m: SliceView, path: Seq<u8>, hashes: Seq<[u8; 32]>, n: nat)
    requires
        n <= 16,
    ensures
        forall|k: int| 0 <= k < differing_children(m, path, hashes, n).len() ==> exists|j: int|
            0 <= j < n && #[trigger] path.push(j as u8) == #[trigger] differing_children(m, path, hashes, n)[k],
    decreases n,
{
    if n > 0 {
        lemma_entered_are_children(m, path, hashes, (n - 1) as nat);
        let before = differing_children(m, path, hashes, (n - 1) as nat);
        let all = differing_children(m, path, hashes, n);
        assert forall|k: int| 0 <= k < all.len() implies exists|j: int|
            0 <= j < n && #[trigger] path.push(j as u8) == #[trigger] all[k] by {
            if k < before.len() {
                assert(all[k] == before[k]);
                let j = choose|j: int| 0 <= j < n - 1 && #[trigger] path.push(j as u8) == before[k];
                assert(path.push(j as u8) == all[k]);
            } else {
                assert(path.push((n - 1) as u8) == all[k]);
            }
        }
    }
}

/// The users that are fetched after a leaf was compared: those for whom the peer
/// lists a pair that is not listed here, key and value hash taken together.
pub proof fn law_unlike_pairs_are_fetched(theirs: Seq<LeafEntry>, ours: Seq<LeafEntry>, u: [u8; 32])
    ensures
        users_in(theirs.filter(unlike(ours))).contains(u) <==> exists|i: int|
            0 <= i < theirs.len() && (#[trigger] theirs[i]).0 == u && forall|j: int|
                0 <= j < ours.len() ==> (#[trigger] ours[j]).0 != u || ours[j].1 != theirs[i].1,
{
    let keep = unlike(ours);
    let f = theirs.filter(keep);
    if users_in(f).contains(u) {
        let k = choose|k: int| 0 <= k < users_in(f).len() && users_in(f)[k] == u;
        let i = lemma_filter_from(theirs, keep, k);
        assert forall|j: int| 0 <= j < ours.len() implies (#[trigger] ours[j]).0 != u || ours[j].1 != theirs[i].1 by {
            if ours[j].0 == u && ours[j].1 == theirs[i].1 {
                assert(ours[j] == theirs[i]);
            }
        }
        assert(theirs[i].0 == u);
    }
    if exists|i: int|
        0 <= i < theirs.len() && (#[trigger] theirs[i]).0 == u && forall|j: int|
            0 <= j < ours.len() ==> (#[trigger] ours[j]).0 != u || ours[j].1 != theirs[i].1 {
        let i = choose|i: int|
            0 <= i < theirs.len() && (#[trigger] theirs[i]).0 == u && forall|j: int|
                0 <= j < ours.len() ==> (#[trigger] ours[j]).0 != u || ours[j].1 != theirs[i].1;
        if ours.contains(theirs[i]) {
            let j = choose|j: int| 0 <= j < ours.len() && ours[j] == theirs[i];
            assert(ours[j].0 == u);
        }
        assert(keep(theirs[i]));
        lemma_filter_has(theirs, keep, i);
        let k = choose|k: int| 0 <= k < f.len() && f[k] == theirs[i];
        assert(users_in(f)[k] == u);
    }
}

/// A reply of the wrong shape, or none, leaves a descent as it is; leaves are
/// compared only on their level, and children entered only above it.
pub proof fn law_wrong_replies_are_passed_over(v: BisectView, m: SliceView, path: Seq<u8>, reply: Option<MerkleDiffResp>)
    ensures
        reply is None ==> after_reply(v, m, path, reply) == v,
        reply matches Some(MerkleDiffResp::Leaves(_)) && path.len() < 4 ==> after_reply(v, m, path, reply) == v,
        reply matches Some(MerkleDiffResp::Children(hashes)) && (path.len() >= 4 || hashes@.len() != 16) ==> after_reply(
            v,
            m,
            path,
            reply,
        ) == v,
        after_reply(v, m, path, reply).to_fetch.take(v.to_fetch.len() as int) == v.to_fetch,
        after_reply(v, m, path, reply).stack.take(v.stack.len() as int) == v.stack,
{
    assert(after_reply(v, m, path, reply).to_fetch.take(v.to_fetch.len() as int) =~= v.to_fetch);
    assert(after_reply(v, m, path, reply).stack.take(v.stack.len() as int) =~= v.stack);
}

/// Chunks one after the other are their lists one after the other.
pub proof fn law_chunks_add_up(chunks: Seq<Vec<[u8; 32]>>, more: Vec<[u8; 32]>)
    ensures
        flattened(chunks.push(more)) == flattened(chunks) + more@,
        flattened(Seq::<Vec<[u8; 32]>>::empty()).len() == 0,
{
    assert(chunks.push(more).drop_last() =~= chunks);
}

} // verus!
