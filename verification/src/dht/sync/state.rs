//! The Merkle trees of all slices.

use super::merkle::{
    contents_hash, law_different_contents_different_roots, law_same_hash_same_contents_below, leaf_path, listing, LeafEntry,
    NodePath, SliceTree, TREE_DEPTH,
};
use crate::dht::config::MERKLE_FANOUT;
use crate::dht::hash::{digest_is_zero, digests_collide};
use vstd::arithmetic::power2::pow2;
use vstd::prelude::*;

verus! {

/// Slices of the keyspace, one for each first byte of a key.
pub const SLICES: usize = 256;

/// What a tree holds.
pub type SliceView = Map<[u8; 32], [u8; 32]>;

/// The trees of all slices.
pub struct MerkleState {
    trees: Vec<SliceTree>,
}

impl View for MerkleState {
    type V = Seq<SliceView>;

    closed spec fn view(&self) -> Seq<SliceView> {
        Seq::new(self.trees@.len(), |i: int| self.trees@[i]@)
    }
}

/// Bit `slice` of a set of slices, the lowest bit of the first byte first.
pub open spec fn asks_for(slices: [u8; 32], slice: int) -> bool {
    (slices[slice / 8] >> ((slice % 8) as u8)) & 1u8 == 1u8
}

/// Adds `slice` to a set of slices.
pub fn set_slice_bit(slices: &mut [u8; 32], slice: u8)
    ensures
        forall|s: int|
            0 <= s < SLICES ==> (#[trigger] asks_for(*final(slices), s) <==> s == slice || asks_for(
                *old(slices),
                s,
            )),
{
    let ghost before = *slices;
    let byte: usize = (slice / 8) as usize;
    let bit: u8 = slice % 8;
    let old_byte: u8 = slices[byte];
    slices[byte] = old_byte | (1u8 << bit);
    assert forall|s: int| 0 <= s < SLICES implies (#[trigger] asks_for(*slices, s) <==> s == slice || asks_for(
        before,
        s,
    )) by {
        let b = (s % 8) as u8;
        if s / 8 == byte {
            assert(b < 8 && bit < 8 ==> (((old_byte | (1u8 << bit)) >> b) & 1u8 == 1u8 <==> b == bit || (old_byte
                >> b) & 1u8 == 1u8)) by (bit_vector);
        }
    }
}

/// The set of all slices.
pub fn all_slices_bitset() -> (r: [u8; 32])
    ensures
        forall|s: int| 0 <= s < SLICES ==> #[trigger] asks_for(r, s),
{
    let r: [u8; 32] = [0xffu8; 32];
    assert forall|s: int| 0 <= s < SLICES implies #[trigger] asks_for(r, s) by {
        let b = (s % 8) as u8;
        assert(b < 8 ==> (0xffu8 >> b) & 1u8 == 1u8) by (bit_vector);
    }
    r
}

/// What is found at a node of a tree.
#[derive(Debug)]
pub enum MerkleDiffResp {
    /// The hashes of its children.
    Children(Vec<[u8; 32]>),
    /// The pairs of a leaf.
    Leaves(Vec<LeafEntry>),
}

/// `r` holds the root hashes of the slices that are asked for and hold
/// anything, in ascending order of slices.
pub open spec fn is_summary(m: Seq<SliceView>, slices: [u8; 32], r: Seq<(u8, [u8; 32])>) -> bool {
    &&& forall|i: int, j: int| 0 <= i < j < r.len() ==> (#[trigger] r[i]).0 < (#[trigger] r[j]).0
    &&& forall|i: int|
        0 <= i < r.len() ==> {
            let s = (#[trigger] r[i]).0 as int;
            &&& asks_for(slices, s)
            &&& m[s] != Map::<[u8; 32], [u8; 32]>::empty()
            &&& r[i].1 == contents_hash(m[s], Seq::<u8>::empty())
        }
    &&& forall|s: int|
        0 <= s < SLICES && #[trigger] asks_for(slices, s) && m[s] != Map::<[u8; 32], [u8; 32]>::empty() ==> exists|
            i: int,
        |
            0 <= i < r.len() && (#[trigger] r[i]).0 == s
}

/// `r` tells what is found at a node of a tree: above the leaves the hashes of
/// its children, at a leaf its pairs, and below that nothing.
pub open spec fn is_diff(m: SliceView, path: Seq<u8>, r: MerkleDiffResp) -> bool {
    if path.len() < TREE_DEPTH {
        &&& r matches MerkleDiffResp::Children(hashes)
        &&& hashes@.len() == MERKLE_FANOUT
        &&& forall|i: int|
            0 <= i < MERKLE_FANOUT ==> #[trigger] hashes@[i] == contents_hash(m, path.push(i as u8))
    } else if path.len() == TREE_DEPTH {
        r matches MerkleDiffResp::Leaves(entries) && entries@ == listing(m, path)
    } else {
        r matches MerkleDiffResp::Leaves(entries) && entries@.len() == 0
    }
}

impl MerkleState {
    /// There is one tree for each slice.
    pub closed spec fn wf(&self) -> bool {
        &&& self.trees@.len() == SLICES
        &&& forall|i: int| 0 <= i < SLICES ==> (#[trigger] self.trees@[i]).wf() && self.trees@[i].slice() == i
    }

    /// What a leaf lists is what the slice holds there.
    pub proof fn lemma_listing(&self, slice_id: u8, path: Seq<u8>)
        requires
            self.wf(),
            path.len() == TREE_DEPTH,
        ensures
            super::merkle::is_listing(self@[slice_id as int], path, listing(self@[slice_id as int], path)),
    {
        self.trees@[slice_id as int].lemma_listing(path);
    }

    /// Trees that hold nothing.
    pub fn empty() -> (r: MerkleState)
        ensures
            r.wf(),
            r@.len() == SLICES,
            forall|i: int| 0 <= i < SLICES ==> #[trigger] r@[i] == Map::<[u8; 32], [u8; 32]>::empty(),
    {
        let mut trees: Vec<SliceTree> = Vec::new();
        let mut i: usize = 0;
        while i < SLICES
            invariant
                0 <= i <= SLICES,
                trees.len() == i,
                forall|j: int|
                    0 <= j < i ==> (#[trigger] trees@[j]).wf() && trees@[j].slice() == j && trees@[j]@ == Map::<
                        [u8; 32],
                        [u8; 32],
                    >::empty(),
            decreases SLICES - i,
        {
            trees.push(SliceTree::new(i as u8));
            i = i + 1;
        }
        MerkleState { trees }
    }

    /// The root hash of a slice.
    pub fn root(&self, slice_id: u8) -> (r: [u8; 32])
        requires
            self.wf(),
        ensures
            r == contents_hash(self@[slice_id as int], Seq::<u8>::empty()),
    {
        self.trees[slice_id as usize].root()
    }

    /// Puts `value_hash` under `user_ipk`.
    pub fn insert(&mut self, user_ipk: &[u8; 32], value_hash: [u8; 32])
        requires
            old(self).wf(),
        ensures
            final(self).wf(),
            final(self)@ == old(self)@.update(
                user_ipk[0] as int,
                old(self)@[user_ipk[0] as int].insert(*user_ipk, value_hash),
            ),
            final(self)@[user_ipk[0] as int].contains_pair(*user_ipk, value_hash),
            forall|s: int| 0 <= s < 256 && s != user_ipk[0] ==> #[trigger] final(self)@[s] == old(self)@[s],
            forall|other: [u8; 32]|
                other != *user_ipk ==> {
                    &&& #[trigger] final(self)@[user_ipk[0] as int].contains_key(other) <==> old(
                        self,
                    )@[user_ipk[0] as int].contains_key(other)
                    &&& final(self)@[user_ipk[0] as int][other] == old(self)@[user_ipk[0] as int][other]
                },
    {
        let ghost before = self@;
        let s: usize = user_ipk[0] as usize;
        self.trees[s].insert(user_ipk, value_hash);
        assert(self@ =~= before.update(s as int, before[s as int].insert(*user_ipk, value_hash)));
    }

    /// Takes out what is under `user_ipk`.
    pub fn remove(&mut self, user_ipk: &[u8; 32])
        requires
            old(self).wf(),
        ensures
            final(self).wf(),
            final(self)@ == old(self)@.update(
                user_ipk[0] as int,
                old(self)@[user_ipk[0] as int].remove(*user_ipk),
            ),
            !final(self)@[user_ipk[0] as int].contains_key(*user_ipk),
            forall|s: int| 0 <= s < 256 && s != user_ipk[0] ==> #[trigger] final(self)@[s] == old(self)@[s],
            forall|other: [u8; 32]|
                other != *user_ipk ==> {
                    &&& #[trigger] final(self)@[user_ipk[0] as int].contains_key(other) <==> old(
                        self,
                    )@[user_ipk[0] as int].contains_key(other)
                    &&& old(self)@[user_ipk[0] as int].contains_key(other) ==> final(self)@[user_ipk[0] as int][other]
                        == old(self)@[user_ipk[0] as int][other]
                },
    {
        let ghost before = self@;
        let s: usize = user_ipk[0] as usize;
        self.trees[s].remove(user_ipk);
        assert(self@ =~= before.update(s as int, before[s as int].remove(*user_ipk)));
    }

    /// The root hashes of the slices that are asked for and hold anything, in
    /// ascending order of slices.
    pub fn summary(&self, slices: &[u8; 32]) -> (r: Vec<(u8, [u8; 32])>)
        requires
            self.wf(),
        ensures
            is_summary(self@, *slices, r@),
    {
        let mut out: Vec<(u8, [u8; 32])> = Vec::new();
        let mut s: usize = 0;
        while s < SLICES
            invariant
                0 <= s <= SLICES,
                self.wf(),
                forall|i: int, j: int| 0 <= i < j < out.len() ==> (#[trigger] out@[i]).0 < (#[trigger] out@[j]).0,
                forall|i: int|
                    0 <= i < out.len() ==> {
                        let t = (#[trigger] out@[i]).0 as int;
                        &&& t < s
                        &&& asks_for(*slices, t)
                        &&& self@[t] != Map::<[u8; 32], [u8; 32]>::empty()
                        &&& out@[i].1 == contents_hash(self@[t], Seq::<u8>::empty())
                    },
                forall|t: int|
                    0 <= t < s && #[trigger] asks_for(*slices, t) && self@[t] != Map::<
                        [u8; 32],
                        [u8; 32],
                    >::empty() ==> exists|i: int| 0 <= i < out.len() && (#[trigger] out@[i]).0 == t,
            decreases SLICES - s,
        {
            let bit: u8 = (s % 8) as u8;
            let asked: bool = (slices[s / 8] >> bit) & 1u8 == 1u8;
            assert(asked == asks_for(*slices, s as int));
            let ghost before = out@;
            if asked && !self.trees[s].is_empty() {
                out.push((s as u8, self.trees[s].root()));
                assert(out@[before.len() as int].0 == s);
            }
            assert forall|t: int|
                0 <= t < s + 1 && #[trigger] asks_for(*slices, t) && self@[t] != Map::<
                    [u8; 32],
                    [u8; 32],
                >::empty() implies exists|i: int| 0 <= i < out.len() && (#[trigger] out@[i]).0 == t by {
                if t < s {
                    let i = choose|i: int| 0 <= i < before.len() && (#[trigger] before[i]).0 == t;
                    assert(out@[i].0 == t);
                }
            }
            s = s + 1;
        }
        out
    }

    /// The hashes of the children of a node.
    pub fn children_at(&self, slice_id: u8, path: &NodePath) -> (r: [[u8; 32]; 16])
        requires
            self.wf(),
            path.len() < TREE_DEPTH,
        ensures
            forall|i: int|
                0 <= i < MERKLE_FANOUT ==> #[trigger] r@[i] == contents_hash(
                    self@[slice_id as int],
                    path@.push(i as u8),
                ),
    {
        self.trees[slice_id as usize].children_at(path)
    }

    /// The pairs of a leaf, in the order of their keys.
    pub fn leaves_at(&self, slice_id: u8, path: &NodePath) -> (r: Vec<LeafEntry>)
        requires
            self.wf(),
            path.len() == TREE_DEPTH,
        ensures
            r@ == listing(self@[slice_id as int], path@),
            super::merkle::is_listing(self@[slice_id as int], path@, r@),
    {
        self.trees[slice_id as usize].leaves_at(path)
    }

    /// What is found at a node: above the leaves the hashes of its children,
    /// at a leaf its pairs, and below that nothing.
    pub fn diff(&self, slice_id: u8, path: &NodePath) -> (r: MerkleDiffResp)
        requires
            self.wf(),
        ensures
            is_diff(self@[slice_id as int], path@, r),
    {
        if path.len() > TREE_DEPTH {
            return MerkleDiffResp::Leaves(Vec::new());
        }
        if path.len() == TREE_DEPTH {
            return MerkleDiffResp::Leaves(self.leaves_at(slice_id, path));
        }
        let children: [[u8; 32]; 16] = self.children_at(slice_id, path);
        let mut hashes: Vec<[u8; 32]> = Vec::new();
        let mut i: usize = 0;
        while i < MERKLE_FANOUT
            invariant
                0 <= i <= MERKLE_FANOUT,
                hashes.len() == i,
                forall|j: int| 0 <= j < i ==> #[trigger] hashes@[j] == children@[j],
            decreases MERKLE_FANOUT - i,
        {
            hashes.push(children[i]);
            i = i + 1;
        }
        MerkleDiffResp::Children(hashes)
    }
}

/// A set of slices is read from the lowest bit of the first byte on: slice `s`
/// is in it where the digit with weight two to the `s % 8` of byte `s / 8` is
/// one.
pub proof fn law_slices_are_bits(slices: [u8; 32], s: int)
    requires
        0 <= s < 256,
    ensures
        asks_for(slices, s) <==> (slices@[s / 8] as nat / pow2((s % 8) as nat)) % 2 == 1,
{
    let b = slices@[s / 8];
    let k = (s % 8) as u8;
    vstd::bits::lemma_u8_shr_is_div(b, k);
    let y = b >> k;
    assert(y & 1u8 == y % 2u8) by (bit_vector);
}

/// Two relays with one hash at a node of a slice hold the same below it, but for
/// a collision of digests or a digest of zero.
pub proof fn law_equal_hash_equal_contents(
    a: &MerkleState,
    b: &MerkleState,
    slice_id: u8,
    path: Seq<u8>,
    k: [u8; 32],
    v: [u8; 32],
)
    requires
        a.wf(),
        b.wf(),
        path.len() <= 4,
        leaf_path(k).take(path.len() as int) == path,
        contents_hash(a@[slice_id as int], path) == contents_hash(b@[slice_id as int], path),
        !digests_collide(),
        !digest_is_zero(),
    ensures
        a@[slice_id as int].contains_pair(k, v) <==> b@[slice_id as int].contains_pair(k, v),
{
    law_same_hash_same_contents_below(&a.trees@[slice_id as int], &b.trees@[slice_id as int], path, k, v);
}

/// A summary tells of every difference: of a slice that is asked for, in which
/// this relay holds something and another holds something else, the summary
/// gives a root that the other has not, but for a collision of digests or a
/// digest of zero.
pub proof fn law_summary_tells_of_differences(
    a: &MerkleState,
    b: &MerkleState,
    slices: [u8; 32],
    r: Seq<(u8, [u8; 32])>,
    s: u8,
)
    requires
        a.wf(),
        b.wf(),
        is_summary(a@, slices, r),
        asks_for(slices, s as int),
        a@[s as int] != b@[s as int],
        a@[s as int] != Map::<[u8; 32], [u8; 32]>::empty(),
        !digests_collide(),
        !digest_is_zero(),
    ensures
        exists|i: int|
            0 <= i < r.len() && (#[trigger] r[i]).0 == s && r[i].1 != contents_hash(b@[s as int], Seq::<u8>::empty()),
{
    law_different_contents_different_roots(&a.trees@[s as int], &b.trees@[s as int]);
    let i = choose|i: int| 0 <= i < r.len() && (#[trigger] r[i]).0 == s;
    assert(r[i].0 == s);
}

/// A summary tells of nothing else: a slice that was not asked for, or in which
/// nothing is held, is not in it, no slice is in it twice, and a slice in which
/// both hold the same has the root that the other has.
pub proof fn law_summary_tells_what_is_held(
    a: &MerkleState,
    b: &MerkleState,
    slices: [u8; 32],
    r: Seq<(u8, [u8; 32])>,
    i: int,
)
    requires
        a.wf(),
        b.wf(),
        is_summary(a@, slices, r),
        0 <= i < r.len(),
    ensures
        asks_for(slices, r[i].0 as int),
        a@[r[i].0 as int] != Map::<[u8; 32], [u8; 32]>::empty(),
        a@[r[i].0 as int] == b@[r[i].0 as int] ==> r[i].1 == contents_hash(b@[r[i].0 as int], Seq::<u8>::empty()),
        forall|j: int| 0 <= j < r.len() && j != i ==> (#[trigger] r[j]).0 != r[i].0,
{
    assert forall|j: int| 0 <= j < r.len() && j != i implies (#[trigger] r[j]).0 != r[i].0 by {
        if j < i {
            assert(r[j].0 < r[i].0);
        } else {
            assert(r[i].0 < r[j].0);
        }
    }
}

/// What is answered about a node: sixteen hashes above the leaves, the pairs of
/// the leaf on their level, nothing below; and the pairs of a leaf are exactly
/// those that are held there.
pub proof fn law_diff_tells_what_is_held(s: &MerkleState, slice_id: u8, path: Seq<u8>, r: MerkleDiffResp, k: [u8; 32], v: [u8; 32])
    requires
        s.wf(),
        is_diff(s@[slice_id as int], path, r),
    ensures
        path.len() < 4 ==> (r matches MerkleDiffResp::Children(hashes) && hashes@.len() == 16),
        path.len() >= 4 ==> r is Leaves,
        path.len() > 4 ==> (r matches MerkleDiffResp::Leaves(entries) && entries@.len() == 0),
        path == leaf_path(k) ==> (r matches MerkleDiffResp::Leaves(entries) && (entries@.contains((k, v))
            <==> s@[slice_id as int].contains_pair(k, v))),
{
    if path == leaf_path(k) {
        s.lemma_listing(slice_id, path);
        let m = s@[slice_id as int];
        let l = listing(m, path);
        if l.contains((k, v)) {
            let i = choose|i: int| 0 <= i < l.len() && l[i] == (k, v);
            assert(m.contains_pair(l[i].0, l[i].1));
        }
        if m.contains_pair(k, v) {
            let i = choose|i: int| 0 <= i < l.len() && #[trigger] l[i].0 == k;
            assert(m.contains_pair(l[i].0, l[i].1));
            assert(l[i] == (k, v));
        }
    }
}

} // verus!
