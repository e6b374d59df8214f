//! Radix-16 Merkle trie over the user keys of one slice of the keyspace.
//!
//! A slice holds the keys with one first byte. The next two bytes of a key,
//! taken as four nibbles, lead from the root of the slice to a leaf; a leaf
//! holds the `(key, value hash)` pairs that share those nibbles, in the order
//! of their keys. An empty subtree hashes to zero.

use crate::dht::bytes::{append_bytes, be_nat, eq32, lemma_be_nat_injective, less32};
use crate::dht::config::MERKLE_FANOUT;
use crate::dht::hash::{blake3_hash, blake3_of, digest_is_zero, digests_collide};
use std::collections::HashMap;
use vstd::prelude::*;
use vstd::string::StringSliceAdditionalSpecFns;

verus! {

/// Levels below the root of a slice.
pub const TREE_DEPTH: usize = 4;

/// Nibbles from the root of a slice.
pub type NodePath = Vec<u8>;

/// A user key and the hash of what is stored under it.
pub type LeafEntry = ([u8; 32], [u8; 32]);

// ---------------------------------------------------------------------------
// What the hashes are
// ---------------------------------------------------------------------------

/// The hash of an empty subtree.
pub open spec fn zero_hash() -> [u8; 32] {
    vstd::array::spec_array_fill_for_copy_type::<u8, 32>(0u8)
}

/// The four nibbles that lead to the leaf of a key.
pub open spec fn leaf_path(ipk: [u8; 32]) -> Seq<u8> {
    seq![ipk[1] / 16, ipk[1] % 16, ipk[2] / 16, ipk[2] % 16]
}

/// The pairs of a leaf, one behind the other.
pub open spec fn leaf_bytes(entries: Seq<LeafEntry>) -> Seq<u8>
    decreases entries.len(),
{
    if entries.len() == 0 {
        Seq::empty()
    } else {
        leaf_bytes(entries.drop_last()) + entries.last().0@ + entries.last().1@
    }
}

/// The hash of a leaf.
pub open spec fn leaf_hash(entries: Seq<LeafEntry>) -> [u8; 32] {
    if entries.len() == 0 {
        zero_hash()
    } else {
        blake3_hash("dht-merkle-leaf-v1".spec_bytes() + leaf_bytes(entries))
    }
}

/// Some hashes, one behind the other.
pub open spec fn joined(hashes: Seq<[u8; 32]>) -> Seq<u8>
    decreases hashes.len(),
{
    if hashes.len() == 0 {
        Seq::empty()
    } else {
        joined(hashes.drop_last()) + hashes.last()@
    }
}

/// The hash of an inner node.
pub open spec fn inner_hash(children: Seq<[u8; 32]>) -> [u8; 32] {
    if forall|i: int| 0 <= i < children.len() ==> children[i] == zero_hash() {
        zero_hash()
    } else {
        blake3_hash("dht-merkle-node-v1".spec_bytes() + joined(children))
    }
}

/// The hash of the subtree at `path`, when `leaf` says what each leaf holds.
pub open spec fn tree_hash(leaf: spec_fn(Seq<u8>) -> Seq<LeafEntry>, path: Seq<u8>) -> [u8; 32]
    decreases TREE_DEPTH - path.len(), MERKLE_FANOUT + 1,
{
    if path.len() >= TREE_DEPTH {
        leaf_hash(leaf(path))
    } else {
        inner_hash(child_hashes(leaf, path, MERKLE_FANOUT as nat))
    }
}

/// The hashes of the first `n` children of the node at `path`.
pub open spec fn child_hashes(leaf: spec_fn(Seq<u8>) -> Seq<LeafEntry>, path: Seq<u8>, n: nat) -> Seq<[u8; 32]>
    decreases TREE_DEPTH - path.len(), n,
{
    if n == 0 || path.len() >= TREE_DEPTH {
        Seq::empty()
    } else {
        child_hashes(leaf, path, (n - 1) as nat).push(tree_hash(leaf, path.push((n - 1) as u8)))
    }
}

/// `s` lists what `contents` holds below the leaf at `path`, in the order of
/// the keys.
pub open spec fn is_listing(contents: Map<[u8; 32], [u8; 32]>, path: Seq<u8>, s: Seq<LeafEntry>) -> bool {
    &&& keys_ascend(s)
    &&& forall|i: int|
        0 <= i < s.len() ==> contents.contains_pair((#[trigger] s[i]).0, s[i].1) && leaf_path(s[i].0) == path
    &&& forall|k: [u8; 32]| #[trigger] contents.contains_key(k) && leaf_path(k) == path ==> lists_key(s, k)
}

/// The keys stand in ascending order.
pub open spec fn keys_ascend(s: Seq<LeafEntry>) -> bool {
    forall|i: int, j: int| 0 <= i < j < s.len() ==> be_nat(#[trigger] s[i].0@) < be_nat(#[trigger] s[j].0@)
}

/// One of the pairs is that of `k`.
pub open spec fn lists_key(s: Seq<LeafEntry>, k: [u8; 32]) -> bool {
    exists|i: int| 0 <= i < s.len() && #[trigger] s[i].0 == k
}

/// What `contents` holds below the leaf at `path`, in the order of the keys.
pub open spec fn listing(contents: Map<[u8; 32], [u8; 32]>, path: Seq<u8>) -> Seq<LeafEntry> {
    choose|s: Seq<LeafEntry>| is_listing(contents, path, s)
}

/// What each leaf of a tree with these contents holds.
pub open spec fn listings(contents: Map<[u8; 32], [u8; 32]>) -> spec_fn(Seq<u8>) -> Seq<LeafEntry> {
    |p: Seq<u8>| listing(contents, p)
}

/// The hash of the subtree at `path` of a tree with these contents.
pub open spec fn contents_hash(contents: Map<[u8; 32], [u8; 32]>, path: Seq<u8>) -> [u8; 32] {
    tree_hash(listings(contents), path)
}

// ---------------------------------------------------------------------------
// Lemmas on listings and hashes
// ---------------------------------------------------------------------------

proof fn lemma_key_from_number(a: [u8; 32], b: [u8; 32])
    requires
        be_nat(a@) == be_nat(b@),
    ensures
        a == b,
{
    lemma_be_nat_injective(a@, b@);
    assert(a =~= b);
}

/// Contents are listed in one way only.
pub proof fn law_listing_unique(
    contents: Map<[u8; 32], [u8; 32]>,
    path: Seq<u8>,
    s1: Seq<LeafEntry>,
    s2: Seq<LeafEntry>,
)
    requires
        is_listing(contents, path, s1),
        is_listing(contents, path, s2),
    ensures
        s1 == s2,
{
    lemma_listing_prefix(contents, path, s1, s2, if s1.len() < s2.len() { s1.len() as int } else { s2.len() as int });
    if s1.len() < s2.len() {
        lemma_listing_not_longer(contents, path, s1, s2);
    }
    if s2.len() < s1.len() {
        lemma_listing_not_longer(contents, path, s2, s1);
    }
    assert(s1 =~= s2);
}

proof fn lemma_listing_not_longer(
    contents: Map<[u8; 32], [u8; 32]>,
    path: Seq<u8>,
    s1: Seq<LeafEntry>,
    s2: Seq<LeafEntry>,
)
    requires
        is_listing(contents, path, s1),
        is_listing(contents, path, s2),
        forall|i: int| 0 <= i < s1.len() && i < s2.len() ==> #[trigger] s1[i] == s2[i],
    ensures
        s2.len() <= s1.len(),
{
    if s1.len() < s2.len() {
        let k = s2[s1.len() as int].0;
        assert(contents.contains_key(k) && leaf_path(k) == path);
        assert(lists_key(s1, k));
        let j = choose|j: int| 0 <= j < s1.len() && #[trigger] s1[j].0 == k;
        assert(s1[j] == s2[j]);
        assert(be_nat(s2[j].0@) < be_nat(s2[s1.len() as int].0@));
    }
}

proof fn lemma_listing_prefix(
    contents: Map<[u8; 32], [u8; 32]>,
    path: Seq<u8>,
    s1: Seq<LeafEntry>,
    s2: Seq<LeafEntry>,
    n: int,
)
    requires
        is_listing(contents, path, s1),
        is_listing(contents, path, s2),
        0 <= n <= s1.len(),
        n <= s2.len(),
    ensures
        forall|i: int| 0 <= i < n ==> #[trigger] s1[i] == s2[i],
    decreases n,
{
    if n > 0 {
        lemma_listing_prefix(contents, path, s1, s2, n - 1);
        lemma_listing_not_above(contents, path, s1, s2, n - 1);
        lemma_listing_not_above(contents, path, s2, s1, n - 1);
        lemma_key_from_number(s1[n - 1].0, s2[n - 1].0);
    }
}

proof fn lemma_listing_not_above(
    contents: Map<[u8; 32], [u8; 32]>,
    path: Seq<u8>,
    s1: Seq<LeafEntry>,
    s2: Seq<LeafEntry>,
    i: int,
)
    requires
        is_listing(contents, path, s1),
        is_listing(contents, path, s2),
        0 <= i < s1.len(),
        i < s2.len(),
        forall|j: int| 0 <= j < i ==> #[trigger] s1[j] == s2[j],
    ensures
        be_nat(s2[i].0@) <= be_nat(s1[i].0@),
{
    let k = s1[i].0;
    assert(contents.contains_key(k) && leaf_path(k) == path);
    assert(lists_key(s2, k));
    let j = choose|j: int| 0 <= j < s2.len() && #[trigger] s2[j].0 == k;
    if j < i {
        assert(s1[j] == s2[j]);
        assert(be_nat(s1[j].0@) < be_nat(s1[i].0@));
    }
    if i < j {
        assert(be_nat(s2[i].0@) < be_nat(s2[j].0@));
    }
}

proof fn lemma_child_hashes(f: spec_fn(Seq<u8>) -> Seq<LeafEntry>, path: Seq<u8>, n: nat)
    requires
        path.len() < TREE_DEPTH,
    ensures
        child_hashes(f, path, n).len() == n,
        forall|i: int|
            0 <= i < n ==> #[trigger] child_hashes(f, path, n)[i] == tree_hash(f, path.push(i as u8)),
    decreases n,
{
    if n > 0 {
        lemma_child_hashes(f, path, (n - 1) as nat);
    }
}

/// Trees whose leaves below `path` are the same have the same hash there.
proof fn lemma_same_leaves_same_hash(
    f: spec_fn(Seq<u8>) -> Seq<LeafEntry>,
    g: spec_fn(Seq<u8>) -> Seq<LeafEntry>,
    path: Seq<u8>,
)
    requires
        path.len() <= TREE_DEPTH,
        forall|p: Seq<u8>|
            p.len() == TREE_DEPTH && #[trigger] p.take(path.len() as int) == path ==> f(p) == g(p),
    ensures
        tree_hash(f, path) == tree_hash(g, path),
    decreases TREE_DEPTH - path.len(),
{
    if path.len() == TREE_DEPTH {
        assert(path.take(path.len() as int) =~= path);
    } else {
        assert forall|i: int| 0 <= i < MERKLE_FANOUT implies #[trigger] tree_hash(f, path.push(i as u8))
            == tree_hash(g, path.push(i as u8)) by {
            let child = path.push(i as u8);
            assert forall|p: Seq<u8>|
                p.len() == TREE_DEPTH && #[trigger] p.take(child.len() as int) == child implies f(p) == g(p) by {
                assert(p.take(path.len() as int) =~= child.take(path.len() as int));
                assert(child.take(path.len() as int) =~= path);
            }
            lemma_same_leaves_same_hash(f, g, child);
        }
        let cf = child_hashes(f, path, MERKLE_FANOUT as nat);
        let cg = child_hashes(g, path, MERKLE_FANOUT as nat);
        lemma_child_hashes(f, path, MERKLE_FANOUT as nat);
        lemma_child_hashes(g, path, MERKLE_FANOUT as nat);
        assert forall|i: int| 0 <= i < MERKLE_FANOUT implies cf[i] == cg[i] by {
            assert(tree_hash(f, path.push(i as u8)) == tree_hash(g, path.push(i as u8)));
        }
        assert(cf =~= cg);
    }
}

// ---------------------------------------------------------------------------
// Hashing
// ---------------------------------------------------------------------------

/// The slice of a key and the nibbles that lead to its leaf.
pub fn nibble_path_for(user_ipk: &[u8; 32]) -> (r: (u8, NodePath))
    ensures
        r.0 == user_ipk[0],
        r.1@ == leaf_path(*user_ipk),
{
    let slice_id: u8 = user_ipk[0];
    let mut path: NodePath = Vec::with_capacity(TREE_DEPTH);
    path.push(user_ipk[1] / 16);
    path.push(user_ipk[1] % 16);
    path.push(user_ipk[2] / 16);
    path.push(user_ipk[2] % 16);
    assert(path@ =~= leaf_path(*user_ipk));
    (slice_id, path)
}

/// The slice of a key.
pub fn slice_id_for(user_ipk: &[u8; 32]) -> (r: u8)
    ensures
        r == user_ipk[0],
{
    user_ipk[0]
}

/// Whether a hash is that of an empty subtree.
fn is_zero(h: &[u8; 32]) -> (r: bool)
    ensures
        r == (*h == zero_hash()),
{
    eq32(h, &[0u8; 32])
}

/// The hash of a leaf with these entries.
fn hash_leaf(sorted_entries: &Vec<LeafEntry>) -> (r: [u8; 32])
    ensures
        r == leaf_hash(sorted_entries@),
{
    if sorted_entries.len() == 0 {
        return [0u8; 32];
    }
    let mut buf: Vec<u8> = Vec::new();
    append_bytes(&mut buf, "dht-merkle-leaf-v1".as_bytes());
    let ghost domain = "dht-merkle-leaf-v1".spec_bytes();
    assert(leaf_bytes(sorted_entries@.take(0)) =~= Seq::empty());
    assert(buf@ =~= domain + leaf_bytes(sorted_entries@.take(0)));
    let mut i: usize = 0;
    while i < sorted_entries.len()
        invariant
            0 <= i <= sorted_entries.len(),
            buf@ == domain + leaf_bytes(sorted_entries@.take(i as int)),
        decreases sorted_entries.len() - i,
    {
        let ghost before = buf@;
        append_bytes(&mut buf, &sorted_entries[i].0);
        append_bytes(&mut buf, &sorted_entries[i].1);
        proof {
            let upto = sorted_entries@.take(i + 1);
            assert(upto.drop_last() =~= sorted_entries@.take(i as int));
            assert(buf@ =~= domain + leaf_bytes(upto));
        }
        i = i + 1;
    }
    assert(sorted_entries@.take(sorted_entries@.len() as int) =~= sorted_entries@);
    blake3_of(&buf)
}

/// The hash of an inner node with these children.
fn hash_internal(children: &[[u8; 32]; 16]) -> (r: [u8; 32])
    ensures
        r == inner_hash(children@),
{
    let mut all_zero: bool = true;
    let mut buf: Vec<u8> = Vec::new();
    append_bytes(&mut buf, "dht-merkle-node-v1".as_bytes());
    let ghost domain = "dht-merkle-node-v1".spec_bytes();
    assert(joined(children@.take(0)) =~= Seq::empty());
    assert(buf@ =~= domain + joined(children@.take(0)));
    let mut i: usize = 0;
    while i < MERKLE_FANOUT
        invariant
            0 <= i <= MERKLE_FANOUT,
            all_zero == (forall|j: int| 0 <= j < i ==> #[trigger] children@[j] == zero_hash()),
            buf@ == domain + joined(children@.take(i as int)),
        decreases MERKLE_FANOUT - i,
    {
        append_bytes(&mut buf, &children[i]);
        if !is_zero(&children[i]) {
            all_zero = false;
            assert(children@[i as int] != zero_hash());
        }
        proof {
            let upto = children@.take(i + 1);
            assert(upto.drop_last() =~= children@.take(i as int));
            assert(buf@ =~= domain + joined(upto));
        }
        i = i + 1;
    }
    assert(children@.take(16) =~= children@);
    if all_zero {
        return [0u8; 32];
    }
    blake3_of(&buf)
}

/// The value hash of a presence record in its serialised form.
pub fn record_value_hash(serialized_record: &[u8]) -> (r: [u8; 32])
    ensures
        r == blake3_hash("dht-merkle-record-v1".spec_bytes() + serialized_record@),
{
    let mut buf: Vec<u8> = Vec::new();
    append_bytes(&mut buf, "dht-merkle-record-v1".as_bytes());
    append_bytes(&mut buf, serialized_record);
    assert(buf@ =~= "dht-merkle-record-v1".spec_bytes() + serialized_record@);
    blake3_of(&buf)
}

/// The value hash of a tombstone in its serialised form.
pub fn tombstone_value_hash(serialized_tomb: &[u8]) -> (r: [u8; 32])
    ensures
        r == blake3_hash("dht-merkle-tombstone-v1".spec_bytes() + serialized_tomb@),
{
    let mut buf: Vec<u8> = Vec::new();
    append_bytes(&mut buf, "dht-merkle-tombstone-v1".as_bytes());
    append_bytes(&mut buf, serialized_tomb);
    assert(buf@ =~= "dht-merkle-tombstone-v1".spec_bytes() + serialized_tomb@);
    blake3_of(&buf)
}

// ---------------------------------------------------------------------------
// Paths as map keys
// ---------------------------------------------------------------------------

/// The number by which a path is filed: its bytes in base 256 behind a one.
spec fn path_code(path: Seq<u8>) -> nat
    decreases path.len(),
{
    if path.len() == 0 {
        1
    } else {
        path_code(path.drop_last()) * 256 + path.last() as nat
    }
}

proof fn lemma_path_code_injective(a: Seq<u8>, b: Seq<u8>)
    requires
        path_code(a) == path_code(b),
    ensures
        a == b,
    decreases a.len(),
{
    lemma_path_code_positive(a);
    lemma_path_code_positive(b);
    if a.len() == 0 {
        if b.len() > 0 {
            lemma_path_code_positive(b.drop_last());
        }
        assert(a =~= b);
    } else if b.len() == 0 {
        lemma_path_code_positive(a.drop_last());
    } else {
        lemma_path_code_injective(a.drop_last(), b.drop_last());
        assert(a =~= a.drop_last().push(a.last()));
        assert(b =~= b.drop_last().push(b.last()));
    }
}

proof fn lemma_path_code_positive(a: Seq<u8>)
    ensures
        path_code(a) >= 1,
    decreases a.len(),
{
    if a.len() > 0 {
        lemma_path_code_positive(a.drop_last());
    }
}

proof fn lemma_path_code_bound(a: Seq<u8>)
    requires
        a.len() <= 5,
    ensures
        path_code(a) < 0x200_0000_0000,
{
    reveal_with_fuel(path_code, 6);
}

/// Paths up to one level below the leaves are filed under different numbers.
proof fn lemma_filed_apart(a: Seq<u8>, b: Seq<u8>)
    requires
        a.len() <= 5,
        b.len() <= 5,
        path_code(a) as u64 == path_code(b) as u64,
    ensures
        a == b,
{
    lemma_path_code_bound(a);
    lemma_path_code_bound(b);
    lemma_path_code_injective(a, b);
}

/// The number by which a path is filed.
fn code_of(path: &[u8]) -> (r: u64)
    requires
        path.len() <= 5,
    ensures
        r == path_code(path@),
{
    let mut code: u64 = 1;
    let mut i: usize = 0;
    assert(path@.take(0) =~= Seq::empty());
    while i < path.len()
        invariant
            0 <= i <= path.len() <= 5,
            code == path_code(path@.take(i as int)),
        decreases path.len() - i,
    {
        proof {
            lemma_path_code_bound(path@.take(i as int));
            assert(path@.take(i + 1).drop_last() =~= path@.take(i as int));
        }
        code = code * 256 + path[i] as u64;
        i = i + 1;
    }
    assert(path@.take(path@.len() as int) =~= path@);
    code
}

/// The entries filed for a leaf.
spec fn leaf_in(leaves: Map<u64, Vec<LeafEntry>>, path: Seq<u8>) -> Seq<LeafEntry> {
    if leaves.contains_key(path_code(path) as u64) {
        leaves[path_code(path) as u64]@
    } else {
        Seq::empty()
    }
}

/// What is filed for each leaf.
spec fn leaves_in(leaves: Map<u64, Vec<LeafEntry>>) -> spec_fn(Seq<u8>) -> Seq<LeafEntry> {
    |p: Seq<u8>| leaf_in(leaves, p)
}

/// The hash filed for a node.
spec fn node_in(nodes: Map<u64, [u8; 32]>, path: Seq<u8>) -> [u8; 32] {
    if nodes.contains_key(path_code(path) as u64) {
        nodes[path_code(path) as u64]
    } else {
        zero_hash()
    }
}

/// The value hash that a listing gives for a key.
spec fn value_in(s: Seq<LeafEntry>, k: [u8; 32]) -> [u8; 32] {
    s[choose|i: int| 0 <= i < s.len() && #[trigger] s[i].0 == k].1
}

/// Files a hash for a node; a zero hash is filed by leaving the node out.
fn file_hash(nodes: &mut HashMap<u64, [u8; 32]>, path: &[u8], h: [u8; 32])
    requires
        path.len() <= 5,
    ensures
        forall|q: Seq<u8>|
            q.len() <= 5 ==> #[trigger] node_in(final(nodes)@, q) == (if q == path@ {
                h
            } else {
                node_in(old(nodes)@, q)
            }),
{
    broadcast use vstd::std_specs::hash::group_hash_axioms;

    let ghost before = nodes@;
    let code: u64 = code_of(path);
    if is_zero(&h) {
        nodes.remove(&code);
    } else {
        nodes.insert(code, h);
    }
    assert forall|q: Seq<u8>| q.len() <= 5 implies #[trigger] node_in(nodes@, q) == (if q == path@ {
        h
    } else {
        node_in(before, q)
    }) by {
        if q != path@ && path_code(q) as u64 == path_code(path@) as u64 {
            lemma_filed_apart(q, path@);
        }
    }
}

/// The hashes filed for the children of a node.
fn filed_children(nodes: &HashMap<u64, [u8; 32]>, path: &[u8]) -> (r: [[u8; 32]; 16])
    requires
        path.len() <= 4,
    ensures
        forall|i: int| 0 <= i < MERKLE_FANOUT ==> #[trigger] r@[i] == node_in(nodes@, path@.push(i as u8)),
{
    broadcast use vstd::std_specs::hash::group_hash_axioms;

    let mut out: [[u8; 32]; 16] = [[0u8; 32]; 16];
    let mut i: usize = 0;
    while i < MERKLE_FANOUT
        invariant
            0 <= i <= MERKLE_FANOUT,
            path.len() <= 4,
            forall|j: int| 0 <= j < i ==> #[trigger] out@[j] == node_in(nodes@, path@.push(j as u8)),
        decreases MERKLE_FANOUT - i,
    {
        let mut child: NodePath = Vec::new();
        append_bytes(&mut child, path);
        child.push(i as u8);
        assert(child@ =~= path@.push(i as u8));
        let code: u64 = code_of(&child);
        proof {
            lemma_path_code_bound(child@);
        }
        let h: [u8; 32] = match nodes.get(&code) {
            Some(h) => *h,
            None => [0u8; 32],
        };
        out[i] = h;
        i = i + 1;
    }
    out
}

/// Looks for the entry of a key: whether there is one, and where it stands or
/// belongs.
fn slot_of(entries: &Vec<LeafEntry>, user_ipk: &[u8; 32]) -> (r: (bool, usize))
    requires
        keys_ascend(entries@),
    ensures
        r.1 <= entries.len(),
        r.0 ==> r.1 < entries.len() && entries@[r.1 as int].0 == *user_ipk,
        !r.0 ==> !lists_key(entries@, *user_ipk),
        forall|i: int| 0 <= i < r.1 ==> be_nat(#[trigger] entries@[i].0@) < be_nat(user_ipk@),
        !r.0 ==> forall|i: int| r.1 <= i < entries.len() ==> be_nat(user_ipk@) < be_nat(#[trigger] entries@[i].0@),
{
    let mut pos: usize = 0;
    while pos < entries.len()
        invariant
            0 <= pos <= entries.len(),
            keys_ascend(entries@),
            forall|i: int| 0 <= i < pos ==> be_nat(#[trigger] entries@[i].0@) < be_nat(user_ipk@),
        decreases entries.len() - pos,
    {
        let key: [u8; 32] = entries[pos].0;
        if eq32(&key, user_ipk) {
            return (true, pos);
        }
        if less32(user_ipk, &key) {
            assert forall|i: int| pos <= i < entries.len() implies be_nat(user_ipk@) < be_nat(
                #[trigger] entries@[i].0@,
            ) by {
                if i > pos {
                    assert(be_nat(entries@[pos as int].0@) < be_nat(entries@[i].0@));
                }
            }
            return (false, pos);
        }
        proof {
            if be_nat(key@) == be_nat(user_ipk@) {
                lemma_key_from_number(key, *user_ipk);
            }
        }
        pos = pos + 1;
    }
    assert(!lists_key(entries@, *user_ipk)) by {
        if lists_key(entries@, *user_ipk) {
            let i = choose|i: int| 0 <= i < entries.len() && #[trigger] entries@[i].0 == *user_ipk;
            assert(be_nat(entries@[i].0@) < be_nat(user_ipk@));
        }
    }
    (false, pos)
}

// ---------------------------------------------------------------------------
// The tree of a slice
// ---------------------------------------------------------------------------

/// The tree of one slice: its leaves, and the hash of every node that is not
/// empty.
pub struct SliceTree {
    /// First byte of the keys that the tree covers.
    pub slice_id: u8,
    /// The entries of each leaf that is not empty, by the code of its path.
    pub leaves: HashMap<u64, Vec<LeafEntry>>,
    /// The hash of each node that is not empty, by the code of its path.
    pub nodes: HashMap<u64, [u8; 32]>,
}

impl View for SliceTree {
    type V = Map<[u8; 32], [u8; 32]>;

    closed spec fn view(&self) -> Map<[u8; 32], [u8; 32]> {
        Map::new(
            |k: [u8; 32]| lists_key(leaf_in(self.leaves@, leaf_path(k)), k),
            |k: [u8; 32]| value_in(leaf_in(self.leaves@, leaf_path(k)), k),
        )
    }
}

impl SliceTree {
    /// The leaves hold keys of this slice only, each in its place and in
    /// order, and none of them is empty.
    spec fn shaped(&self) -> bool {
        &&& forall|p: Seq<u8>|
            p.len() == TREE_DEPTH ==> keys_ascend(#[trigger] leaf_in(self.leaves@, p))
        &&& forall|p: Seq<u8>, i: int|
            p.len() == TREE_DEPTH && 0 <= i < leaf_in(self.leaves@, p).len() ==> {
                let k = (#[trigger] leaf_in(self.leaves@, p)[i]).0;
                leaf_path(k) == p && k[0] == self.slice_id
            }
        &&& forall|c: u64| #[trigger] self.leaves@.contains_key(c) ==> exists|p: Seq<u8>|
            p.len() == TREE_DEPTH && c == path_code(p) && leaf_in(self.leaves@, p).len() > 0
    }

    /// The hash filed for each node is that of its subtree.
    spec fn hashed(&self) -> bool {
        forall|q: Seq<u8>|
            q.len() <= TREE_DEPTH ==> #[trigger] node_in(self.nodes@, q) == tree_hash(leaves_in(self.leaves@), q)
    }

    /// First byte of the keys that the tree covers.
    pub open spec fn slice(&self) -> u8 {
        self.slice_id
    }

    /// What holds of a tree between calls.
    pub closed spec fn wf(&self) -> bool {
        self.shaped() && self.hashed()
    }

    /// What a leaf lists is what the tree holds there.
    pub proof fn lemma_listing(&self, p: Seq<u8>)
        requires
            self.wf(),
            p.len() == TREE_DEPTH,
        ensures
            is_listing(self@, p, listing(self@, p)),
    {
        self.lemma_leaf_is_listing(p);
    }

    /// The leaf at `p` lists what the tree holds there.
    proof fn lemma_leaf_is_listing(&self, p: Seq<u8>)
        requires
            self.shaped(),
            p.len() == TREE_DEPTH,
        ensures
            is_listing(self@, p, leaf_in(self.leaves@, p)),
            listing(self@, p) == leaf_in(self.leaves@, p),
    {
        let s = leaf_in(self.leaves@, p);
        assert forall|i: int| 0 <= i < s.len() implies self@.contains_pair((#[trigger] s[i]).0, s[i].1) && leaf_path(
            s[i].0,
        ) == p by {
            let k = s[i].0;
            assert(leaf_path(k) == p);
            assert(lists_key(s, k));
            let j = choose|j: int| 0 <= j < s.len() && #[trigger] s[j].0 == k;
            if i < j {
                assert(be_nat(s[i].0@) < be_nat(s[j].0@));
            }
            if j < i {
                assert(be_nat(s[j].0@) < be_nat(s[i].0@));
            }
        }
        law_listing_unique(self@, p, s, listing(self@, p));
    }

    /// The hash of a subtree is a function of what the tree holds.
    proof fn lemma_hash_of_contents(&self, q: Seq<u8>)
        requires
            self.shaped(),
            q.len() <= TREE_DEPTH,
        ensures
            tree_hash(leaves_in(self.leaves@), q) == contents_hash(self@, q),
    {
        assert forall|p: Seq<u8>| p.len() == TREE_DEPTH && #[trigger] p.take(q.len() as int) == q implies leaves_in(
            self.leaves@,
        )(p) == listings(self@)(p) by {
            self.lemma_leaf_is_listing(p);
        }
        lemma_same_leaves_same_hash(leaves_in(self.leaves@), listings(self@), q);
    }

    /// An empty tree.
    pub fn new(slice_id: u8) -> (r: SliceTree)
        ensures
            r.wf(),
            r.slice() == slice_id,
            r@ == Map::<[u8; 32], [u8; 32]>::empty(),
    {
        let r = SliceTree { slice_id, leaves: HashMap::new(), nodes: HashMap::new() };
        proof {
            assert(r@ =~= Map::<[u8; 32], [u8; 32]>::empty());
            assert forall|q: Seq<u8>| q.len() <= TREE_DEPTH implies #[trigger] node_in(r.nodes@, q) == tree_hash(
                leaves_in(r.leaves@),
                q,
            ) by {
                lemma_empty_hash(leaves_in(r.leaves@), q);
            }
        }
        r
    }

    /// The hash of the root; zero when the tree is empty.
    pub fn root(&self) -> (r: [u8; 32])
        requires
            self.wf(),
        ensures
            r == contents_hash(self@, Seq::<u8>::empty()),
    {
        broadcast use vstd::std_specs::hash::group_hash_axioms;

        let code: u64 = 1;
        proof {
            self.lemma_hash_of_contents(Seq::empty());
            assert(path_code(Seq::<u8>::empty()) == 1);
            assert(node_in(self.nodes@, Seq::empty()) == tree_hash(leaves_in(self.leaves@), Seq::empty()));
        }
        match self.nodes.get(&code) {
            Some(h) => *h,
            None => [0u8; 32],
        }
    }

    /// Whether the tree holds nothing.
    pub fn is_empty(&self) -> (r: bool)
        requires
            self.wf(),
        ensures
            r == (self@ == Map::<[u8; 32], [u8; 32]>::empty()),
    {
        let r: bool = self.leaves.is_empty();
        proof {
            if r {
                assert(self@ =~= Map::<[u8; 32], [u8; 32]>::empty());
            } else {
                let c = choose|c: u64| self.leaves@.contains_key(c);
                assert(self.leaves@.contains_key(c)) by {
                    if forall|c: u64| !self.leaves@.contains_key(c) {
                        assert(self.leaves@.dom() =~= Set::<u64>::empty());
                        assert(self.leaves@ =~= Map::<u64, Vec<LeafEntry>>::empty());
                    }
                }
                let p = choose|p: Seq<u8>|
                    p.len() == TREE_DEPTH && c == path_code(p) && leaf_in(self.leaves@, p).len() > 0;
                self.lemma_leaf_is_listing(p);
                let k = leaf_in(self.leaves@, p)[0].0;
                assert(self@.contains_key(k));
            }
        }
        r
    }

    /// Puts `value_hash` under `user_ipk`, in place of what was there.
    pub fn insert(&mut self, user_ipk: &[u8; 32], value_hash: [u8; 32])
        requires
            old(self).wf(),
            user_ipk[0] == old(self).slice(),
        ensures
            final(self).wf(),
            final(self).slice() == old(self).slice(),
            final(self)@ == old(self)@.insert(*user_ipk, value_hash),
    {
        broadcast use vstd::std_specs::hash::group_hash_axioms;

        let ghost before = *self;
        let (_sid, path): (u8, NodePath) = nibble_path_for(user_ipk);
        let code: u64 = code_of(&path);
        proof {
            lemma_path_code_bound(path@);
            before.lemma_leaf_is_listing(path@);
        }
        let mut entries: Vec<LeafEntry> = match self.leaves.remove(&code) {
            Some(v) => v,
            None => Vec::new(),
        };
        let ghost s0 = entries@;
        assert(s0 == leaf_in(before.leaves@, path@));
        let (found, pos): (bool, usize) = slot_of(&entries, user_ipk);
        if found {
            if eq32(&entries[pos].1, &value_hash) {
                self.leaves.insert(code, entries);
                proof {
                    assert(lists_key(s0, *user_ipk));
                    assert(before.leaves@.contains_key(code));
                    assert(self.leaves@ =~= before.leaves@);
                    assert(before@.contains_pair(s0[pos as int].0, s0[pos as int].1));
                    assert(self@ =~= before@.insert(*user_ipk, value_hash));
                }
                return ;
            }
            entries[pos] = (*user_ipk, value_hash);
        } else {
            entries.insert(pos, (*user_ipk, value_hash));
        }
        let ghost s1 = entries@;
        self.leaves.insert(code, entries);
        proof {
            assert(self.leaves@ =~= before.leaves@.insert(code, self.leaves@[code]));
            lemma_put_keeps_order(s0, s1, *user_ipk, value_hash, found, pos as int);
            self.lemma_leaf_replaced(before, path@, s1);
            assert(self@ =~= before@.insert(*user_ipk, value_hash)) by {
                self.lemma_contents_replaced(before, path@, s1);
                assert forall|k: [u8; 32]| #[trigger] self@.contains_key(k) == before@.insert(
                    *user_ipk,
                    value_hash,
                ).contains_key(k) by {
                    if leaf_path(k) == path@ {
                        lemma_put_lists(s0, s1, *user_ipk, value_hash, found, pos as int, k);
                    }
                }
                assert forall|k: [u8; 32]| #[trigger] self@.contains_key(k) implies self@[k] == before@.insert(
                    *user_ipk,
                    value_hash,
                )[k] by {
                    if leaf_path(k) == path@ {
                        lemma_put_lists(s0, s1, *user_ipk, value_hash, found, pos as int, k);
                    }
                }
            }
        }
        self.recompute_path(&path);
    }

    /// Takes out what is under `user_ipk`, if anything is.
    pub fn remove(&mut self, user_ipk: &[u8; 32])
        requires
            old(self).wf(),
            user_ipk[0] == old(self).slice(),
        ensures
            final(self).wf(),
            final(self).slice() == old(self).slice(),
            final(self)@ == old(self)@.remove(*user_ipk),
    {
        broadcast use vstd::std_specs::hash::group_hash_axioms;

        let ghost before = *self;
        let (_sid, path): (u8, NodePath) = nibble_path_for(user_ipk);
        let code: u64 = code_of(&path);
        proof {
            lemma_path_code_bound(path@);
            before.lemma_leaf_is_listing(path@);
        }
        let mut entries: Vec<LeafEntry> = match self.leaves.remove(&code) {
            Some(v) => v,
            None => {
                proof {
                    assert(self.leaves@ =~= before.leaves@);
                    assert(self@ =~= before@.remove(*user_ipk));
                }
                return ;
            },
        };
        let ghost s0 = entries@;
        assert(s0 == leaf_in(before.leaves@, path@));
        let (found, pos): (bool, usize) = slot_of(&entries, user_ipk);
        if !found {
            self.leaves.insert(code, entries);
            proof {
                assert(self.leaves@ =~= before.leaves@);
                assert(self@ =~= before@.remove(*user_ipk));
            }
            return ;
        }
        entries.remove(pos);
        let ghost s1 = entries@;
        if entries.len() > 0 {
            self.leaves.insert(code, entries);
        }
        proof {
            lemma_drop_keeps_order(s0, pos as int);
            assert(leaf_in(self.leaves@, path@) =~= s1);
            self.lemma_leaf_replaced(before, path@, s1);
            assert(self@ =~= before@.remove(*user_ipk)) by {
                self.lemma_contents_replaced(before, path@, s1);
                assert forall|k: [u8; 32]| leaf_path(k) == path@ implies (#[trigger] lists_key(s1, k) <==> k
                    != *user_ipk && lists_key(s0, k)) && (lists_key(s1, k) ==> value_in(s1, k) == value_in(
                    s0,
                    k,
                )) by {
                    lemma_drop_lists(s0, pos as int, k);
                }
            }
        }
        self.recompute_path(&path);
    }

    /// Replacing one leaf by entries of that leaf, in order, keeps the shape.
    proof fn lemma_leaf_replaced(&self, before: SliceTree, path: Seq<u8>, s1: Seq<LeafEntry>)
        requires
            before.wf(),
            path.len() == TREE_DEPTH,
            self.slice_id == before.slice_id,
            self.nodes == before.nodes,
            leaf_in(self.leaves@, path) == s1,
            forall|c: u64|
                c != path_code(path) as u64 ==> (#[trigger] self.leaves@.contains_key(c)
                    == before.leaves@.contains_key(c)) && self.leaves@[c] == before.leaves@[c],
            self.leaves@.contains_key(path_code(path) as u64) ==> s1.len() > 0,
            keys_ascend(s1),
            forall|i: int|
                0 <= i < s1.len() ==> leaf_path((#[trigger] s1[i]).0) == path && s1[i].0[0] == before.slice_id,
        ensures
            self.shaped(),
            forall|q: Seq<u8>|
                q.len() == TREE_DEPTH && q != path ==> #[trigger] leaf_in(self.leaves@, q) == leaf_in(
                    before.leaves@,
                    q,
                ),
            forall|q: Seq<u8>|
                q.len() <= TREE_DEPTH && q != path.take(q.len() as int) ==> #[trigger] node_in(self.nodes@, q)
                    == tree_hash(leaves_in(self.leaves@), q),
    {
        assert forall|q: Seq<u8>| q.len() == TREE_DEPTH && q != path implies #[trigger] leaf_in(self.leaves@, q)
            == leaf_in(before.leaves@, q) by {
            if path_code(q) as u64 == path_code(path) as u64 {
                lemma_filed_apart(q, path);
            }
        }
        assert forall|p: Seq<u8>, i: int|
            p.len() == TREE_DEPTH && 0 <= i < leaf_in(self.leaves@, p).len() implies ({
            let k = (#[trigger] leaf_in(self.leaves@, p)[i]).0;
            leaf_path(k) == p && k[0] == self.slice_id
        }) by {
            if p != path {
                assert(leaf_in(self.leaves@, p)[i] == leaf_in(before.leaves@, p)[i]);
            }
        }
        assert forall|p: Seq<u8>| p.len() == TREE_DEPTH implies keys_ascend(#[trigger] leaf_in(self.leaves@, p)) by {
            if p != path {
                assert(keys_ascend(leaf_in(before.leaves@, p)));
            }
        }
        lemma_path_code_bound(path);
        assert forall|c: u64| #[trigger] self.leaves@.contains_key(c) implies exists|p: Seq<u8>|
            p.len() == TREE_DEPTH && c == path_code(p) && leaf_in(self.leaves@, p).len() > 0 by {
            if c == path_code(path) as u64 {
                assert(path.len() == TREE_DEPTH && c == path_code(path) && leaf_in(self.leaves@, path).len() > 0);
            } else {
                assert(before.leaves@.contains_key(c));
                let p = choose|p: Seq<u8>|
                    p.len() == TREE_DEPTH && c == path_code(p) && leaf_in(before.leaves@, p).len() > 0;
                assert(leaf_in(self.leaves@, p) == leaf_in(before.leaves@, p));
                assert(p.len() == TREE_DEPTH && c == path_code(p) && leaf_in(self.leaves@, p).len() > 0);
            }
        }
        let f = leaves_in(before.leaves@);
        let g = leaves_in(self.leaves@);
        assert forall|q: Seq<u8>| q.len() <= TREE_DEPTH && q != path.take(q.len() as int) implies #[trigger] node_in(
            self.nodes@,
            q,
        ) == tree_hash(g, q) by {
            assert forall|p: Seq<u8>|
                p.len() == TREE_DEPTH && #[trigger] p.take(q.len() as int) == q implies f(p) == g(p) by {
                assert(p != path);
                assert(leaf_in(self.leaves@, p) == leaf_in(before.leaves@, p));
            }
            lemma_same_leaves_same_hash(f, g, q);
            assert(node_in(before.nodes@, q) == tree_hash(f, q));
        }
    }

    /// What the tree holds after one leaf was replaced.
    proof fn lemma_contents_replaced(&self, before: SliceTree, path: Seq<u8>, s1: Seq<LeafEntry>)
        requires
            path.len() == TREE_DEPTH,
            leaf_in(self.leaves@, path) == s1,
            forall|q: Seq<u8>|
                q.len() == TREE_DEPTH && q != path ==> #[trigger] leaf_in(self.leaves@, q) == leaf_in(
                    before.leaves@,
                    q,
                ),
        ensures
            forall|k: [u8; 32]|
                leaf_path(k) != path ==> (#[trigger] self@.contains_key(k) <==> before@.contains_key(k)),
            forall|k: [u8; 32]|
                leaf_path(k) != path && #[trigger] self@.contains_key(k) ==> self@[k] == before@[k],
            forall|k: [u8; 32]|
                leaf_path(k) == path ==> (#[trigger] self@.contains_key(k) <==> lists_key(s1, k)),
            forall|k: [u8; 32]|
                leaf_path(k) == path && #[trigger] self@.contains_key(k) ==> self@[k] == value_in(s1, k),
            forall|k: [u8; 32]|
                leaf_path(k) == path ==> (#[trigger] before@.contains_key(k) <==> lists_key(
                    leaf_in(before.leaves@, path),
                    k,
                )),
            forall|k: [u8; 32]|
                leaf_path(k) == path && #[trigger] before@.contains_key(k) ==> before@[k] == value_in(
                    leaf_in(before.leaves@, path),
                    k,
                ),
    {
        assert forall|k: [u8; 32]| leaf_path(k) != path implies (#[trigger] self@.contains_key(k)
            <==> before@.contains_key(k)) && (self@.contains_key(k) ==> self@[k] == before@[k]) by {
            assert(leaf_in(self.leaves@, leaf_path(k)) == leaf_in(before.leaves@, leaf_path(k)));
        }
    }

    /// Files anew the hash of the leaf at `path` and of each node above it.
    fn recompute_path(&mut self, path: &NodePath)
        requires
            old(self).shaped(),
            path.len() == TREE_DEPTH,
            forall|q: Seq<u8>|
                q.len() <= TREE_DEPTH && q != path@.take(q.len() as int) ==> #[trigger] node_in(old(self).nodes@, q)
                    == tree_hash(leaves_in(old(self).leaves@), q),
        ensures
            final(self).wf(),
            final(self).slice() == old(self).slice(),
            final(self)@ == old(self)@,
    {
        broadcast use vstd::std_specs::hash::group_hash_axioms;

        let ghost leaves = self.leaves@;
        let ghost f = leaves_in(self.leaves@);
        let ghost before = *self;
        let code: u64 = code_of(path);
        proof {
            lemma_path_code_bound(path@);
            assert(path@.take(4) =~= path@);
        }
        let h: [u8; 32] = match self.leaves.get(&code) {
            Some(entries) => hash_leaf(entries),
            None => [0u8; 32],
        };
        assert(h == tree_hash(f, path@));
        file_hash(&mut self.nodes, path, h);
        let mut level: usize = TREE_DEPTH;
        while level > 0
            invariant
                level <= TREE_DEPTH,
                path.len() == TREE_DEPTH,
                self.leaves == before.leaves,
                self.slice_id == before.slice_id,
                f == leaves_in(self.leaves@),
                forall|q: Seq<u8>|
                    q.len() <= TREE_DEPTH && (q != path@.take(q.len() as int) || q.len() >= level)
                        ==> #[trigger] node_in(self.nodes@, q) == tree_hash(f, q),
            decreases level,
        {
            level = level - 1;
            let prefix: &[u8] = vstd::slice::slice_subrange(path.as_slice(), 0, level);
            assert(prefix@ =~= path@.take(level as int));
            let children: [[u8; 32]; 16] = filed_children(&self.nodes, prefix);
            let h: [u8; 32] = hash_internal(&children);
            proof {
                lemma_child_hashes(f, prefix@, MERKLE_FANOUT as nat);
                assert forall|i: int| 0 <= i < MERKLE_FANOUT implies #[trigger] children@[i] == child_hashes(
                    f,
                    prefix@,
                    MERKLE_FANOUT as nat,
                )[i] by {
                    assert(node_in(self.nodes@, prefix@.push(i as u8)) == tree_hash(f, prefix@.push(i as u8)));
                }
                assert(children@ =~= child_hashes(f, prefix@, MERKLE_FANOUT as nat));
                assert(h == tree_hash(f, prefix@));
            }
            file_hash(&mut self.nodes, prefix, h);
            assert forall|q: Seq<u8>|
                q.len() <= TREE_DEPTH && (q != path@.take(q.len() as int) || q.len() >= level) implies #[trigger] node_in(
                self.nodes@,
                q,
            ) == tree_hash(f, q) by {}
        }
        assert(self@ =~= before@);
    }

    /// The hashes of the children of the node at `path`.
    pub fn children_at(&self, path: &NodePath) -> (r: [[u8; 32]; 16])
        requires
            self.wf(),
            path.len() < TREE_DEPTH,
        ensures
            forall|i: int| 0 <= i < MERKLE_FANOUT ==> #[trigger] r@[i] == contents_hash(self@, path@.push(i as u8)),
    {
        let r: [[u8; 32]; 16] = filed_children(&self.nodes, path);
        assert forall|i: int| 0 <= i < MERKLE_FANOUT implies #[trigger] r@[i] == contents_hash(
            self@,
            path@.push(i as u8),
        ) by {
            self.lemma_hash_of_contents(path@.push(i as u8));
            assert(node_in(self.nodes@, path@.push(i as u8)) == tree_hash(
                leaves_in(self.leaves@),
                path@.push(i as u8),
            ));
        }
        r
    }

    /// The pairs of the leaf at `path`, in the order of their keys.
    pub fn leaves_at(&self, path: &NodePath) -> (r: Vec<LeafEntry>)
        requires
            self.wf(),
            path.len() == TREE_DEPTH,
        ensures
            is_listing(self@, path@, r@),
            r@ == listing(self@, path@),
    {
        broadcast use vstd::std_specs::hash::group_hash_axioms;

        let code: u64 = code_of(path);
        proof {
            lemma_path_code_bound(path@);
            self.lemma_leaf_is_listing(path@);
        }
        let mut out: Vec<LeafEntry> = Vec::new();
        match self.leaves.get(&code) {
            Some(entries) => {
                let mut i: usize = 0;
                while i < entries.len()
                    invariant
                        0 <= i <= entries.len(),
                        out@ == entries@.take(i as int),
                    decreases entries.len() - i,
                {
                    out.push(entries[i]);
                    i = i + 1;
                    assert(out@ =~= entries@.take(i as int));
                }
                assert(entries@.take(entries@.len() as int) =~= entries@);
            },
            None => {},
        }
        assert(out@ =~= leaf_in(self.leaves@, path@));
        out
    }
}

proof fn lemma_empty_hash(f: spec_fn(Seq<u8>) -> Seq<LeafEntry>, q: Seq<u8>)
    requires
        q.len() <= TREE_DEPTH,
        forall|p: Seq<u8>| (#[trigger] f(p)).len() == 0,
    ensures
        tree_hash(f, q) == zero_hash(),
    decreases TREE_DEPTH - q.len(),
{
    if q.len() < TREE_DEPTH {
        lemma_child_hashes(f, q, MERKLE_FANOUT as nat);
        let c = child_hashes(f, q, MERKLE_FANOUT as nat);
        assert forall|i: int| 0 <= i < c.len() implies c[i] == zero_hash() by {
            lemma_empty_hash(f, q.push(i as u8));
        }
    }
}

/// Putting a pair where it belongs keeps the order of the keys.
proof fn lemma_put_keeps_order(
    s0: Seq<LeafEntry>,
    s1: Seq<LeafEntry>,
    k: [u8; 32],
    v: [u8; 32],
    found: bool,
    pos: int,
)
    requires
        keys_ascend(s0),
        0 <= pos <= s0.len(),
        found ==> pos < s0.len() && s0[pos].0 == k && s1 == s0.update(pos, (k, v)),
        !found ==> s1 == s0.insert(pos, (k, v)),
        forall|i: int| 0 <= i < pos ==> be_nat(#[trigger] s0[i].0@) < be_nat(k@),
        !found ==> forall|i: int| pos <= i < s0.len() ==> be_nat(k@) < be_nat(#[trigger] s0[i].0@),
    ensures
        keys_ascend(s1),
        forall|i: int|
            0 <= i < s1.len() ==> (#[trigger] s1[i]).0 == k || exists|j: int|
                0 <= j < s0.len() && #[trigger] s0[j] == s1[i],
{
    assert forall|i: int, j: int| 0 <= i < j < s1.len() implies be_nat(#[trigger] s1[i].0@) < be_nat(
        #[trigger] s1[j].0@,
    ) by {
        if found {
            assert(be_nat(s0[i].0@) < be_nat(s0[j].0@));
        } else {
            let ki = if i < pos { i } else { i - 1 };
            let kj = if j < pos { j } else { j - 1 };
            if i != pos && j != pos {
                assert(be_nat(s0[ki].0@) < be_nat(s0[kj].0@));
            } else if i == pos {
                assert(be_nat(k@) < be_nat(s0[kj].0@));
            } else {
                assert(be_nat(s0[ki].0@) < be_nat(k@));
            }
        }
    }
    assert forall|i: int| 0 <= i < s1.len() implies (#[trigger] s1[i]).0 == k || exists|j: int|
        0 <= j < s0.len() && #[trigger] s0[j] == s1[i] by {
        if found {
            if i != pos {
                assert(s0[i] == s1[i]);
            }
        } else if i != pos {
            let ki = if i < pos { i } else { i - 1 };
            assert(s0[ki] == s1[i]);
        }
    }
}

/// What a listing says of a key after a pair was put into it.
proof fn lemma_put_lists(
    s0: Seq<LeafEntry>,
    s1: Seq<LeafEntry>,
    k: [u8; 32],
    v: [u8; 32],
    found: bool,
    pos: int,
    other: [u8; 32],
)
    requires
        keys_ascend(s0),
        keys_ascend(s1),
        0 <= pos <= s0.len(),
        found ==> pos < s0.len() && s0[pos].0 == k && s1 == s0.update(pos, (k, v)),
        !found ==> s1 == s0.insert(pos, (k, v)),
    ensures
        lists_key(s1, other) <==> other == k || lists_key(s0, other),
        other == k ==> value_in(s1, other) == v,
        other != k && lists_key(s0, other) ==> value_in(s1, other) == value_in(s0, other),
{
    assert(s1[pos] == (k, v));
    if other == k {
        assert(s1[pos].0 == other);
        lemma_value_at(s1, pos);
    } else {
        if lists_key(s0, other) {
            let j = choose|j: int| 0 <= j < s0.len() && #[trigger] s0[j].0 == other;
            let i = if found || j < pos { j } else { j + 1 };
            assert(s1[i] == s0[j]);
            assert(s1[i].0 == other);
            lemma_value_at(s1, i);
            lemma_value_at(s0, j);
        }
        if lists_key(s1, other) {
            let i = choose|i: int| 0 <= i < s1.len() && #[trigger] s1[i].0 == other;
            let j = if found || i < pos { i } else { i - 1 };
            assert(s1[i] == s0[j]);
            assert(s0[j].0 == other);
        }
    }
}

proof fn lemma_value_at(s: Seq<LeafEntry>, i: int)
    requires
        keys_ascend(s),
        0 <= i < s.len(),
    ensures
        value_in(s, s[i].0) == s[i].1,
{
    let k = s[i].0;
    let j = choose|j: int| 0 <= j < s.len() && #[trigger] s[j].0 == k;
    if i < j {
        assert(be_nat(s[i].0@) < be_nat(s[j].0@));
    }
    if j < i {
        assert(be_nat(s[j].0@) < be_nat(s[i].0@));
    }
}

proof fn lemma_drop_keeps_order(s0: Seq<LeafEntry>, pos: int)
    requires
        keys_ascend(s0),
        0 <= pos < s0.len(),
    ensures
        keys_ascend(s0.remove(pos)),
        forall|i: int| 0 <= i < s0.len() - 1 ==> s0.contains(#[trigger] s0.remove(pos)[i]),
{
    let s1 = s0.remove(pos);
    assert forall|i: int, j: int| 0 <= i < j < s1.len() implies be_nat(#[trigger] s1[i].0@) < be_nat(
        #[trigger] s1[j].0@,
    ) by {
        let ki = if i < pos { i } else { i + 1 };
        let kj = if j < pos { j } else { j + 1 };
        assert(be_nat(s0[ki].0@) < be_nat(s0[kj].0@));
    }
    assert forall|i: int| 0 <= i < s0.len() - 1 implies s0.contains(#[trigger] s1[i]) by {
        let ki = if i < pos { i } else { i + 1 };
        assert(s0[ki] == s1[i]);
    }
}

proof fn lemma_drop_lists(s0: Seq<LeafEntry>, pos: int, k: [u8; 32])
    requires
        keys_ascend(s0),
        0 <= pos < s0.len(),
    ensures
        lists_key(s0.remove(pos), k) <==> k != s0[pos].0 && lists_key(s0, k),
        lists_key(s0.remove(pos), k) ==> value_in(s0.remove(pos), k) == value_in(s0, k),
{
    let s1 = s0.remove(pos);
    lemma_drop_keeps_order(s0, pos);
    if lists_key(s1, k) {
        let i = choose|i: int| 0 <= i < s1.len() && #[trigger] s1[i].0 == k;
        let j = if i < pos { i } else { i + 1 };
        assert(s1[i] == s0[j]);
        assert(s0[j].0 == k);
        lemma_value_at(s1, i);
        lemma_value_at(s0, j);
        if j < pos {
            assert(be_nat(s0[j].0@) < be_nat(s0[pos].0@));
        } else {
            assert(be_nat(s0[pos].0@) < be_nat(s0[j].0@));
        }
    }
    if k != s0[pos].0 && lists_key(s0, k) {
        let j = choose|j: int| 0 <= j < s0.len() && #[trigger] s0[j].0 == k;
        let i = if j < pos { j } else { j - 1 };
        assert(s1[i] == s0[j]);
        assert(s1[i].0 == k);
    }
}

/// Two trees that hold the same have the same hash at every node, whatever
/// was put in and taken out on the way.
pub proof fn law_same_contents_same_hashes(a: &SliceTree, b: &SliceTree, path: Seq<u8>)
    requires
        a.wf(),
        b.wf(),
        a@ == b@,
    ensures
        contents_hash(a@, path) == contents_hash(b@, path),
        listing(a@, path) == listing(b@, path),
{
}

/// The root of a tree that holds nothing is zero.
pub proof fn law_empty_root_is_zero()
    ensures
        contents_hash(Map::<[u8; 32], [u8; 32]>::empty(), Seq::<u8>::empty()) == zero_hash(),
{
    let m = Map::<[u8; 32], [u8; 32]>::empty();
    assert forall|p: Seq<u8>| (#[trigger] listings(m)(p)).len() == 0 by {
        let none = Seq::<LeafEntry>::empty();
        assert(is_listing(m, p, none));
        law_listing_unique(m, p, none, listing(m, p));
    }
    lemma_empty_hash(listings(m), Seq::empty());
}

/// Putting a key that was absent in and taking it out again restores the
/// contents, and with them every hash.
pub proof fn law_insert_remove_restores(m: Map<[u8; 32], [u8; 32]>, ipk: [u8; 32], value_hash: [u8; 32], path: Seq<u8>)
    requires
        !m.contains_key(ipk),
    ensures
        m.insert(ipk, value_hash).remove(ipk) == m,
        contents_hash(m.insert(ipk, value_hash).remove(ipk), path) == contents_hash(m, path),
{
    assert(m.insert(ipk, value_hash).remove(ipk) =~= m);
}

/// The order in which two different keys are put in does not matter.
pub proof fn law_insert_order_irrelevant(
    m: Map<[u8; 32], [u8; 32]>,
    k1: [u8; 32],
    v1: [u8; 32],
    k2: [u8; 32],
    v2: [u8; 32],
    path: Seq<u8>,
)
    requires
        k1 != k2,
    ensures
        contents_hash(m.insert(k1, v1).insert(k2, v2), path) == contents_hash(m.insert(k2, v2).insert(k1, v1), path),
{
    assert(m.insert(k1, v1).insert(k2, v2) =~= m.insert(k2, v2).insert(k1, v1));
}

/// A key goes to the leaf of its second and third byte, high nibble before low.
pub proof fn law_leaf_path_spells_two_bytes(ipk: [u8; 32])
    ensures
        leaf_path(ipk).len() == 4,
        forall|i: int| 0 <= i < 4 ==> #[trigger] leaf_path(ipk)[i] < 16,
        16 * leaf_path(ipk)[0] + leaf_path(ipk)[1] == ipk@[1],
        16 * leaf_path(ipk)[2] + leaf_path(ipk)[3] == ipk@[2],
{
}

/// Hashes one behind the other can be told apart again: of two lists of the same
/// length that differ in any place, the bytes differ.
pub proof fn law_joined_tells_apart(a: Seq<[u8; 32]>, b: Seq<[u8; 32]>)
    requires
        a.len() == b.len(),
        joined(a) == joined(b),
    ensures
        a == b,
    decreases a.len(),
{
    if a.len() > 0 {
        let ia = joined(a.drop_last());
        let ib = joined(b.drop_last());
        lemma_joined_len(a.drop_last());
        lemma_joined_len(b.drop_last());
        let n = ia.len() as int;
        assert(joined(a).take(n) =~= ia);
        assert(joined(b).take(n) =~= ib);
        assert(joined(a).skip(n) =~= a.last()@);
        assert(joined(b).skip(n) =~= b.last()@);
        law_joined_tells_apart(a.drop_last(), b.drop_last());
        assert(a.last() =~= b.last());
        assert(a =~= a.drop_last().push(a.last()));
        assert(b =~= b.drop_last().push(b.last()));
    } else {
        assert(a =~= b);
    }
}

proof fn lemma_joined_len(a: Seq<[u8; 32]>)
    ensures
        joined(a).len() == 32 * a.len(),
    decreases a.len(),
{
    if a.len() > 0 {
        lemma_joined_len(a.drop_last());
    }
}

/// The pairs of a leaf can be told apart again: two lists of pairs that differ
/// have different bytes.
pub proof fn law_leaf_bytes_tell_apart(a: Seq<LeafEntry>, b: Seq<LeafEntry>)
    requires
        leaf_bytes(a) == leaf_bytes(b),
    ensures
        a == b,
    decreases a.len(),
{
    lemma_leaf_bytes_len(a);
    lemma_leaf_bytes_len(b);
    if a.len() > 0 {
        let ia = leaf_bytes(a.drop_last());
        let ib = leaf_bytes(b.drop_last());
        lemma_leaf_bytes_len(a.drop_last());
        lemma_leaf_bytes_len(b.drop_last());
        let n = ia.len() as int;
        assert(leaf_bytes(a).take(n) =~= ia);
        assert(leaf_bytes(b).take(n) =~= ib);
        assert(leaf_bytes(a).subrange(n, n + 32) =~= a.last().0@);
        assert(leaf_bytes(b).subrange(n, n + 32) =~= b.last().0@);
        assert(leaf_bytes(a).subrange(n + 32, n + 64) =~= a.last().1@);
        assert(leaf_bytes(b).subrange(n + 32, n + 64) =~= b.last().1@);
        law_leaf_bytes_tell_apart(a.drop_last(), b.drop_last());
        assert(a.last().0 =~= b.last().0);
        assert(a.last().1 =~= b.last().1);
        assert(a =~= a.drop_last().push(a.last()));
        assert(b =~= b.drop_last().push(b.last()));
    } else {
        assert(a =~= b);
    }
}

proof fn lemma_leaf_bytes_len(a: Seq<LeafEntry>)
    ensures
        leaf_bytes(a).len() == 64 * a.len(),
    decreases a.len(),
{
    if a.len() > 0 {
        lemma_leaf_bytes_len(a.drop_last());
    }
}

/// Digests of byte strings are not zero, unless one of some byte string is.
proof fn lemma_digest_not_zero(x: Seq<u8>)
    requires
        !digest_is_zero(),
    ensures
        blake3_hash(x) != zero_hash(),
{
    if blake3_hash(x) == zero_hash() {
        assert forall|i: int| 0 <= i < 32 implies blake3_hash(x)@[i] == 0 by {
            assert(zero_hash()@[i] == 0);
        }
        assert(digest_is_zero());
    }
}

/// The hash of an inner node goes by all sixteen of its children: two nodes with
/// one hash have the same child in every place, but for a collision of digests
/// or a digest of zero.
pub proof fn law_inner_hash_tells_children_apart(a: Seq<[u8; 32]>, b: Seq<[u8; 32]>, i: int)
    requires
        a.len() == 16,
        b.len() == 16,
        0 <= i < 16,
        inner_hash(a) == inner_hash(b),
        !digests_collide(),
        !digest_is_zero(),
    ensures
        a[i] == b[i],
{
    let domain = "dht-merkle-node-v1".spec_bytes();
    let x = domain + joined(a);
    let y = domain + joined(b);
    lemma_digest_not_zero(x);
    lemma_digest_not_zero(y);
    let za = forall|k: int| 0 <= k < a.len() ==> a[k] == zero_hash();
    let zb = forall|k: int| 0 <= k < b.len() ==> b[k] == zero_hash();
    if za || zb {
        assert(za && zb);
    } else {
        assert(x == y);
        assert(x.skip(domain.len() as int) =~= joined(a));
        assert(y.skip(domain.len() as int) =~= joined(b));
        law_joined_tells_apart(a, b);
    }
}

/// The hash of a leaf goes by all of its pairs, keys and value hashes: two
/// leaves with one hash hold the same, but for a collision of digests or a
/// digest of zero.
pub proof fn law_leaf_hash_tells_pairs_apart(a: Seq<LeafEntry>, b: Seq<LeafEntry>)
    requires
        leaf_hash(a) == leaf_hash(b),
        !digests_collide(),
        !digest_is_zero(),
    ensures
        a == b,
{
    let domain = "dht-merkle-leaf-v1".spec_bytes();
    let x = domain + leaf_bytes(a);
    let y = domain + leaf_bytes(b);
    lemma_digest_not_zero(x);
    lemma_digest_not_zero(y);
    if a.len() == 0 || b.len() == 0 {
        assert(a =~= b);
    } else {
        assert(x == y);
        assert(x.skip(domain.len() as int) =~= leaf_bytes(a));
        assert(y.skip(domain.len() as int) =~= leaf_bytes(b));
        law_leaf_bytes_tell_apart(a, b);
    }
}

/// Trees with one hash at a node have the same leaves below it.
proof fn lemma_same_hash_same_leaves(
    f: spec_fn(Seq<u8>) -> Seq<LeafEntry>,
    g: spec_fn(Seq<u8>) -> Seq<LeafEntry>,
    path: Seq<u8>,
    p: Seq<u8>,
)
    requires
        path.len() <= 4,
        p.len() == 4,
        p.take(path.len() as int) == path,
        forall|i: int| 0 <= i < 4 ==> #[trigger] p[i] < 16,
        tree_hash(f, path) == tree_hash(g, path),
        !digests_collide(),
        !digest_is_zero(),
    ensures
        f(p) == g(p),
    decreases 4 - path.len(),
{
    if path.len() == 4 {
        assert(p.take(4) =~= p);
        law_leaf_hash_tells_pairs_apart(f(p), g(p));
    } else {
        let n = path.len() as int;
        let c = p[n] as int;
        let child = path.push(p[n]);
        assert(p.take(n + 1) =~= child);
        lemma_child_hashes(f, path, MERKLE_FANOUT as nat);
        lemma_child_hashes(g, path, MERKLE_FANOUT as nat);
        let cf = child_hashes(f, path, MERKLE_FANOUT as nat);
        let cg = child_hashes(g, path, MERKLE_FANOUT as nat);
        law_inner_hash_tells_children_apart(cf, cg, c);
        assert(cf[c] == tree_hash(f, path.push(c as u8)));
        assert(cg[c] == tree_hash(g, path.push(c as u8)));
        lemma_same_hash_same_leaves(f, g, child, p);
    }
}

/// Two trees with one hash at a node hold the same below it, but for a collision
/// of digests or a digest of zero.
pub proof fn law_same_hash_same_contents_below(a: &SliceTree, b: &SliceTree, path: Seq<u8>, k: [u8; 32], v: [u8; 32])
    requires
        a.wf(),
        b.wf(),
        path.len() <= 4,
        leaf_path(k).take(path.len() as int) == path,
        contents_hash(a@, path) == contents_hash(b@, path),
        !digests_collide(),
        !digest_is_zero(),
    ensures
        a@.contains_pair(k, v) <==> b@.contains_pair(k, v),
{
    let p = leaf_path(k);
    law_leaf_path_spells_two_bytes(k);
    lemma_same_hash_same_leaves(listings(a@), listings(b@), path, p);
    a.lemma_listing(p);
    b.lemma_listing(p);
    let s = listing(a@, p);
    assert(s == listing(b@, p));
    if a@.contains_pair(k, v) {
        let i = choose|i: int| 0 <= i < s.len() && #[trigger] s[i].0 == k;
        assert(a@.contains_pair(s[i].0, s[i].1) && b@.contains_pair(s[i].0, s[i].1));
    }
    if b@.contains_pair(k, v) {
        let i = choose|i: int| 0 <= i < s.len() && #[trigger] s[i].0 == k;
        assert(a@.contains_pair(s[i].0, s[i].1) && b@.contains_pair(s[i].0, s[i].1));
    }
}

/// Trees with different contents have different roots, but for a collision of
/// digests or a digest of zero.
pub proof fn law_different_contents_different_roots(a: &SliceTree, b: &SliceTree)
    requires
        a.wf(),
        b.wf(),
        a@ != b@,
        !digests_collide(),
        !digest_is_zero(),
    ensures
        contents_hash(a@, Seq::<u8>::empty()) != contents_hash(b@, Seq::<u8>::empty()),
{
    if contents_hash(a@, Seq::<u8>::empty()) == contents_hash(b@, Seq::<u8>::empty()) {
        let none = Seq::<u8>::empty();
        assert forall|k: [u8; 32], v: [u8; 32]| a@.contains_pair(k, v) <==> b@.contains_pair(k, v) by {
            assert(leaf_path(k).take(0) =~= none);
            law_same_hash_same_contents_below(a, b, none, k, v);
        }
        assert forall|k: [u8; 32]| #[trigger] a@.contains_key(k) <==> b@.contains_key(k) by {
            assert(a@.contains_key(k) ==> a@.contains_pair(k, a@[k]));
            assert(b@.contains_key(k) ==> b@.contains_pair(k, b@[k]));
        }
        assert forall|k: [u8; 32]| #[trigger] a@.contains_key(k) implies a@[k] == b@[k] by {
            assert(a@.contains_pair(k, a@[k]));
            assert(b@.contains_pair(k, a@[k]));
        }
        assert(a@ =~= b@);
    }
}

/// The root of a tree that holds something is not zero, but for a digest of
/// zero.
pub proof fn law_full_root_is_not_zero(t: &SliceTree, k: [u8; 32], path: Seq<u8>)
    requires
        t.wf(),
        t@.contains_key(k),
        path.len() <= 4,
        leaf_path(k).take(path.len() as int) == path,
        !digest_is_zero(),
    ensures
        contents_hash(t@, path) != zero_hash(),
    decreases 4 - path.len(),
{
    let p = leaf_path(k);
    law_leaf_path_spells_two_bytes(k);
    let f = listings(t@);
    if path.len() == 4 {
        assert(p.take(4) =~= p);
        t.lemma_listing(p);
        assert(lists_key(listing(t@, p), k));
        lemma_digest_not_zero("dht-merkle-leaf-v1".spec_bytes() + leaf_bytes(f(p)));
    } else {
        let n = path.len() as int;
        assert(p.take(n + 1) =~= path.push(p[n]));
        law_full_root_is_not_zero(t, k, path.push(p[n]));
        lemma_child_hashes(f, path, MERKLE_FANOUT as nat);
        let c = child_hashes(f, path, MERKLE_FANOUT as nat);
        assert(c[p[n] as int] == tree_hash(f, path.push(p[n])));
        lemma_digest_not_zero("dht-merkle-node-v1".spec_bytes() + joined(c));
    }
}

} // verus!
