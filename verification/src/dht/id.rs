//! Who a peer is and where it is reached.

use super::bytes::{
    be_nat, eq32, lemma_be_nat_injective, lemma_first_difference_decides, lemma_xor_commutes, lemma_xor_injective,
    lemma_zeros_spell_zero, xor_seq,
};
use super::hash::{blake3_hash, blake3_of};
use vstd::prelude::*;

verus! {

/// A point of the 256-bit keyspace that relays and users share.
#[derive(Clone, Copy, Debug, PartialEq, Eq)]
pub struct NodeId {
    pub bytes: [u8; 32],
}

impl View for NodeId {
    type V = Seq<u8>;

    open spec fn view(&self) -> Seq<u8> {
        self.bytes@
    }
}

impl NodeId {
    /// The id with these bytes.
    pub fn from_bytes(bytes: [u8; 32]) -> (r: NodeId)
        ensures
            r.bytes == bytes,
    {
        NodeId { bytes }
    }

    /// The id that belongs to a public key, or to any other byte string: its
    /// BLAKE3 digest.
    pub fn new(data: &[u8]) -> (r: NodeId)
        ensures
            r.bytes == blake3_hash(data@),
    {
        NodeId { bytes: blake3_of(data) }
    }

    /// The 32 bytes of the id.
    pub fn as_bytes(&self) -> (r: &[u8; 32])
        ensures
            *r == self.bytes,
    {
        &self.bytes
    }

    /// Whether two ids are the same.
    pub fn same(&self, other: &NodeId) -> (r: bool)
        ensures
            r == (*self == *other),
    {
        eq32(&self.bytes, &other.bytes)
    }
}

/// The XOR distance of two ids, as a number below 2^256.
pub open spec fn distance(a: NodeId, b: NodeId) -> nat {
    be_nat(xor_seq(a@, b@))
}

/// Distance is symmetric.
pub proof fn law_distance_symmetric(a: NodeId, b: NodeId)
    ensures
        distance(a, b) == distance(b, a),
{
    lemma_xor_commutes(a@, b@);
}

/// Seen from one target, two ids at the same distance are one id.
pub proof fn law_distance_tells_apart(a: NodeId, b: NodeId, target: NodeId)
    requires
        distance(a, target) == distance(b, target),
    ensures
        a == b,
{
    lemma_be_nat_injective(xor_seq(a@, target@), xor_seq(b@, target@));
    lemma_xor_injective(a@, b@, target@);
    assert(a.bytes =~= b.bytes);
}

/// An id has distance zero from itself and from no other id.
pub proof fn law_distance_zero(a: NodeId, b: NodeId)
    ensures
        distance(a, b) == 0 <==> a == b,
{
    assert forall|i: int| 0 <= i < 32 implies xor_seq(b@, b@)[i] == 0u8 by {
        let x = b@[i];
        assert(x ^ x == 0) by (bit_vector);
    }
    lemma_zeros_spell_zero(xor_seq(b@, b@));
    if distance(a, b) == 0 {
        law_distance_tells_apart(a, b, b);
    }
}

/// The first byte in which two ids differ decides which of them is closer to a
/// target: the one that differs from the target there in the smaller number.
pub proof fn law_first_difference_decides(a: NodeId, b: NodeId, target: NodeId, i: int)
    requires
        0 <= i < 32,
        forall|k: int| 0 <= k < i ==> a.bytes@[k] == b.bytes@[k],
        a.bytes@[i] ^ target.bytes@[i] < b.bytes@[i] ^ target.bytes@[i],
    ensures
        distance(a, target) < distance(b, target),
        distance(target, a) < distance(target, b),
{
    lemma_first_difference_decides(xor_seq(a@, target@), xor_seq(b@, target@), i, 32);
    assert(xor_seq(a@, target@).take(32) =~= xor_seq(a@, target@));
    assert(xor_seq(b@, target@).take(32) =~= xor_seq(b@, target@));
    law_distance_symmetric(a, target);
    law_distance_symmetric(b, target);
}

/// A socket address, held as plain numbers.
#[derive(Clone, Copy, Debug, PartialEq, Eq)]
pub enum PeerAddr {
    V4 { octets: [u8; 4], port: u16 },
    V6 { segments: [u16; 8], port: u16, flowinfo: u32, scope_id: u32 },
}

/// A peer as it travels in answers: id, address and Ed25519 public key.
#[derive(Clone, Copy, Debug, PartialEq, Eq)]
pub struct NodeDescriptor {
    pub id: NodeId,
    pub addr: PeerAddr,
    pub pubkey: [u8; 32],
}

} // verus!
