//! BLAKE3, the hash that ids, stash keys and Merkle nodes are made with.

use vstd::prelude::*;

verus! {

/// The BLAKE3 digest of a byte string.
pub uninterp spec fn blake3_hash(data: Seq<u8>) -> [u8; 32];

/// Calls `blake3::hash` and hands out the 32 bytes of the digest. Trusted: the
/// digest is a function of the bytes alone, which [`blake3_hash`] names.
/// Nothing is claimed of its value, in particular not that digests differ.
#[verifier::external_body]
pub(crate) fn blake3_of(data: &[u8]) -> (r: [u8; 32])
    ensures
        r == blake3_hash(data@),
{
    *blake3::hash(data).as_bytes()
}

/// Two different byte strings have one digest.
pub open spec fn digests_collide() -> bool {
    exists|x: Seq<u8>, y: Seq<u8>| x != y && #[trigger] blake3_hash(x) == #[trigger] blake3_hash(y)
}

/// Some byte string has the digest that stands for nothing, thirty-two zeros.
pub open spec fn digest_is_zero() -> bool {
    exists|x: Seq<u8>| forall|i: int| 0 <= i < 32 ==> (#[trigger] blake3_hash(x))@[i] == 0
}

} // verus!
