//! Keys of the stashes that share the keyspace.

use super::bytes::append_bytes;
use super::hash::{blake3_hash, blake3_of, digests_collide};
use vstd::prelude::*;
use vstd::string::StringSliceAdditionalSpecFns;

verus! {

/// The stash key of `ipk` in the namespace `domain`: the BLAKE3 digest of the
/// two, one behind the other.
pub fn stash_prefix(domain: &[u8], ipk: &[u8; 32]) -> (r: [u8; 32])
    ensures
        r == blake3_hash(domain@ + ipk@),
{
    let mut buf: Vec<u8> = Vec::new();
    append_bytes(&mut buf, domain);
    append_bytes(&mut buf, ipk);
    assert(buf@ =~= domain@ + ipk@);
    blake3_of(&buf)
}

/// The namespaces of key packages and of invitations do not meet: no user's
/// stash of the one has the key of any user's stash of the other, but for a
/// collision of digests.
pub proof fn law_namespaces_are_apart(a: [u8; 32], b: [u8; 32])
    requires
        !digests_collide(),
    ensures
        blake3_hash("kp:".spec_bytes() + a@) != blake3_hash("welcome:".spec_bytes() + b@),
{
    reveal_strlit("kp:");
    reveal_strlit("welcome:");
    vstd::string::is_ascii_spec_bytes("kp:");
    vstd::string::is_ascii_spec_bytes("welcome:");
    let x = "kp:".spec_bytes() + a@;
    let y = "welcome:".spec_bytes() + b@;
    assert(x.len() == 35);
    assert(y.len() == 40);
}

} // verus!
