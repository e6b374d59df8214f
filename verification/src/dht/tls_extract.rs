//! The public key in a peer's certificate, and what else it says of the peer.
//!
//! The chain was validated when the connection was made; here the key is held
//! against the id that was dialled.

use super::bytes::{bytes_eq, copy_bytes, take32};
use super::hash::blake3_hash;
use super::id::NodeId;
use vstd::prelude::*;
use x509_parser::prelude::FromDer;

verus! {

/// Why no public key comes out of a certificate.
#[derive(Clone, Copy, Debug, PartialEq, Eq, Structural)]
pub enum ExtractError {
    /// The peer presented no certificate.
    NoCertChain,
    /// The connection's idea of an identity is not a chain of certificates.
    UnexpectedIdentityType,
    /// The chain is empty.
    EmptyChain,
    /// The certificate cannot be parsed.
    MalformedCert,
    /// The key is not an Ed25519 key.
    NotEd25519,
    /// The key has not 32 bytes.
    BadSpkiLength,
    /// The key does not belong to the id that was dialled.
    NodeIdMismatch,
}

/// A certificate as far as it is looked at.
#[derive(Debug)]
pub struct Leaf {
    /// The encoded object identifier of the key's algorithm.
    pub algorithm: Vec<u8>,
    pub key: Vec<u8>,
    /// The encoded object identifiers and the values of the extensions.
    pub extensions: Vec<(Vec<u8>, Vec<u8>)>,
}

/// The algorithm, the key and the extensions of a certificate.
pub type LeafView = (Seq<u8>, Seq<u8>, Seq<(Seq<u8>, Seq<u8>)>);

impl View for Leaf {
    type V = LeafView;

    open spec fn view(&self) -> LeafView {
        (
            self.algorithm@,
            self.key@,
            Seq::new(self.extensions@.len(), |i: int| (self.extensions@[i].0@, self.extensions@[i].1@)),
        )
    }
}

/// What a certificate in DER holds; `None` where it is not one.
pub uninterp spec fn x509_leaf(der: Seq<u8>) -> Option<(Seq<u8>, Seq<u8>, Seq<(Seq<u8>, Seq<u8>)>)>;

/// Calls `x509_parser::certificate::X509Certificate::from_der` and hands out
/// the algorithm and the bits of the subject's public key and the extensions
/// in their order. Trusted: what comes out is a function of the bytes alone,
/// which [`x509_leaf`] names. Nothing is claimed of which bytes are a
/// certificate.
#[verifier::external_body]
fn parse_leaf(der: &[u8]) -> (r: Option<Leaf>)
    ensures
        match r {
            Some(leaf) => x509_leaf(der@) == Some(leaf@),
            None => x509_leaf(der@) is None,
        },
{
    let (_, cert) = x509_parser::certificate::X509Certificate::from_der(der).ok()?;
    let spki = cert.public_key();
    Some(Leaf {
        algorithm: spki.algorithm.algorithm.as_bytes().to_vec(),
        key: spki.subject_public_key.data.to_vec(),
        extensions: cert.extensions().iter().map(|e| (e.oid.as_bytes().to_vec(), e.value.to_vec())).collect(),
    })
}

/// The encoded object identifier of Ed25519, 1.3.101.112.
pub open spec fn ed25519_oid() -> Seq<u8> {
    seq![0x2bu8, 0x65u8, 0x70u8]
}

/// The public key that a certificate comes to, or what is wrong with it.
pub open spec fn key_verdict(leaf: Option<LeafView>) -> Result<Seq<u8>, ExtractError> {
    match leaf {
        None => Err(ExtractError::MalformedCert),
        Some((algorithm, key, _)) => if algorithm != ed25519_oid() {
            Err(ExtractError::NotEd25519)
        } else if key.len() != 32 {
            Err(ExtractError::BadSpkiLength)
        } else {
            Ok(key)
        },
    }
}

/// The same verdict on a key in an array.
pub open spec fn is_verdict(r: Result<[u8; 32], ExtractError>, verdict: Result<Seq<u8>, ExtractError>) -> bool {
    match r {
        Ok(pk) => verdict == Ok::<Seq<u8>, ExtractError>(pk@),
        Err(e) => verdict == Err::<Seq<u8>, ExtractError>(e),
    }
}

/// The Ed25519 key of a certificate, given what parsing it brought.
pub fn key_of_leaf(leaf: &Option<Leaf>) -> (r: Result<[u8; 32], ExtractError>)
    ensures
        is_verdict(
            r,
            key_verdict(
                match leaf {
                    Some(l) => Some(l@),
                    None => None,
                },
            ),
        ),
{
    let leaf: &Leaf = match leaf {
        None => {
            return Err(ExtractError::MalformedCert);
        },
        Some(l) => l,
    };
    let oid: [u8; 3] = [0x2b, 0x65, 0x70];
    assert(oid@ =~= ed25519_oid());
    if !bytes_eq(&leaf.algorithm, &oid) {
        return Err(ExtractError::NotEd25519);
    }
    if leaf.key.len() != 32 {
        return Err(ExtractError::BadSpkiLength);
    }
    let out: [u8; 32] = take32(&leaf.key, 0);
    assert(leaf.key@.subrange(0, 32) =~= leaf.key@);
    Ok(out)
}

/// The Ed25519 key of a certificate in DER.
pub fn extract_pubkey_from_leaf_der(der: &[u8]) -> (r: Result<[u8; 32], ExtractError>)
    ensures
        is_verdict(r, key_verdict(x509_leaf(der@))),
{
    key_of_leaf(&parse_leaf(der))
}

/// What a connection tells of its peer.
#[derive(Debug)]
pub enum PeerIdentity {
    /// Nothing: no certificate was presented.
    Absent,
    /// Something that is not a chain of certificates.
    Unexpected,
    /// A chain of certificates in DER, the peer's own first.
    Chain(Vec<Vec<u8>>),
}

/// The verdict on what a connection tells of its peer.
pub open spec fn identity_verdict(identity: PeerIdentity) -> Result<Seq<u8>, ExtractError> {
    match identity {
        PeerIdentity::Absent => Err(ExtractError::NoCertChain),
        PeerIdentity::Unexpected => Err(ExtractError::UnexpectedIdentityType),
        PeerIdentity::Chain(chain) => if chain@.len() == 0 {
            Err(ExtractError::EmptyChain)
        } else {
            key_verdict(x509_leaf(chain@[0]@))
        },
    }
}

/// The Ed25519 key of a connection's peer.
pub fn extract_pubkey_from_conn(identity: &PeerIdentity) -> (r: Result<[u8; 32], ExtractError>)
    ensures
        is_verdict(r, identity_verdict(*identity)),
{
    match identity {
        PeerIdentity::Absent => Err(ExtractError::NoCertChain),
        PeerIdentity::Unexpected => Err(ExtractError::UnexpectedIdentityType),
        PeerIdentity::Chain(chain) => if chain.len() == 0 {
            Err(ExtractError::EmptyChain)
        } else {
            extract_pubkey_from_leaf_der(&chain[0])
        },
    }
}

/// A key is good for an id when its digest is that id.
pub fn bind_pubkey(key: Result<[u8; 32], ExtractError>, claimed: &NodeId) -> (r: Result<[u8; 32], ExtractError>)
    ensures
        r == (match key {
            Err(e) => Err(e),
            Ok(pk) => if blake3_hash(pk@) == claimed.bytes {
                Ok(pk)
            } else {
                Err(ExtractError::NodeIdMismatch)
            },
        }),
{
    match key {
        Err(e) => Err(e),
        Ok(pk) => {
            let derived: NodeId = NodeId::new(&pk);
            if !derived.same(claimed) {
                return Err(ExtractError::NodeIdMismatch);
            }
            Ok(pk)
        },
    }
}

/// The Ed25519 key of a connection's peer, where it belongs to the id that was
/// dialled.
pub fn extract_and_verify_pubkey(identity: &PeerIdentity, claimed: &NodeId) -> (r: Result<[u8; 32], ExtractError>)
    ensures
        match identity_verdict(*identity) {
            Err(e) => r == Err::<[u8; 32], ExtractError>(e),
            Ok(pk) => if blake3_hash(pk) == claimed.bytes {
                r matches Ok(k) && k@ == pk
            } else {
                r == Err::<[u8; 32], ExtractError>(ExtractError::NodeIdMismatch)
            },
        },
{
    bind_pubkey(extract_pubkey_from_conn(identity), claimed)
}

// ---------------------------------------------------------------------------
// Extensions
// ---------------------------------------------------------------------------

/// A number in groups of seven bits, the most significant first; every byte
/// but the last has its high bit set. `last` says whether this is the end of
/// the number.
pub open spec fn base128(n: nat, last: bool) -> Seq<u8>
    decreases n,
{
    let digit = ((n % 128) + (if last {
        0int
    } else {
        128
    })) as u8;
    if n < 128 {
        seq![digit]
    } else {
        base128(n / 128, false).push(digit)
    }
}

/// Several numbers, one after the other.
pub open spec fn base128_all(arcs: Seq<u64>) -> Seq<u8>
    decreases arcs.len(),
{
    if arcs.len() == 0 {
        Seq::empty()
    } else {
        base128_all(arcs.drop_last()) + base128(arcs.last() as nat, true)
    }
}

/// How an object identifier is encoded: the first two numbers in one byte, and
/// each of the others in base 128.
pub open spec fn oid_encoding(arcs: Seq<u64>) -> Option<Seq<u8>> {
    if arcs.len() == 1 && arcs[0] == 0 {
        Some(seq![0u8])
    } else if arcs.len() < 2 || arcs[0] >= 7 || arcs[1] >= 40 {
        None
    } else {
        Some(seq![(arcs[0] * 40 + arcs[1]) as u8] + base128_all(arcs.skip(2)))
    }
}

/// Calls `x509_parser::der_parser::Oid::from` and hands out the encoded object
/// identifier. Trusted: it is that of [`oid_encoding`].
#[verifier::external_body]
fn encode_oid(arcs: &[u64]) -> (r: Option<Vec<u8>>)
    ensures
        match r {
            Some(v) => oid_encoding(arcs@) == Some(v@),
            None => oid_encoding(arcs@) is None,
        },
{
    match x509_parser::der_parser::Oid::from(arcs) {
        Ok(oid) => Some(oid.as_bytes().to_vec()),
        Err(_) => None,
    }
}

/// `r` is the value of the first extension with this identifier.
pub open spec fn is_extension(extensions: Seq<(Seq<u8>, Seq<u8>)>, oid: Seq<u8>, r: Option<Seq<u8>>) -> bool {
    match r {
        Some(v) => exists|i: int|
            {
                &&& 0 <= i < extensions.len()
                &&& #[trigger] extensions[i] == (oid, v)
                &&& forall|j: int| 0 <= j < i ==> (#[trigger] extensions[j]).0 != oid
            },
        None => forall|i: int| 0 <= i < extensions.len() ==> (#[trigger] extensions[i]).0 != oid,
    }
}

/// The value of the first extension of a certificate with this encoded
/// identifier.
pub fn extension_of_leaf(leaf: &Leaf, oid: &[u8]) -> (r: Option<Vec<u8>>)
    ensures
        is_extension(
            leaf@.2,
            oid@,
            match r {
                Some(v) => Some(v@),
                None => None,
            },
        ),
{
    let mut i: usize = 0;
    while i < leaf.extensions.len()
        invariant
            0 <= i <= leaf.extensions.len(),
            forall|j: int| 0 <= j < i ==> (#[trigger] leaf@.2[j]).0 != oid@,
        decreases leaf.extensions.len() - i,
    {
        if bytes_eq(&leaf.extensions[i].0, oid) {
            let v: Vec<u8> = copy_bytes(&leaf.extensions[i].1);
            assert(leaf@.2[i as int] == (oid@, v@));
            return Some(v);
        }
        i = i + 1;
    }
    None
}

/// What a certificate in DER says under an object identifier: the value of the
/// first extension that has it.
pub fn capabilities_from_leaf_der(der: &[u8], oid: &[u64]) -> (r: Option<Vec<u8>>)
    ensures
        match (x509_leaf(der@), oid_encoding(oid@)) {
            (Some(leaf), Some(encoded)) => is_extension(
                leaf.2,
                encoded,
                match r {
                    Some(v) => Some(v@),
                    None => None,
                },
            ),
            _ => r is None,
        },
{
    match parse_leaf(der) {
        None => None,
        Some(leaf) => match encode_oid(oid) {
            None => None,
            Some(encoded) => extension_of_leaf(&leaf, &encoded),
        },
    }
}

/// When a certificate gives a key: it can be parsed, its algorithm is Ed25519,
/// and the key has 32 bytes; and then it is that key, unchanged. Of several
/// faults the first in that order is named.
pub proof fn law_key_comes_unchanged(algorithm: Seq<u8>, key: Seq<u8>, extensions: Seq<(Seq<u8>, Seq<u8>)>)
    ensures
        ({
            let r = key_verdict(Some((algorithm, key, extensions)));
            let ed25519 = algorithm.len() == 3 && algorithm[0] == 0x2b && algorithm[1] == 0x65 && algorithm[2] == 0x70;
            &&& r is Ok <==> ed25519 && key.len() == 32
            &&& r matches Ok(k) ==> k == key
            &&& r == Err::<Seq<u8>, ExtractError>(ExtractError::NotEd25519) <==> !ed25519
            &&& r == Err::<Seq<u8>, ExtractError>(ExtractError::BadSpkiLength) <==> ed25519 && key.len() != 32
        }),
        key_verdict(None) == Err::<Seq<u8>, ExtractError>(ExtractError::MalformedCert),
{
    if algorithm.len() == 3 && algorithm[0] == 0x2b && algorithm[1] == 0x65 && algorithm[2] == 0x70 {
        assert(algorithm =~= ed25519_oid());
    }
}

/// The peer's own certificate, the first of its chain, is the one that counts;
/// where there is none, what is missing is named.
pub proof fn law_first_certificate_counts(a: Vec<Vec<u8>>, b: Vec<Vec<u8>>)
    ensures
        a@.len() > 0 && b@.len() > 0 && a@[0]@ == b@[0]@ ==> identity_verdict(PeerIdentity::Chain(a))
            == identity_verdict(PeerIdentity::Chain(b)),
        a@.len() > 0 ==> identity_verdict(PeerIdentity::Chain(a)) == key_verdict(x509_leaf(a@[0]@)),
        a@.len() == 0 ==> identity_verdict(PeerIdentity::Chain(a)) == Err::<Seq<u8>, ExtractError>(
            ExtractError::EmptyChain,
        ),
        identity_verdict(PeerIdentity::Absent) == Err::<Seq<u8>, ExtractError>(ExtractError::NoCertChain),
        identity_verdict(PeerIdentity::Unexpected) == Err::<Seq<u8>, ExtractError>(
            ExtractError::UnexpectedIdentityType,
        ),
{
}

/// The identifier of Ed25519 is the encoding of 1.3.101.112.
pub proof fn law_ed25519_identifier()
    ensures
        oid_encoding(seq![1u64, 3u64, 101u64, 112u64]) == Some(ed25519_oid()),
{
    let arcs = seq![1u64, 3u64, 101u64, 112u64];
    let rest = arcs.skip(2);
    assert(rest =~= seq![101u64, 112u64]);
    assert(rest.drop_last() =~= seq![101u64]);
    assert(seq![101u64].drop_last() =~= Seq::<u64>::empty());
    assert(base128_all(Seq::<u64>::empty()) =~= Seq::<u8>::empty());
    assert(base128(101, true) =~= seq![101u8]);
    assert(base128(112, true) =~= seq![112u8]);
    assert(base128_all(seq![101u64]) =~= seq![101u8]);
    assert(base128_all(rest) =~= seq![101u8, 112u8]);
    assert(seq![43u8] + base128_all(rest) =~= ed25519_oid());
}

/// The number that groups of seven bits spell.
pub open spec fn value128(s: Seq<u8>) -> nat
    decreases s.len(),
{
    if s.len() == 0 {
        0
    } else {
        value128(s.drop_last()) * 128 + (s.last() % 128) as nat
    }
}

/// A number in groups of seven bits spells itself, and the high bit marks every
/// byte but the last one.
pub proof fn law_base128_spells_its_number(n: nat, last: bool)
    ensures
        value128(base128(n, last)) == n,
        base128(n, last).len() > 0,
        base128(n, last).last() < 128 <==> last,
        forall|i: int| 0 <= i < base128(n, last).len() - 1 ==> #[trigger] base128(n, last)[i] >= 128,
    decreases n,
{
    let s = base128(n, last);
    if n < 128 {
        assert(s.drop_last() =~= Seq::<u8>::empty());
        assert(value128(s.drop_last()) == 0);
    } else {
        law_base128_spells_its_number(n / 128, false);
        let head = base128(n / 128, false);
        assert(s.drop_last() =~= head);
        assert forall|i: int| 0 <= i < s.len() - 1 implies #[trigger] s[i] >= 128 by {
            assert(s[i] == head[i]);
        }
    }
}

/// What a certificate says under an identifier is the value of the first
/// extension that has it.
pub proof fn law_first_extension_counts(
    extensions: Seq<(Seq<u8>, Seq<u8>)>,
    oid: Seq<u8>,
    r: Option<Seq<u8>>,
    i: int,
)
    requires
        is_extension(extensions, oid, r),
        0 <= i < extensions.len(),
        extensions[i].0 == oid,
        forall|j: int| 0 <= j < i ==> (#[trigger] extensions[j]).0 != oid,
    ensures
        r == Some(extensions[i].1),
{
    if let Some(v) = r {
        let k = choose|k: int|
            {
                &&& 0 <= k < extensions.len()
                &&& #[trigger] extensions[k] == (oid, v)
                &&& forall|j: int| 0 <= j < k ==> (#[trigger] extensions[j]).0 != oid
            };
        assert(extensions[k].0 == oid && extensions[i].0 == oid);
        assert(k == i);
    }
}

} // verus!
