//! Ed25519 signatures.

use ed25519_dalek::Signer;
use vstd::prelude::*;

verus! {

/// The bytes are an Ed25519 public key.
pub uninterp spec fn ed25519_key_parses(key: Seq<u8>) -> bool;

/// Under strict verification `sig` is a signature of `msg` by `key`.
pub uninterp spec fn ed25519_signed(key: Seq<u8>, msg: Seq<u8>, sig: Seq<u8>) -> bool;

/// Calls `ed25519_dalek::VerifyingKey::from_bytes` and tells whether it
/// accepted the bytes. Trusted: the answer is a function of the bytes alone,
/// which [`ed25519_key_parses`] names.
#[verifier::external_body]
pub(crate) fn key_parses(key: &[u8; 32]) -> (r: bool)
    ensures
        r == ed25519_key_parses(key@),
{
    ed25519_dalek::VerifyingKey::from_bytes(key).is_ok()
}

/// Calls `ed25519_dalek::VerifyingKey::verify_strict` under the key with these
/// bytes and tells whether it accepted; bytes that are no key accept nothing.
/// Trusted: the answer is a function of key, message and signature alone,
/// which [`ed25519_signed`] names, and only a key that parses accepts.
/// Nothing is claimed of who could have made the signature.
#[verifier::external_body]
pub(crate) fn signature_holds(key: &[u8; 32], msg: &[u8], sig: &[u8; 64]) -> (r: bool)
    ensures
        r == ed25519_signed(key@, msg@, sig@),
        r ==> ed25519_key_parses(key@),
{
    match ed25519_dalek::VerifyingKey::from_bytes(key) {
        Ok(vk) => vk.verify_strict(msg, &ed25519_dalek::Signature::from_bytes(sig)).is_ok(),
        Err(_) => false,
    }
}

/// The public key that belongs to a secret key.
pub uninterp spec fn ed25519_public_key(secret: Seq<u8>) -> [u8; 32];

/// The signature of `msg` under a secret key.
pub uninterp spec fn ed25519_signature(secret: Seq<u8>, msg: Seq<u8>) -> [u8; 64];

/// Calls `ed25519_dalek::SigningKey::from_bytes` and `verifying_key`. Trusted:
/// the public key is a function of the secret key alone, which
/// [`ed25519_public_key`] names.
#[verifier::external_body]
pub(crate) fn public_key_of(secret: &[u8; 32]) -> (r: [u8; 32])
    ensures
        r == ed25519_public_key(secret@),
{
    ed25519_dalek::SigningKey::from_bytes(secret).verifying_key().to_bytes()
}

/// Calls `ed25519_dalek::Signer::sign` under `SigningKey::from_bytes`.
/// Trusted: the signature is a function of secret key and message alone, which
/// [`ed25519_signature`] names. Nothing is claimed of who accepts it.
#[verifier::external_body]
pub(crate) fn sign_with(secret: &[u8; 32], msg: &[u8]) -> (r: [u8; 64])
    ensures
        r == ed25519_signature(secret@, msg@),
{
    ed25519_dalek::SigningKey::from_bytes(secret).sign(msg).to_bytes()
}

} // verus!
