//! Enrolment: whether a certificate is needed, and whether one was pasted.

use crate::text::{trim, trimmed};
use vstd::prelude::*;

verus! {

/// What enrolment does first.
#[derive(Clone, Copy, Debug, PartialEq, Eq, Structural)]
pub enum EnrollStep {
    /// The certificate in place is good: nothing is to be done.
    AlreadyEnrolled,
    /// Print the certificate request and read the signed certificate.
    AskForCert,
}

/// What enrolment does first, given whether the certificate in place is good;
/// one that could not be looked at is not.
pub fn enroll(cert_valid: Option<bool>) -> (r: EnrollStep)
    ensures
        r == (if cert_valid == Some(true) {
            EnrollStep::AlreadyEnrolled
        } else {
            EnrollStep::AskForCert
        }),
{
    match cert_valid {
        Some(valid) => if valid {
            EnrollStep::AlreadyEnrolled
        } else {
            EnrollStep::AskForCert
        },
        None => EnrollStep::AskForCert,
    }
}

/// Whether anything was pasted: white space alone is nothing.
pub fn was_pasted(pem: &str) -> (r: bool)
    ensures
        r == (vstd::utf8::encode_utf8(trimmed(pem@)).len() > 0),
{
    trim(pem).as_bytes().len() > 0
}

} // verus!
