//! Shared failure taxonomy consumed by every component of this crate.

use vstd::prelude::*;

verus! {

/// Every way an operation of this crate can fail.
///
/// `NotAContainer`, `UnsupportedVersion`, `Truncated` and `HeaderTampered`
/// describe rejected container bytes; `AuthenticationFailure` covers both a
/// wrong passphrase and tampered ciphertext, deliberately without
/// distinguishing the two; `UnexpectedEndOfStream` marks a container cut off
/// before its final chunk; `InsufficientEntropy` means the platform's secure
/// random source failed.
#[derive(Clone, Copy, Debug, PartialEq, Eq, Structural)]
pub enum Error {
    InsufficientEntropy,
    NotAContainer,
    UnsupportedVersion,
    Truncated,
    HeaderTampered,
    AuthenticationFailure,
    UnexpectedEndOfStream,
}

} // verus!
