//! Protected memory: a secret byte buffer that is wiped on release.

use vstd::prelude::*;
use crate::util::copy_range;

verus! {

/// A secret byte sequence (key material, passphrase, plaintext fragment).
///
/// The buffer is held in a `zeroize::Zeroizing` wrapper, so the backing
/// memory is overwritten with zeros when the value is dropped, on every
/// exit path, and is only reachable through the explicit `expose` and
/// `into_inner` calls, which keeps every use of the secret auditable at its
/// call site.
#[verifier::external_body]
pub struct Protected {
    inner: zeroize::Zeroizing<Vec<u8>>,
}

/// The bytes that a `Protected` value currently holds.
pub uninterp spec fn protected_bytes(p: Protected) -> Seq<u8>;

impl View for Protected {
    type V = Seq<u8>;

    open spec fn view(&self) -> Seq<u8> {
        protected_bytes(*self)
    }
}

impl Protected {
    /// Takes ownership of a secret as it enters the system.
    ///
    /// Relies on `zeroize::Zeroizing::new`: wraps the buffer unchanged; the
    /// wrapper overwrites the buffer with zeros when it is dropped.
    #[verifier::external_body]
    pub fn new(bytes: Vec<u8>) -> (r: Self)
        ensures
            protected_bytes(r) == bytes@,
    {
        Protected { inner: zeroize::Zeroizing::new(bytes) }
    }

    /// Grants read access to the secret. Leakage requires this explicit
    /// call; the buffer is never exposed by default formatting or copies.
    ///
    /// Relies on `zeroize::Zeroizing`'s `Deref`: a view of the wrapped
    /// buffer, unchanged.
    #[verifier::external_body]
    pub fn expose(&self) -> (r: &Vec<u8>)
        ensures
            r@ == protected_bytes(*self),
    {
        &self.inner
    }

    /// Consumes the secret and hands back a raw copy of its bytes; the
    /// original buffer is wiped when `self` is dropped here.
    pub fn into_inner(self) -> (r: Vec<u8>)
        ensures
            r@ == self@,
    {
        let exposed = self.expose();
        let copied = copy_range(exposed, 0, exposed.len());
        proof {
            assert(copied@ =~= self@);
        }
        copied
    }

    /// Explicit, named duplication of a secret, so call sites documenting
    /// duplication are auditable. There is no implicit cloning.
    pub fn duplicate(&self) -> (r: Self)
        ensures
            r@ == self@,
    {
        let exposed = self.expose();
        let copied = copy_range(exposed, 0, exposed.len());
        proof {
            assert(copied@ =~= self@);
        }
        Protected::new(copied)
    }

    /// The secret's length in bytes.
    pub fn byte_len(&self) -> (n: usize)
        ensures
            n == self@.len(),
    {
        self.expose().len()
    }
}

} // verus!
