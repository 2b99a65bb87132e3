//! Primitive selection: sizes of the chosen algorithms, the secure random
//! source, and deterministic per-chunk nonce derivation.

use vstd::prelude::*;
use vstd::bytes::{lemma_auto_spec_u64_to_from_le_bytes, spec_u64_to_le_bytes, u64_to_le_bytes};
use crate::error::Error;
use crate::util::copy_range;

verus! {

/// Length of the random salt stored in a container header.
pub const SALT_LEN: usize = 16;

/// Length of the random base nonce stored in a container header; a full
/// nonce is the base followed by a little-endian counter.
pub const BASE_NONCE_LEN: usize = 16;

/// Length of a full cipher nonce.
pub const NONCE_LEN: usize = 24;

/// Length of a cipher key and of the key-derivation output.
pub const KEY_LEN: usize = 32;

/// Length of an authentication tag.
pub const TAG_LEN: usize = 16;

/// Relies on `getrandom::getrandom`: fills the buffer from the platform's
/// secure entropy source. Nothing is promised of the values; only the error
/// case is named.
#[verifier::external_body]
fn os_random_fill(buf: &mut Vec<u8>) -> (r: Result<(), Error>)
    ensures
        final(buf)@.len() == old(buf)@.len(),
        r matches Err(e) ==> e == Error::InsufficientEntropy,
{
    match getrandom::getrandom(buf.as_mut_slice()) {
        Ok(()) => Ok(()),
        Err(_) => Err(Error::InsufficientEntropy),
    }
}

/// Draws `n` cryptographically secure random bytes, used for salts, nonces
/// and freshly generated content keys. Fails only when the platform entropy
/// source does.
pub fn random_bytes(n: usize) -> (r: Result<Vec<u8>, Error>)
    ensures
        r matches Ok(v) ==> v@.len() == n,
        r matches Err(e) ==> e == Error::InsufficientEntropy,
{
    let mut buf: Vec<u8> = Vec::new();
    let mut i: usize = 0;
    while i < n
        invariant
            i <= n,
            buf@.len() == i,
        decreases n - i,
    {
        buf.push(0u8);
        i = i + 1;
    }
    match os_random_fill(&mut buf) {
        Ok(()) => Ok(buf),
        Err(e) => Err(e),
    }
}

/// The cipher nonce for a given counter: the container's base nonce
/// followed by the counter in little-endian bytes. Counter zero protects
/// the header itself; counter `i + 1` protects chunk `i`.
pub open spec fn spec_nonce(base: Seq<u8>, counter: u64) -> Seq<u8> {
    base + spec_u64_to_le_bytes(counter)
}

/// Derives the cipher nonce for one counter value from the base nonce.
pub fn derive_nonce(base: &Vec<u8>, counter: u64) -> (r: Vec<u8>)
    requires
        base@.len() == BASE_NONCE_LEN,
    ensures
        r@ == spec_nonce(base@, counter),
        r@.len() == NONCE_LEN,
{
    proof {
        lemma_auto_spec_u64_to_from_le_bytes();
    }
    let mut out = copy_range(base, 0, base.len());
    proof {
        assert(out@ =~= base@);
    }
    let mut ctr = u64_to_le_bytes(counter);
    out.append(&mut ctr);
    out
}

/// Nonce uniqueness: distinct counters yield distinct nonces over one base,
/// so no nonce is ever reused for one content key across the header tag and
/// the chunks of one container.
pub proof fn lemma_nonce_uniqueness(base: Seq<u8>, i: u64, j: u64)
    requires
        i != j,
    ensures
        spec_nonce(base, i) != spec_nonce(base, j),
{
    lemma_auto_spec_u64_to_from_le_bytes();
    if spec_nonce(base, i) == spec_nonce(base, j) {
        let n = base.len() as int;
        assert(spec_nonce(base, i).subrange(n, n + 8) =~= spec_u64_to_le_bytes(i));
        assert(spec_nonce(base, j).subrange(n, n + 8) =~= spec_u64_to_le_bytes(j));
        assert(spec_u64_to_le_bytes(i) == spec_u64_to_le_bytes(j));
        assert(vstd::bytes::spec_u64_from_le_bytes(spec_u64_to_le_bytes(i)) == i);
        assert(vstd::bytes::spec_u64_from_le_bytes(spec_u64_to_le_bytes(j)) == j);
    }
}

} // verus!
