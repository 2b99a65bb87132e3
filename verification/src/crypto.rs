//! The AEAD cipher: trusted bindings to XChaCha20-Poly1305 and the
//! mathematical model of sealing and opening that every contract above this
//! module is stated in.

use vstd::prelude::*;
use crate::error::Error;
use crate::primitives::{KEY_LEN, NONCE_LEN, TAG_LEN};
use aead::{Aead, KeyInit, Payload};
use chacha20poly1305::{Key, XChaCha20Poly1305, XNonce};

verus! {

/// The payload keystream byte at a given offset that the stream cipher
/// produces for one key and nonce.
pub uninterp spec fn keystream_byte(key: Seq<u8>, nonce: Seq<u8>, i: int) -> u8;

/// The one-time authentication tag over a message's associated data and
/// ciphertext under one key and nonce.
pub uninterp spec fn tag_bytes(key: Seq<u8>, nonce: Seq<u8>, aad: Seq<u8>, pt: Seq<u8>) -> Seq<u8>;

/// A tag, normalized to the fixed tag length.
pub open spec fn tag_norm(t: Seq<u8>) -> Seq<u8> {
    Seq::new(TAG_LEN as nat, |i: int| {
        if 0 <= i < t.len() {
            t[i]
        } else {
            0u8
        }
    })
}

/// An AEAD ciphertext: the plaintext XORed with the cipher's keystream,
/// followed by the authentication tag over the associated data and the
/// ciphertext body.
pub open spec fn spec_seal(key: Seq<u8>, nonce: Seq<u8>, aad: Seq<u8>, pt: Seq<u8>) -> Seq<u8> {
    Seq::new(pt.len(), |i: int| pt[i] ^ keystream_byte(key, nonce, i)) + tag_norm(
        tag_bytes(key, nonce, aad, pt),
    )
}

/// What opening a ciphertext yields: the plaintext it seals, if it seals
/// one under this key, nonce and associated data.
pub open spec fn spec_open(key: Seq<u8>, nonce: Seq<u8>, aad: Seq<u8>, ct: Seq<u8>) -> Option<
    Seq<u8>,
> {
    if exists|p: Seq<u8>| ct == #[trigger] spec_seal(key, nonce, aad, p) {
        Some(choose|p: Seq<u8>| ct == #[trigger] spec_seal(key, nonce, aad, p))
    } else {
        None
    }
}

/// Sealing is injective in the plaintext: the keystream XOR determines the
/// plaintext from the ciphertext body.
pub proof fn lemma_seal_injective(key: Seq<u8>, nonce: Seq<u8>, aad: Seq<u8>, p1: Seq<u8>, p2: Seq<
    u8,
>)
    requires
        spec_seal(key, nonce, aad, p1) == spec_seal(key, nonce, aad, p2),
    ensures
        p1 == p2,
{
    assert(spec_seal(key, nonce, aad, p1).len() == p1.len() + TAG_LEN);
    assert(spec_seal(key, nonce, aad, p2).len() == p2.len() + TAG_LEN);
    assert(p1.len() == p2.len());
    assert forall|i: int| 0 <= i < p1.len() implies p1[i] == p2[i] by {
        let k = keystream_byte(key, nonce, i);
        let a = p1[i];
        let b = p2[i];
        assert(spec_seal(key, nonce, aad, p1)[i] == (a ^ k));
        assert(spec_seal(key, nonce, aad, p2)[i] == (b ^ k));
        assert((a ^ k) == (b ^ k) ==> a == b) by (bit_vector);
    }
    assert(p1 =~= p2);
}

/// Opening inverts sealing.
pub proof fn lemma_open_seal(key: Seq<u8>, nonce: Seq<u8>, aad: Seq<u8>, p: Seq<u8>)
    ensures
        spec_open(key, nonce, aad, spec_seal(key, nonce, aad, p)) == Some(p),
{
    let ct = spec_seal(key, nonce, aad, p);
    assert(exists|q: Seq<u8>| ct == #[trigger] spec_seal(key, nonce, aad, q));
    let q = choose|q: Seq<u8>| ct == #[trigger] spec_seal(key, nonce, aad, q);
    lemma_seal_injective(key, nonce, aad, p, q);
}

/// Relies on `chacha20poly1305::XChaCha20Poly1305` through
/// `aead::Aead::encrypt`: the ciphertext body is the plaintext XORed with
/// the keystream of the key and nonce, followed by the 16-byte Poly1305 tag
/// over the associated data and the body; within the length limit of the
/// stream cipher the call cannot fail.
#[verifier::external_body]
pub(crate) fn aead_seal(key: &Vec<u8>, nonce: &Vec<u8>, aad: &Vec<u8>, pt: &Vec<u8>) -> (r: Result<
    Vec<u8>,
    Error,
>)
    requires
        key@.len() == KEY_LEN,
        nonce@.len() == NONCE_LEN,
        pt@.len() < 0x2_0000_0000,
    ensures
        r is Ok,
        r matches Ok(c) ==> c@.len() == pt@.len() + TAG_LEN,
        r matches Ok(c) ==> forall|i: int|
            0 <= i < pt@.len() ==> c@[i] == (pt@[i] ^ keystream_byte(key@, nonce@, i)),
        r matches Ok(c) ==> c@.skip(pt@.len() as int) == tag_norm(
            tag_bytes(key@, nonce@, aad@, pt@),
        ),
        r matches Ok(c) ==> c@ == spec_seal(key@, nonce@, aad@, pt@),
{
    let cipher = XChaCha20Poly1305::new(Key::from_slice(key.as_slice()));
    let payload = Payload { msg: pt.as_slice(), aad: aad.as_slice() };
    cipher.encrypt(XNonce::from_slice(nonce.as_slice()), payload).map_err(
        |_| Error::AuthenticationFailure,
    )
}

/// Relies on `chacha20poly1305::XChaCha20Poly1305` through
/// `aead::Aead::decrypt`: it recomputes the Poly1305 tag over the
/// associated data and the ciphertext body and compares in constant time,
/// so it returns the sealed plaintext when the input is a sealed message
/// under this key, nonce and associated data, and an opaque authentication
/// failure when it is no sealed message.
#[verifier::external_body]
pub(crate) fn aead_open(key: &Vec<u8>, nonce: &Vec<u8>, aad: &Vec<u8>, ct: &Vec<u8>) -> (r: Result<
    Vec<u8>,
    Error,
>)
    requires
        key@.len() == KEY_LEN,
        nonce@.len() == NONCE_LEN,
        ct@.len() < 0x2_0000_0000,
    ensures
        r matches Ok(p) ==> ct@ == spec_seal(key@, nonce@, aad@, p@),
        r matches Err(e) ==> e == Error::AuthenticationFailure && (forall|p: Seq<u8>|
            ct@ != spec_seal(key@, nonce@, aad@, p)),
{
    let cipher = XChaCha20Poly1305::new(Key::from_slice(key.as_slice()));
    let payload = Payload { msg: ct.as_slice(), aad: aad.as_slice() };
    cipher.decrypt(XNonce::from_slice(nonce.as_slice()), payload).map_err(
        |_| Error::AuthenticationFailure,
    )
}

} // verus!
