//! The key hierarchy: a passphrase is hardened into a root key by the
//! key-derivation function, and the root key wraps and unwraps the content
//! key that actually protects the payload.

use vstd::prelude::*;
use crate::crypto::{aead_open, aead_seal, lemma_seal_injective, spec_open, spec_seal};
use crate::error::Error;
use crate::header::KeySlot;
use crate::primitives::{random_bytes, KEY_LEN, NONCE_LEN, SALT_LEN, TAG_LEN};
use crate::protected::Protected;
use crate::types::KdfParams;

verus! {

/// The digest that the password-hardening key-derivation function produces
/// for one passphrase, salt and cost parameters.
pub uninterp spec fn kdf_digest(
    pass: Seq<u8>,
    salt: Seq<u8>,
    m_cost: u32,
    t_cost: u32,
    p_cost: u32,
) -> Seq<u8>;

/// The root key derived from a passphrase under one salt and cost
/// parameters.
pub open spec fn spec_kdf(pass: Seq<u8>, salt: Seq<u8>, params: KdfParams) -> Seq<u8> {
    kdf_digest(pass, salt, params.m_cost, params.t_cost, params.p_cost)
}

/// Relies on `argon2::Argon2::hash_password_into` (Argon2id, version 0x13):
/// the digest is a function of the passphrase, salt and cost parameters
/// alone, deterministically slow and memory-hard; with the parameters and
/// lengths in their documented ranges the call cannot fail.
#[verifier::external_body]
fn kdf_derive(pass: &Vec<u8>, salt: &Vec<u8>, params: &KdfParams) -> (r: Result<Vec<u8>, Error>)
    requires
        params.valid(),
        8 <= salt@.len() < 0xFFFFFFFF,
        pass@.len() <= 0xFFFFFFFF,
    ensures
        r is Ok,
        r matches Ok(k) ==> k@ == kdf_digest(
            pass@,
            salt@,
            params.m_cost,
            params.t_cost,
            params.p_cost,
        ) && k@.len() == KEY_LEN,
{
    let p = match argon2::Params::new(params.m_cost, params.t_cost, params.p_cost, Some(KEY_LEN)) {
        Ok(p) => p,
        Err(_) => return Err(Error::InsufficientEntropy),
    };
    let a = argon2::Argon2::new(argon2::Algorithm::Argon2id, argon2::Version::V0x13, p);
    let mut out = vec![0u8; KEY_LEN];
    match a.hash_password_into(pass.as_slice(), salt.as_slice(), &mut out) {
        Ok(()) => Ok(out),
        Err(_) => Err(Error::InsufficientEntropy),
    }
}

/// Re-runs the key-derivation function with a container's stored salt and
/// cost parameters, hardening the passphrase into the root key.
pub fn derive_root_key(passphrase: &Protected, salt: &Vec<u8>, params: &KdfParams) -> (r: Result<
    Protected,
    Error,
>)
    requires
        params.valid(),
        salt@.len() == SALT_LEN,
        passphrase@.len() <= 0xFFFFFFFF,
    ensures
        r is Ok,
        r matches Ok(k) ==> k@ == spec_kdf(passphrase@, salt@, *params) && k@.len() == KEY_LEN,
{
    match kdf_derive(passphrase.expose(), salt, params) {
        Ok(k) => Ok(Protected::new(k)),
        Err(e) => Err(e),
    }
}

/// Wraps the content key under a root key into a fresh key slot, sealing it
/// with a freshly drawn slot nonce.
pub fn wrap_content_key(root_key: &Protected, content_key: &Protected) -> (r: Result<
    KeySlot,
    Error,
>)
    requires
        root_key@.len() == KEY_LEN,
        content_key@.len() == KEY_LEN,
    ensures
        r matches Ok(slot) ==> {
            &&& slot@.nonce.len() == NONCE_LEN
            &&& slot@.ct == spec_seal(root_key@, slot@.nonce, Seq::<u8>::empty(), content_key@)
            &&& slot@.ct.len() == KEY_LEN + TAG_LEN
            &&& spec_open(root_key@, slot@.nonce, Seq::<u8>::empty(), slot@.ct) == Some(
                content_key@,
            )
        },
        r matches Err(e) ==> e == Error::InsufficientEntropy,
{
    let nonce = match random_bytes(NONCE_LEN) {
        Ok(n) => n,
        Err(e) => return Err(e),
    };
    let empty_aad: Vec<u8> = Vec::new();
    let ct = match aead_seal(root_key.expose(), &nonce, &empty_aad, content_key.expose()) {
        Ok(c) => c,
        Err(e) => return Err(e),
    };
    proof {
        crate::crypto::lemma_open_seal(root_key@, nonce@, Seq::<u8>::empty(), content_key@);
        assert(empty_aad@ =~= Seq::<u8>::empty());
    }
    Ok(KeySlot { nonce, ct })
}

/// Opens one key slot with a root key, recovering the content key exactly
/// when the slot was wrapped under this root key and is untampered.
pub fn unwrap_content_key(root_key: &Protected, slot: &KeySlot) -> (r: Result<Protected, Error>)
    requires
        root_key@.len() == KEY_LEN,
        slot@.nonce.len() == NONCE_LEN,
        slot@.ct.len() == KEY_LEN + TAG_LEN,
    ensures
        r matches Ok(ck) ==> spec_open(root_key@, slot@.nonce, Seq::<u8>::empty(), slot@.ct)
            == Some(ck@) && ck@.len() == KEY_LEN,
        r matches Err(e) ==> e == Error::AuthenticationFailure && spec_open(
            root_key@,
            slot@.nonce,
            Seq::<u8>::empty(),
            slot@.ct,
        ) is None,
{
    let empty_aad: Vec<u8> = Vec::new();
    proof {
        assert(empty_aad@ =~= Seq::<u8>::empty());
    }
    match aead_open(root_key.expose(), &slot.nonce, &empty_aad, &slot.ct) {
        Ok(ck) => {
            proof {
                let q = choose|p: Seq<u8>|
                    slot@.ct == #[trigger] spec_seal(root_key@, slot@.nonce, Seq::<u8>::empty(), p);
                lemma_seal_injective(root_key@, slot@.nonce, Seq::<u8>::empty(), ck@, q);
            }
            Ok(Protected::new(ck))
        },
        Err(e) => Err(e),
    }
}

} // verus!
