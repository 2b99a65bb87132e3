use sd_crypto::error::Error;
use sd_crypto::keys::{derive_root_key, unwrap_content_key, wrap_content_key};
use sd_crypto::protected::Protected;
use sd_crypto::types::KdfParams;

fn fast_params() -> KdfParams {
    KdfParams { m_cost: 8, t_cost: 1, p_cost: 1 }
}

#[test]
fn protected_round_trip() {
    let secret = vec![1u8, 2, 3, 4];
    let p = Protected::new(secret.clone());
    assert_eq!(p.byte_len(), 4);
    assert_eq!(p.expose().as_slice(), secret.as_slice());
    let q = p.duplicate();
    assert_eq!(p.into_inner(), secret);
    assert_eq!(q.into_inner(), secret);
}

#[test]
fn kdf_is_deterministic_and_salt_sensitive() {
    let salt_a = vec![0u8; 16];
    let salt_b = vec![1u8; 16];
    let k1 = derive_root_key(&Protected::new(b"pw".to_vec()), &salt_a, &fast_params()).unwrap();
    let k2 = derive_root_key(&Protected::new(b"pw".to_vec()), &salt_a, &fast_params()).unwrap();
    let k3 = derive_root_key(&Protected::new(b"pw".to_vec()), &salt_b, &fast_params()).unwrap();
    assert_eq!(k1.expose(), k2.expose());
    assert_ne!(k1.expose(), k3.expose());
    assert_eq!(k1.byte_len(), 32);
}

#[test]
fn wrap_then_unwrap_recovers_content_key() {
    let salt = vec![7u8; 16];
    let root = derive_root_key(&Protected::new(b"pw".to_vec()), &salt, &fast_params()).unwrap();
    let content = Protected::new(vec![0xAB; 32]);
    let slot = wrap_content_key(&root, &content).unwrap();
    let back = unwrap_content_key(&root, &slot).unwrap();
    assert_eq!(back.expose(), content.expose());
}

#[test]
fn unwrap_with_wrong_root_key_fails() {
    let salt = vec![7u8; 16];
    let root = derive_root_key(&Protected::new(b"pw".to_vec()), &salt, &fast_params()).unwrap();
    let other = derive_root_key(&Protected::new(b"no".to_vec()), &salt, &fast_params()).unwrap();
    let content = Protected::new(vec![0xAB; 32]);
    let slot = wrap_content_key(&root, &content).unwrap();
    assert!(matches!(
        unwrap_content_key(&other, &slot),
        Err(Error::AuthenticationFailure)
    ));
}

#[test]
fn wrapping_twice_gives_fresh_slot_nonces() {
    let salt = vec![7u8; 16];
    let root = derive_root_key(&Protected::new(b"pw".to_vec()), &salt, &fast_params()).unwrap();
    let content = Protected::new(vec![0xAB; 32]);
    let a = wrap_content_key(&root, &content).unwrap();
    let b = wrap_content_key(&root, &content).unwrap();
    assert_ne!(a.nonce, b.nonce);
}
