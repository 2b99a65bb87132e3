use sd_crypto::error::Error;
use sd_crypto::fs::{decrypt_bytes, encrypt_bytes};
use sd_crypto::protected::Protected;
use sd_crypto::types::KdfParams;

const MIB: usize = 1024 * 1024;
const CHUNK: u32 = 256 * 1024;

fn fast_params() -> KdfParams {
    KdfParams { m_cost: 8, t_cost: 1, p_cost: 1 }
}

fn large_payload() -> Vec<u8> {
    (0..10 * MIB).map(|i| (i % 249) as u8).collect()
}

fn encrypt_large() -> (Vec<u8>, Vec<u8>) {
    let plain = large_payload();
    let passes = vec![Protected::new(b"correct-horse".to_vec())];
    let c = encrypt_bytes(&plain, &passes, &fast_params(), CHUNK).unwrap();
    (plain, c)
}

#[test]
fn large_payload_round_trip_and_chunk_count() {
    let (plain, c) = encrypt_large();
    // exactly 40 chunks, the last one full-size and marked final
    let chunks = 10 * MIB / (CHUNK as usize);
    assert_eq!(c.len(), 75 + 72 + 10 * MIB + 16 * chunks);
    let out = decrypt_bytes(&c, &Protected::new(b"correct-horse".to_vec())).unwrap();
    assert_eq!(out, plain);
}

#[test]
fn large_payload_wrong_passphrase() {
    let (_, c) = encrypt_large();
    assert_eq!(
        decrypt_bytes(&c, &Protected::new(b"wrong".to_vec())).unwrap_err(),
        Error::AuthenticationFailure
    );
}

#[test]
fn large_payload_truncated_stream() {
    let (_, c) = encrypt_large();
    let cut = c.len() * 9 / 10;
    let bad = c[..cut].to_vec();
    assert_eq!(
        decrypt_bytes(&bad, &Protected::new(b"correct-horse".to_vec())).unwrap_err(),
        Error::UnexpectedEndOfStream
    );
}
