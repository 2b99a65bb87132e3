use sd_crypto::error::Error;
use sd_crypto::fs::{decrypt_bytes, encrypt_bytes, remove_slot};
use sd_crypto::protected::Protected;
use sd_crypto::types::KdfParams;

fn fast_params() -> KdfParams {
    KdfParams { m_cost: 8, t_cost: 1, p_cost: 1 }
}

fn pass(s: &str) -> Protected {
    Protected::new(s.as_bytes().to_vec())
}

fn payload(n: usize) -> Vec<u8> {
    (0..n).map(|i| (i * 31 % 251) as u8).collect()
}

fn encrypt_one(plain: &Vec<u8>, phrase: &str, chunk_size: u32) -> Vec<u8> {
    let passes = vec![pass(phrase)];
    encrypt_bytes(plain, &passes, &fast_params(), chunk_size).unwrap()
}

const HEADER_LEN_ONE_SLOT: usize = 75 + 72;

fn expected_container_len(plain_len: usize, chunk_size: usize, slots: usize) -> usize {
    let chunks = if plain_len == 0 {
        1
    } else {
        (plain_len + chunk_size - 1) / chunk_size
    };
    75 + 72 * slots + plain_len + 16 * chunks
}

#[test]
fn round_trip_small() {
    let plain = payload(10);
    let c = encrypt_one(&plain, "correct-horse", 4);
    // the chunk region is ciphertext, not the payload in the clear
    assert_ne!(&c[HEADER_LEN_ONE_SLOT..HEADER_LEN_ONE_SLOT + 4], &plain[..4]);
    let out = decrypt_bytes(&c, &pass("correct-horse")).unwrap();
    assert_eq!(out, plain);
}

#[test]
fn tampered_base_nonce_reports_header_tampered() {
    let plain = payload(10);
    let c = encrypt_one(&plain, "pw", 4);
    // the base nonce is covered by the header's own tag, not by the salt
    let mut bad = c.clone();
    bad[42] ^= 0x01;
    assert_eq!(
        decrypt_bytes(&bad, &pass("pw")).unwrap_err(),
        Error::HeaderTampered
    );
}

#[test]
fn tampered_header_tag_reports_header_tampered() {
    let plain = payload(10);
    let c = encrypt_one(&plain, "pw", 4);
    let mut bad = c.clone();
    bad[HEADER_LEN_ONE_SLOT - 1] ^= 0x01;
    assert_eq!(
        decrypt_bytes(&bad, &pass("pw")).unwrap_err(),
        Error::HeaderTampered
    );
}

#[test]
fn round_trip_empty_payload() {
    let plain: Vec<u8> = Vec::new();
    let c = encrypt_one(&plain, "pw", 4);
    assert_eq!(c.len(), expected_container_len(0, 4, 1));
    let out = decrypt_bytes(&c, &pass("pw")).unwrap();
    assert_eq!(out, plain);
}

#[test]
fn round_trip_exact_multiple_of_chunk_size() {
    let plain = payload(12);
    let c = encrypt_one(&plain, "pw", 4);
    // three chunks, the last one full-size and marked final
    assert_eq!(c.len(), expected_container_len(12, 4, 1));
    let out = decrypt_bytes(&c, &pass("pw")).unwrap();
    assert_eq!(out, plain);
}

#[test]
fn container_length_formula() {
    for n in [0usize, 1, 3, 4, 5, 8, 17] {
        let plain = payload(n);
        let c = encrypt_one(&plain, "pw", 4);
        assert_eq!(c.len(), expected_container_len(n, 4, 1), "payload len {n}");
    }
}

#[test]
fn wrong_passphrase_rejected() {
    let plain = payload(20);
    let c = encrypt_one(&plain, "first", 8);
    assert_eq!(
        decrypt_bytes(&c, &pass("second")).unwrap_err(),
        Error::AuthenticationFailure
    );
}

#[test]
fn tamper_any_single_byte_fails() {
    let plain = payload(21);
    let c = encrypt_one(&plain, "pw", 8);
    for i in 0..c.len() {
        let mut bad = c.clone();
        bad[i] ^= 0x01;
        assert!(
            decrypt_bytes(&bad, &pass("pw")).is_err(),
            "flipping byte {i} went undetected"
        );
    }
}

#[test]
fn truncation_at_chunk_boundaries() {
    let plain = payload(12);
    let c = encrypt_one(&plain, "pw", 4);
    // 12 bytes in 4-byte chunks: two full chunks, then the final chunk
    for m in 0..=2usize {
        let cut = HEADER_LEN_ONE_SLOT + m * (4 + 16);
        let bad = c[..cut].to_vec();
        assert_eq!(
            decrypt_bytes(&bad, &pass("pw")).unwrap_err(),
            Error::UnexpectedEndOfStream,
            "cut after {m} chunks"
        );
    }
}

#[test]
fn truncation_mid_chunk() {
    let plain = payload(40);
    let c = encrypt_one(&plain, "pw", 8);
    let bad = c[..c.len() - 5].to_vec();
    assert_eq!(
        decrypt_bytes(&bad, &pass("pw")).unwrap_err(),
        Error::UnexpectedEndOfStream
    );
}

#[test]
fn fresh_salts_make_containers_differ() {
    let plain = payload(16);
    let a = encrypt_one(&plain, "pw", 8);
    let b = encrypt_one(&plain, "pw", 8);
    assert_ne!(a, b);
}

#[test]
fn multi_slot_both_passphrases_unlock() {
    let plain = payload(33);
    let passes = vec![pass("alpha"), pass("beta")];
    let c = encrypt_bytes(&plain, &passes, &fast_params(), 16).unwrap();
    assert_eq!(decrypt_bytes(&c, &pass("alpha")).unwrap(), plain);
    assert_eq!(decrypt_bytes(&c, &pass("beta")).unwrap(), plain);
    assert_eq!(
        decrypt_bytes(&c, &pass("gamma")).unwrap_err(),
        Error::AuthenticationFailure
    );
}

#[test]
fn multi_slot_revocation_leaves_other_functional() {
    let plain = payload(33);
    let passes = vec![pass("alpha"), pass("beta")];
    let c = encrypt_bytes(&plain, &passes, &fast_params(), 16).unwrap();
    let c2 = remove_slot(&c, 0).unwrap();
    assert_eq!(c2.len(), c.len() - 72);
    assert_eq!(decrypt_bytes(&c2, &pass("beta")).unwrap(), plain);
    assert_eq!(
        decrypt_bytes(&c2, &pass("alpha")).unwrap_err(),
        Error::AuthenticationFailure
    );
}

#[test]
fn remove_slot_bad_index_or_last_slot_rejected() {
    let plain = payload(5);
    let passes = vec![pass("alpha"), pass("beta")];
    let c = encrypt_bytes(&plain, &passes, &fast_params(), 4).unwrap();
    assert_eq!(remove_slot(&c, 2).unwrap_err(), Error::Truncated);
    let single = encrypt_one(&plain, "only", 4);
    assert_eq!(remove_slot(&single, 0).unwrap_err(), Error::Truncated);
}
