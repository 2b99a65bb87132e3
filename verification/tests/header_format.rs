use sd_crypto::encoding::{deserialize_header, serialize_header};
use sd_crypto::error::Error;
use sd_crypto::fs::encrypt_bytes;
use sd_crypto::protected::Protected;
use sd_crypto::types::KdfParams;

fn sample_container() -> Vec<u8> {
    let plain = vec![9u8; 10];
    let passes = vec![Protected::new(b"pw".to_vec())];
    let params = KdfParams { m_cost: 8, t_cost: 1, p_cost: 1 };
    encrypt_bytes(&plain, &passes, &params, 4).unwrap()
}

#[test]
fn header_reserializes_identically() {
    let c = sample_container();
    let (h, n) = deserialize_header(&c).unwrap();
    assert_eq!(n, 75 + 72);
    let again = serialize_header(&h);
    assert_eq!(again, c[..n].to_vec());
}

#[test]
fn too_short_is_not_a_container() {
    let c = sample_container();
    assert_eq!(
        deserialize_header(&c[..3].to_vec()).unwrap_err(),
        Error::NotAContainer
    );
}

#[test]
fn wrong_magic_is_not_a_container() {
    let mut c = sample_container();
    c[0] ^= 0xFF;
    assert_eq!(deserialize_header(&c).unwrap_err(), Error::NotAContainer);
}

#[test]
fn unknown_version_is_unsupported() {
    let mut c = sample_container();
    c[7] = 9;
    assert_eq!(
        deserialize_header(&c).unwrap_err(),
        Error::UnsupportedVersion
    );
}

#[test]
fn unknown_cipher_or_kdf_is_unsupported() {
    let mut c = sample_container();
    c[8] = 7;
    assert_eq!(
        deserialize_header(&c).unwrap_err(),
        Error::UnsupportedVersion
    );
    let mut c = sample_container();
    c[9] = 7;
    assert_eq!(
        deserialize_header(&c).unwrap_err(),
        Error::UnsupportedVersion
    );
}

#[test]
fn invalid_cost_parameters_are_unsupported() {
    let mut c = sample_container();
    // zero the iteration count field
    for b in &mut c[14..18] {
        *b = 0;
    }
    assert_eq!(
        deserialize_header(&c).unwrap_err(),
        Error::UnsupportedVersion
    );
}

#[test]
fn cut_header_is_truncated() {
    let c = sample_container();
    assert_eq!(
        deserialize_header(&c[..60].to_vec()).unwrap_err(),
        Error::Truncated
    );
    assert_eq!(
        deserialize_header(&c[..30].to_vec()).unwrap_err(),
        Error::Truncated
    );
}

#[test]
fn zero_chunk_size_is_rejected() {
    let mut c = sample_container();
    for b in &mut c[22..26] {
        *b = 0;
    }
    assert_eq!(deserialize_header(&c).unwrap_err(), Error::Truncated);
}
