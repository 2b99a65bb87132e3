use sd_crypto::encoding::deserialize_header;
use sd_crypto::error::Error;
use sd_crypto::fs::{decrypt_bytes, encrypt_bytes, unlock_with_root, ChunkOpener, ChunkSealer};
use sd_crypto::keys::derive_root_key;
use sd_crypto::protected::Protected;
use sd_crypto::types::KdfParams;

fn fast_params() -> KdfParams {
    KdfParams { m_cost: 8, t_cost: 1, p_cost: 1 }
}

#[test]
fn sealer_and_opener_round_trip_in_order() {
    let key = vec![7u8; 32];
    let base = vec![9u8; 16];
    let mut sealer = ChunkSealer::start(Protected::new(key.clone()), base.clone(), 4);
    let ct0 = sealer.seal_chunk(&vec![1, 2, 3, 4]).unwrap();
    let ct1 = sealer.seal_chunk(&vec![5, 6, 7, 8]).unwrap();
    let ctf = sealer.seal_final(&vec![9]).unwrap();

    let mut opener = ChunkOpener::start(Protected::new(key), base, 4);
    assert_eq!(opener.open_chunk(&ct0).unwrap(), vec![1, 2, 3, 4]);
    assert_eq!(opener.open_chunk(&ct1).unwrap(), vec![5, 6, 7, 8]);
    assert_eq!(opener.open_final(&ctf).unwrap(), vec![9]);
}

#[test]
fn opener_rejects_reordered_chunks() {
    let key = vec![7u8; 32];
    let base = vec![9u8; 16];
    let mut sealer = ChunkSealer::start(Protected::new(key.clone()), base.clone(), 4);
    let _ct0 = sealer.seal_chunk(&vec![1, 2, 3, 4]).unwrap();
    let ct1 = sealer.seal_chunk(&vec![5, 6, 7, 8]).unwrap();

    // chunk sealed at index one must not open at index zero
    let mut opener = ChunkOpener::start(Protected::new(key), base, 4);
    assert_eq!(
        opener.open_chunk(&ct1).unwrap_err(),
        Error::AuthenticationFailure
    );
}

#[test]
fn opener_rejects_spliced_containers() {
    let key = vec![7u8; 32];
    let mut sealer_a = ChunkSealer::start(Protected::new(key.clone()), vec![1u8; 16], 4);
    let ct_a = sealer_a.seal_chunk(&vec![1, 2, 3, 4]).unwrap();

    // a chunk from a container with another base nonce does not splice in
    let mut opener_b = ChunkOpener::start(Protected::new(key), vec![2u8; 16], 4);
    assert_eq!(
        opener_b.open_chunk(&ct_a).unwrap_err(),
        Error::AuthenticationFailure
    );
}

#[test]
fn stream_opener_matches_one_shot_decryption() {
    let plain: Vec<u8> = (0..22u8).collect();
    let passes = vec![Protected::new(b"pw".to_vec())];
    let c = encrypt_bytes(&plain, &passes, &fast_params(), 8).unwrap();

    let (h, hlen) = deserialize_header(&c).unwrap();
    let root = derive_root_key(&Protected::new(b"pw".to_vec()), &h.salt, &h.params).unwrap();
    let ck = unlock_with_root(&root, &h.slots).unwrap();
    let cs = h.chunk_size as usize;
    let mut opener = ChunkOpener::start(ck, h.base_nonce.clone(), h.chunk_size);

    let mut out: Vec<u8> = Vec::new();
    let mut off = hlen;
    while c.len() - off > cs + 16 {
        out.extend(opener.open_chunk(&c[off..off + cs + 16].to_vec()).unwrap());
        off += cs + 16;
    }
    out.extend(opener.open_final(&c[off..].to_vec()).unwrap());

    assert_eq!(out, plain);
    assert_eq!(out, decrypt_bytes(&c, &Protected::new(b"pw".to_vec())).unwrap());
}
