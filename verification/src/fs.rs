//! The streaming engine: chunked encryption and decryption of byte
//! payloads of arbitrary length, each chunk independently authenticated,
//! with position and finality bound into every chunk's associated data.

use vstd::prelude::*;
use vstd::bytes::{lemma_auto_spec_u64_to_from_le_bytes, spec_u64_to_le_bytes, u64_to_le_bytes};
use crate::crypto::{
    aead_open, aead_seal, lemma_open_seal, lemma_seal_injective, spec_open, spec_seal,
};
use crate::encoding::{
    deserialize_header, serialize_header, serialize_prefix, spec_header_len, spec_parse_header,
    spec_prefix, spec_serialize_header,
};
use crate::error::Error;
use crate::header::{header_wf, Header, HeaderModel, KeySlot, SlotModel};
use crate::keys::{derive_root_key, spec_kdf, unwrap_content_key, wrap_content_key};
use crate::primitives::{
    derive_nonce, random_bytes, spec_nonce, BASE_NONCE_LEN, KEY_LEN, SALT_LEN,
};
use crate::protected::Protected;
use crate::types::KdfParams;
use crate::util::{append_bytes, copy_range};

verus! {

/// The associated data bound into chunk `index`'s tag: the chunk's position
/// and whether it is the final chunk, so chunks can be neither reordered,
/// spliced, nor cut off undetected.
pub open spec fn chunk_aad(index: u64, last: bool) -> Seq<u8> {
    spec_u64_to_le_bytes(index) + seq![
        if last {
            1u8
        } else {
            0u8
        },
    ]
}

/// Builds chunk associated data.
pub fn chunk_aad_bytes(index: u64, last: bool) -> (r: Vec<u8>)
    ensures
        r@ == chunk_aad(index, last),
{
    let mut v = u64_to_le_bytes(index);
    v.push(
        if last {
            1u8
        } else {
            0u8
        },
    );
    proof {
        lemma_auto_spec_u64_to_from_le_bytes();
        assert(v@ =~= chunk_aad(index, last));
    }
    v
}

/// The ciphertext chunk sequence for a payload, starting at chunk index
/// `i`: full chunks of `cs` plaintext bytes while more than one chunk's
/// worth of payload remains, then one final chunk holding the last piece,
/// at most `cs` bytes and empty only for an empty payload. The chunk count
/// is therefore one for an empty payload and the payload length divided by
/// `cs`, rounded up, otherwise. Chunk `i` is sealed under nonce counter
/// `i + 1`; counter zero protects the header.
pub open spec fn spec_encrypt_chunks(
    key: Seq<u8>,
    base: Seq<u8>,
    plain: Seq<u8>,
    cs: int,
    i: u64,
) -> Seq<u8>
    decreases plain.len(),
{
    if plain.len() <= cs || cs < 1 {
        spec_seal(key, spec_nonce(base, ((i + 1) as u64)), chunk_aad(i, true), plain)
    } else {
        spec_seal(key, spec_nonce(base, ((i + 1) as u64)), chunk_aad(i, false), plain.take(cs))
            + spec_encrypt_chunks(key, base, plain.skip(cs), cs, ((i + 1) as u64))
    }
}

/// Decryption of a chunk region, starting at chunk index `i`: whole chunks
/// are opened in strictly increasing index order; a trailing region of at
/// most one full chunk record is the final chunk. A region too short to
/// hold even a tag, or whose trailing piece does not authenticate as the
/// final chunk, ends before the final-chunk marker and is rejected as an
/// unexpected end of stream; an earlier chunk that does not authenticate
/// is an authentication failure. No plaintext of a failed region is ever
/// released.
pub open spec fn spec_decrypt_chunks(
    key: Seq<u8>,
    base: Seq<u8>,
    region: Seq<u8>,
    cs: int,
    i: u64,
) -> Result<Seq<u8>, Error>
    decreases region.len(),
{
    if 1 <= cs && cs + 16 < region.len() {
        match spec_open(key, spec_nonce(base, ((i + 1) as u64)), chunk_aad(i, false), region.take(cs + 16)) {
            Option::Some(p) => match spec_decrypt_chunks(
                key,
                base,
                region.skip(cs + 16),
                cs,
                ((i + 1) as u64),
            ) {
                Result::Ok(rest) => Result::Ok(p + rest),
                Result::Err(e) => Result::Err(e),
            },
            Option::None => Result::Err(Error::AuthenticationFailure),
        }
    } else if region.len() < 16 {
        Result::Err(Error::UnexpectedEndOfStream)
    } else {
        match spec_open(key, spec_nonce(base, ((i + 1) as u64)), chunk_aad(i, true), region) {
            Option::Some(p) => Result::Ok(p),
            Option::None => Result::Err(Error::UnexpectedEndOfStream),
        }
    }
}

/// The first key slot that the root key opens, if any.
pub open spec fn spec_unlock_slots(root: Seq<u8>, slots: Seq<SlotModel>) -> Option<Seq<u8>>
    decreases slots.len(),
{
    if slots.len() == 0 {
        Option::None
    } else {
        match spec_open(root, slots[0].nonce, Seq::<u8>::empty(), slots[0].ct) {
            Option::Some(ck) => Option::Some(ck),
            Option::None => spec_unlock_slots(root, slots.skip(1)),
        }
    }
}

/// What decrypting a container with a passphrase yields: parse and
/// validate the header, re-derive the root key, unlock a key slot, verify
/// the header's own tag before any chunk, then decrypt the chunks in order.
pub open spec fn spec_decrypt_container(c: Seq<u8>, pass: Seq<u8>) -> Result<Seq<u8>, Error> {
    match spec_parse_header(c) {
        Result::Err(e) => Result::Err(e),
        Result::Ok(h) => {
            let root = spec_kdf(pass, h.salt, h.params);
            match spec_unlock_slots(root, h.slots) {
                Option::None => Result::Err(Error::AuthenticationFailure),
                Option::Some(ck) => {
                    if h.tag == spec_seal(
                        ck,
                        spec_nonce(h.base_nonce, 0),
                        spec_prefix(h),
                        Seq::<u8>::empty(),
                    ) {
                        spec_decrypt_chunks(
                            ck,
                            h.base_nonce,
                            c.skip(spec_header_len(h.slots.len() as int)),
                            h.chunk_size as int,
                            0,
                        )
                    } else {
                        Result::Err(Error::HeaderTampered)
                    }
                },
            }
        },
    }
}

/// The exact relation between a container, the header and content key
/// inside it, the payload it seals, and the passphrases its slots are
/// wrapped under.
pub open spec fn container_body(
    c: Seq<u8>,
    h: HeaderModel,
    ck: Seq<u8>,
    plain: Seq<u8>,
    passes: Seq<Seq<u8>>,
    params: KdfParams,
    cs: u32,
) -> bool {
    &&& header_wf(h)
    &&& h.params == params
    &&& h.chunk_size == cs
    &&& h.slots.len() == passes.len()
    &&& ck.len() == KEY_LEN
    &&& forall|j: int|
        0 <= j < passes.len() ==> spec_open(
            spec_kdf(passes[j], h.salt, params),
            (#[trigger] h.slots[j]).nonce,
            Seq::<u8>::empty(),
            h.slots[j].ct,
        ) == Option::Some(ck)
    &&& h.tag == spec_seal(ck, spec_nonce(h.base_nonce, 0), spec_prefix(h), Seq::<u8>::empty())
    &&& c == spec_serialize_header(h) + spec_encrypt_chunks(ck, h.base_nonce, plain, cs as int, 0)
}

/// A container that `encrypt_bytes` can have produced for this payload,
/// these passphrases and these parameters.
pub open spec fn is_container_for(
    c: Seq<u8>,
    plain: Seq<u8>,
    passes: Seq<Seq<u8>>,
    params: KdfParams,
    cs: u32,
) -> bool {
    exists|h: HeaderModel, ck: Seq<u8>| #[trigger] container_body(c, h, ck, plain, passes, params, cs)
}

/// Encrypts a payload under one or more passphrases into a fresh
/// container: a fresh random salt, base nonce and content key are drawn,
/// the content key is wrapped once per passphrase, and the payload is
/// sealed in chunks of `chunk_size` bytes. Fails only when the platform
/// entropy source does.
#[verifier::rlimit(100)]
#[verifier::spinoff_prover]
pub fn encrypt_bytes(
    plaintext: &Vec<u8>,
    passphrases: &Vec<Protected>,
    params: &KdfParams,
    chunk_size: u32,
) -> (r: Result<Vec<u8>, Error>)
    requires
        params.valid(),
        1 <= chunk_size,
        1 <= passphrases@.len() <= 255,
        forall|j: int|
            0 <= j < passphrases@.len() ==> (#[trigger] passphrases@[j])@.len() <= 0xFFFFFFFF,
        plaintext@.len() < 0x1000_0000_0000,
    ensures
        r matches Ok(c) ==> is_container_for(
            c@,
            plaintext@,
            passphrases@.map_values(|p: Protected| p@),
            *params,
            chunk_size,
        ),
        r matches Err(e) ==> e == Error::InsufficientEntropy,
{
    let salt = match random_bytes(SALT_LEN) {
        Ok(v) => v,
        Err(e) => return Err(e),
    };
    let base_nonce = match random_bytes(BASE_NONCE_LEN) {
        Ok(v) => v,
        Err(e) => return Err(e),
    };
    let ck_bytes = match random_bytes(KEY_LEN) {
        Ok(v) => v,
        Err(e) => return Err(e),
    };
    let content_key = Protected::new(ck_bytes);
    let mut slots: Vec<KeySlot> = Vec::new();
    let mut j: usize = 0;
    while j < passphrases.len()
        invariant
            j <= passphrases@.len(),
            passphrases@.len() <= 255,
            params.valid(),
            forall|t: int|
                0 <= t < passphrases@.len() ==> (#[trigger] passphrases@[t])@.len() <= 0xFFFFFFFF,
            salt@.len() == SALT_LEN,
            content_key@.len() == KEY_LEN,
            slots@.len() == j,
            forall|t: int|
                0 <= t < j ==> crate::header::slot_wf((#[trigger] slots@[t])@) && spec_open(
                    spec_kdf(passphrases@[t]@, salt@, *params),
                    slots@[t]@.nonce,
                    Seq::<u8>::empty(),
                    slots@[t]@.ct,
                ) == Option::Some(content_key@),
        decreases passphrases@.len() - j,
    {
        let root = match derive_root_key(&passphrases[j], &salt, params) {
            Ok(k) => k,
            Err(e) => return Err(e),
        };
        let slot = match wrap_content_key(&root, &content_key) {
            Ok(s) => s,
            Err(e) => return Err(e),
        };
        slots.push(slot);
        j = j + 1;
    }
    let prefix = serialize_prefix(params, chunk_size, &salt, &base_nonce);
    let nonce0 = derive_nonce(&base_nonce, 0);
    let empty_pt: Vec<u8> = Vec::new();
    let tag = match aead_seal(content_key.expose(), &nonce0, &prefix, &empty_pt) {
        Ok(t) => t,
        Err(e) => return Err(e),
    };
    proof {
        assert(empty_pt@ =~= Seq::<u8>::empty());
    }
    let header = Header {
        params: *params,
        chunk_size,
        salt,
        base_nonce,
        slots,
        tag,
    };
    proof {
        assert(header_wf(header@));
    }
    let mut out = serialize_header(&header);
    let cs = chunk_size as usize;
    let ghost ckv = content_key@;
    let ghost basev = header@.base_nonce;
    let ghost chunks_total = spec_encrypt_chunks(ckv, basev, plaintext@, cs as int, 0);
    let mut off: usize = 0;
    let mut i: u64 = 0;
    proof {
        assert(plaintext@.skip(0) =~= plaintext@);
    }
    while plaintext.len() - off > cs
        invariant
            1 <= cs <= 0xFFFFFFFF,
            cs == chunk_size,
            off <= plaintext@.len(),
            plaintext@.len() < 0x1000_0000_0000,
            off == i * cs,
            content_key@ == ckv,
            ckv.len() == KEY_LEN,
            basev.len() == BASE_NONCE_LEN,
            header@.base_nonce == basev,
            spec_serialize_header(header@) + chunks_total == out@ + spec_encrypt_chunks(
                ckv,
                basev,
                plaintext@.skip(off as int),
                cs as int,
                i,
            ),
        decreases plaintext@.len() - off,
    {
        proof {
            assert(i <= i * cs) by (nonlinear_arith)
                requires
                    1 <= cs,
                    0 <= i,
            ;
        }
        let piece = copy_range(plaintext, off, off + cs);
        let nonce = derive_nonce(&header.base_nonce, i + 1);
        let aad = chunk_aad_bytes(i, false);
        let ct = match aead_seal(content_key.expose(), &nonce, &aad, &piece) {
            Ok(c) => c,
            Err(e) => return Err(e),
        };
        append_bytes(&mut out, &ct);
        proof {
            let rem = plaintext@.skip(off as int);
            assert(rem.take(cs as int) =~= piece@);
            assert(rem.skip(cs as int) =~= plaintext@.skip(off as int + cs as int));
        }
        proof {
            assert((i + 1) * cs == i * cs + cs) by (nonlinear_arith);
        }
        off = off + cs;
        i = i + 1;
    }
    proof {
        assert(i <= i * cs) by (nonlinear_arith)
            requires
                1 <= cs,
                0 <= i,
        ;
    }
    let piece = copy_range(plaintext, off, plaintext.len());
    let nonce = derive_nonce(&header.base_nonce, i + 1);
    let aad = chunk_aad_bytes(i, true);
    let ct = match aead_seal(content_key.expose(), &nonce, &aad, &piece) {
        Ok(c) => c,
        Err(e) => return Err(e),
    };
    append_bytes(&mut out, &ct);
    proof {
        assert(plaintext@.skip(off as int) =~= piece@);
        assert(out@ =~= spec_serialize_header(header@) + chunks_total);
        let passes = passphrases@.map_values(|p: Protected| p@);
        assert(container_body(out@, header@, ckv, plaintext@, passes, *params, chunk_size));
    }
    Ok(out)
}

/// `Ok` results of the remaining chunk region, prefixed with the plaintext
/// already recovered.
pub open spec fn prepend_plain(p: Seq<u8>, r: Result<Seq<u8>, Error>) -> Result<Seq<u8>, Error> {
    match r {
        Result::Ok(rest) => Result::Ok(p + rest),
        Result::Err(e) => Result::Err(e),
    }
}

/// Opens every slot in turn with one root key, handing back the content
/// key from the first slot that authenticates; a root key that opens no
/// slot is an authentication failure, deliberately indistinguishable from
/// tampered slots.
#[verifier::rlimit(100)]
#[verifier::spinoff_prover]
pub fn unlock_with_root(root: &Protected, slots: &Vec<KeySlot>) -> (r: Result<Protected, Error>)
    requires
        root@.len() == KEY_LEN,
        forall|j: int|
            0 <= j < slots@.len() ==> crate::header::slot_wf((#[trigger] slots@[j])@),
    ensures
        r matches Ok(ck) ==> spec_unlock_slots(root@, slots@.map_values(|s: KeySlot| s@))
            == Option::Some(ck@) && ck@.len() == KEY_LEN,
        r matches Err(e) ==> e == Error::AuthenticationFailure && spec_unlock_slots(
            root@,
            slots@.map_values(|s: KeySlot| s@),
        ) is None,
{
    let ghost sm = slots@.map_values(|s: KeySlot| s@);
    let mut j: usize = 0;
    proof {
        assert(sm.skip(0) =~= sm);
    }
    while j < slots.len()
        invariant
            j <= sm.len(),
            sm == slots@.map_values(|s: KeySlot| s@),
            root@.len() == KEY_LEN,
            forall|t: int|
                0 <= t < slots@.len() ==> crate::header::slot_wf((#[trigger] slots@[t])@),
            spec_unlock_slots(root@, sm) == spec_unlock_slots(root@, sm.skip(j as int)),
        decreases sm.len() - j,
    {
        match unwrap_content_key(root, &slots[j]) {
            Ok(ck) => {
                proof {
                    assert(sm.skip(j as int)[0] == sm[j as int]);
                }
                return Ok(ck);
            },
            Err(_) => {
                proof {
                    assert(sm.skip(j as int)[0] == sm[j as int]);
                    assert(sm.skip(j as int).skip(1) =~= sm.skip(j as int + 1));
                }
            },
        }
        j = j + 1;
    }
    proof {
        assert(sm.skip(sm.len() as int) =~= Seq::<SlotModel>::empty());
    }
    Err(Error::AuthenticationFailure)
}

/// Opens the chunk region after the header in strictly increasing index
/// order, releasing plaintext only when every chunk up to the final-chunk
/// marker authenticates.
#[verifier::rlimit(100)]
#[verifier::spinoff_prover]
fn open_chunks(
    container: &Vec<u8>,
    hlen: usize,
    content_key: &Protected,
    base_nonce: &Vec<u8>,
    chunk_size: u32,
) -> (r: Result<Vec<u8>, Error>)
    requires
        content_key@.len() == KEY_LEN,
        base_nonce@.len() == BASE_NONCE_LEN,
        1 <= chunk_size,
        hlen <= container@.len(),
    ensures
        r matches Ok(p) ==> spec_decrypt_chunks(
            content_key@,
            base_nonce@,
            container@.skip(hlen as int),
            chunk_size as int,
            0,
        ) == Result::Ok::<Seq<u8>, Error>(p@),
        r matches Err(e) ==> spec_decrypt_chunks(
            content_key@,
            base_nonce@,
            container@.skip(hlen as int),
            chunk_size as int,
            0,
        ) == Result::Err::<Seq<u8>, Error>(e),
{
    let ghost ckv = content_key@;
    let ghost basev = base_nonce@;
    let ghost region = container@.skip(hlen as int);
    let ghost whole = spec_decrypt_chunks(ckv, basev, region, chunk_size as int, 0);
    let cs = chunk_size as usize;
    let mut out: Vec<u8> = Vec::new();
    let mut off: usize = hlen;
    let mut i: u64 = 0;
    proof {
        assert(container@.skip(off as int) =~= region);
        match whole {
            Result::Ok(rest) => {
                assert(out@ + rest =~= rest);
            },
            Result::Err(_) => {},
        }
        assert(prepend_plain(out@, whole) == whole);
    }
    let full_ct: u64 = chunk_size as u64 + 16;
    while (container.len() - off) as u64 > full_ct
        invariant
            full_ct == cs as u64 + 16,
            1 <= cs <= 0xFFFFFFFF,
            cs == chunk_size,
            hlen <= off <= container@.len(),
            off - hlen == i * (cs + 16),
            content_key@ == ckv,
            ckv.len() == KEY_LEN,
            basev == base_nonce@,
            basev.len() == BASE_NONCE_LEN,
            whole == spec_decrypt_chunks(ckv, basev, region, cs as int, 0),
            region == container@.skip(hlen as int),
            whole == prepend_plain(
                out@,
                spec_decrypt_chunks(ckv, basev, container@.skip(off as int), cs as int, i),
            ),
        decreases container@.len() - off,
    {
        proof {
            assert(i <= i * (cs + 16)) by (nonlinear_arith)
                requires
                    1 <= cs,
                    0 <= i,
            ;
        }
        let ct = copy_range(container, off, off + cs + 16);
        let nonce = derive_nonce(base_nonce, i + 1);
        let aad = chunk_aad_bytes(i, false);
        let ghost rem = container@.skip(off as int);
        proof {
            assert(rem.take(cs as int + 16) =~= ct@);
        }
        match aead_open(content_key.expose(), &nonce, &aad, &ct) {
            Ok(p) => {
                proof {
                    let q = choose|q: Seq<u8>|
                        ct@ == #[trigger] spec_seal(ckv, spec_nonce(basev, ((i + 1) as u64)), chunk_aad(i, false), q);
                    lemma_seal_injective(
                        ckv,
                        spec_nonce(basev, ((i + 1) as u64)),
                        chunk_aad(i, false),
                        p@,
                        q,
                    );
                    assert(rem.skip(cs as int + 16) =~= container@.skip(off as int + cs as int + 16));
                    assert((i + 1) * (cs + 16) == i * (cs + 16) + (cs + 16)) by (nonlinear_arith);
                    match spec_decrypt_chunks(ckv, basev, rem.skip(cs as int + 16), cs as int, ((i
                        + 1) as u64)) {
                        Result::Ok(rest) => {
                            assert(out@ + (p@ + rest) =~= (out@ + p@) + rest);
                        },
                        Result::Err(_) => {},
                    }
                }
                append_bytes(&mut out, &p);
            },
            Err(_) => {
                return Err(Error::AuthenticationFailure);
            },
        }
        off = off + cs + 16;
        i = i + 1;
    }
    if container.len() - off < 16 {
        return Err(Error::UnexpectedEndOfStream);
    }
    proof {
        assert(i <= i * (cs + 16)) by (nonlinear_arith)
            requires
                1 <= cs,
                0 <= i,
        ;
    }
    let ct = copy_range(container, off, container.len());
    let nonce = derive_nonce(base_nonce, i + 1);
    let aad = chunk_aad_bytes(i, true);
    proof {
        assert(container@.skip(off as int) =~= ct@);
    }
    match aead_open(content_key.expose(), &nonce, &aad, &ct) {
        Ok(p) => {
            proof {
                let q = choose|q: Seq<u8>|
                    ct@ == #[trigger] spec_seal(ckv, spec_nonce(basev, ((i + 1) as u64)), chunk_aad(i, true), q);
                lemma_seal_injective(
                    ckv,
                    spec_nonce(basev, ((i + 1) as u64)),
                    chunk_aad(i, true),
                    p@,
                    q,
                );
            }
            append_bytes(&mut out, &p);
            Ok(out)
        },
        Err(_) => Err(Error::UnexpectedEndOfStream),
    }
}

/// Decrypts a container with one passphrase. The result is exactly what
/// `spec_decrypt_container` says: every parse error is reported as such, a
/// passphrase that opens no slot or a chunk that does not authenticate is
/// an authentication failure, a tampered header field is reported before
/// any chunk is touched, and a stream that ends before its final-chunk
/// marker is an unexpected end of stream. On any failure no plaintext at
/// all is released.
#[verifier::rlimit(100)]
#[verifier::spinoff_prover]
pub fn decrypt_bytes(container: &Vec<u8>, passphrase: &Protected) -> (r: Result<Vec<u8>, Error>)
    requires
        passphrase@.len() <= 0xFFFFFFFF,
    ensures
        r matches Ok(p) ==> spec_decrypt_container(container@, passphrase@) == Result::Ok::<
            Seq<u8>,
            Error,
        >(p@),
        r matches Err(e) ==> spec_decrypt_container(container@, passphrase@) == Result::Err::<
            Seq<u8>,
            Error,
        >(e),
{
    let (header, hlen) = match deserialize_header(container) {
        Ok(x) => x,
        Err(e) => return Err(e),
    };
    let root = match derive_root_key(passphrase, &header.salt, &header.params) {
        Ok(k) => k,
        Err(e) => return Err(e),
    };
    proof {
        assert forall|t: int|
            0 <= t < header.slots@.len() implies crate::header::slot_wf(
            (#[trigger] header.slots@[t])@,
        ) by {
            assert(header@.slots[t] == header.slots@[t]@);
        }
        assert(header.slots@.map_values(|s: KeySlot| s@) == header@.slots);
    }
    let content_key = match unlock_with_root(&root, &header.slots) {
        Ok(ck) => ck,
        Err(e) => return Err(e),
    };
    let prefix = serialize_prefix(&header.params, header.chunk_size, &header.salt, &header.base_nonce);
    let nonce0 = derive_nonce(&header.base_nonce, 0);
    match aead_open(content_key.expose(), &nonce0, &prefix, &header.tag) {
        Ok(p) => {
            proof {
                assert(p@ =~= Seq::<u8>::empty());
            }
        },
        Err(_) => {
            return Err(Error::HeaderTampered);
        },
    }
    open_chunks(container, hlen, &content_key, &header.base_nonce, header.chunk_size)
}

/// The sealing side of the engine as a pull-based state machine, for
/// streams that should never sit in memory whole: it seals one chunk at a
/// time, in strictly increasing index order, full chunks first and the
/// final chunk last. Emitting a serialized header followed by the
/// sealed chunks in this order yields exactly the container that
/// `encrypt_bytes` describes.
pub struct ChunkSealer {
    content_key: Protected,
    base_nonce: Vec<u8>,
    chunk_size: u32,
    next_index: u64,
    finished: bool,
}

impl ChunkSealer {
    /// The content key the stream is sealed under.
    pub closed spec fn key(self) -> Seq<u8> {
        self.content_key@
    }

    /// The container's base nonce.
    pub closed spec fn base(self) -> Seq<u8> {
        self.base_nonce@
    }

    /// The stream's chunk size.
    pub closed spec fn cs(self) -> u32 {
        self.chunk_size
    }

    /// The index of the next chunk to seal.
    pub closed spec fn index(self) -> u64 {
        self.next_index
    }

    /// Whether the final chunk has been sealed.
    pub closed spec fn finished(self) -> bool {
        self.finished
    }

    /// The state invariant.
    pub closed spec fn wf(self) -> bool {
        &&& self.content_key@.len() == KEY_LEN
        &&& self.base_nonce@.len() == BASE_NONCE_LEN
        &&& 1 <= self.chunk_size
    }

    /// Starts a sealing stream at chunk index zero.
    pub fn start(content_key: Protected, base_nonce: Vec<u8>, chunk_size: u32) -> (r: Self)
        requires
            content_key@.len() == KEY_LEN,
            base_nonce@.len() == BASE_NONCE_LEN,
            1 <= chunk_size,
        ensures
            r.wf(),
            r.key() == content_key@,
            r.base() == base_nonce@,
            r.cs() == chunk_size,
            r.index() == 0,
            !r.finished(),
    {
        ChunkSealer {
            content_key,
            base_nonce,
            chunk_size,
            next_index: 0,
            finished: false,
        }
    }

    /// Seals the next full (non-final) chunk.
    pub fn seal_chunk(&mut self, piece: &Vec<u8>) -> (r: Result<Vec<u8>, Error>)
        requires
            old(self).wf(),
            !old(self).finished(),
            piece@.len() == old(self).cs(),
            old(self).index() < 0xFFFF_FFFF_FFFF_FFFE,
        ensures
            final(self).wf(),
            final(self).key() == old(self).key(),
            final(self).base() == old(self).base(),
            final(self).cs() == old(self).cs(),
            final(self).index() == old(self).index() + 1,
            !final(self).finished(),
            r matches Ok(ct) ==> ct@ == spec_seal(
                old(self).key(),
                spec_nonce(old(self).base(), (old(self).index() + 1) as u64),
                chunk_aad(old(self).index(), false),
                piece@,
            ),
            r is Ok,
    {
        let nonce = derive_nonce(&self.base_nonce, self.next_index + 1);
        let aad = chunk_aad_bytes(self.next_index, false);
        let ct = match aead_seal(self.content_key.expose(), &nonce, &aad, piece) {
            Ok(c) => c,
            Err(e) => return Err(e),
        };
        self.next_index = self.next_index + 1;
        Ok(ct)
    }

    /// Seals the final chunk: the stream's last piece, at most one full
    /// chunk long, which marks the stream's legitimate end.
    pub fn seal_final(&mut self, piece: &Vec<u8>) -> (r: Result<Vec<u8>, Error>)
        requires
            old(self).wf(),
            !old(self).finished(),
            piece@.len() <= old(self).cs(),
            old(self).index() < 0xFFFF_FFFF_FFFF_FFFE,
        ensures
            final(self).wf(),
            final(self).finished(),
            r matches Ok(ct) ==> ct@ == spec_seal(
                old(self).key(),
                spec_nonce(old(self).base(), (old(self).index() + 1) as u64),
                chunk_aad(old(self).index(), true),
                piece@,
            ),
            r is Ok,
    {
        let nonce = derive_nonce(&self.base_nonce, self.next_index + 1);
        let aad = chunk_aad_bytes(self.next_index, true);
        let ct = match aead_seal(self.content_key.expose(), &nonce, &aad, piece) {
            Ok(c) => c,
            Err(e) => return Err(e),
        };
        self.finished = true;
        Ok(ct)
    }
}

/// Sealing one full chunk and continuing is exactly the chunk stream of
/// the whole payload, whenever any payload follows (a full chunk is
/// non-final only then): what a `ChunkSealer` emits, in order, is what
/// `spec_encrypt_chunks` describes.
pub proof fn lemma_chunk_stream_composes(
    key: Seq<u8>,
    base: Seq<u8>,
    piece: Seq<u8>,
    rest: Seq<u8>,
    cs: int,
    i: u64,
)
    requires
        1 <= cs,
        piece.len() == cs,
        1 <= rest.len(),
        i < 0xFFFF_FFFF_FFFF_FFFF,
    ensures
        spec_encrypt_chunks(key, base, piece + rest, cs, i) == spec_seal(
            key,
            spec_nonce(base, (i + 1) as u64),
            chunk_aad(i, false),
            piece,
        ) + spec_encrypt_chunks(key, base, rest, cs, (i + 1) as u64),
{
    assert((piece + rest).take(cs) =~= piece);
    assert((piece + rest).skip(cs) =~= rest);
}

/// The opening side of the engine as a state machine: it opens one chunk
/// at a time, in strictly increasing index order, and accepts the stream's
/// end only from a chunk sealed as final. A caller that feeds it every
/// full chunk and then the trailing piece computes exactly what
/// `spec_decrypt_chunks` describes.
pub struct ChunkOpener {
    content_key: Protected,
    base_nonce: Vec<u8>,
    chunk_size: u32,
    next_index: u64,
    finished: bool,
}

impl ChunkOpener {
    /// The content key the stream is opened with.
    pub closed spec fn key(self) -> Seq<u8> {
        self.content_key@
    }

    /// The container's base nonce.
    pub closed spec fn base(self) -> Seq<u8> {
        self.base_nonce@
    }

    /// The stream's chunk size.
    pub closed spec fn cs(self) -> u32 {
        self.chunk_size
    }

    /// The index of the next chunk to open.
    pub closed spec fn index(self) -> u64 {
        self.next_index
    }

    /// Whether the final chunk has been accepted.
    pub closed spec fn finished(self) -> bool {
        self.finished
    }

    /// The state invariant.
    pub closed spec fn wf(self) -> bool {
        &&& self.content_key@.len() == KEY_LEN
        &&& self.base_nonce@.len() == BASE_NONCE_LEN
        &&& 1 <= self.chunk_size
    }

    /// Starts an opening stream at chunk index zero.
    pub fn start(content_key: Protected, base_nonce: Vec<u8>, chunk_size: u32) -> (r: Self)
        requires
            content_key@.len() == KEY_LEN,
            base_nonce@.len() == BASE_NONCE_LEN,
            1 <= chunk_size,
        ensures
            r.wf(),
            r.key() == content_key@,
            r.base() == base_nonce@,
            r.cs() == chunk_size,
            r.index() == 0,
            !r.finished(),
    {
        ChunkOpener {
            content_key,
            base_nonce,
            chunk_size,
            next_index: 0,
            finished: false,
        }
    }

    /// Opens the next full (non-final) chunk, releasing its plaintext only
    /// if it authenticates at this position.
    pub fn open_chunk(&mut self, ct: &Vec<u8>) -> (r: Result<Vec<u8>, Error>)
        requires
            old(self).wf(),
            !old(self).finished(),
            ct@.len() == old(self).cs() + 16,
            old(self).index() < 0xFFFF_FFFF_FFFF_FFFE,
        ensures
            final(self).wf(),
            final(self).key() == old(self).key(),
            final(self).base() == old(self).base(),
            final(self).cs() == old(self).cs(),
            !final(self).finished(),
            r matches Ok(p) ==> final(self).index() == old(self).index() + 1 && spec_open(
                old(self).key(),
                spec_nonce(old(self).base(), (old(self).index() + 1) as u64),
                chunk_aad(old(self).index(), false),
                ct@,
            ) == Option::Some(p@),
            r matches Err(e) ==> e == Error::AuthenticationFailure && spec_open(
                old(self).key(),
                spec_nonce(old(self).base(), (old(self).index() + 1) as u64),
                chunk_aad(old(self).index(), false),
                ct@,
            ) is None && final(self).index() == old(self).index(),
    {
        let nonce = derive_nonce(&self.base_nonce, self.next_index + 1);
        let aad = chunk_aad_bytes(self.next_index, false);
        match aead_open(self.content_key.expose(), &nonce, &aad, ct) {
            Ok(p) => {
                proof {
                    let q = choose|q: Seq<u8>|
                        ct@ == #[trigger] spec_seal(
                            self.content_key@,
                            spec_nonce(self.base_nonce@, ((self.next_index + 1) as u64)),
                            chunk_aad(self.next_index, false),
                            q,
                        );
                    lemma_seal_injective(
                        self.content_key@,
                        spec_nonce(self.base_nonce@, ((self.next_index + 1) as u64)),
                        chunk_aad(self.next_index, false),
                        p@,
                        q,
                    );
                }
                self.next_index = self.next_index + 1;
                Ok(p)
            },
            Err(_) => Err(Error::AuthenticationFailure),
        }
    }

    /// Opens the stream's trailing piece as the final chunk. A piece that
    /// does not authenticate as final means the stream ended before its
    /// final-chunk marker.
    pub fn open_final(&mut self, ct: &Vec<u8>) -> (r: Result<Vec<u8>, Error>)
        requires
            old(self).wf(),
            !old(self).finished(),
            16 <= ct@.len() <= old(self).cs() + 16,
            old(self).index() < 0xFFFF_FFFF_FFFF_FFFE,
        ensures
            final(self).wf(),
            r matches Ok(p) ==> final(self).finished() && spec_open(
                old(self).key(),
                spec_nonce(old(self).base(), (old(self).index() + 1) as u64),
                chunk_aad(old(self).index(), true),
                ct@,
            ) == Option::Some(p@),
            r matches Err(e) ==> e == Error::UnexpectedEndOfStream && spec_open(
                old(self).key(),
                spec_nonce(old(self).base(), (old(self).index() + 1) as u64),
                chunk_aad(old(self).index(), true),
                ct@,
            ) is None && !final(self).finished(),
    {
        let nonce = derive_nonce(&self.base_nonce, self.next_index + 1);
        let aad = chunk_aad_bytes(self.next_index, true);
        match aead_open(self.content_key.expose(), &nonce, &aad, ct) {
            Ok(p) => {
                proof {
                    let q = choose|q: Seq<u8>|
                        ct@ == #[trigger] spec_seal(
                            self.content_key@,
                            spec_nonce(self.base_nonce@, ((self.next_index + 1) as u64)),
                            chunk_aad(self.next_index, true),
                            q,
                        );
                    lemma_seal_injective(
                        self.content_key@,
                        spec_nonce(self.base_nonce@, ((self.next_index + 1) as u64)),
                        chunk_aad(self.next_index, true),
                        p@,
                        q,
                    );
                }
                self.finished = true;
                Ok(p)
            },
            Err(_) => Err(Error::UnexpectedEndOfStream),
        }
    }
}

/// The number of chunks a payload of `len` bytes yields: one full chunk
/// per whole chunk size while more than one chunk's worth remains, and one
/// final chunk for the last piece.
pub open spec fn spec_num_chunks(len: int, cs: int) -> int
    decreases len,
{
    if len <= cs || cs < 1 {
        1
    } else {
        1 + spec_num_chunks(len - cs, cs)
    }
}

/// The chunk region's exact length: the payload plus one tag per chunk.
pub proof fn lemma_encrypt_chunks_len(key: Seq<u8>, base: Seq<u8>, plain: Seq<u8>, cs: int, i: u64)
    requires
        1 <= cs,
    ensures
        spec_encrypt_chunks(key, base, plain, cs, i).len() == plain.len() + 16 * spec_num_chunks(
            plain.len() as int,
            cs,
        ),
    decreases plain.len(),
{
    if plain.len() > cs {
        lemma_encrypt_chunks_len(key, base, plain.skip(cs), cs, ((i + 1) as u64));
    }
}

/// The chunk region holds at least `m` full chunk records followed by at
/// least one more record, whenever more than `m` full chunks' worth of
/// payload exists.
pub proof fn lemma_chunks_have_fulls(
    key: Seq<u8>,
    base: Seq<u8>,
    plain: Seq<u8>,
    cs: int,
    i: u64,
    m: int,
)
    requires
        1 <= cs,
        0 <= m,
        m == 0 || m * cs < plain.len(),
    ensures
        spec_encrypt_chunks(key, base, plain, cs, i).len() >= m * (cs + 16) + 16,
    decreases m, plain.len(),
{
    if m == 0 {
        if plain.len() > cs {
            lemma_chunks_have_fulls(key, base, plain.skip(cs), cs, ((i + 1) as u64), 0);
        }
    } else {
        assert(cs < plain.len()) by (nonlinear_arith)
            requires
                1 <= m,
                1 <= cs,
                m * cs < plain.len(),
        ;
        assert((m - 1) * cs < plain.len() - cs) by (nonlinear_arith)
            requires
                1 <= cs,
                m * cs < plain.len(),
        ;
        lemma_chunks_have_fulls(key, base, plain.skip(cs), cs, ((i + 1) as u64), m - 1);
        assert(m * (cs + 16) == (m - 1) * (cs + 16) + (cs + 16)) by (nonlinear_arith);
    }
}

/// Round trip over the chunk region: decrypting what was encrypted, from
/// the same starting index, recovers the payload.
#[verifier::rlimit(100)]
#[verifier::spinoff_prover]
pub proof fn lemma_chunks_round_trip(key: Seq<u8>, base: Seq<u8>, plain: Seq<u8>, cs: int, i: u64)
    requires
        1 <= cs,
        i + plain.len() < 0xFFFF_FFFF_FFFF_FFFF,
    ensures
        spec_decrypt_chunks(key, base, spec_encrypt_chunks(key, base, plain, cs, i), cs, i)
            == Result::Ok::<Seq<u8>, Error>(plain),
    decreases plain.len(),
{
    let region = spec_encrypt_chunks(key, base, plain, cs, i);
    if plain.len() <= cs {
        assert(region.len() == plain.len() + 16);
        lemma_open_seal(key, spec_nonce(base, ((i + 1) as u64)), chunk_aad(i, true), plain);
    } else {
        let full = spec_seal(key, spec_nonce(base, ((i + 1) as u64)), chunk_aad(i, false), plain.take(cs));
        let rest = spec_encrypt_chunks(key, base, plain.skip(cs), cs, ((i + 1) as u64));
        lemma_chunks_have_fulls(key, base, plain.skip(cs), cs, ((i + 1) as u64), 0);
        assert(region.len() == (cs + 16) + rest.len());
        assert(rest.len() >= 16);
        assert(region.take(cs + 16) =~= full);
        assert(region.skip(cs + 16) =~= rest);
        lemma_open_seal(key, spec_nonce(base, ((i + 1) as u64)), chunk_aad(i, false), plain.take(cs));
        lemma_chunks_round_trip(key, base, plain.skip(cs), cs, ((i + 1) as u64));
        assert(plain.take(cs) + plain.skip(cs) =~= plain);
    }
}

/// Unlocking skips any leading slots the root key does not open.
pub proof fn lemma_unlock_skip(root: Seq<u8>, slots: Seq<SlotModel>, t: int)
    requires
        0 <= t <= slots.len(),
        forall|u: int|
            0 <= u < t ==> spec_open(
                root,
                (#[trigger] slots[u]).nonce,
                Seq::<u8>::empty(),
                slots[u].ct,
            ) is None,
    ensures
        spec_unlock_slots(root, slots) == spec_unlock_slots(root, slots.skip(t)),
    decreases t,
{
    if t > 0 {
        assert(spec_open(root, slots[0].nonce, Seq::<u8>::empty(), slots[0].ct) is None);
        assert(spec_unlock_slots(root, slots) == spec_unlock_slots(root, slots.skip(1)));
        assert(slots.skip(1).skip(t - 1) =~= slots.skip(t));
        assert forall|u: int|
            0 <= u < t - 1 implies spec_open(
            root,
            (#[trigger] slots.skip(1)[u]).nonce,
            Seq::<u8>::empty(),
            slots.skip(1)[u].ct,
        ) is None by {
            assert(slots.skip(1)[u] == slots[u + 1]);
        }
        lemma_unlock_skip(root, slots.skip(1), t - 1);
    } else {
        assert(slots.skip(0) =~= slots);
    }
}

/// Round trip (the general, any-slot form): a passphrase whose root key
/// opens none of the slots before its own unlocks the container to exactly
/// the original payload.
#[verifier::rlimit(100)]
#[verifier::spinoff_prover]
pub proof fn lemma_container_round_trip_any_slot(
    c: Seq<u8>,
    h: HeaderModel,
    ck: Seq<u8>,
    plain: Seq<u8>,
    passes: Seq<Seq<u8>>,
    params: KdfParams,
    cs: u32,
    j: int,
)
    requires
        container_body(c, h, ck, plain, passes, params, cs),
        plain.len() < 0xFFFF_FFFF_FFFF_FFFF,
        0 <= j < passes.len(),
        forall|t: int|
            0 <= t < j ==> spec_open(
                spec_kdf(passes[j], h.salt, params),
                (#[trigger] h.slots[t]).nonce,
                Seq::<u8>::empty(),
                h.slots[t].ct,
            ) is None,
    ensures
        spec_decrypt_container(c, passes[j]) == Result::Ok::<Seq<u8>, Error>(plain),
{
    let chunks = spec_encrypt_chunks(ck, h.base_nonce, plain, cs as int, 0);
    crate::encoding::lemma_parse_serialize(h, chunks);
    let hlen = spec_header_len(h.slots.len() as int);
    assert(c.skip(hlen) =~= chunks);
    let root = spec_kdf(passes[j], h.salt, params);
    lemma_unlock_skip(root, h.slots, j);
    assert(h.slots.skip(j)[0] == h.slots[j]);
    assert(spec_unlock_slots(root, h.slots) == Option::Some(ck));
    lemma_chunks_round_trip(ck, h.base_nonce, plain, cs as int, 0);
}

/// Round trip: decrypting a container with the passphrase its first key
/// slot was wrapped under yields exactly the original payload.
pub proof fn lemma_container_round_trip(
    c: Seq<u8>,
    h: HeaderModel,
    ck: Seq<u8>,
    plain: Seq<u8>,
    passes: Seq<Seq<u8>>,
    params: KdfParams,
    cs: u32,
)
    requires
        container_body(c, h, ck, plain, passes, params, cs),
        plain.len() < 0xFFFF_FFFF_FFFF_FFFF,
        passes.len() >= 1,
    ensures
        spec_decrypt_container(c, passes[0]) == Result::Ok::<Seq<u8>, Error>(plain),
{
    lemma_container_round_trip_any_slot(c, h, ck, plain, passes, params, cs, 0);
}

/// Truncating the chunk region at a chunk boundary before the final-chunk
/// marker leaves only full chunks. The hypothesis is the tag's collision
/// resistance at the finality flag: the trailing full chunk, sealed as
/// non-final, does not also authenticate as the final chunk. Under it,
/// decryption reports the missing end of stream.
pub proof fn lemma_chunks_truncated(
    key: Seq<u8>,
    base: Seq<u8>,
    plain: Seq<u8>,
    cs: int,
    i: u64,
    m: int,
)
    requires
        1 <= cs,
        0 <= m,
        m == 0 || m * cs < plain.len(),
        i + plain.len() < 0xFFFF_FFFF_FFFF_FFFF,
        m == 0 || spec_open(
            key,
            spec_nonce(base, ((i + m) as u64)),
            chunk_aad(((i + m - 1) as u64), true),
            spec_seal(
                key,
                spec_nonce(base, ((i + m) as u64)),
                chunk_aad(((i + m - 1) as u64), false),
                plain.subrange((m - 1) * cs, m * cs),
            ),
        ) is None,
    ensures
        spec_decrypt_chunks(
            key,
            base,
            spec_encrypt_chunks(key, base, plain, cs, i).take(m * (cs + 16)),
            cs,
            i,
        ) == Result::Err::<Seq<u8>, Error>(Error::UnexpectedEndOfStream),
    decreases m,
{
    let chunks = spec_encrypt_chunks(key, base, plain, cs, i);
    if m == 0 {
        assert(chunks.take(0) =~= Seq::<u8>::empty());
    } else {
        assert(cs < plain.len()) by (nonlinear_arith)
            requires
                1 <= m,
                1 <= cs,
                m * cs < plain.len(),
        ;
        let full = spec_seal(key, spec_nonce(base, ((i + 1) as u64)), chunk_aad(i, false), plain.take(cs));
        let rest = spec_encrypt_chunks(key, base, plain.skip(cs), cs, ((i + 1) as u64));
        lemma_chunks_have_fulls(key, base, plain, cs, i, m);
        assert(m * (cs + 16) == (m - 1) * (cs + 16) + (cs + 16)) by (nonlinear_arith);
        let region = chunks.take(m * (cs + 16));
        assert(region.len() == m * (cs + 16));
        if m == 1 {
            assert(region =~= full);
            assert(plain.take(cs) =~= plain.subrange(0, cs));
            assert(!(cs + 16 < region.len()));
            assert(region.len() >= 16);
            assert(((i + m) as u64) == ((i + 1) as u64));
            assert(((i + m - 1) as u64) == i);
            assert((m - 1) * cs == 0) by (nonlinear_arith)
                requires
                    m == 1,
            ;
            assert(m * cs == cs) by (nonlinear_arith)
                requires
                    m == 1,
            ;
            assert(region == spec_seal(
                key,
                spec_nonce(base, ((i + 1) as u64)),
                chunk_aad(i, false),
                plain.subrange(0, cs),
            ));
            assert(spec_open(key, spec_nonce(base, ((i + 1) as u64)), chunk_aad(i, true), region)
                is None);
        } else {
            assert(cs + 16 < region.len()) by (nonlinear_arith)
                requires
                    2 <= m,
                    region.len() == m * (cs + 16),
                    1 <= cs,
            ;
            assert(region.take(cs + 16) =~= full);
            assert(region.skip(cs + 16) =~= rest.take((m - 1) * (cs + 16)));
            lemma_open_seal(key, spec_nonce(base, ((i + 1) as u64)), chunk_aad(i, false), plain.take(cs));
            assert((m - 1) * cs < plain.skip(cs).len()) by (nonlinear_arith)
                requires
                    1 <= cs,
                    m * cs < plain.len(),
                    plain.skip(cs).len() == plain.len() - cs,
            ;
            assert(plain.skip(cs).subrange((m - 2) * cs, (m - 1) * cs) =~= plain.subrange(
                (m - 1) * cs,
                m * cs,
            )) by {
                assert((m - 2) * cs + cs == (m - 1) * cs) by (nonlinear_arith);
                assert((m - 1) * cs + cs == m * cs) by (nonlinear_arith);
            }
            let i2 = (i + 1) as u64;
            assert(((i2 + (m - 1)) as u64) == ((i + m) as u64));
            assert(((i2 + (m - 1) - 1) as u64) == ((i + m - 1) as u64));
            lemma_chunks_truncated(key, base, plain.skip(cs), cs, i2, m - 1);
        }
    }
}

/// Truncation detection: a container cut at a chunk boundary before its
/// final-chunk marker decrypts to `UnexpectedEndOfStream`, never to a
/// partial payload. For a cut that keeps at least one chunk, the
/// hypothesis is the tag's collision resistance at the finality flag: the
/// last kept chunk, sealed as non-final, does not also authenticate as the
/// final chunk.
pub proof fn lemma_truncation_detected(
    c: Seq<u8>,
    h: HeaderModel,
    ck: Seq<u8>,
    plain: Seq<u8>,
    passes: Seq<Seq<u8>>,
    params: KdfParams,
    cs: u32,
    m: int,
)
    requires
        container_body(c, h, ck, plain, passes, params, cs),
        plain.len() < 0xFFFF_FFFF_FFFF_FFFF,
        passes.len() >= 1,
        0 <= m,
        m == 0 || m * (cs as int) < plain.len(),
        m == 0 || spec_open(
            ck,
            spec_nonce(h.base_nonce, m as u64),
            chunk_aad(((m - 1) as u64), true),
            spec_seal(
                ck,
                spec_nonce(h.base_nonce, m as u64),
                chunk_aad(((m - 1) as u64), false),
                plain.subrange((m - 1) * (cs as int), m * (cs as int)),
            ),
        ) is None,
    ensures
        spec_decrypt_container(
            c.take(spec_header_len(h.slots.len() as int) + m * ((cs as int) + 16)),
            passes[0],
        ) == Result::Err::<Seq<u8>, Error>(Error::UnexpectedEndOfStream),
{
    let csw = cs as int;
    let chunks = spec_encrypt_chunks(ck, h.base_nonce, plain, csw, 0);
    let hlen = spec_header_len(h.slots.len() as int);
    lemma_chunks_have_fulls(ck, h.base_nonce, plain, csw, 0, m);
    assert(m * (csw + 16) <= chunks.len());
    let t = c.take(hlen + m * (csw + 16));
    crate::encoding::lemma_parse_serialize(h, chunks.take(m * (csw + 16)));
    assert(t =~= spec_serialize_header(h) + chunks.take(m * (csw + 16)));
    assert(t.skip(hlen) =~= chunks.take(m * (csw + 16)));
    let root = spec_kdf(passes[0], h.salt, params);
    assert(h.slots.skip(0) =~= h.slots);
    assert(h.slots[0].nonce == h.slots.skip(0)[0].nonce);
    assert(spec_unlock_slots(root, h.slots) == Option::Some(ck));
    lemma_chunks_truncated(ck, h.base_nonce, plain, csw, 0, m);
}

/// The header with one slot removed and nothing else changed.
pub open spec fn slot_removed(h: HeaderModel, idx: int) -> HeaderModel {
    HeaderModel {
        params: h.params,
        chunk_size: h.chunk_size,
        salt: h.salt,
        base_nonce: h.base_nonce,
        slots: h.slots.remove(idx),
        tag: h.tag,
    }
}

/// Revoking one key slot keeps the container intact for every remaining
/// passphrase: the rewritten container still holds the same content key,
/// payload and header fields, with that slot gone.
#[verifier::rlimit(100)]
#[verifier::spinoff_prover]
pub proof fn lemma_remove_slot_keeps_container(
    c: Seq<u8>,
    h: HeaderModel,
    ck: Seq<u8>,
    plain: Seq<u8>,
    passes: Seq<Seq<u8>>,
    params: KdfParams,
    cs: u32,
    idx: int,
)
    requires
        container_body(c, h, ck, plain, passes, params, cs),
        0 <= idx < passes.len(),
        passes.len() >= 2,
    ensures
        container_body(
            spec_serialize_header(slot_removed(h, idx)) + c.skip(
                spec_header_len(h.slots.len() as int),
            ),
            slot_removed(h, idx),
            ck,
            plain,
            passes.remove(idx),
            params,
            cs,
        ),
{
    let h2 = slot_removed(h, idx);
    let chunks = spec_encrypt_chunks(ck, h.base_nonce, plain, cs as int, 0);
    crate::encoding::lemma_parse_serialize(h, chunks);
    assert(c.skip(spec_header_len(h.slots.len() as int)) =~= chunks);
    assert(forall|j: int|
        0 <= j < h2.slots.len() ==> (#[trigger] h2.slots[j]) == if j < idx {
            h.slots[j]
        } else {
            h.slots[j + 1]
        });
    assert(forall|j: int|
        0 <= j < passes.remove(idx).len() ==> (#[trigger] passes.remove(idx)[j]) == if j < idx {
            passes[j]
        } else {
            passes[j + 1]
        });
    assert(spec_prefix(h2) == spec_prefix(h));
    assert(header_wf(h2));
}

/// Rewrites a container with one key slot removed, leaving the header's
/// other fields, every other slot and the whole chunk region unchanged.
/// Rejects an index past the slots or a container that would be left with
/// no slot at all, as it rejects any length inconsistency.
pub fn remove_slot(container: &Vec<u8>, index: usize) -> (r: Result<Vec<u8>, Error>)
    ensures
        r matches Ok(c2) ==> spec_parse_header(container@) matches Result::Ok(h) && index
            < h.slots.len() && h.slots.len() >= 2 && c2@ == spec_serialize_header(
            slot_removed(h, index as int),
        ) + container@.skip(spec_header_len(h.slots.len() as int)),
        r matches Err(e) ==> match spec_parse_header(container@) {
            Result::Err(pe) => e == pe,
            Result::Ok(h) => (index >= h.slots.len() || h.slots.len() < 2) && e
                == Error::Truncated,
        },
{
    let (mut header, hlen) = match deserialize_header(container) {
        Ok(x) => x,
        Err(e) => return Err(e),
    };
    if index >= header.slots.len() || header.slots.len() < 2 {
        return Err(Error::Truncated);
    }
    let ghost hm = header@;
    header.slots.remove(index);
    proof {
        assert(header@.slots =~= hm.slots.remove(index as int));
        assert(header@ =~= slot_removed(hm, index as int));
        assert(header_wf(header@));
    }
    let mut out = serialize_header(&header);
    let tail = copy_range(container, hlen, container.len());
    append_bytes(&mut out, &tail);
    Ok(out)
}

} // verus!
