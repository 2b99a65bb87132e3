//! Canonical serialization of the container header to and from its byte
//! layout, with strict validation: any field deviation fails closed.
//!
//! Layout, all integers little-endian:
//! magic (7) | version (1) | cipher id (1) | kdf id (1) | m_cost (4) |
//! t_cost (4) | p_cost (4) | chunk_size (4) | salt (16) | base nonce (16) |
//! slot count (1) | slots (72 each: nonce 24, sealed key 48) | tag (16).

use vstd::prelude::*;
use vstd::bytes::{
    lemma_auto_spec_u32_to_from_le_bytes, spec_u32_from_le_bytes, spec_u32_to_le_bytes,
    u32_from_le_bytes, u32_to_le_bytes,
};
use crate::error::Error;
use crate::header::{header_wf, Header, HeaderModel, KeySlot, SlotModel};
use crate::types::KdfParams;
use crate::util::{append_bytes, copy_range};

verus! {

/// Format version this codec reads and writes.
pub const FORMAT_VERSION: u8 = 1;

/// Cipher identifier: XChaCha20-Poly1305.
pub const CIPHER_XCHACHA20_POLY1305: u8 = 1;

/// Key-derivation identifier: Argon2id.
pub const KDF_ARGON2ID: u8 = 1;

/// The magic bytes that open every container.
pub open spec fn spec_magic() -> Seq<u8> {
    seq![0x73u8, 0x64u8, 0x63u8, 0x72u8, 0x79u8, 0x70u8, 0x74u8]
}

/// The fixed-length field block before the slot count: everything the
/// header-tag authentication covers.
pub open spec fn spec_prefix_of(params: KdfParams, cs: u32, salt: Seq<u8>, base: Seq<u8>) -> Seq<
    u8,
> {
    spec_magic() + seq![FORMAT_VERSION, CIPHER_XCHACHA20_POLY1305, KDF_ARGON2ID]
        + spec_u32_to_le_bytes(params.m_cost) + spec_u32_to_le_bytes(params.t_cost)
        + spec_u32_to_le_bytes(params.p_cost) + spec_u32_to_le_bytes(cs) + salt + base
}

/// The field block a header's own tag authenticates.
pub open spec fn spec_prefix(h: HeaderModel) -> Seq<u8> {
    spec_prefix_of(h.params, h.chunk_size, h.salt, h.base_nonce)
}

/// Serializes the fixed-length field block.
pub fn serialize_prefix(params: &KdfParams, chunk_size: u32, salt: &Vec<u8>, base_nonce: &Vec<
    u8,
>) -> (r: Vec<u8>)
    ensures
        r@ == spec_prefix_of(*params, chunk_size, salt@, base_nonce@),
        r@.len() == 26 + salt@.len() + base_nonce@.len(),
{
    proof {
        lemma_auto_spec_u32_to_from_le_bytes();
    }
    let mut out: Vec<u8> = Vec::new();
    out.push(0x73u8);
    out.push(0x64u8);
    out.push(0x63u8);
    out.push(0x72u8);
    out.push(0x79u8);
    out.push(0x70u8);
    out.push(0x74u8);
    out.push(FORMAT_VERSION);
    out.push(CIPHER_XCHACHA20_POLY1305);
    out.push(KDF_ARGON2ID);
    let mut word = u32_to_le_bytes(params.m_cost);
    out.append(&mut word);
    let mut word = u32_to_le_bytes(params.t_cost);
    out.append(&mut word);
    let mut word = u32_to_le_bytes(params.p_cost);
    out.append(&mut word);
    let mut word = u32_to_le_bytes(chunk_size);
    out.append(&mut word);
    append_bytes(&mut out, salt);
    append_bytes(&mut out, base_nonce);
    proof {
        assert(out@ =~= spec_prefix_of(*params, chunk_size, salt@, base_nonce@));
    }
    out
}

/// The key slots, laid out back to back.
pub open spec fn spec_slots_bytes(slots: Seq<SlotModel>) -> Seq<u8>
    decreases slots.len(),
{
    if slots.len() == 0 {
        Seq::empty()
    } else {
        slots[0].nonce + slots[0].ct + spec_slots_bytes(slots.skip(1))
    }
}

/// The full serialized header.
pub open spec fn spec_serialize_header(h: HeaderModel) -> Seq<u8> {
    spec_prefix(h) + seq![h.slots.len() as u8] + spec_slots_bytes(h.slots) + h.tag
}

/// The byte length of a serialized header with `k` slots.
pub open spec fn spec_header_len(k: int) -> int {
    75 + 72 * k
}

/// The slots decoded from a serialized header holding `k` of them.
pub open spec fn spec_parse_slots(b: Seq<u8>, k: int) -> Seq<SlotModel> {
    Seq::new(
        k as nat,
        |i: int|
            SlotModel {
                nonce: b.subrange(59 + 72 * i, 59 + 72 * i + 24),
                ct: b.subrange(59 + 72 * i + 24, 59 + 72 * i + 72),
            },
    )
}

/// Strict parsing of a serialized header from the front of a byte
/// sequence. A wrong magic is not a container; an unknown version, cipher,
/// key-derivation identifier or cost parameterization is unsupported; any
/// length field inconsistent with the bytes present, a zero chunk size or a
/// zero slot count is a truncated or damaged container.
pub open spec fn spec_parse_header(b: Seq<u8>) -> Result<HeaderModel, Error> {
    if b.len() < 7 || b.subrange(0, 7) != spec_magic() {
        Err(Error::NotAContainer)
    } else if b.len() < 59 {
        Err(Error::Truncated)
    } else if b[7] != FORMAT_VERSION || b[8] != CIPHER_XCHACHA20_POLY1305 || b[9] != KDF_ARGON2ID {
        Err(Error::UnsupportedVersion)
    } else {
        let params = KdfParams {
            m_cost: spec_u32_from_le_bytes(b.subrange(10, 14)),
            t_cost: spec_u32_from_le_bytes(b.subrange(14, 18)),
            p_cost: spec_u32_from_le_bytes(b.subrange(18, 22)),
        };
        let chunk_size = spec_u32_from_le_bytes(b.subrange(22, 26));
        if !params.valid() {
            Err(Error::UnsupportedVersion)
        } else if chunk_size == 0 {
            Err(Error::Truncated)
        } else {
            let k = b[58] as int;
            if k == 0 || b.len() < spec_header_len(k) {
                Err(Error::Truncated)
            } else {
                Ok(
                    HeaderModel {
                        params,
                        chunk_size,
                        salt: b.subrange(26, 42),
                        base_nonce: b.subrange(42, 58),
                        slots: spec_parse_slots(b, k),
                        tag: b.subrange(59 + 72 * k, 75 + 72 * k),
                    },
                )
            }
        }
    }
}

/// Length and layout of the serialized slot block.
pub proof fn lemma_slots_bytes_len(slots: Seq<SlotModel>)
    requires
        forall|i: int| 0 <= i < slots.len() ==> crate::header::slot_wf(#[trigger] slots[i]),
    ensures
        spec_slots_bytes(slots).len() == 72 * slots.len(),
    decreases slots.len(),
{
    if slots.len() > 0 {
        lemma_slots_bytes_len(slots.skip(1));
    }
}

/// Appending one slot extends the slot block by that slot's bytes.
pub proof fn lemma_slots_bytes_push(slots: Seq<SlotModel>, s: SlotModel)
    ensures
        spec_slots_bytes(slots.push(s)) == spec_slots_bytes(slots) + s.nonce + s.ct,
    decreases slots.len(),
{
    if slots.len() == 0 {
        assert(slots.push(s)[0] == s);
        assert(slots.push(s).skip(1) =~= Seq::<SlotModel>::empty());
        assert(spec_slots_bytes(Seq::<SlotModel>::empty()) == Seq::<u8>::empty());
        assert(spec_slots_bytes(slots.push(s)) =~= spec_slots_bytes(slots) + s.nonce + s.ct);
    } else {
        assert(slots.push(s)[0] == slots[0]);
        assert(slots.push(s).skip(1) =~= slots.skip(1).push(s));
        lemma_slots_bytes_push(slots.skip(1), s);
        assert(spec_slots_bytes(slots.push(s)) =~= spec_slots_bytes(slots) + s.nonce + s.ct);
    }
}

/// Serializes a well-formed header into its canonical byte layout.
pub fn serialize_header(h: &Header) -> (r: Vec<u8>)
    requires
        header_wf(h@),
    ensures
        r@ == spec_serialize_header(h@),
        r@.len() == spec_header_len(h@.slots.len() as int),
{
    proof {
        lemma_auto_spec_u32_to_from_le_bytes();
    }
    let mut out = serialize_prefix(&h.params, h.chunk_size, &h.salt, &h.base_nonce);
    out.push(h.slots.len() as u8);
    proof {
        assert(out@ =~= spec_prefix(h@) + seq![h@.slots.len() as u8]);
    }
    let ghost before_slots = out@;
    let mut i: usize = 0;
    while i < h.slots.len()
        invariant
            i <= h@.slots.len(),
            out@ == before_slots + spec_slots_bytes(h@.slots.take(i as int)),
        decreases h.slots.len() - i,
    {
        append_bytes(&mut out, &h.slots[i].nonce);
        append_bytes(&mut out, &h.slots[i].ct);
        proof {
            assert(h@.slots.take(i as int).push(h@.slots[i as int]) =~= h@.slots.take(i as int + 1));
            lemma_slots_bytes_push(h@.slots.take(i as int), h@.slots[i as int]);
            assert(out@ =~= before_slots + spec_slots_bytes(h@.slots.take(i as int + 1)));
        }
        i = i + 1;
    }
    proof {
        assert(h@.slots.take(h@.slots.len() as int) =~= h@.slots);
    }
    append_bytes(&mut out, &h.tag);
    proof {
        assert(out@ =~= spec_serialize_header(h@));
        lemma_slots_bytes_len(h@.slots);
    }
    out
}

/// Parses and validates a serialized header from the front of a byte
/// buffer, returning it with the number of bytes it occupies. The result is
/// exactly what `spec_parse_header` says, error for error.
pub fn deserialize_header(bytes: &Vec<u8>) -> (r: Result<(Header, usize), Error>)
    ensures
        r matches Ok((h, n)) ==> spec_parse_header(bytes@) == Ok::<HeaderModel, Error>(h@)
            && header_wf(h@) && n == spec_header_len(h@.slots.len() as int) && n <= bytes@.len(),
        r matches Err(e) ==> spec_parse_header(bytes@) == Err::<HeaderModel, Error>(e),
{
    proof {
        lemma_auto_spec_u32_to_from_le_bytes();
    }
    if bytes.len() < 7 {
        return Err(Error::NotAContainer);
    }
    proof {
        let m = bytes@.subrange(0, 7);
        assert(m[0] == bytes@[0] && m[1] == bytes@[1] && m[2] == bytes@[2] && m[3] == bytes@[3]
            && m[4] == bytes@[4] && m[5] == bytes@[5] && m[6] == bytes@[6]);
    }
    if bytes[0] != 0x73 || bytes[1] != 0x64 || bytes[2] != 0x63 || bytes[3] != 0x72 || bytes[4]
        != 0x79 || bytes[5] != 0x70 || bytes[6] != 0x74 {
        return Err(Error::NotAContainer);
    }
    proof {
        assert(bytes@.subrange(0, 7) =~= spec_magic());
    }
    if bytes.len() < 59 {
        return Err(Error::Truncated);
    }
    if bytes[7] != FORMAT_VERSION || bytes[8] != CIPHER_XCHACHA20_POLY1305 || bytes[9]
        != KDF_ARGON2ID {
        return Err(Error::UnsupportedVersion);
    }
    let word = copy_range(bytes, 10, 14);
    let m_cost = u32_from_le_bytes(word.as_slice());
    let word = copy_range(bytes, 14, 18);
    let t_cost = u32_from_le_bytes(word.as_slice());
    let word = copy_range(bytes, 18, 22);
    let p_cost = u32_from_le_bytes(word.as_slice());
    let word = copy_range(bytes, 22, 26);
    let chunk_size = u32_from_le_bytes(word.as_slice());
    let params = KdfParams { m_cost, t_cost, p_cost };
    if !params.is_valid() {
        return Err(Error::UnsupportedVersion);
    }
    if chunk_size == 0 {
        return Err(Error::Truncated);
    }
    let k = bytes[58] as usize;
    if k == 0 {
        return Err(Error::Truncated);
    }
    if bytes.len() < 75 + 72 * k {
        return Err(Error::Truncated);
    }
    let mut slots: Vec<KeySlot> = Vec::new();
    let mut i: usize = 0;
    while i < k
        invariant
            i <= k,
            k == bytes@[58] as int,
            1 <= k <= 255,
            bytes@.len() >= 75 + 72 * k,
            slots@.len() == i,
            forall|j: int|
                0 <= j < i ==> #[trigger] slots@[j]@ == spec_parse_slots(bytes@, k as int)[j],
        decreases k - i,
    {
        let nonce = copy_range(bytes, 59 + 72 * i, 59 + 72 * i + 24);
        let ct = copy_range(bytes, 59 + 72 * i + 24, 59 + 72 * i + 72);
        slots.push(KeySlot { nonce, ct });
        i = i + 1;
    }
    let salt = copy_range(bytes, 26, 42);
    let base_nonce = copy_range(bytes, 42, 58);
    let tag = copy_range(bytes, 59 + 72 * k, 75 + 72 * k);
    let h = Header { params, chunk_size, salt, base_nonce, slots, tag };
    proof {
        assert(h@.slots =~= spec_parse_slots(bytes@, k as int));
        let parsed = spec_parse_header(bytes@);
        assert(parsed matches Ok(m) && m =~= h@);
        assert(forall|j: int|
            0 <= j < h@.slots.len() ==> crate::header::slot_wf(#[trigger] h@.slots[j]));
    }
    Ok((h, 75 + 72 * k))
}

/// A serialized well-formed header, with anything after it, parses back to
/// exactly that header; parsing reads nothing past the header's own bytes.
pub proof fn lemma_parse_serialize(h: HeaderModel, rest: Seq<u8>)
    requires
        header_wf(h),
    ensures
        spec_serialize_header(h).len() == spec_header_len(h.slots.len() as int),
        spec_parse_header(spec_serialize_header(h) + rest) == Ok::<HeaderModel, Error>(h),
{
    lemma_auto_spec_u32_to_from_le_bytes();
    lemma_slots_bytes_len(h.slots);
    let s = spec_serialize_header(h);
    let b = s + rest;
    let k = h.slots.len() as int;
    assert(spec_prefix(h).len() == 58);
    assert(s.len() == 75 + 72 * k);
    assert(forall|i: int| 0 <= i < 58 ==> b[i] == spec_prefix(h)[i]);
    assert(b.subrange(0, 7) =~= spec_magic());
    assert(b[7] == FORMAT_VERSION && b[8] == CIPHER_XCHACHA20_POLY1305 && b[9] == KDF_ARGON2ID);
    assert(b.subrange(10, 14) =~= spec_u32_to_le_bytes(h.params.m_cost));
    assert(b.subrange(14, 18) =~= spec_u32_to_le_bytes(h.params.t_cost));
    assert(b.subrange(18, 22) =~= spec_u32_to_le_bytes(h.params.p_cost));
    assert(b.subrange(22, 26) =~= spec_u32_to_le_bytes(h.chunk_size));
    assert(b.subrange(26, 42) =~= h.salt);
    assert(b.subrange(42, 58) =~= h.base_nonce);
    assert(b[58] == h.slots.len() as u8);
    assert((h.slots.len() as u8) as int == k);
    assert forall|i: int| 0 <= i < k implies spec_parse_slots(b, k)[i] =~= h.slots[i] by {
        lemma_slots_bytes_slice(h.slots, i);
        assert(b.subrange(59 + 72 * i, 59 + 72 * i + 24) =~= spec_slots_bytes(h.slots).subrange(
            72 * i,
            72 * i + 24,
        ));
        assert(b.subrange(59 + 72 * i + 24, 59 + 72 * i + 72) =~= spec_slots_bytes(
            h.slots,
        ).subrange(72 * i + 24, 72 * i + 72));
    }
    assert(spec_parse_slots(b, k) =~= h.slots);
    assert(b.subrange(59 + 72 * k, 75 + 72 * k) =~= h.tag);
    assert(spec_parse_header(b) matches Ok(m) && m =~= h);
}

/// Within the serialized slot block, slot `i`'s nonce and sealed key sit at
/// their fixed offsets.
pub proof fn lemma_slots_bytes_slice(slots: Seq<SlotModel>, i: int)
    requires
        forall|j: int| 0 <= j < slots.len() ==> crate::header::slot_wf(#[trigger] slots[j]),
        0 <= i < slots.len(),
    ensures
        spec_slots_bytes(slots).subrange(72 * i, 72 * i + 24) == slots[i].nonce,
        spec_slots_bytes(slots).subrange(72 * i + 24, 72 * i + 72) == slots[i].ct,
    decreases i,
{
    lemma_slots_bytes_len(slots);
    lemma_slots_bytes_len(slots.skip(1));
    if i == 0 {
        assert(spec_slots_bytes(slots).subrange(0, 24) =~= slots[0].nonce);
        assert(spec_slots_bytes(slots).subrange(24, 72) =~= slots[0].ct);
    } else {
        lemma_slots_bytes_slice(slots.skip(1), i - 1);
        assert(slots.skip(1)[i - 1] == slots[i]);
        assert(spec_slots_bytes(slots).subrange(72 * i, 72 * i + 24) =~= spec_slots_bytes(
            slots.skip(1),
        ).subrange(72 * (i - 1), 72 * (i - 1) + 24));
        assert(spec_slots_bytes(slots).subrange(72 * i + 24, 72 * i + 72) =~= spec_slots_bytes(
            slots.skip(1),
        ).subrange(72 * (i - 1) + 24, 72 * (i - 1) + 72));
    }
}

} // verus!
