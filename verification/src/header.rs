//! The container header: a versioned, self-describing structure holding the
//! algorithm identifiers, key-derivation parameters, salt, base nonce,
//! encrypted key slots and the header's own authentication tag.

use vstd::prelude::*;
use crate::primitives::{BASE_NONCE_LEN, KEY_LEN, NONCE_LEN, SALT_LEN, TAG_LEN};
use crate::types::KdfParams;

verus! {

/// An encrypted copy of the content key: sealed under one root key with its
/// own nonce, independently decryptable.
#[derive(Debug)]
pub struct KeySlot {
    pub nonce: Vec<u8>,
    pub ct: Vec<u8>,
}

/// Mathematical model of a key slot.
#[verifier::ext_equal]
pub struct SlotModel {
    pub nonce: Seq<u8>,
    pub ct: Seq<u8>,
}

impl View for KeySlot {
    type V = SlotModel;

    open spec fn view(&self) -> SlotModel {
        SlotModel { nonce: self.nonce@, ct: self.ct@ }
    }
}

/// A slot's fixed wire shape: a full nonce and a sealed key.
pub open spec fn slot_wf(s: SlotModel) -> bool {
    &&& s.nonce.len() == NONCE_LEN
    &&& s.ct.len() == KEY_LEN + TAG_LEN
}

/// The parsed container header.
#[derive(Debug)]
pub struct Header {
    pub params: KdfParams,
    pub chunk_size: u32,
    pub salt: Vec<u8>,
    pub base_nonce: Vec<u8>,
    pub slots: Vec<KeySlot>,
    pub tag: Vec<u8>,
}

/// Mathematical model of a header.
#[verifier::ext_equal]
pub struct HeaderModel {
    pub params: KdfParams,
    pub chunk_size: u32,
    pub salt: Seq<u8>,
    pub base_nonce: Seq<u8>,
    pub slots: Seq<SlotModel>,
    pub tag: Seq<u8>,
}

impl View for Header {
    type V = HeaderModel;

    open spec fn view(&self) -> HeaderModel {
        HeaderModel {
            params: self.params,
            chunk_size: self.chunk_size,
            salt: self.salt@,
            base_nonce: self.base_nonce@,
            slots: self.slots@.map_values(|s: KeySlot| s@),
            tag: self.tag@,
        }
    }
}

/// A header is well formed when every field has its fixed format: valid
/// cost parameters, a nonzero chunk size, fixed-length salt, base nonce and
/// tag, and between one and 255 well-formed key slots.
pub open spec fn header_wf(h: HeaderModel) -> bool {
    &&& h.params.valid()
    &&& 1 <= h.chunk_size
    &&& h.salt.len() == SALT_LEN
    &&& h.base_nonce.len() == BASE_NONCE_LEN
    &&& 1 <= h.slots.len() <= 255
    &&& forall|i: int| 0 <= i < h.slots.len() ==> slot_wf(#[trigger] h.slots[i])
    &&& h.tag.len() == TAG_LEN
}

} // verus!
