//! The fixed parts of the image container: its signature and the tags of
//! its sections.

use vstd::prelude::*;
use crate::bytes::same_bytes;

verus! {

/// The signature that opens an image, before the eight bytes of its length.
pub const MAGIC: [u8; 56] = [
    0x45, 0x6e, 0x74, 0x69, 0x73, 0x1a, 0x00, 0x00, 0xff, 0xff, 0xff, 0xff, 0x00, 0x00,
    0x00, 0x00, 0x43, 0x6f, 0x74, 0x6f, 0x70, 0x68, 0x61, 0x20, 0x49, 0x6d, 0x61, 0x67,
    0x65, 0x20, 0x66, 0x69, 0x6c, 0x65, 0x00, 0x00, 0x00, 0x00, 0x00, 0x00, 0x00, 0x00,
    0x00, 0x00, 0x00, 0x00, 0x00, 0x00, 0x00, 0x00, 0x00, 0x00, 0x00, 0x00, 0x00, 0x00,
];

/// The length of the header: the signature and the length field.
pub const HEADER_LEN: usize = 64;

pub const TAG_IMAGE: [u8; 8] = [0x69, 0x6d, 0x61, 0x67, 0x65, 0x20, 0x20, 0x20];

pub const TAG_FUNCTION: [u8; 8] = [0x66, 0x75, 0x6e, 0x63, 0x74, 0x69, 0x6f, 0x6e];

pub const TAG_GLOBAL: [u8; 8] = [0x67, 0x6c, 0x6f, 0x62, 0x61, 0x6c, 0x20, 0x20];

pub const TAG_DATA: [u8; 8] = [0x64, 0x61, 0x74, 0x61, 0x20, 0x20, 0x20, 0x20];

pub const TAG_CONSTSTR: [u8; 8] = [0x63, 0x6f, 0x6e, 0x73, 0x74, 0x73, 0x74, 0x72];

pub const TAG_LINKINF: [u8; 8] = [0x6c, 0x69, 0x6e, 0x6b, 0x69, 0x6e, 0x66, 0x20];

/// The number of kinds of section.
pub const SLOTS: usize = 6;

pub const SLOT_IMAGE: usize = 0;

pub const SLOT_FUNCTION: usize = 1;

pub const SLOT_GLOBAL: usize = 2;

pub const SLOT_DATA: usize = 3;

pub const SLOT_CONSTSTR: usize = 4;

pub const SLOT_LINKINF: usize = 5;

/// The place among the six kinds of section that a tag names, in the order
/// in which an image is written; `None` for a tag that names none.
pub open spec fn section_slot(tag: Seq<u8>) -> Option<usize> {
    if tag == TAG_IMAGE@ {
        Some(SLOT_IMAGE)
    } else if tag == TAG_FUNCTION@ {
        Some(SLOT_FUNCTION)
    } else if tag == TAG_GLOBAL@ {
        Some(SLOT_GLOBAL)
    } else if tag == TAG_DATA@ {
        Some(SLOT_DATA)
    } else if tag == TAG_CONSTSTR@ {
        Some(SLOT_CONSTSTR)
    } else if tag == TAG_LINKINF@ {
        Some(SLOT_LINKINF)
    } else {
        None
    }
}

/// The place that `tag` names among the kinds of section.
pub fn slot_of(tag: &[u8; 8]) -> (slot: Option<usize>)
    ensures
        slot == section_slot(tag@),
        slot matches Some(s) ==> s < SLOTS,
{
    if same_bytes(tag, &TAG_IMAGE) {
        Some(SLOT_IMAGE)
    } else if same_bytes(tag, &TAG_FUNCTION) {
        Some(SLOT_FUNCTION)
    } else if same_bytes(tag, &TAG_GLOBAL) {
        Some(SLOT_GLOBAL)
    } else if same_bytes(tag, &TAG_DATA) {
        Some(SLOT_DATA)
    } else if same_bytes(tag, &TAG_CONSTSTR) {
        Some(SLOT_CONSTSTR)
    } else if same_bytes(tag, &TAG_LINKINF) {
        Some(SLOT_LINKINF)
    } else {
        None
    }
}

/// `count` zero bytes.
pub open spec fn zeros(count: nat) -> Seq<u8> {
    Seq::new(count, |i: int| 0u8)
}

/// Whether every byte of `bytes` is zero.
pub fn all_zero(bytes: &[u8]) -> (all: bool)
    ensures
        all == (bytes@ == zeros(bytes@.len())),
{
    let mut i: usize = 0;
    while i < bytes.len()
        invariant
            i <= bytes.len(),
            forall|k: int| 0 <= k < i ==> bytes@[k] == 0,
        decreases bytes.len() - i,
    {
        if bytes[i] != 0 {
            assert(zeros(bytes@.len())[i as int] == 0);
            return false;
        }
        i += 1;
    }
    assert(bytes@ =~= zeros(bytes@.len()));
    true
}

} // verus!
