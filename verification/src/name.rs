//! The name field that opens the bytecode of every function: a tag byte, a
//! count of UTF-16 code units and the units themselves.

use vstd::prelude::*;
use crate::bytes::le_value;
use crate::bytes::read_u32;
use crate::bytes::same_bytes;
use crate::error::Error;
use crate::error::Failure;
use crate::text::lemma_utf16_one_spelling;
use crate::text::prologue_name;
use crate::text::utf16_text;

verus! {

/// The byte that opens a name field.
pub const NAME_TAG: u8 = 4;

/// The name of the prologue as UTF-16LE bytes.
pub const PROLOGUE: [u8; 22] = [
    0x40, 0x00, 0x49, 0x00, 0x6e, 0x00, 0x69, 0x00, 0x74, 0x00, 0x69, 0x00,
    0x61, 0x00, 0x6c, 0x00, 0x69, 0x00, 0x7a, 0x00, 0x65, 0x00,
];

/// The bytes of the name in the name field that starts at `addr` of `image`,
/// if there is a whole one: the tag, four bytes of a count, and twice as
/// many bytes as the count says.
pub open spec fn name_field(image: Seq<u8>, addr: int) -> Option<Seq<u8>> {
    if 0 <= addr && addr + 5 <= image.len() && image[addr] == NAME_TAG {
        let len = 2 * le_value(image.subrange(addr + 1, addr + 5));
        if addr + 5 + len <= image.len() {
            Some(image.subrange(addr + 5, addr + 5 + len))
        } else {
            None
        }
    } else {
        None
    }
}

/// The bytes of the name whose field starts at `addr` of `image`, or
/// `BadAddress` where no whole name field starts there.
pub fn extract_name(image: &[u8], addr: u32) -> (found: Result<&[u8], Error>)
    ensures
        match found {
            Ok(name) => name_field(image@, addr as int) == Some(name@),
            Err(e) => e@ == Failure::BadAddress && name_field(image@, addr as int) is None,
        },
{
    let start: usize = addr as usize;
    if start > image.len() || image.len() - start < 5 {
        return Err(Error::BadAddress);
    }
    if image[start] != NAME_TAG {
        return Err(Error::BadAddress);
    }
    let count_bytes = vstd::slice::slice_subrange(image, start + 1, start + 5);
    assert(count_bytes@.take(4) =~= count_bytes@);
    let count: u32 = read_u32(count_bytes);
    let wanted: u64 = 2 * (count as u64);
    let left: usize = image.len() - start - 5;
    if wanted > left as u64 {
        return Err(Error::BadAddress);
    }
    let len: usize = wanted as usize;
    Ok(vstd::slice::slice_subrange(image, start + 5, start + 5 + len))
}

/// Checks that the name field at `addr` of `image` holds exactly `name`:
/// `BadAddress` where there is no name field, `BadFunctionName` where it
/// holds another name.
pub fn validate_name(image: &[u8], addr: u32, name: &[u8]) -> (checked: Result<(), Error>)
    ensures
        match checked {
            Ok(_) => name_field(image@, addr as int) == Some(name@),
            Err(e) => match name_field(image@, addr as int) {
                None => e@ == Failure::BadAddress,
                Some(actual) => actual != name@ && e@ == Failure::BadFunctionName,
            },
        },
{
    let actual = extract_name(image, addr)?;
    if !same_bytes(name, actual) {
        return Err(Error::BadFunctionName);
    }
    Ok(())
}

/// The bytes of the prologue's name spell it, and no other bytes do.
pub proof fn lemma_prologue_spelling(name: Seq<u8>)
    ensures
        utf16_text(PROLOGUE@) == Some(prologue_name()),
        utf16_text(name) == Some(prologue_name()) <==> name == PROLOGUE@,
{
    reveal_strlit("@Initialize");
    let text = prologue_name();
    let bytes = PROLOGUE@;
    assert(text.len() == 11);
    let s0 = bytes;
    let s1 = s0.skip(2);
    let s2 = s1.skip(2);
    let s3 = s2.skip(2);
    let s4 = s3.skip(2);
    let s5 = s4.skip(2);
    let s6 = s5.skip(2);
    let s7 = s6.skip(2);
    let s8 = s7.skip(2);
    let s9 = s8.skip(2);
    let s10 = s9.skip(2);
    let s11 = s10.skip(2);
    assert(s11.len() == 0);
    assert(utf16_text(s11) == Some(Seq::<char>::empty()));
    assert(utf16_text(s10) == Some(seq!['e'] + Seq::<char>::empty()));
    assert(utf16_text(s9) == Some(seq!['z'] + utf16_text(s10)->Some_0));
    assert(utf16_text(s8) == Some(seq!['i'] + utf16_text(s9)->Some_0));
    assert(utf16_text(s7) == Some(seq!['l'] + utf16_text(s8)->Some_0));
    assert(utf16_text(s6) == Some(seq!['a'] + utf16_text(s7)->Some_0));
    assert(utf16_text(s5) == Some(seq!['i'] + utf16_text(s6)->Some_0));
    assert(utf16_text(s4) == Some(seq!['t'] + utf16_text(s5)->Some_0));
    assert(utf16_text(s3) == Some(seq!['i'] + utf16_text(s4)->Some_0));
    assert(utf16_text(s2) == Some(seq!['n'] + utf16_text(s3)->Some_0));
    assert(utf16_text(s1) == Some(seq!['I'] + utf16_text(s2)->Some_0));
    assert(utf16_text(s0) == Some(seq!['@'] + utf16_text(s1)->Some_0));
    assert(utf16_text(s0)->Some_0 =~= text);
    if utf16_text(name) == Some(text) {
        lemma_utf16_one_spelling(name, bytes);
    }
}

} // verus!
