//! Function names as text: decoding from UTF-16LE and UTF-8, and the tests
//! that the merge rules make on a name.

use vstd::prelude::*;
use vstd::string::StrSliceExecFns;
use vstd::utf8::decode_utf8;
use vstd::utf8::valid_utf8;
use compact_str::CompactString;

verus! {

/// The UTF-16 code unit that two bytes spell in little-endian order.
pub open spec fn code_unit(low: u8, high: u8) -> u32 {
    (low as u32 + 256 * high as u32) as u32
}

/// Whether a code unit is the first half of a surrogate pair.
pub open spec fn is_high_surrogate(unit: u32) -> bool {
    0xD800 <= unit < 0xDC00
}

/// Whether a code unit is the second half of a surrogate pair.
pub open spec fn is_low_surrogate(unit: u32) -> bool {
    0xDC00 <= unit < 0xE000
}

/// The scalar value that a surrogate pair stands for.
pub open spec fn pair_scalar(high: u32, low: u32) -> u32 {
    (0x1_0000 + (high - 0xD800) * 0x400 + (low - 0xDC00)) as u32
}

/// The text that `bytes` holds as UTF-16LE, if they are well formed: an even
/// number of bytes, every code unit outside the surrogate range standing for
/// itself, every high surrogate followed by a low one.
pub open spec fn utf16_text(bytes: Seq<u8>) -> Option<Seq<char>>
    decreases bytes.len(),
{
    if bytes.len() == 0 {
        Some(Seq::empty())
    } else if bytes.len() < 2 {
        None
    } else {
        let unit = code_unit(bytes[0], bytes[1]);
        if !is_high_surrogate(unit) && !is_low_surrogate(unit) {
            match utf16_text(bytes.skip(2)) {
                Some(rest) => Some(seq![unit as char] + rest),
                None => None,
            }
        } else if is_high_surrogate(unit) && bytes.len() >= 4 && is_low_surrogate(
            code_unit(bytes[2], bytes[3]),
        ) {
            match utf16_text(bytes.skip(4)) {
                Some(rest) => Some(
                    seq![pair_scalar(unit, code_unit(bytes[2], bytes[3])) as char] + rest,
                ),
                None => None,
            }
        } else {
            None
        }
    }
}

/// Decodes UTF-16LE bytes into a string.
///
/// Trusted: calls `CompactString::from_utf16le` of compact_str and copies the
/// result into a `String`. The contract claims that the call succeeds exactly
/// on well-formed UTF-16 of even length and then returns the text that
/// [`utf16_text`] describes, which is how the Unicode standard defines the
/// decoding that the crate documents.
#[verifier::external_body]
pub(crate) fn decode_utf16le(bytes: &[u8]) -> (text: Option<String>)
    ensures
        match text {
            Some(s) => utf16_text(bytes@) == Some(s@),
            None => utf16_text(bytes@) is None,
        },
{
    match CompactString::from_utf16le(bytes) {
        Ok(s) => Some(s.into_string()),
        Err(_) => None,
    }
}

/// Decodes UTF-8 bytes into a string.
///
/// Trusted: calls `CompactString::from_utf8` of compact_str and copies the
/// result into a `String`. The contract claims that the call succeeds exactly
/// on valid UTF-8 and then returns the text that the bytes encode; the crate
/// validates with the standard library's `str::from_utf8`.
#[verifier::external_body]
pub(crate) fn decode_utf8_name(bytes: &[u8]) -> (text: Result<String, core::str::Utf8Error>)
    ensures
        text is Ok == valid_utf8(bytes@),
        text matches Ok(s) ==> s@ == decode_utf8(bytes@),
{
    match CompactString::from_utf8(bytes) {
        Ok(s) => Ok(s.into_string()),
        Err(e) => Err(e),
    }
}

/// Whether two strings hold the same text.
pub fn same_text(a: &str, b: &str) -> (same: bool)
    ensures
        same == (a@ == b@),
{
    proof {
        vstd::utf8::encode_utf8_decode_utf8(a@);
        vstd::utf8::encode_utf8_decode_utf8(b@);
    }
    crate::bytes::same_bytes(a.as_bytes(), b.as_bytes())
}

/// A name is reserved when it begins with `@`.
pub open spec fn reserved(name: Seq<char>) -> bool {
    name.len() > 0 && name[0] == '@'
}

/// Whether `name` is reserved.
pub fn is_reserved(name: &str) -> (r: bool)
    ensures
        r == reserved(name@),
{
    !name.is_empty() && name.get_char(0) == '@'
}

/// The one reserved name that an image may hold: that of its prologue.
pub open spec fn prologue_name() -> Seq<char> {
    "@Initialize"@
}

/// Whether `name` is the name of the prologue.
pub fn is_prologue(name: &str) -> (r: bool)
    ensures
        r == (name@ == prologue_name()),
{
    same_text(name, "@Initialize")
}

/// The UTF-16LE bytes of a name that begins with `@`.
pub open spec fn reserved_bytes(name: Seq<u8>) -> bool {
    name.len() >= 2 && name[0] == 0x40 && name[1] == 0
}

/// A scalar value below the surrogates, or between them and the end of the
/// code space, is the character it is cast to.
proof fn lemma_scalar_char(scalar: u32)
    requires
        scalar < 0xD800 || 0xE000 <= scalar <= 0x10FFFF,
    ensures
        (scalar as char) as u32 == scalar,
{
}

/// A text begins with `@` exactly when its UTF-16LE bytes do.
pub proof fn lemma_reserved_bytes(bytes: Seq<u8>)
    requires
        utf16_text(bytes) is Some,
    ensures
        reserved(utf16_text(bytes)->Some_0) == reserved_bytes(bytes),
{
    if bytes.len() >= 2 {
        let unit = code_unit(bytes[0], bytes[1]);
        let text = utf16_text(bytes)->Some_0;
        if !is_high_surrogate(unit) && !is_low_surrogate(unit) {
            let rest = utf16_text(bytes.skip(2))->Some_0;
            assert(text == seq![unit as char] + rest);
            assert(text[0] == unit as char);
            lemma_scalar_char(unit);
            assert('@' as u32 == 0x40);
        } else {
            let second = code_unit(bytes[2], bytes[3]);
            let scalar = pair_scalar(unit, second);
            let rest = utf16_text(bytes.skip(4))->Some_0;
            assert(text == seq![scalar as char] + rest);
            assert(text[0] == scalar as char);
            lemma_scalar_char(scalar);
            assert('@' as u32 == 0x40);
        }
    }
}

/// One text has one spelling in UTF-16LE.
pub proof fn lemma_utf16_one_spelling(a: Seq<u8>, b: Seq<u8>)
    requires
        utf16_text(a) is Some,
        utf16_text(a) == utf16_text(b),
    ensures
        a == b,
    decreases a.len(),
{
    let text = utf16_text(a)->Some_0;
    if a.len() == 0 || b.len() == 0 {
        if a.len() >= 2 {
            let unit = code_unit(a[0], a[1]);
            if !is_high_surrogate(unit) && !is_low_surrogate(unit) {
                assert(text == seq![unit as char] + utf16_text(a.skip(2))->Some_0);
            } else {
                assert(text == seq![pair_scalar(unit, code_unit(a[2], a[3])) as char] + utf16_text(
                    a.skip(4),
                )->Some_0);
            }
            assert(text.len() > 0);
        }
        if b.len() >= 2 {
            let unit = code_unit(b[0], b[1]);
            if !is_high_surrogate(unit) && !is_low_surrogate(unit) {
                assert(text == seq![unit as char] + utf16_text(b.skip(2))->Some_0);
            } else {
                assert(text == seq![pair_scalar(unit, code_unit(b[2], b[3])) as char] + utf16_text(
                    b.skip(4),
                )->Some_0);
            }
            assert(text.len() > 0);
        }
        assert(a =~= b);
    } else {
        let ua = code_unit(a[0], a[1]);
        let ub = code_unit(b[0], b[1]);
        let single_a = !is_high_surrogate(ua) && !is_low_surrogate(ua);
        let single_b = !is_high_surrogate(ub) && !is_low_surrogate(ub);
        let scalar_a = if single_a {
            ua
        } else {
            pair_scalar(ua, code_unit(a[2], a[3]))
        };
        let scalar_b = if single_b {
            ub
        } else {
            pair_scalar(ub, code_unit(b[2], b[3]))
        };
        let width_a: int = if single_a {
            2
        } else {
            4
        };
        let width_b: int = if single_b {
            2
        } else {
            4
        };
        let rest_a = utf16_text(a.skip(width_a))->Some_0;
        let rest_b = utf16_text(b.skip(width_b))->Some_0;
        assert(text == seq![scalar_a as char] + rest_a);
        assert(text == seq![scalar_b as char] + rest_b);
        assert(text[0] == scalar_a as char && text[0] == scalar_b as char);
        lemma_scalar_char(scalar_a);
        lemma_scalar_char(scalar_b);
        assert(scalar_a == scalar_b);
        assert(single_a == single_b);
        assert(rest_a =~= text.skip(1));
        assert(rest_b =~= text.skip(1));
        if single_a {
            assert(a[0] == b[0] && a[1] == b[1]);
        } else {
            let la = code_unit(a[2], a[3]);
            let lb = code_unit(b[2], b[3]);
            assert(ua == ub && la == lb) by {
                assert((ua - 0xD800) * 0x400 + (la - 0xDC00) == (ub - 0xD800) * 0x400 + (lb
                    - 0xDC00));
            }
            assert(a[0] == b[0] && a[1] == b[1] && a[2] == b[2] && a[3] == b[3]);
        }
        lemma_utf16_one_spelling(a.skip(width_a), b.skip(width_a));
        assert(a =~= a.take(width_a) + a.skip(width_a));
        assert(b =~= b.take(width_a) + b.skip(width_a));
        assert(a.take(width_a) =~= b.take(width_a));
    }
}

} // verus!
