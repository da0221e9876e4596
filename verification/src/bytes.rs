//! Reading from and writing to byte strings: little-endian numbers, prefixes
//! and a cursor whose reads fail without moving it.

use vstd::prelude::*;
use crate::error::Error;
use crate::error::Failure;

verus! {

/// The number that `bytes` spells in little-endian order.
pub open spec fn le_value(bytes: Seq<u8>) -> nat
    decreases bytes.len(),
{
    if bytes.len() == 0 {
        0
    } else {
        bytes[0] as nat + 256 * le_value(bytes.skip(1))
    }
}

/// The `width` bytes that spell `value` in little-endian order. A value too
/// large for the width loses its high part.
pub open spec fn le_bytes(value: nat, width: nat) -> Seq<u8>
    decreases width,
{
    if width == 0 {
        Seq::empty()
    } else {
        seq![(value % 256) as u8] + le_bytes(value / 256, (width - 1) as nat)
    }
}

/// 256 to the power of `width`: the number of values that `width` bytes spell.
pub open spec fn radix(width: nat) -> nat
    decreases width,
{
    if width == 0 {
        1
    } else {
        256 * radix((width - 1) as nat)
    }
}

/// A byte string spells a number below the radix of its length.
pub proof fn lemma_le_value_bound(bytes: Seq<u8>)
    ensures
        le_value(bytes) < radix(bytes.len()),
    decreases bytes.len(),
{
    if bytes.len() > 0 {
        lemma_le_value_bound(bytes.skip(1));
    }
}

/// Spelling a number and reading it back gives the number.
pub proof fn lemma_le_value_of_bytes(value: nat, width: nat)
    requires
        value < radix(width),
    ensures
        le_bytes(value, width).len() == width,
        le_value(le_bytes(value, width)) == value,
    decreases width,
{
    if width > 0 {
        let rest = le_bytes(value / 256, (width - 1) as nat);
        lemma_le_value_of_bytes(value / 256, (width - 1) as nat);
        let whole = le_bytes(value, width);
        assert(whole.skip(1) =~= rest);
    }
}

/// Reading a number and spelling it again gives the same bytes.
pub proof fn lemma_le_bytes_of_value(bytes: Seq<u8>)
    ensures
        le_bytes(le_value(bytes), bytes.len()) == bytes,
    decreases bytes.len(),
{
    if bytes.len() > 0 {
        lemma_le_bytes_of_value(bytes.skip(1));
        let v = le_value(bytes);
        assert(v % 256 == bytes[0]);
        assert(v / 256 == le_value(bytes.skip(1)));
        assert(le_bytes(v, bytes.len()) =~= bytes);
    } else {
        assert(le_bytes(le_value(bytes), bytes.len()) =~= bytes);
    }
}

/// The spelling has the width asked for.
pub proof fn lemma_le_bytes_len(value: nat, width: nat)
    ensures
        le_bytes(value, width).len() == width,
    decreases width,
{
    if width > 0 {
        lemma_le_bytes_len(value / 256, (width - 1) as nat);
    }
}

/// The radix of four and of eight bytes.
pub proof fn lemma_radix_values()
    ensures
        radix(4) == 0x1_0000_0000,
        radix(8) == 0x1_0000_0000_0000_0000,
{
    reveal_with_fuel(radix, 9);
}

/// Whether two byte strings are the same.
pub fn same_bytes(a: &[u8], b: &[u8]) -> (same: bool)
    ensures
        same == (a@ == b@),
{
    if a.len() != b.len() {
        return false;
    }
    let mut i: usize = 0;
    while i < a.len()
        invariant
            i <= a.len(),
            a.len() == b.len(),
            forall|k: int| 0 <= k < i ==> a@[k] == b@[k],
        decreases a.len() - i,
    {
        if a[i] != b[i] {
            return false;
        }
        i += 1;
    }
    assert(a@ =~= b@);
    true
}

/// Whether `bytes` begins with `prefix`.
pub fn starts_with(bytes: &[u8], prefix: &[u8]) -> (found: bool)
    ensures
        found == prefix@.is_prefix_of(bytes@),
{
    if prefix.len() > bytes.len() {
        return false;
    }
    let mut i: usize = 0;
    while i < prefix.len()
        invariant
            i <= prefix.len(),
            prefix.len() <= bytes.len(),
            forall|k: int| 0 <= k < i ==> bytes@[k] == prefix@[k],
        decreases prefix.len() - i,
    {
        if bytes[i] != prefix[i] {
            assert(bytes@.subrange(0, prefix@.len() as int)[i as int] != prefix@[i as int]);
            return false;
        }
        i += 1;
    }
    assert(bytes@.subrange(0, prefix@.len() as int) =~= prefix@);
    true
}

/// Reads the little-endian number in the first four bytes of `bytes`.
pub fn read_u32(bytes: &[u8]) -> (value: u32)
    requires
        bytes@.len() >= 4,
    ensures
        value == le_value(bytes@.take(4)),
{
    let b0: u32 = bytes[0] as u32;
    let b1: u32 = bytes[1] as u32;
    let b2: u32 = bytes[2] as u32;
    let b3: u32 = bytes[3] as u32;
    proof {
        let s = bytes@.take(4);
        reveal_with_fuel(le_value, 5);
        assert(s.skip(1).skip(1).skip(1).skip(1).len() == 0);
        assert(s[0] == bytes@[0] && s.skip(1)[0] == bytes@[1]);
        assert(s.skip(1).skip(1)[0] == bytes@[2]);
        assert(s.skip(1).skip(1).skip(1)[0] == bytes@[3]);
    }
    b0 + b1 * 0x100 + b2 * 0x1_0000 + b3 * 0x100_0000
}

/// Reads the little-endian number in the first eight bytes of `bytes`.
pub fn read_u64(bytes: &[u8]) -> (value: u64)
    requires
        bytes@.len() >= 8,
    ensures
        value == le_value(bytes@.take(8)),
{
    let b0: u64 = bytes[0] as u64;
    let b1: u64 = bytes[1] as u64;
    let b2: u64 = bytes[2] as u64;
    let b3: u64 = bytes[3] as u64;
    let b4: u64 = bytes[4] as u64;
    let b5: u64 = bytes[5] as u64;
    let b6: u64 = bytes[6] as u64;
    let b7: u64 = bytes[7] as u64;
    proof {
        let s0 = bytes@.take(8);
        let s1 = s0.skip(1);
        let s2 = s1.skip(1);
        let s3 = s2.skip(1);
        let s4 = s3.skip(1);
        let s5 = s4.skip(1);
        let s6 = s5.skip(1);
        let s7 = s6.skip(1);
        reveal_with_fuel(le_value, 9);
        assert(s7.skip(1).len() == 0);
        assert(s0[0] == bytes@[0] && s1[0] == bytes@[1] && s2[0] == bytes@[2] && s3[0]
            == bytes@[3]);
        assert(s4[0] == bytes@[4] && s5[0] == bytes@[5] && s6[0] == bytes@[6] && s7[0]
            == bytes@[7]);
    }
    b0 + b1 * 0x100 + b2 * 0x1_0000 + b3 * 0x100_0000 + b4 * 0x1_0000_0000 + b5
        * 0x100_0000_0000 + b6 * 0x1_0000_0000_0000 + b7 * 0x100_0000_0000_0000
}

/// Appends the four bytes that spell `value`.
pub fn push_u32(out: &mut Vec<u8>, value: u32)
    ensures
        final(out)@ == old(out)@ + le_bytes(value as nat, 4),
{
    let b0: u8 = (value % 0x100) as u8;
    let b1: u8 = (value / 0x100 % 0x100) as u8;
    let b2: u8 = (value / 0x1_0000 % 0x100) as u8;
    let b3: u8 = (value / 0x100_0000) as u8;
    out.push(b0);
    out.push(b1);
    out.push(b2);
    out.push(b3);
    proof {
        reveal_with_fuel(le_bytes, 5);
        let v = value as nat;
        assert(v / 256 / 256 == v / 0x1_0000);
        assert(v / 256 / 256 / 256 == v / 0x100_0000);
        assert(out@ =~= old(out)@ + le_bytes(v, 4));
    }
}

/// Appends the eight bytes that spell `value`.
pub fn push_u64(out: &mut Vec<u8>, value: u64)
    ensures
        final(out)@ == old(out)@ + le_bytes(value as nat, 8),
{
    let mut rest: u64 = value;
    let mut i: usize = 0;
    while i < 8
        invariant
            i <= 8,
            out@ + le_bytes(rest as nat, (8 - i) as nat) == old(out)@ + le_bytes(value as nat, 8),
        decreases 8 - i,
    {
        let ghost before = out@;
        out.push((rest % 0x100) as u8);
        proof {
            let tail = le_bytes((rest / 0x100) as nat, (8 - i - 1) as nat);
            assert(le_bytes(rest as nat, (8 - i) as nat) == seq![(rest % 0x100) as u8] + tail);
            assert(out@ + tail =~= before + (seq![(rest % 0x100) as u8] + tail));
        }
        rest = rest / 0x100;
        i += 1;
    }
    assert(out@ + le_bytes(rest as nat, 0) =~= out@);
}

/// Takes the first `n` bytes off the cursor. Where fewer are left, the read
/// fails and the cursor stays where it is.
pub fn take<'a>(cursor: &mut &'a [u8], n: usize) -> (taken: Result<&'a [u8], Error>)
    ensures
        match taken {
            Ok(head) => n <= old(cursor)@.len() && head@ == old(cursor)@.take(n as int)
                && final(cursor)@ == old(cursor)@.skip(n as int),
            Err(e) => n > old(cursor)@.len() && e@ == Failure::UnexpectedEof && final(cursor)@
                == old(cursor)@,
        },
{
    let all: &'a [u8] = *cursor;
    if n <= all.len() {
        let head = vstd::slice::slice_subrange(all, 0, n);
        *cursor = vstd::slice::slice_subrange(all, n, all.len());
        Ok(head)
    } else {
        Err(Error::UnexpectedEof)
    }
}

/// Takes a little-endian `u32` off the cursor.
pub fn take_u32(cursor: &mut &[u8]) -> (taken: Result<u32, Error>)
    ensures
        match taken {
            Ok(value) => 4 <= old(cursor)@.len() && value == le_value(old(cursor)@.take(4))
                && final(cursor)@ == old(cursor)@.skip(4),
            Err(e) => 4 > old(cursor)@.len() && e@ == Failure::UnexpectedEof && final(cursor)@
                == old(cursor)@,
        },
{
    match take(cursor, 4) {
        Ok(head) => {
            assert(head@.take(4) =~= head@);
            Ok(read_u32(head))
        },
        Err(e) => Err(e),
    }
}

/// Takes a little-endian `u64` off the cursor.
pub fn take_u64(cursor: &mut &[u8]) -> (taken: Result<u64, Error>)
    ensures
        match taken {
            Ok(value) => 8 <= old(cursor)@.len() && value == le_value(old(cursor)@.take(8))
                && final(cursor)@ == old(cursor)@.skip(8),
            Err(e) => 8 > old(cursor)@.len() && e@ == Failure::UnexpectedEof && final(cursor)@
                == old(cursor)@,
        },
{
    match take(cursor, 8) {
        Ok(head) => {
            assert(head@.take(8) =~= head@);
            Ok(read_u64(head))
        },
        Err(e) => Err(e),
    }
}

/// Takes the eight bytes of a section tag off the cursor.
pub fn take_tag(cursor: &mut &[u8]) -> (taken: Result<[u8; 8], Error>)
    ensures
        match taken {
            Ok(tag) => 8 <= old(cursor)@.len() && tag@ == old(cursor)@.take(8) && final(cursor)@
                == old(cursor)@.skip(8),
            Err(e) => 8 > old(cursor)@.len() && e@ == Failure::UnexpectedEof && final(cursor)@
                == old(cursor)@,
        },
{
    match take(cursor, 8) {
        Ok(head) => {
            let mut tag: [u8; 8] = [0u8; 8];
            let mut i: usize = 0;
            while i < 8
                invariant
                    i <= 8,
                    head@.len() == 8,
                    forall|k: int| 0 <= k < i ==> tag@[k] == head@[k],
                decreases 8 - i,
            {
                tag[i] = head[i];
                i += 1;
            }
            assert(tag@ =~= head@);
            Ok(tag)
        },
        Err(e) => Err(e),
    }
}

} // verus!
