//! The order of the function directory: names compared as sequences of
//! UTF-16 code units.

use vstd::prelude::*;
use std::cmp::Ordering;

verus! {

/// The `index`-th UTF-16 code unit of a name in little-endian bytes.
pub open spec fn unit_at(name: Seq<u8>, index: int) -> int {
    name[2 * index] + 256 * name[2 * index + 1]
}

/// How two names compare, one code unit after the other: negative where `a`
/// comes first, zero where neither does, positive where `b` comes first. A
/// name that is a prefix of the other comes first; a last odd byte does not
/// count.
pub open spec fn unit_order(a: Seq<u8>, b: Seq<u8>) -> int
    decreases a.len(),
{
    if a.len() < 2 {
        if b.len() < 2 {
            0
        } else {
            -1
        }
    } else if b.len() < 2 {
        1
    } else if unit_at(a, 0) < unit_at(b, 0) {
        -1
    } else if unit_at(a, 0) > unit_at(b, 0) {
        1
    } else {
        unit_order(a.skip(2), b.skip(2))
    }
}

/// Turning a comparison round turns its result round.
pub proof fn lemma_order_mirror(a: Seq<u8>, b: Seq<u8>)
    ensures
        unit_order(a, b) == -unit_order(b, a),
    decreases a.len(),
{
    if a.len() >= 2 && b.len() >= 2 && unit_at(a, 0) == unit_at(b, 0) {
        lemma_order_mirror(a.skip(2), b.skip(2));
    }
}

/// The order of names is transitive.
pub proof fn lemma_order_transitive(a: Seq<u8>, b: Seq<u8>, c: Seq<u8>)
    requires
        unit_order(a, b) <= 0,
        unit_order(b, c) <= 0,
    ensures
        unit_order(a, c) <= 0,
        unit_order(a, b) < 0 || unit_order(b, c) < 0 ==> unit_order(a, c) < 0,
    decreases a.len(),
{
    if a.len() >= 2 && b.len() >= 2 && c.len() >= 2 && unit_at(a, 0) == unit_at(b, 0) && unit_at(
        b,
        0,
    ) == unit_at(c, 0) {
        lemma_order_transitive(a.skip(2), b.skip(2), c.skip(2));
    }
}

/// Dropping a common first code unit from two names leaves their order.
proof fn lemma_order_step(a: Seq<u8>, b: Seq<u8>, done: usize)
    requires
        2 * done + 2 <= a.len(),
        2 * done + 2 <= b.len(),
        unit_at(a, done as int) == unit_at(b, done as int),
    ensures
        unit_order(a.skip(2 * done), b.skip(2 * done)) == unit_order(
            a.skip(2 * done + 2),
            b.skip(2 * done + 2),
        ),
{
    assert(a.skip(2 * done).skip(2) =~= a.skip(2 * done + 2));
    assert(b.skip(2 * done).skip(2) =~= b.skip(2 * done + 2));
}

/// Compares two names in UTF-16LE bytes by their code units.
pub fn cmp_utf16(lhs: &[u8], rhs: &[u8]) -> (order: Ordering)
    ensures
        match order {
            Ordering::Less => unit_order(lhs@, rhs@) < 0,
            Ordering::Equal => unit_order(lhs@, rhs@) == 0,
            Ordering::Greater => unit_order(lhs@, rhs@) > 0,
        },
{
    let left_len: usize = lhs.len();
    let right_len: usize = rhs.len();
    let left_units: usize = left_len / 2;
    let right_units: usize = right_len / 2;
    let mut i: usize = 0;
    assert(lhs@.skip(0) =~= lhs@ && rhs@.skip(0) =~= rhs@);
    while i < left_units && i < right_units
        invariant
            i <= left_units,
            i <= right_units,
            left_len == lhs@.len(),
            right_len == rhs@.len(),
            left_units == left_len / 2,
            right_units == right_len / 2,
            unit_order(lhs@, rhs@) == unit_order(lhs@.skip(2 * i), rhs@.skip(2 * i)),
        decreases left_units - i,
    {
        let l_low: u8 = lhs[2 * i];
        let l_high: u8 = lhs[2 * i + 1];
        let r_low: u8 = rhs[2 * i];
        let r_high: u8 = rhs[2 * i + 1];
        if l_high < r_high || (l_high == r_high && l_low < r_low) {
            return Ordering::Less;
        }
        if l_high > r_high || l_low > r_low {
            return Ordering::Greater;
        }
        proof {
            lemma_order_step(lhs@, rhs@, i);
        }
        i += 1;
    }
    if left_units < right_units {
        Ordering::Less
    } else if left_units > right_units {
        Ordering::Greater
    } else {
        Ordering::Equal
    }
}

} // verus!
