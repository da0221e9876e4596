//! Putting the addresses of a directory in ascending order.

use vstd::prelude::*;
use vstd::relations::sorted_by;
use vstd::relations::total_ordering;
use vstd::seq_lib::lemma_sorted_unique;

verus! {

/// The order of addresses.
pub open spec fn at_most() -> spec_fn(u32, u32) -> bool {
    |a: u32, b: u32| a <= b
}

/// The addresses in ascending order.
pub open spec fn ascending(addresses: Seq<u32>) -> Seq<u32> {
    addresses.sort_by(at_most())
}

/// Sorting keeps every address, as often as it occurs, and puts the
/// addresses in ascending order; no other sequence does both.
pub proof fn lemma_ascending(addresses: Seq<u32>)
    ensures
        ascending(addresses).to_multiset() == addresses.to_multiset(),
        ascending(addresses).len() == addresses.len(),
        sorted_by(ascending(addresses), at_most()),
        forall|i: int|
            0 <= i < addresses.len() ==> addresses.contains(#[trigger] ascending(addresses)[i]),
        forall|other: Seq<u32>|
            sorted_by(other, at_most()) && other.to_multiset() == addresses.to_multiset()
                ==> other == ascending(addresses),
{
    broadcast use vstd::seq_lib::group_to_multiset_ensures;

    assert(total_ordering(at_most()));
    addresses.lemma_sort_by_ensures(at_most());
    let sorted = ascending(addresses);
    assert(sorted.to_multiset().len() == addresses.to_multiset().len());
    assert forall|i: int| 0 <= i < addresses.len() implies addresses.contains(
        #[trigger] sorted[i],
    ) by {
        assert(sorted.contains(sorted[i]));
    }
    assert forall|other: Seq<u32>|
        sorted_by(other, at_most()) && other.to_multiset() == addresses.to_multiset() implies other
        == sorted by {
        lemma_sorted_unique(other, sorted, at_most());
    }
}

/// Puts the addresses in ascending order.
pub fn sort_addresses(addresses: &Vec<u32>) -> (sorted: Vec<u32>)
    ensures
        sorted@ == ascending(addresses@),
{
    let mut sorted: Vec<u32> = Vec::new();
    let mut i: usize = 0;
    assert(addresses@.take(0) =~= Seq::empty());
    while i < addresses.len()
        invariant
            i <= addresses.len(),
            sorted_by(sorted@, at_most()),
            sorted@.to_multiset() == addresses@.take(i as int).to_multiset(),
        decreases addresses.len() - i,
    {
        let next = addresses[i];
        let mut at: usize = sorted.len();
        while at > 0 && sorted[at - 1] > next
            invariant
                at <= sorted.len(),
                forall|k: int| at <= k < sorted.len() ==> sorted@[k] > next,
            decreases at,
        {
            at -= 1;
        }
        let ghost before = sorted@;
        sorted.insert(at, next);
        proof {
            vstd::seq_lib::to_multiset_insert(before, at as int, next);
            assert(addresses@.take(i + 1) =~= addresses@.take(i as int).push(next));
            vstd::seq_lib::to_multiset_build(addresses@.take(i as int), next);
            assert forall|a: int, b: int| 0 <= a < b < sorted@.len() implies #[trigger] at_most()(
                sorted@[a],
                sorted@[b],
            ) by {
                if a < at && b > at {
                    assert(at_most()(before[a], before[b - 1]));
                } else if a < at && b == at {
                    if at > 0 {
                        assert(at_most()(before[a], before[at - 1]));
                    }
                } else if a < at {
                    assert(at_most()(before[a], before[b]));
                } else if a == at {
                } else {
                    assert(at_most()(before[a - 1], before[b - 1]));
                }
            }
        }
        i += 1;
    }
    proof {
        assert(addresses@.take(i as int) =~= addresses@);
        lemma_ascending(addresses@);
    }
    sorted
}

} // verus!
