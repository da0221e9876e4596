//! The records of the named functions in a directory, and their order.

use vstd::prelude::*;
use std::cmp::Ordering;
use crate::order::cmp_utf16;
use crate::order::lemma_order_mirror;
use crate::order::lemma_order_transitive;
use crate::order::unit_order;

verus! {

/// A record of the directory: where a named function starts, and its name
/// in UTF-16LE bytes.
pub struct Entry {
    pub address: u32,
    pub name: Seq<u8>,
}

/// A record of the directory whose name is borrowed from the bytecode.
pub struct Named<'a> {
    pub address: u32,
    pub name: &'a [u8],
}

impl<'a> View for Named<'a> {
    type V = Entry;

    open spec fn view(&self) -> Entry {
        Entry { address: self.address, name: self.name@ }
    }
}

/// The views of a list of records.
pub open spec fn entries(records: Seq<Named>) -> Seq<Entry> {
    records.map_values(|r: Named| r@)
}

/// Puts `entry` into a sorted list: behind every record whose name does not
/// come after its own.
pub open spec fn insert_entry(sorted: Seq<Entry>, entry: Entry) -> Seq<Entry>
    decreases sorted.len(),
{
    if sorted.len() > 0 && unit_order(entry.name, sorted.last().name) < 0 {
        insert_entry(sorted.drop_last(), entry).push(sorted.last())
    } else {
        sorted.push(entry)
    }
}

/// The records in the order of their names; records of one name keep the
/// order in which they came.
pub open spec fn sort_entries(listed: Seq<Entry>) -> Seq<Entry>
    decreases listed.len(),
{
    if listed.len() == 0 {
        listed
    } else {
        insert_entry(sort_entries(listed.drop_last()), listed.last())
    }
}

/// Where a record goes into a sorted list: every record from there on comes
/// after it, and the one before does not.
proof fn lemma_insert_at(sorted: Seq<Entry>, entry: Entry, at: int)
    requires
        0 <= at <= sorted.len(),
        forall|k: int| at <= k < sorted.len() ==> unit_order(entry.name, sorted[k].name) < 0,
        at > 0 ==> unit_order(entry.name, sorted[at - 1].name) >= 0,
    ensures
        insert_entry(sorted, entry) == sorted.insert(at, entry),
    decreases sorted.len(),
{
    if at == sorted.len() {
        assert(sorted.push(entry) =~= sorted.insert(at, entry));
    } else {
        let rest = sorted.drop_last();
        lemma_insert_at(rest, entry, at);
        assert(rest.insert(at, entry).push(sorted.last()) =~= sorted.insert(at, entry));
    }
}

/// Putting a record into a list makes it one longer, and what holds of the
/// record and of every record of the list holds of every record of the
/// result.
pub proof fn lemma_insert_keeps(sorted: Seq<Entry>, entry: Entry, keeps: spec_fn(Entry) -> bool)
    requires
        keeps(entry),
        forall|k: int| 0 <= k < sorted.len() ==> keeps(#[trigger] sorted[k]),
    ensures
        insert_entry(sorted, entry).len() == sorted.len() + 1,
        forall|k: int|
            0 <= k < insert_entry(sorted, entry).len() ==> keeps(
                #[trigger] insert_entry(sorted, entry)[k],
            ),
    decreases sorted.len(),
{
    if sorted.len() > 0 && unit_order(entry.name, sorted.last().name) < 0 {
        let rest = sorted.drop_last();
        assert forall|k: int| 0 <= k < rest.len() implies keeps(#[trigger] rest[k]) by {
            assert(rest[k] == sorted[k]);
        }
        lemma_insert_keeps(rest, entry, keeps);
        assert(keeps(sorted[sorted.len() - 1]));
    }
}

/// Sorting keeps the number of records, and what holds of every record
/// holds of every record of the result.
pub proof fn lemma_sort_keeps(listed: Seq<Entry>, keeps: spec_fn(Entry) -> bool)
    requires
        forall|k: int| 0 <= k < listed.len() ==> keeps(#[trigger] listed[k]),
    ensures
        sort_entries(listed).len() == listed.len(),
        forall|k: int|
            0 <= k < sort_entries(listed).len() ==> keeps(#[trigger] sort_entries(listed)[k]),
    decreases listed.len(),
{
    if listed.len() > 0 {
        let rest = listed.drop_last();
        assert forall|k: int| 0 <= k < rest.len() implies keeps(#[trigger] rest[k]) by {
            assert(rest[k] == listed[k]);
        }
        lemma_sort_keeps(rest, keeps);
        assert(keeps(listed[listed.len() - 1]));
        lemma_insert_keeps(sort_entries(rest), listed.last(), keeps);
    }
}

/// Whether the records stand in the order of their names: no record comes
/// behind one whose name comes after its own.
pub open spec fn in_order(listed: Seq<Entry>) -> bool {
    forall|i: int, j: int|
        0 <= i < j < listed.len() ==> unit_order(
            (#[trigger] listed[i]).name,
            (#[trigger] listed[j]).name,
        ) <= 0
}

/// Putting a record into a list in order leaves it in order.
pub proof fn lemma_insert_in_order(sorted: Seq<Entry>, entry: Entry)
    requires
        in_order(sorted),
    ensures
        in_order(insert_entry(sorted, entry)),
    decreases sorted.len(),
{
    let after = insert_entry(sorted, entry);
    if sorted.len() > 0 && unit_order(entry.name, sorted.last().name) < 0 {
        let rest = sorted.drop_last();
        let last = sorted.last();
        assert forall|i: int, j: int| 0 <= i < j < rest.len() implies unit_order(
            (#[trigger] rest[i]).name,
            (#[trigger] rest[j]).name,
        ) <= 0 by {
            assert(rest[i] == sorted[i] && rest[j] == sorted[j]);
        }
        lemma_insert_in_order(rest, entry);
        let inner = insert_entry(rest, entry);
        lemma_insert_keeps(
            rest,
            entry,
            |e: Entry| unit_order(e.name, last.name) <= 0,
        );
        assert forall|k: int| 0 <= k < rest.len() implies unit_order(
            (#[trigger] rest[k]).name,
            last.name,
        ) <= 0 by {
            assert(rest[k] == sorted[k]);
            assert(last == sorted[sorted.len() - 1]);
        }
        assert forall|i: int, j: int| 0 <= i < j < after.len() implies unit_order(
            (#[trigger] after[i]).name,
            (#[trigger] after[j]).name,
        ) <= 0 by {
            if j < inner.len() {
                assert(after[i] == inner[i] && after[j] == inner[j]);
            } else {
                assert(after[i] == inner[i]);
            }
        }
    } else {
        assert forall|i: int, j: int| 0 <= i < j < after.len() implies unit_order(
            (#[trigger] after[i]).name,
            (#[trigger] after[j]).name,
        ) <= 0 by {
            if j < sorted.len() {
                assert(after[i] == sorted[i] && after[j] == sorted[j]);
            } else {
                assert(after[i] == sorted[i]);
                let last = sorted[sorted.len() - 1];
                lemma_order_mirror(entry.name, last.name);
                if i < sorted.len() - 1 {
                    lemma_order_transitive(sorted[i].name, last.name, entry.name);
                }
            }
        }
    }
}

/// The directory lists the named functions in the order of their names,
/// compared by UTF-16 code units.
pub proof fn lemma_sort_in_order(listed: Seq<Entry>)
    ensures
        in_order(sort_entries(listed)),
    decreases listed.len(),
{
    if listed.len() > 0 {
        lemma_sort_in_order(listed.drop_last());
        lemma_insert_in_order(sort_entries(listed.drop_last()), listed.last());
    }
}

/// Puts the records of a directory in the order of their names.
pub fn sort_directory<'a>(listed: Vec<Named<'a>>) -> (sorted: Vec<Named<'a>>)
    ensures
        entries(sorted@) == sort_entries(entries(listed@)),
{
    let mut sorted: Vec<Named<'a>> = Vec::new();
    let mut i: usize = 0;
    assert(entries(listed@).take(0) =~= Seq::empty());
    assert(entries(sorted@) =~= Seq::empty());
    while i < listed.len()
        invariant
            i <= listed.len(),
            entries(sorted@) == sort_entries(entries(listed@).take(i + 0)),
        decreases listed.len() - i,
    {
        let address: u32 = listed[i].address;
        let name: &'a [u8] = listed[i].name;
        let mut at: usize = sorted.len();
        while at > 0 && is_before(name, sorted[at - 1].name)
            invariant
                at <= sorted.len(),
                forall|k: int| at <= k < sorted.len() ==> unit_order(name@, sorted@[k].name@) < 0,
            decreases at,
        {
            at -= 1;
        }
        let ghost prior = sorted@;
        let ghost before = entries(sorted@);
        let ghost entry = Entry { address, name: name@ };
        sorted.insert(at, Named { address, name });
        proof {
            let done = entries(listed@).take(i + 0);
            let next = entries(listed@).take(i + 1);
            assert(next.drop_last() =~= done);
            assert(next.last() == entry);
            assert(entries(sorted@) =~= before.insert(at + 0, entry));
            assert forall|k: int| at <= k < before.len() implies unit_order(
                entry.name,
                #[trigger] before[k].name,
            ) < 0 by {
                assert(before[k] == prior[k]@);
            }
            lemma_insert_at(before, entry, at + 0);
        }
        i += 1;
    }
    assert(entries(listed@).take(i + 0) =~= entries(listed@));
    sorted
}

/// Whether the name `a` comes before the name `b`.
fn is_before(a: &[u8], b: &[u8]) -> (before: bool)
    ensures
        before == (unit_order(a@, b@) < 0),
{
    match cmp_utf16(a, b) {
        Ordering::Less => true,
        Ordering::Equal => false,
        Ordering::Greater => false,
    }
}

} // verus!
