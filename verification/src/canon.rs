//! Reading what was written: an image that was read from bytes is written
//! to bytes that read as the same image.

use vstd::prelude::*;
use crate::bytes::le_bytes;
use crate::bytes::le_value;
use crate::bytes::lemma_le_bytes_len;
use crate::bytes::lemma_le_value_of_bytes;
use crate::bytes::lemma_radix_values;
use crate::bytes::radix;
use crate::error::Failure;
use crate::image::FunctionView;
use crate::image::Image;
use crate::name::name_field;
use crate::parse::read_function;
use crate::rebuild::embedded_name;
use crate::rebuild::image_bytes;
use crate::format::section_slot;
use crate::format::zeros;
use crate::format::SLOTS;
use crate::format::SLOT_CONSTSTR;
use crate::format::SLOT_DATA;
use crate::format::SLOT_FUNCTION;
use crate::format::SLOT_GLOBAL;
use crate::format::SLOT_IMAGE;
use crate::format::SLOT_LINKINF;
use crate::format::TAG_CONSTSTR;
use crate::format::TAG_DATA;
use crate::format::TAG_FUNCTION;
use crate::format::TAG_GLOBAL;
use crate::format::TAG_IMAGE;
use crate::format::TAG_LINKINF;
use crate::algebra::allowed_names;
use crate::digest::sha3_224_digest;
use crate::format::HEADER_LEN;
use crate::format::MAGIC;
use crate::listing::insert_entry;
use crate::parse::all_named;
use crate::listing::lemma_sort_keeps;
use crate::name::lemma_prologue_spelling;
use crate::parse::body;
use crate::parse::build_image;
use crate::parse::check_sections;
use crate::parse::index_of;
use crate::parse::parse_image;
use crate::parse::ImageRead;
use crate::rebuild::directory_bytes;
use crate::rebuild::file_bytes;
use crate::rebuild::lemma_embedded_fits;
use crate::rebuild::sections_bytes;
use crate::text::lemma_reserved_bytes;
use crate::text::reserved;
use crate::listing::sort_entries;
use crate::listing::Entry;
use crate::parse::carve;
use crate::parse::cut;
use crate::rebuild::listable;
use crate::rebuild::named_entries;
use crate::rebuild::prologue_starts;
use crate::sort::ascending;
use crate::sort::at_most;
use crate::sort::lemma_ascending;
use crate::text::prologue_name;
use vstd::relations::sorted_by;
use vstd::seq_lib::lemma_multiset_commutative;
use vstd::seq_lib::to_multiset_build;
use crate::parse::nothing_found;
use crate::parse::read_sections;
use crate::parse::Found;
use crate::parse::SectionsRead;
use crate::rebuild::section;
use crate::name::PROLOGUE;
use crate::parse::read_directory;
use crate::parse::read_named;
use crate::parse::read_prologue;
use crate::parse::PrologueRead;
use crate::rebuild::addresses_bytes;
use crate::rebuild::entries_bytes;
use crate::rebuild::entry_bytes;
use crate::rebuild::listing_bytes;
use crate::text::reserved_bytes;

verus! {

/// Whether a function says of itself what it is: its bytecode opens with a
/// name field that spells its name.
pub open spec fn sound(function: FunctionView) -> bool {
    read_function(function.bytecode) == Ok::<FunctionView, Failure>(function)
}

/// Whether every function says of itself what it is.
pub open spec fn all_sound(functions: Seq<FunctionView>) -> bool {
    forall|i: int| 0 <= i < functions.len() ==> sound(#[trigger] functions[i])
}

/// Where the function at `index` starts in the image.
pub open spec fn start(functions: Seq<FunctionView>, index: int) -> nat {
    image_bytes(functions.take(index)).len()
}

/// A function starts where the one before it ends.
pub proof fn lemma_start_next(functions: Seq<FunctionView>, index: int)
    requires
        0 <= index < functions.len(),
    ensures
        start(functions, index + 1) == start(functions, index) + functions[index].bytecode.len(),
{
    assert(functions.take(index + 1).drop_last() =~= functions.take(index));
    assert(functions.take(index + 1).last() == functions[index]);
}

/// Functions start in their order.
pub proof fn lemma_start_order(functions: Seq<FunctionView>, i: int, j: int)
    requires
        0 <= i <= j <= functions.len(),
    ensures
        start(functions, i) <= start(functions, j),
        all_sound(functions) && i < j ==> start(functions, i) + 5 <= start(functions, j),
        all_sound(functions) ==> start(functions, j) >= 5 * j,
        start(functions, 0) == 0,
        start(functions, functions.len() as int) == image_bytes(functions).len(),
    decreases j,
{
    assert(functions.take(0) =~= Seq::empty());
    assert(functions.take(functions.len() as int) =~= functions);
    if j > 0 {
        lemma_start_next(functions, j - 1);
        if i < j {
            lemma_start_order(functions, i, j - 1);
        } else {
            lemma_start_order(functions, 0, j - 1);
        }
        lemma_start_order(functions, 0, j - 1);
        if all_sound(functions) {
            assert(sound(functions[j - 1]));
        }
    }
}

/// The image holds the bytecode of every function where the function
/// starts.
pub proof fn lemma_image_holds(functions: Seq<FunctionView>, index: int)
    requires
        0 <= index < functions.len(),
    ensures
        start(functions, index + 1) <= image_bytes(functions).len(),
        image_bytes(functions).subrange(
            start(functions, index) as int,
            start(functions, index + 1) as int,
        ) == functions[index].bytecode,
    decreases functions.len(),
{
    let before = functions.drop_last();
    lemma_start_next(functions, index);
    if index == functions.len() - 1 {
        assert(functions.take(index) =~= before);
        assert(functions.take(index + 1) =~= functions);
        assert(image_bytes(functions).subrange(
            start(functions, index) as int,
            start(functions, index + 1) as int,
        ) =~= functions[index].bytecode);
    } else {
        lemma_image_holds(before, index);
        assert(before.take(index) =~= functions.take(index));
        assert(before.take(index + 1) =~= functions.take(index + 1));
        assert(before[index] == functions[index]);
        assert(image_bytes(functions).subrange(
            start(functions, index) as int,
            start(functions, index + 1) as int,
        ) =~= image_bytes(before).subrange(
            start(functions, index) as int,
            start(functions, index + 1) as int,
        ));
    }
}

/// A name field of a piece of a byte string is a name field of the string,
/// at the place of the piece.
pub proof fn lemma_name_field_within(whole: Seq<u8>, at: int, end: int)
    requires
        0 <= at <= end <= whole.len(),
        name_field(whole.subrange(at, end), 0) is Some,
    ensures
        name_field(whole, at) == name_field(whole.subrange(at, end), 0),
{
    let piece = whole.subrange(at, end);
    assert(piece.subrange(1, 5) =~= whole.subrange(at + 1, at + 5));
    let len = 2 * le_value(piece.subrange(1, 5)) as int;
    assert(piece.subrange(5, 5 + len) =~= whole.subrange(at + 5, at + 5 + len));
}

/// The image holds the name field of every sound function where the
/// function starts.
pub proof fn lemma_image_names(functions: Seq<FunctionView>, index: int)
    requires
        0 <= index < functions.len(),
        name_field(functions[index].bytecode, 0) is Some,
    ensures
        name_field(image_bytes(functions), start(functions, index) as int) == Some(
            embedded_name(functions[index].bytecode),
        ),
{
    lemma_image_holds(functions, index);
    lemma_start_next(functions, index);
    lemma_name_field_within(
        image_bytes(functions),
        start(functions, index) as int,
        start(functions, index + 1) as int,
    );
}

/// The addresses of a list of records.
pub open spec fn addresses_of(listed: Seq<Entry>) -> Seq<u32> {
    listed.map_values(|e: Entry| e.address)
}

/// A list of addresses is written address by address.
pub proof fn lemma_addresses_first(addresses: Seq<u32>)
    requires
        addresses.len() > 0,
    ensures
        addresses_bytes(addresses) == le_bytes(addresses[0] as nat, 4) + addresses_bytes(
            addresses.skip(1),
        ),
    decreases addresses.len(),
{
    let before = addresses.drop_last();
    if addresses.len() == 1 {
        assert(before =~= Seq::empty());
        assert(addresses.skip(1) =~= Seq::empty());
        assert(addresses_bytes(addresses) =~= le_bytes(addresses[0] as nat, 4)
            + addresses_bytes(addresses.skip(1)));
    } else {
        lemma_addresses_first(before);
        assert(addresses.skip(1).drop_last() =~= before.skip(1));
        assert(addresses.skip(1).last() == addresses.last());
        assert(before[0] == addresses[0]);
        assert(addresses_bytes(addresses) =~= le_bytes(addresses[0] as nat, 4)
            + addresses_bytes(addresses.skip(1)));
    }
}

/// A list of records is written record by record.
pub proof fn lemma_entries_first(listed: Seq<Entry>)
    requires
        listed.len() > 0,
    ensures
        entries_bytes(listed) == entry_bytes(listed[0]) + entries_bytes(listed.skip(1)),
    decreases listed.len(),
{
    let before = listed.drop_last();
    if listed.len() == 1 {
        assert(before =~= Seq::empty());
        assert(listed.skip(1) =~= Seq::empty());
        assert(entries_bytes(listed) =~= entry_bytes(listed[0]) + entries_bytes(listed.skip(1)));
    } else {
        lemma_entries_first(before);
        assert(listed.skip(1).drop_last() =~= before.skip(1));
        assert(listed.skip(1).last() == listed.last());
        assert(before[0] == listed[0]);
        assert(entries_bytes(listed) =~= entry_bytes(listed[0]) + entries_bytes(listed.skip(1)));
    }
}

/// Four bytes that spell an address read as the address.
pub proof fn lemma_read_u32(value: u32, tail: Seq<u8>)
    ensures
        (le_bytes(value as nat, 4) + tail).len() == 4 + tail.len(),
        (le_bytes(value as nat, 4) + tail).take(4) == le_bytes(value as nat, 4),
        (le_bytes(value as nat, 4) + tail).skip(4) == tail,
        le_value(le_bytes(value as nat, 4)) == value,
{
    lemma_radix_values();
    lemma_le_value_of_bytes(value as nat, 4);
    let whole = le_bytes(value as nat, 4) + tail;
    assert(whole.take(4) =~= le_bytes(value as nat, 4));
    assert(whole.skip(4) =~= tail);
}

/// Whether every address points at a name field that holds the prologue's
/// name.
pub open spec fn prologues_at(image: Seq<u8>, addresses: Seq<u32>) -> bool {
    forall|k: int|
        0 <= k < addresses.len() ==> name_field(image, #[trigger] addresses[k] as int) == Some(
            PROLOGUE@,
        )
}

/// Whether a record is as the directory of the image wants it: the address
/// points at a name field that holds the name, and the name is not
/// reserved and is made of whole code units.
pub open spec fn listed_in(image: Seq<u8>, entry: Entry) -> bool {
    &&& name_field(image, entry.address as int) == Some(entry.name)
    &&& !reserved_bytes(entry.name)
    &&& entry.name.len() % 2 == 0
    &&& entry.name.len() / 2 <= u32::MAX
}

/// The prologue list that was written reads as it was written.
pub proof fn lemma_prologue_reads(
    addresses: Seq<u32>,
    tail: Seq<u8>,
    image: Seq<u8>,
    before: Seq<u32>,
)
    requires
        prologues_at(image, addresses),
    ensures
        read_prologue(addresses_bytes(addresses) + tail, image, addresses.len(), before) == Ok::<
            PrologueRead,
            Failure,
        >(PrologueRead { addresses: before + addresses, rest: tail }),
    decreases addresses.len(),
{
    let input = addresses_bytes(addresses) + tail;
    if addresses.len() == 0 {
        assert(input =~= tail);
        assert(before + addresses =~= before);
    } else {
        let first = addresses[0];
        let rest = addresses.skip(1);
        lemma_addresses_first(addresses);
        lemma_read_u32(first, addresses_bytes(rest) + tail);
        assert(input =~= le_bytes(first as nat, 4) + (addresses_bytes(rest) + tail));
        assert(name_field(image, addresses[0] as int) == Some(PROLOGUE@));
        assert forall|k: int| 0 <= k < rest.len() implies name_field(
            image,
            #[trigger] rest[k] as int,
        ) == Some(PROLOGUE@) by {
            assert(rest[k] == addresses[k + 1]);
        }
        lemma_prologue_reads(rest, tail, image, before.push(first));
        assert(before.push(first) + rest =~= before + addresses);
    }
}

/// A record that was written reads as it was written.
pub proof fn lemma_record_reads(
    first: Entry,
    tail: Seq<u8>,
    image: Seq<u8>,
    count: nat,
    before: Seq<u32>,
)
    requires
        listed_in(image, first),
    ensures
        read_named(entry_bytes(first) + tail, image, count + 1, before) == read_named(
            tail,
            image,
            count,
            before.push(first.address),
        ),
{
    let input = entry_bytes(first) + tail;
    let units = (first.name.len() / 2) as u32;
    let spelled = le_bytes(units as nat, 4);
    let place = le_bytes(first.address as nat, 4);
    lemma_radix_values();
    lemma_le_value_of_bytes(first.address as nat, 4);
    lemma_le_value_of_bytes(units as nat, 4);
    assert(place.len() == 4 && spelled.len() == 4);
    assert(input.len() == 8 + first.name.len() + tail.len());
    assert(input.take(4) =~= place);
    assert(input.subrange(4, 8) =~= spelled);
    assert(le_value(input.subrange(4, 8)) == units);
    assert(le_value(input.take(4)) == first.address);
    let end = 8 + 2 * le_value(input.subrange(4, 8)) as int;
    assert(end == 8 + first.name.len());
    assert(input.subrange(8, end) =~= first.name);
    assert(input.skip(end) =~= tail);
}

/// The records that were written read as they were written.
pub proof fn lemma_named_reads(listed: Seq<Entry>, tail: Seq<u8>, image: Seq<u8>, before: Seq<u32>)
    requires
        forall|k: int| 0 <= k < listed.len() ==> listed_in(image, #[trigger] listed[k]),
    ensures
        read_named(entries_bytes(listed) + tail, image, listed.len(), before) == Ok::<
            Seq<u32>,
            Failure,
        >(before + addresses_of(listed)),
    decreases listed.len(),
{
    if listed.len() == 0 {
        assert(before + addresses_of(listed) =~= before);
    } else {
        let first = listed[0];
        let rest = listed.skip(1);
        assert(listed_in(image, listed[0]));
        lemma_entries_first(listed);
        let after = entries_bytes(rest) + tail;
        assert(entries_bytes(listed) + tail =~= entry_bytes(first) + after);
        lemma_record_reads(first, after, image, rest.len(), before);
        assert forall|k: int| 0 <= k < rest.len() implies listed_in(image, #[trigger] rest[k]) by {
            assert(rest[k] == listed[k + 1]);
        }
        lemma_named_reads(rest, tail, image, before.push(first.address));
        assert(before.push(first.address) + addresses_of(rest) =~= before + addresses_of(listed));
    }
}

/// The directory that was written reads as the addresses of its prologues
/// and then of its records.
pub proof fn lemma_directory_reads(prologues: Seq<u32>, listed: Seq<Entry>, image: Seq<u8>)
    requires
        prologues.len() <= u32::MAX,
        listed.len() <= u32::MAX,
        prologues_at(image, prologues),
        forall|k: int| 0 <= k < listed.len() ==> listed_in(image, #[trigger] listed[k]),
    ensures
        read_directory(listing_bytes(prologues, listed), image) == Ok::<Seq<u32>, Failure>(
            prologues + addresses_of(listed),
        ),
{
    let named = le_bytes(listed.len(), 4) + entries_bytes(listed);
    let after = le_bytes(0, 4) + named;
    let whole = listing_bytes(prologues, listed);
    lemma_read_u32(prologues.len() as u32, addresses_bytes(prologues) + after);
    assert(whole =~= le_bytes(prologues.len(), 4) + (addresses_bytes(prologues) + after));
    lemma_prologue_reads(prologues, after, image, Seq::empty());
    assert(Seq::<u32>::empty() + prologues =~= prologues);
    lemma_read_u32(0u32, named);
    lemma_read_u32(listed.len() as u32, entries_bytes(listed));
    lemma_le_bytes_len(0, 4);
    assert(after.subrange(4, 8) =~= le_bytes(listed.len(), 4));
    assert(after.skip(8) =~= entries_bytes(listed));
    lemma_named_reads(listed, Seq::empty(), image, prologues);
    assert(entries_bytes(listed) + Seq::<u8>::empty() =~= entries_bytes(listed));
}

/// Every tag names its own kind of section.
pub proof fn lemma_tags()
    ensures
        section_slot(TAG_IMAGE@) == Some(SLOT_IMAGE),
        section_slot(TAG_FUNCTION@) == Some(SLOT_FUNCTION),
        section_slot(TAG_GLOBAL@) == Some(SLOT_GLOBAL),
        section_slot(TAG_DATA@) == Some(SLOT_DATA),
        section_slot(TAG_CONSTSTR@) == Some(SLOT_CONSTSTR),
        section_slot(TAG_LINKINF@) == Some(SLOT_LINKINF),
{
    assert(TAG_IMAGE@[0] == 0x69 && TAG_FUNCTION@[0] == 0x66 && TAG_GLOBAL@[0] == 0x67
        && TAG_DATA@[0] == 0x64 && TAG_CONSTSTR@[0] == 0x63 && TAG_LINKINF@[0] == 0x6c);
}

/// A section that was written reads as it was written, where no section of
/// its kind was read before.
pub proof fn lemma_section_reads(tag: Seq<u8>, body: Seq<u8>, tail: Seq<u8>, found: Found)
    requires
        tag.len() == 8,
        section_slot(tag) is Some,
        found.len() == SLOTS,
        found[section_slot(tag)->Some_0 as int] is None,
        body.len() < radix(8),
    ensures
        section_slot(tag)->Some_0 < SLOTS,
        read_sections(section(tag, body) + tail, found) == read_sections(
            tail,
            found.update(section_slot(tag)->Some_0 as int, Some(body)),
        ),
{
    let input = section(tag, body) + tail;
    lemma_le_value_of_bytes(body.len(), 8);
    assert(input.take(8) =~= tag);
    assert(input.subrange(8, 16) =~= le_bytes(body.len(), 8));
    let end = 16 + body.len() as int;
    assert(input.subrange(16, end) =~= body);
    assert(input.skip(end) =~= tail);
}

/// The six sections of an image, as they are found when they are read.
pub open spec fn six(
    image: Seq<u8>,
    listing: Seq<u8>,
    global: Seq<u8>,
    data: Seq<u8>,
) -> Found {
    seq![Some(image), Some(listing), Some(global), Some(data), Some(zeros(4)), Some(zeros(16))]
}

/// The six sections that were written read as they were written.
pub proof fn lemma_sections_read(image: Seq<u8>, listing: Seq<u8>, global: Seq<u8>, data: Seq<u8>)
    requires
        image.len() < radix(8),
        listing.len() < radix(8),
        global.len() < radix(8),
        data.len() < radix(8),
    ensures
        read_sections(
            section(TAG_IMAGE@, image) + section(TAG_FUNCTION@, listing) + section(
                TAG_GLOBAL@,
                global,
            ) + section(TAG_DATA@, data) + section(TAG_CONSTSTR@, zeros(4)) + section(
                TAG_LINKINF@,
                zeros(16),
            ),
            nothing_found(),
        ) == (SectionsRead {
            outcome: Ok(six(image, listing, global, data)),
            rest: Seq::empty(),
        }),
{
    lemma_tags();
    lemma_radix_values();
    let s6 = section(TAG_LINKINF@, zeros(16));
    let s5 = section(TAG_CONSTSTR@, zeros(4));
    let s4 = section(TAG_DATA@, data);
    let s3 = section(TAG_GLOBAL@, global);
    let s2 = section(TAG_FUNCTION@, listing);
    let s1 = section(TAG_IMAGE@, image);
    let whole = s1 + s2 + s3 + s4 + s5 + s6;
    let t5 = s6 + Seq::<u8>::empty();
    let t4 = s5 + t5;
    let t3 = s4 + t4;
    let t2 = s3 + t3;
    let t1 = s2 + t2;
    assert(whole =~= s1 + t1);
    let f0 = nothing_found();
    let f1 = f0.update(0, Some(image));
    let f2 = f1.update(1, Some(listing));
    let f3 = f2.update(2, Some(global));
    let f4 = f3.update(3, Some(data));
    let f5 = f4.update(4, Some(zeros(4)));
    let f6 = f5.update(5, Some(zeros(16)));
    lemma_section_reads(TAG_IMAGE@, image, t1, f0);
    lemma_section_reads(TAG_FUNCTION@, listing, t2, f1);
    lemma_section_reads(TAG_GLOBAL@, global, t3, f2);
    lemma_section_reads(TAG_DATA@, data, t4, f3);
    lemma_section_reads(TAG_CONSTSTR@, zeros(4), t5, f4);
    lemma_section_reads(TAG_LINKINF@, zeros(16), Seq::empty(), f5);
    assert(f6 =~= six(image, listing, global, data));
}

/// Where the functions start in the image, in their order.
pub open spec fn starts(functions: Seq<FunctionView>) -> Seq<u32> {
    Seq::new(functions.len(), |i: int| start(functions, i) as u32)
}

/// Putting a record into a list adds its address to the addresses of the
/// list.
pub proof fn lemma_insert_addresses(sorted: Seq<Entry>, entry: Entry)
    ensures
        addresses_of(insert_entry(sorted, entry)).to_multiset() == addresses_of(
            sorted,
        ).to_multiset().insert(entry.address),
    decreases sorted.len(),
{
    broadcast use vstd::multiset::group_multiset_axioms;

    if sorted.len() > 0 && crate::order::unit_order(entry.name, sorted.last().name) < 0 {
        let rest = sorted.drop_last();
        let last = sorted.last();
        lemma_insert_addresses(rest, entry);
        let inner = insert_entry(rest, entry);
        assert(addresses_of(inner.push(last)) =~= addresses_of(inner).push(last.address));
        assert(addresses_of(sorted) =~= addresses_of(rest).push(last.address));
        to_multiset_build(addresses_of(inner), last.address);
        to_multiset_build(addresses_of(rest), last.address);
        assert(addresses_of(insert_entry(sorted, entry)).to_multiset() =~= addresses_of(
            sorted,
        ).to_multiset().insert(entry.address));
    } else {
        assert(addresses_of(sorted.push(entry)) =~= addresses_of(sorted).push(entry.address));
        to_multiset_build(addresses_of(sorted), entry.address);
    }
}

/// Sorting the records keeps their addresses, each as often as it occurs.
pub proof fn lemma_sort_addresses(listed: Seq<Entry>)
    ensures
        addresses_of(sort_entries(listed)).to_multiset() == addresses_of(listed).to_multiset(),
    decreases listed.len(),
{
    if listed.len() > 0 {
        let rest = listed.drop_last();
        lemma_sort_addresses(rest);
        lemma_insert_addresses(sort_entries(rest), listed.last());
        assert(addresses_of(listed) =~= addresses_of(rest).push(listed.last().address));
        to_multiset_build(addresses_of(rest), listed.last().address);
    }
}

/// The directory lists every function once: the addresses of the prologues
/// and of the records are the starts of the functions, each as often as
/// it occurs.
pub proof fn lemma_lists_partition(functions: Seq<FunctionView>)
    requires
        listable(functions),
    ensures
        (prologue_starts(functions) + addresses_of(named_entries(functions))).to_multiset()
            == starts(functions).to_multiset(),
        prologue_starts(functions).len() + named_entries(functions).len() == functions.len(),
    decreases functions.len(),
{
    broadcast use vstd::multiset::group_multiset_axioms;

    if functions.len() == 0 {
        assert(prologue_starts(functions) + addresses_of(named_entries(functions)) =~= starts(
            functions,
        ));
    } else {
        let before = functions.drop_last();
        let last = functions.last();
        let at = functions.len() - 1;
        assert forall|i: int| 0 <= i <= before.len() implies before.take(i) == functions.take(
            i,
        ) by {
            assert(before.take(i) =~= functions.take(i));
        }
        assert forall|i: int| 0 <= i < before.len() implies #[trigger] image_bytes(
            before.take(i),
        ).len() <= u32::MAX by {
            assert(before.take(i) == functions.take(i));
            assert(image_bytes(functions.take(i)).len() <= u32::MAX);
        }
        assert forall|i: int|
            0 <= i < before.len() && (#[trigger] before[i]).name != prologue_name() implies name_field(
            before[i].bytecode,
            0,
        ) is Some by {
            assert(before[i] == functions[i]);
        }
        lemma_lists_partition(before);
        assert(before.take(at) =~= before);
        let here = image_bytes(before).len() as u32;
        assert(starts(functions) =~= starts(before).push(here)) by {
            assert(functions.take(at) =~= before);
            assert forall|i: int| 0 <= i < at implies starts(functions)[i] == starts(before)[i] by {
                assert(before.take(i) == functions.take(i));
            }
        }
        to_multiset_build(starts(before), here);
        let p = prologue_starts(before);
        let a = addresses_of(named_entries(before));
        lemma_multiset_commutative(p, a);
        if last.name == prologue_name() {
            lemma_multiset_commutative(p.push(here), a);
            to_multiset_build(p, here);
            assert((p.push(here) + a).to_multiset() =~= starts(functions).to_multiset());
        } else {
            let entry = named_entries(functions).last();
            assert(addresses_of(named_entries(functions)) =~= a.push(here));
            lemma_multiset_commutative(p, a.push(here));
            to_multiset_build(a, here);
            assert((p + a.push(here)).to_multiset() =~= starts(functions).to_multiset());
        }
    }
}

/// The addresses that the directory lists, put in ascending order, are the
/// starts of the functions in their order.
pub proof fn lemma_starts_ascending(functions: Seq<FunctionView>)
    requires
        listable(functions),
        all_sound(functions),
    ensures
        ascending(
            prologue_starts(functions) + addresses_of(sort_entries(named_entries(functions))),
        ) == starts(functions),
{
    broadcast use vstd::multiset::group_multiset_axioms;

    let listed = named_entries(functions);
    let p = prologue_starts(functions);
    lemma_lists_partition(functions);
    lemma_sort_addresses(listed);
    lemma_multiset_commutative(p, addresses_of(listed));
    lemma_multiset_commutative(p, addresses_of(sort_entries(listed)));
    let collected = p + addresses_of(sort_entries(listed));
    assert(collected.to_multiset() =~= starts(functions).to_multiset());
    assert forall|i: int, j: int| 0 <= i < j < starts(functions).len() implies #[trigger] at_most()(
        starts(functions)[i],
        starts(functions)[j],
    ) by {
        lemma_start_order(functions, i, j);
        assert(image_bytes(functions.take(i)).len() <= u32::MAX);
        assert(image_bytes(functions.take(j)).len() <= u32::MAX);
    }
    lemma_ascending(collected);
}

/// Cutting the written image at the starts of its functions gives the
/// functions back.
pub proof fn lemma_carve_reads(functions: Seq<FunctionView>, done: int)
    requires
        listable(functions),
        all_sound(functions),
        0 <= done <= functions.len(),
    ensures
        carve(image_bytes(functions), starts(functions), functions.take(done)) == Ok::<
            Seq<FunctionView>,
            Failure,
        >(functions),
    decreases functions.len() - done,
{
    if done == functions.len() {
        assert(functions.take(done) =~= functions);
    } else {
        let image = image_bytes(functions);
        lemma_image_holds(functions, done);
        lemma_start_order(functions, 0, done);
        lemma_start_order(functions, done, functions.len() as int);
        assert(image_bytes(functions.take(0)).len() <= u32::MAX);
        assert(image_bytes(functions.take(done)).len() <= u32::MAX);
        if done + 1 < functions.len() {
            assert(image_bytes(functions.take(done + 1)).len() <= u32::MAX);
        }
        assert(cut(image, starts(functions), done) == functions[done].bytecode);
        assert(sound(functions[done]));
        assert(functions.take(done).push(functions[done]) =~= functions.take(done + 1));
        lemma_carve_reads(functions, done + 1);
    }
}

/// A name field of a byte string is a name field of every string that the
/// byte string opens.
pub proof fn lemma_name_field_extends(head: Seq<u8>, tail: Seq<u8>, at: int)
    requires
        name_field(head, at) is Some,
    ensures
        name_field(head + tail, at) == name_field(head, at),
{
    let whole = head + tail;
    assert(whole.subrange(at + 1, at + 5) =~= head.subrange(at + 1, at + 5));
    let len = 2 * le_value(head.subrange(at + 1, at + 5)) as int;
    assert(whole.subrange(at + 5, at + 5 + len) =~= head.subrange(at + 5, at + 5 + len));
}

/// Every prologue that the directory lists stands in the image under the
/// prologue's name.
pub proof fn lemma_prologues_listed(functions: Seq<FunctionView>)
    requires
        listable(functions),
        all_sound(functions),
    ensures
        prologues_at(image_bytes(functions), prologue_starts(functions)),
    decreases functions.len(),
{
    if functions.len() > 0 {
        let before = functions.drop_last();
        let last = functions.last();
        let at = functions.len() - 1;
        lemma_listable_before(functions);
        lemma_prologues_listed(before);
        let image = image_bytes(functions);
        let listed = prologue_starts(functions);
        assert forall|k: int| 0 <= k < listed.len() implies name_field(
            image,
            #[trigger] listed[k] as int,
        ) == Some(PROLOGUE@) by {
            if k < prologue_starts(before).len() {
                assert(listed[k] == prologue_starts(before)[k]);
                lemma_name_field_extends(image_bytes(before), last.bytecode, listed[k] as int);
            } else {
                assert(functions.take(at) =~= before);
                assert(image_bytes(functions.take(at)).len() <= u32::MAX);
                assert(sound(functions[at]));
                lemma_image_names(functions, at);
                lemma_prologue_spelling(embedded_name(last.bytecode));
            }
        }
    }
}

/// What can be listed can be listed without its last function.
pub proof fn lemma_listable_before(functions: Seq<FunctionView>)
    requires
        functions.len() > 0,
        listable(functions),
    ensures
        listable(functions.drop_last()),
        all_sound(functions) ==> all_sound(functions.drop_last()),
        allowed_names(functions) ==> allowed_names(functions.drop_last()),
{
    let before = functions.drop_last();
    assert forall|i: int| 0 <= i < before.len() implies #[trigger] image_bytes(
        before.take(i),
    ).len() <= u32::MAX by {
        assert(before.take(i) =~= functions.take(i));
        assert(image_bytes(functions.take(i)).len() <= u32::MAX);
    }
    assert forall|i: int|
        0 <= i < before.len() && (#[trigger] before[i]).name != prologue_name() implies name_field(
        before[i].bytecode,
        0,
    ) is Some by {
        assert(before[i] == functions[i]);
    }
    if all_sound(functions) {
        assert forall|i: int| 0 <= i < before.len() implies sound(#[trigger] before[i]) by {
            assert(before[i] == functions[i]);
        }
    }
    if allowed_names(functions) {
        assert forall|i: int|
            0 <= i < before.len() && reserved((#[trigger] before[i]).name) implies before[i].name
            == prologue_name() by {
            assert(before[i] == functions[i]);
        }
    }
}

/// Every record that the directory lists is as the directory of the image
/// wants it.
pub proof fn lemma_records_listed(functions: Seq<FunctionView>)
    requires
        listable(functions),
        all_sound(functions),
        allowed_names(functions),
    ensures
        forall|k: int|
            0 <= k < named_entries(functions).len() ==> listed_in(
                image_bytes(functions),
                #[trigger] named_entries(functions)[k],
            ),
    decreases functions.len(),
{
    if functions.len() > 0 {
        let before = functions.drop_last();
        let last = functions.last();
        let at = functions.len() - 1;
        lemma_listable_before(functions);
        lemma_records_listed(before);
        let image = image_bytes(functions);
        let listed = named_entries(functions);
        assert forall|k: int| 0 <= k < listed.len() implies listed_in(image, #[trigger] listed[k]) by {
            if k < named_entries(before).len() {
                assert(listed[k] == named_entries(before)[k]);
                assert(listed_in(image_bytes(before), named_entries(before)[k]));
                lemma_name_field_extends(
                    image_bytes(before),
                    last.bytecode,
                    listed[k].address as int,
                );
            } else {
                assert(functions.take(at) =~= before);
                assert(image_bytes(functions.take(at)).len() <= u32::MAX);
                assert(sound(functions[at]));
                lemma_image_names(functions, at);
                lemma_reserved_bytes(embedded_name(last.bytecode));
                lemma_embedded_fits(last.bytecode);
                assert(reserved(functions[at].name) ==> functions[at].name == prologue_name());
            }
        }
    }
}

/// Whether an image is fit to be written and read again: it can be written,
/// every function says of itself what it is, no reserved name but the
/// prologue's occurs, the two blobs are not empty, and eight bytes can
/// spell the length of every section.
pub open spec fn canonical(image: Image) -> bool {
    &&& image.rebuildable()
    &&& all_sound(image.functions)
    &&& allowed_names(image.functions)
    &&& 0 < image.global.len() < radix(8)
    &&& 0 < image.data.len() < radix(8)
    &&& image_bytes(image.functions).len() < radix(8)
    &&& directory_bytes(image.functions).len() < radix(8)
}

/// What a written image reads as: the same blobs and functions, with what
/// ties a freshly read image to a base.
pub open spec fn read_back(image: Image, base: bool) -> Image {
    Image {
        base_hash: if base {
            sha3_224_digest(file_bytes(image))
        } else {
            zeros(28)
        },
        base_func: if base {
            index_of(image.functions)
        } else {
            Map::empty()
        },
        mods_used: Set::empty(),
        global: image.global,
        data: image.data,
        functions: image.functions,
    }
}

/// An image that is fit for it is written to bytes that read as the same
/// blobs and functions, to the last byte.
pub proof fn lemma_written_reads(image: Image, base: bool)
    requires
        canonical(image),
    ensures
        parse_image(file_bytes(image), base) == (ImageRead {
            outcome: Ok(read_back(image, base)),
            rest: Seq::empty(),
        }),
{
    let functions = image.functions;
    let code = image_bytes(functions);
    let listing = directory_bytes(functions);
    let sections = sections_bytes(image);
    let file = file_bytes(image);
    lemma_le_bytes_len(sections.len(), 8);
    assert(file.skip(HEADER_LEN as int) =~= sections);
    assert(MAGIC@ =~= file.subrange(0, 56));
    lemma_sections_read(code, listing, image.global, image.data);
    let found = six(code, listing, image.global, image.data);
    assert(body(found, SLOT_IMAGE) == code && body(found, SLOT_FUNCTION) == listing);
    assert(body(found, SLOT_GLOBAL) == image.global && body(found, SLOT_DATA) == image.data);
    assert(body(found, SLOT_CONSTSTR) == zeros(4) && body(found, SLOT_LINKINF) == zeros(16));
    assert(check_sections(found, base) is Ok);
    let prologues = prologue_starts(functions);
    let named = named_entries(functions);
    let sorted = sort_entries(named);
    lemma_lists_partition(functions);
    lemma_prologues_listed(functions);
    lemma_records_listed(functions);
    lemma_sort_keeps(named, |e: Entry| listed_in(code, e));
    assert(listing_bytes(prologues, sorted) == listing);
    lemma_directory_reads(prologues, sorted, code);
    lemma_starts_ascending(functions);
    assert(functions.take(0) =~= Seq::empty());
    lemma_carve_reads(functions, 0);
    assert(build_image(found, base, file) == Ok::<Image, Failure>(read_back(image, base)));
}

/// Whether every section found is at most `bound` bytes long.
pub open spec fn bounded(found: Found, bound: nat) -> bool {
    &&& found.len() == SLOTS
    &&& forall|slot: int|
        0 <= slot < found.len() ==> ((#[trigger] found[slot]) matches Some(bytes) ==> bytes.len()
            <= bound)
}

/// The sections that are read are no longer than the input, and reading
/// them leaves nothing of it.
pub proof fn lemma_sections_bounded(input: Seq<u8>, found: Found, bound: nat)
    requires
        bounded(found, bound),
        input.len() <= bound,
        read_sections(input, found).outcome is Ok,
    ensures
        bounded(read_sections(input, found).outcome->Ok_0, bound),
        read_sections(input, found).rest.len() == 0,
    decreases input.len(),
{
    if input.len() > 0 {
        let tag = input.take(8);
        let end = 16 + le_value(input.subrange(8, 16)) as int;
        let slot = section_slot(tag)->Some_0;
        let next = found.update(slot as int, Some(input.subrange(16, end)));
        assert forall|k: int| 0 <= k < next.len() implies ((#[trigger] next[k]) matches Some(
            bytes,
        ) ==> bytes.len() <= bound) by {
            if k != slot {
                assert(next[k] == found[k]);
            }
        }
        lemma_sections_bounded(input.skip(end), next, bound);
    }
}

/// Every address that the prologue list gives points at a name field.
pub proof fn lemma_prologue_named(input: Seq<u8>, image: Seq<u8>, count: nat, before: Seq<u32>)
    requires
        all_named(image, before),
        read_prologue(input, image, count, before) is Ok,
    ensures
        all_named(image, read_prologue(input, image, count, before)->Ok_0.addresses),
    decreases count,
{
    if count > 0 {
        let addr = le_value(input.take(4)) as u32;
        let next = before.push(addr);
        assert forall|i: int| 0 <= i < next.len() implies name_field(
            image,
            #[trigger] next[i] as int,
        ) is Some by {
            if i < before.len() {
                assert(next[i] == before[i]);
            }
        }
        lemma_prologue_named(input.skip(4), image, (count - 1) as nat, next);
    }
}

/// Every address that the records give points at a name field.
pub proof fn lemma_named_named(input: Seq<u8>, image: Seq<u8>, count: nat, before: Seq<u32>)
    requires
        all_named(image, before),
        read_named(input, image, count, before) is Ok,
    ensures
        all_named(image, read_named(input, image, count, before)->Ok_0),
    decreases count,
{
    if count > 0 {
        let addr = le_value(input.take(4)) as u32;
        let end = 8 + 2 * le_value(input.subrange(4, 8)) as int;
        let next = before.push(addr);
        assert forall|i: int| 0 <= i < next.len() implies name_field(
            image,
            #[trigger] next[i] as int,
        ) is Some by {
            if i < before.len() {
                assert(next[i] == before[i]);
            }
        }
        lemma_named_named(input.skip(end), image, (count - 1) as nat, next);
    }
}

/// Every address that the directory gives points at a name field.
pub proof fn lemma_directory_named(listing: Seq<u8>, image: Seq<u8>)
    requires
        read_directory(listing, image) is Ok,
    ensures
        all_named(image, read_directory(listing, image)->Ok_0),
{
    let prologue = read_prologue(listing.skip(4), image, le_value(listing.take(4)), Seq::empty());
    lemma_prologue_named(listing.skip(4), image, le_value(listing.take(4)), Seq::empty());
    let read = prologue->Ok_0;
    lemma_named_named(
        read.rest.skip(8),
        image,
        le_value(read.rest.subrange(4, 8)),
        read.addresses,
    );
}

/// The functions that an image is cut into are as many as the addresses,
/// and each is what its piece of the image holds.
pub proof fn lemma_carved(image: Seq<u8>, sorted: Seq<u32>, done: Seq<FunctionView>)
    requires
        done.len() <= sorted.len(),
        carve(image, sorted, done) is Ok,
    ensures
        carve(image, sorted, done)->Ok_0.len() == sorted.len(),
        forall|i: int| 0 <= i < done.len() ==> carve(image, sorted, done)->Ok_0[i] == done[i],
        forall|i: int|
            done.len() <= i < sorted.len() ==> read_function(cut(image, sorted, i)) == Ok::<
                FunctionView,
                Failure,
            >(#[trigger] carve(image, sorted, done)->Ok_0[i]),
    decreases sorted.len() - done.len(),
{
    if done.len() < sorted.len() {
        let function = read_function(cut(image, sorted, done.len() as int))->Ok_0;
        let next = done.push(function);
        lemma_carved(image, sorted, next);
        let all = carve(image, sorted, done)->Ok_0;
        assert forall|i: int| 0 <= i < done.len() implies all[i] == done[i] by {
            assert(next[i] == done[i]);
        }
        assert(all[done.len() as int] == next[done.len() as int]);
    }
}

/// Functions that were cut from an image start as far from one another as
/// their addresses say.
pub proof fn lemma_carved_starts(
    image: Seq<u8>,
    sorted: Seq<u32>,
    functions: Seq<FunctionView>,
    index: int,
)
    requires
        functions.len() == sorted.len(),
        sorted_by(sorted, at_most()),
        forall|i: int| 0 <= i < sorted.len() ==> #[trigger] sorted[i] <= image.len(),
        forall|i: int|
            0 <= i < sorted.len() ==> (#[trigger] functions[i]).bytecode == cut(image, sorted, i),
        0 <= index <= functions.len(),
        functions.len() > 0,
    ensures
        index < functions.len() ==> start(functions, index) == sorted[index] - sorted[0],
        index == functions.len() ==> start(functions, index) == image.len() - sorted[0],
    decreases index,
{
    if index == 0 {
        assert(functions.take(0) =~= Seq::empty());
    } else {
        lemma_carved_starts(image, sorted, functions, index - 1);
        lemma_start_next(functions, index - 1);
        assert(functions[index - 1].bytecode == cut(image, sorted, index - 1));
        assert(at_most()(sorted[0], sorted[index - 1]) || index - 1 == 0);
        if index < functions.len() {
            assert(at_most()(sorted[index - 1], sorted[index]));
        }
    }
}

/// A list of addresses takes four bytes for each.
pub proof fn lemma_addresses_len(addresses: Seq<u32>)
    ensures
        addresses_bytes(addresses).len() == 4 * addresses.len(),
    decreases addresses.len(),
{
    if addresses.len() > 0 {
        lemma_addresses_len(addresses.drop_last());
        lemma_le_bytes_len(addresses.last() as nat, 4);
    }
}

/// A record takes eight bytes and its name.
pub proof fn lemma_entry_len(entry: Entry)
    ensures
        entry_bytes(entry).len() == 8 + entry.name.len(),
{
    lemma_le_bytes_len(entry.address as nat, 4);
    lemma_le_bytes_len(entry.name.len() / 2, 4);
}

/// Putting a record into a list adds its bytes to those of the list.
pub proof fn lemma_insert_len(sorted: Seq<Entry>, entry: Entry)
    ensures
        entries_bytes(insert_entry(sorted, entry)).len() == entries_bytes(sorted).len() + 8
            + entry.name.len(),
    decreases sorted.len(),
{
    lemma_entry_len(entry);
    if sorted.len() > 0 && crate::order::unit_order(entry.name, sorted.last().name) < 0 {
        let rest = sorted.drop_last();
        lemma_insert_len(rest, entry);
        let inner = insert_entry(rest, entry);
        assert(inner.push(sorted.last()).drop_last() =~= inner);
    } else {
        assert(sorted.push(entry).drop_last() =~= sorted);
    }
}

/// Sorting the records keeps the number of bytes that they take.
pub proof fn lemma_sort_len(listed: Seq<Entry>)
    ensures
        entries_bytes(sort_entries(listed)).len() == entries_bytes(listed).len(),
    decreases listed.len(),
{
    if listed.len() > 0 {
        lemma_sort_len(listed.drop_last());
        lemma_insert_len(sort_entries(listed.drop_last()), listed.last());
        lemma_entry_len(listed.last());
    }
}

/// The directory takes no more than twelve bytes, eight for every
/// function, and as many as the image.
pub proof fn lemma_directory_len(functions: Seq<FunctionView>)
    requires
        listable(functions),
    ensures
        4 * prologue_starts(functions).len() + entries_bytes(named_entries(functions)).len() <= 8
            * functions.len() + image_bytes(functions).len(),
        directory_bytes(functions).len() <= 12 + 8 * functions.len() + image_bytes(
            functions,
        ).len(),
    decreases functions.len(),
{
    if functions.len() > 0 {
        lemma_listable_before(functions);
        lemma_directory_len(functions.drop_last());
        let last = functions.last();
        assert(functions[functions.len() - 1] == last);
        if last.name != prologue_name() {
            let entry = named_entries(functions).last();
            lemma_entry_len(entry);
            assert(named_entries(functions).drop_last() =~= named_entries(functions.drop_last()));
        }
    }
    lemma_addresses_len(prologue_starts(functions));
    lemma_sort_len(named_entries(functions));
    lemma_le_bytes_len(prologue_starts(functions).len(), 4);
    lemma_le_bytes_len(0, 4);
    lemma_le_bytes_len(sort_entries(named_entries(functions)).len(), 4);
}

/// The longest byte string that memory holds.
pub open spec fn longest() -> nat {
    0x7fff_ffff_ffff_ffff
}

/// An image that was read can be written, every function of it says of
/// itself what it is, and it is fit to be written and read again but for
/// the reserved names that it may hold.
pub proof fn lemma_parsed_fit(input: Seq<u8>, base: bool)
    requires
        input.len() <= longest(),
        parse_image(input, base).outcome is Ok,
    ensures
        parse_image(input, base).rest.len() == 0,
        parse_image(input, base).outcome->Ok_0.rebuildable(),
        all_sound(parse_image(input, base).outcome->Ok_0.functions),
        allowed_names(parse_image(input, base).outcome->Ok_0.functions) ==> canonical(
            parse_image(input, base).outcome->Ok_0,
        ),
        parse_image(input, base).outcome->Ok_0.mods_used == Set::<Seq<char>>::empty(),
        base ==> parse_image(input, base).outcome->Ok_0.base_func == index_of(
            parse_image(input, base).outcome->Ok_0.functions,
        ),
{
    let parsed = parse_image(input, base).outcome->Ok_0;
    let rest = input.skip(HEADER_LEN as int);
    lemma_sections_bounded(rest, nothing_found(), longest());
    let found = read_sections(rest, nothing_found()).outcome->Ok_0;
    let image = body(found, SLOT_IMAGE);
    let listing = body(found, SLOT_FUNCTION);
    assert(found[SLOT_IMAGE as int] matches Some(bytes) ==> bytes.len() <= longest());
    assert(found[SLOT_GLOBAL as int] matches Some(bytes) ==> bytes.len() <= longest());
    assert(found[SLOT_DATA as int] matches Some(bytes) ==> bytes.len() <= longest());
    let addresses = read_directory(listing, image)->Ok_0;
    lemma_directory_named(listing, image);
    let sorted = ascending(addresses);
    lemma_ascending(addresses);
    let functions = parsed.functions;
    lemma_carved(image, sorted, Seq::empty());
    assert forall|i: int| 0 <= i < sorted.len() implies #[trigger] sorted[i] + 5 <= image.len() by {
        let a = sorted[i];
        assert(addresses.contains(a));
        let k = choose|k: int| 0 <= k < addresses.len() && addresses[k] == a;
        assert(name_field(image, addresses[k] as int) is Some);
    }
    assert forall|i: int| 0 <= i < functions.len() implies sound(#[trigger] functions[i]) by {
        assert(read_function(cut(image, sorted, i)) == Ok::<FunctionView, Failure>(functions[i]));
    }
    assert forall|i: int| 0 <= i < sorted.len() implies (#[trigger] functions[i]).bytecode == cut(
        image,
        sorted,
        i,
    ) by {
        assert(read_function(cut(image, sorted, i)) == Ok::<FunctionView, Failure>(functions[i]));
    }
    lemma_radix_values();
    if functions.len() > 0 {
        assert forall|i: int| 0 <= i < functions.len() implies #[trigger] image_bytes(
            functions.take(i),
        ).len() <= u32::MAX by {
            lemma_carved_starts(image, sorted, functions, i);
        }
        lemma_carved_starts(image, sorted, functions, functions.len() as int);
        lemma_start_order(functions, 0, functions.len() - 1);
        lemma_start_order(functions, 0, functions.len() as int);
        assert(image_bytes(functions.take(functions.len() - 1)).len() <= u32::MAX);
        assert(5 * (functions.len() - 1) <= u32::MAX);
    } else {
        assert(image_bytes(functions).len() == 0);
    }
    assert(listable(functions)) by {
        assert forall|i: int|
            0 <= i < functions.len() && (#[trigger] functions[i]).name
                != prologue_name() implies name_field(functions[i].bytecode, 0) is Some by {
            assert(sound(functions[i]));
        }
    }
    lemma_directory_len(functions);
}

/// An image that was read from bytes, and holds no reserved name but the
/// prologue's, is written to bytes that read as the same image, to the last
/// byte: the same blobs, the same functions in the same order and, for a
/// base, the same index. (The digest of a base is that of the bytes it was
/// read from, and so follows the bytes.)
pub proof fn lemma_round_trip(input: Seq<u8>, base: bool)
    requires
        input.len() <= longest(),
        parse_image(input, base).outcome is Ok,
        allowed_names(parse_image(input, base).outcome->Ok_0.functions),
    ensures
        parse_image(input, base).outcome->Ok_0.rebuildable(),
        parse_image(file_bytes(parse_image(input, base).outcome->Ok_0), base).rest.len() == 0,
        parse_image(file_bytes(parse_image(input, base).outcome->Ok_0), base).outcome == Ok::<
            Image,
            Failure,
        >(
            Image {
                base_hash: if base {
                    sha3_224_digest(file_bytes(parse_image(input, base).outcome->Ok_0))
                } else {
                    zeros(28)
                },
                ..parse_image(input, base).outcome->Ok_0
            },
        ),
{
    let parsed = parse_image(input, base).outcome->Ok_0;
    lemma_parsed_fit(input, base);
    lemma_written_reads(parsed, base);
    assert(read_back(parsed, base).base_func == parsed.base_func);
}

/// Whether the address points at a name field that holds the prologue's
/// name or a name that is not reserved.
pub open spec fn legal_at(image: Seq<u8>, address: u32) -> bool {
    name_field(image, address as int) matches Some(name) && (name == PROLOGUE@ || !reserved_bytes(
        name,
    ))
}

/// Whether every address points at a name field that holds the prologue's
/// name or a name that is not reserved.
pub open spec fn all_legal(image: Seq<u8>, addresses: Seq<u32>) -> bool {
    forall|i: int| 0 <= i < addresses.len() ==> legal_at(image, #[trigger] addresses[i])
}

/// Every address that the prologue list gives points at the prologue's
/// name.
pub proof fn lemma_prologue_legal(input: Seq<u8>, image: Seq<u8>, count: nat, before: Seq<u32>)
    requires
        all_legal(image, before),
        read_prologue(input, image, count, before) is Ok,
    ensures
        all_legal(image, read_prologue(input, image, count, before)->Ok_0.addresses),
    decreases count,
{
    if count > 0 {
        let addr = le_value(input.take(4)) as u32;
        let next = before.push(addr);
        assert forall|i: int| 0 <= i < next.len() implies legal_at(image, #[trigger] next[i]) by {
            if i < before.len() {
                assert(next[i] == before[i]);
            }
        }
        lemma_prologue_legal(input.skip(4), image, (count - 1) as nat, next);
    }
}

/// Every address that the records give points at a name that is not
/// reserved.
pub proof fn lemma_named_legal(input: Seq<u8>, image: Seq<u8>, count: nat, before: Seq<u32>)
    requires
        all_legal(image, before),
        read_named(input, image, count, before) is Ok,
    ensures
        all_legal(image, read_named(input, image, count, before)->Ok_0),
    decreases count,
{
    if count > 0 {
        let addr = le_value(input.take(4)) as u32;
        let end = 8 + 2 * le_value(input.subrange(4, 8)) as int;
        let next = before.push(addr);
        assert forall|i: int| 0 <= i < next.len() implies legal_at(image, #[trigger] next[i]) by {
            if i < before.len() {
                assert(next[i] == before[i]);
            }
        }
        lemma_named_legal(input.skip(end), image, (count - 1) as nat, next);
    }
}

/// No reserved name but the prologue's stands where the directory points:
/// the named list holds no reserved name, and the prologue list only the
/// prologue's.
pub proof fn lemma_directory_legal(listing: Seq<u8>, image: Seq<u8>)
    requires
        read_directory(listing, image) is Ok,
    ensures
        all_legal(image, read_directory(listing, image)->Ok_0),
{
    let prologue = read_prologue(listing.skip(4), image, le_value(listing.take(4)), Seq::empty());
    lemma_prologue_legal(listing.skip(4), image, le_value(listing.take(4)), Seq::empty());
    let read = prologue->Ok_0;
    lemma_named_legal(
        read.rest.skip(8),
        image,
        le_value(read.rest.subrange(4, 8)),
        read.addresses,
    );
}

/// The addresses that the directory of an image lists, where the image can
/// be read.
pub open spec fn listed_addresses(input: Seq<u8>) -> Seq<u32> {
    let found = read_sections(input.skip(HEADER_LEN as int), nothing_found()).outcome->Ok_0;
    read_directory(body(found, SLOT_FUNCTION), body(found, SLOT_IMAGE))->Ok_0
}

/// An image whose directory points at its first byte holds, when it is
/// read, no reserved name but the prologue's.
pub proof fn lemma_parsed_names(input: Seq<u8>, base: bool)
    requires
        parse_image(input, base).outcome is Ok,
        listed_addresses(input).contains(0),
    ensures
        allowed_names(parse_image(input, base).outcome->Ok_0.functions),
{
    broadcast use vstd::seq_lib::group_to_multiset_ensures;

    let parsed = parse_image(input, base).outcome->Ok_0;
    let found = read_sections(input.skip(HEADER_LEN as int), nothing_found()).outcome->Ok_0;
    let image = body(found, SLOT_IMAGE);
    let listing = body(found, SLOT_FUNCTION);
    let addresses = read_directory(listing, image)->Ok_0;
    lemma_directory_legal(listing, image);
    let sorted = ascending(addresses);
    lemma_ascending(addresses);
    let functions = parsed.functions;
    lemma_carved(image, sorted, Seq::empty());
    assert(sorted.to_multiset().contains(0u32));
    assert(sorted.contains(0u32));
    let zero = choose|k: int| 0 <= k < sorted.len() && sorted[k] == 0u32;
    assert(zero == 0 || at_most()(sorted[0], sorted[zero]));
    assert(sorted[0] == 0);
    assert forall|i: int| 0 <= i < functions.len() && reserved(
        (#[trigger] functions[i]).name,
    ) implies functions[i].name == prologue_name() by {
        let piece = cut(image, sorted, i);
        assert(read_function(piece) == Ok::<FunctionView, Failure>(functions[i]));
        let a = sorted[i];
        assert(addresses.contains(a));
        let k = choose|k: int| 0 <= k < addresses.len() && addresses[k] == a;
        assert(legal_at(image, addresses[k]));
        assert(i == 0 || at_most()(sorted[0], sorted[i]));
        let end = if i + 1 < sorted.len() {
            sorted[i + 1] as int
        } else {
            image.len() as int
        };
        if i + 1 < sorted.len() {
            assert(at_most()(sorted[i], sorted[i + 1]));
            let b = sorted[i + 1];
            assert(addresses.contains(b));
            let j = choose|j: int| 0 <= j < addresses.len() && addresses[j] == b;
            assert(name_field(image, addresses[j] as int) is Some);
        }
        assert(piece == image.subrange(a as int, end));
        lemma_name_field_within(image, a as int, end);
        let name = name_field(piece, 0)->Some_0;
        lemma_prologue_spelling(name);
        lemma_reserved_bytes(name);
    }
}

} // verus!
