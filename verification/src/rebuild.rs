//! Writing an image to bytes.

use vstd::prelude::*;
use crate::bytes::le_bytes;
use crate::bytes::lemma_le_bytes_len;
use crate::bytes::lemma_le_value_bound;
use crate::bytes::lemma_radix_values;
use crate::bytes::push_u32;
use crate::bytes::push_u64;
use crate::format::zeros;
use crate::format::MAGIC;
use crate::format::TAG_CONSTSTR;
use crate::format::TAG_DATA;
use crate::format::TAG_FUNCTION;
use crate::format::TAG_GLOBAL;
use crate::format::TAG_IMAGE;
use crate::format::TAG_LINKINF;
use crate::image::views;
use crate::image::Function;
use crate::image::FunctionView;
use crate::image::Image;
use crate::image::CSX;
use crate::listing::entries;
use crate::listing::lemma_sort_keeps;
use crate::listing::sort_directory;
use crate::listing::sort_entries;
use crate::listing::Entry;
use crate::listing::Named;
use crate::name::extract_name;
use crate::name::name_field;
use crate::text::is_prologue;
use crate::text::prologue_name;

verus! {

/// A section: its tag, the length of its body in eight bytes, and its body.
pub open spec fn section(tag: Seq<u8>, body: Seq<u8>) -> Seq<u8> {
    tag + le_bytes(body.len(), 8) + body
}

/// The bytecode of the functions, one after the other.
pub open spec fn image_bytes(functions: Seq<FunctionView>) -> Seq<u8>
    decreases functions.len(),
{
    if functions.len() == 0 {
        Seq::empty()
    } else {
        image_bytes(functions.drop_last()) + functions.last().bytecode
    }
}

/// The addresses of the prologues: where each function of the prologue's
/// name starts in the image, in the order of the functions.
pub open spec fn prologue_starts(functions: Seq<FunctionView>) -> Seq<u32>
    decreases functions.len(),
{
    if functions.len() == 0 {
        Seq::empty()
    } else if functions.last().name == prologue_name() {
        prologue_starts(functions.drop_last()).push(
            image_bytes(functions.drop_last()).len() as u32,
        )
    } else {
        prologue_starts(functions.drop_last())
    }
}

/// The name that opens a function's bytecode, in UTF-16LE bytes.
pub open spec fn embedded_name(bytecode: Seq<u8>) -> Seq<u8> {
    match name_field(bytecode, 0) {
        Some(name) => name,
        None => Seq::empty(),
    }
}

/// The records of the named functions: where each function of another name
/// than the prologue's starts in the image, and the name that its bytecode
/// opens with, in the order of the functions.
pub open spec fn named_entries(functions: Seq<FunctionView>) -> Seq<Entry>
    decreases functions.len(),
{
    if functions.len() == 0 {
        Seq::empty()
    } else if functions.last().name == prologue_name() {
        named_entries(functions.drop_last())
    } else {
        named_entries(functions.drop_last()).push(
            Entry {
                address: image_bytes(functions.drop_last()).len() as u32,
                name: embedded_name(functions.last().bytecode),
            },
        )
    }
}

/// A list of addresses as the directory holds it, four bytes each.
pub open spec fn addresses_bytes(addresses: Seq<u32>) -> Seq<u8>
    decreases addresses.len(),
{
    if addresses.len() == 0 {
        Seq::empty()
    } else {
        addresses_bytes(addresses.drop_last()) + le_bytes(addresses.last() as nat, 4)
    }
}

/// A record as the directory holds it: the address, the number of code
/// units of the name, and the name.
pub open spec fn entry_bytes(entry: Entry) -> Seq<u8> {
    le_bytes(entry.address as nat, 4) + le_bytes(entry.name.len() / 2, 4) + entry.name
}

/// A list of records as the directory holds it.
pub open spec fn entries_bytes(listed: Seq<Entry>) -> Seq<u8>
    decreases listed.len(),
{
    if listed.len() == 0 {
        Seq::empty()
    } else {
        entries_bytes(listed.drop_last()) + entry_bytes(listed.last())
    }
}

/// The body of the directory section for the prologues at `prologues` and
/// the records `listed`, in that order: the number of prologues and their
/// addresses, no epilogue, the number of records and the records.
pub open spec fn listing_bytes(prologues: Seq<u32>, listed: Seq<Entry>) -> Seq<u8> {
    le_bytes(prologues.len(), 4) + addresses_bytes(prologues) + le_bytes(0, 4) + le_bytes(
        listed.len(),
        4,
    ) + entries_bytes(listed)
}

/// The directory of the functions: the prologues, no epilogue, and the
/// named functions in the order of their names.
pub open spec fn directory_bytes(functions: Seq<FunctionView>) -> Seq<u8> {
    listing_bytes(prologue_starts(functions), sort_entries(named_entries(functions)))
}

/// The six sections of an image, in the order in which they are written.
pub open spec fn sections_bytes(image: Image) -> Seq<u8> {
    section(TAG_IMAGE@, image_bytes(image.functions)) + section(
        TAG_FUNCTION@,
        directory_bytes(image.functions),
    ) + section(TAG_GLOBAL@, image.global) + section(TAG_DATA@, image.data) + section(
        TAG_CONSTSTR@,
        zeros(4),
    ) + section(TAG_LINKINF@, zeros(16))
}

/// An image as bytes: the signature, the length of all that follows the
/// header, and the sections.
pub open spec fn file_bytes(image: Image) -> Seq<u8> {
    MAGIC@ + le_bytes(sections_bytes(image).len(), 8) + sections_bytes(image)
}

impl Image {
    /// Whether the image can be written: the directory has room for every
    /// function and for the address at which each starts, and every
    /// function but a prologue opens with a name field.
    pub open spec fn rebuildable(self) -> bool {
        self.functions.len() <= u32::MAX && listable(self.functions)
    }
}

/// Appends `bytes` to `out`.
pub fn append(out: &mut Vec<u8>, bytes: &[u8])
    ensures
        final(out)@ == old(out)@ + bytes@,
{
    out.extend_from_slice(bytes);
    assert(out@ =~= old(out)@ + bytes@);
}

/// Writes `value` over the eight bytes at `at`.
pub fn patch_u64(out: &mut Vec<u8>, at: usize, value: u64)
    requires
        at + 8 <= old(out)@.len(),
    ensures
        final(out)@ == old(out)@.take(at as int) + le_bytes(value as nat, 8) + old(out)@.skip(
            at + 8,
        ),
{
    let mut spelled: Vec<u8> = Vec::new();
    push_u64(&mut spelled, value);
    proof {
        lemma_le_bytes_len(value as nat, 8);
        assert(spelled@ =~= le_bytes(value as nat, 8));
    }
    let len: usize = out.len();
    let mut i: usize = 0;
    while i < 8
        invariant
            i <= 8,
            at + 8 <= old(out)@.len(),
            len == old(out)@.len(),
            spelled@.len() == 8,
            out@.len() == old(out)@.len(),
            forall|k: int| 0 <= k < out@.len() && !(at <= k < at + i) ==> out@[k] == old(out)@[k],
            forall|k: int| at <= k < at + i ==> out@[k] == spelled@[k - at],
        decreases 8 - i,
    {
        out[at + i] = spelled[i];
        i += 1;
    }
    assert(out@ =~= old(out)@.take(at as int) + spelled@ + old(out)@.skip(at + 8));
}

/// Whether a record's name has a number of code units that four bytes
/// spell.
pub open spec fn fits(entry: Entry) -> bool {
    entry.name.len() / 2 <= u32::MAX
}

/// Whether the functions can be listed in a directory: the address at which
/// each starts fits the directory, and every function but a prologue opens
/// with a name field.
pub open spec fn listable(functions: Seq<FunctionView>) -> bool {
    &&& forall|i: int|
        0 <= i < functions.len() ==> #[trigger] image_bytes(functions.take(i)).len() <= u32::MAX
    &&& forall|i: int|
        0 <= i < functions.len() && (#[trigger] functions[i]).name != prologue_name()
            ==> name_field(functions[i].bytecode, 0) is Some
}

/// A name field holds a name of as many code units as four bytes spell.
pub proof fn lemma_embedded_fits(bytecode: Seq<u8>)
    ensures
        embedded_name(bytecode).len() / 2 <= u32::MAX,
{
    if name_field(bytecode, 0) is Some {
        lemma_le_value_bound(bytecode.subrange(1, 5));
        lemma_radix_values();
    }
}

/// Writes the image section and lists the functions for the directory.
fn write_image<'a>(out: &mut Vec<u8>, functions: &'a Vec<Function>) -> (lists: (
    Vec<u32>,
    Vec<Named<'a>>,
))
    requires
        listable(views(functions@)),
    ensures
        final(out)@ == old(out)@ + section(TAG_IMAGE@, image_bytes(views(functions@))),
        lists.0@ == prologue_starts(views(functions@)),
        entries(lists.1@) == named_entries(views(functions@)),
        lists.0@.len() <= functions@.len(),
        lists.1@.len() <= functions@.len(),
        forall|k: int| 0 <= k < lists.1@.len() ==> fits(#[trigger] entries(lists.1@)[k]),
{
    let ghost all = views(functions@);
    append(out, &TAG_IMAGE);
    let field: usize = out.len();
    push_u64(out, 0);
    let origin: usize = out.len();
    let mut prologues: Vec<u32> = Vec::new();
    let mut named: Vec<Named<'a>> = Vec::new();
    let mut i: usize = 0;
    proof {
        lemma_le_bytes_len(0, 8);
        assert(all.take(0) =~= Seq::empty());
        assert(entries(named@) =~= Seq::empty());
        assert(out@ =~= old(out)@ + TAG_IMAGE@ + le_bytes(0, 8) + image_bytes(all.take(0)));
    }
    while i < functions.len()
        invariant
            i <= functions.len(),
            all == views(functions@),
            listable(all),
            field == old(out)@.len() + 8,
            origin == field + 8,
            out@ == old(out)@ + TAG_IMAGE@ + le_bytes(0, 8) + image_bytes(all.take(i as int)),
            prologues@ == prologue_starts(all.take(i as int)),
            entries(named@) == named_entries(all.take(i as int)),
            prologues@.len() <= i,
            named@.len() <= i,
            forall|k: int| 0 <= k < named@.len() ==> fits(#[trigger] entries(named@)[k]),
        decreases functions.len() - i,
    {
        let function = &functions[i];
        let ghost done = all.take(i as int);
        let ghost next = all.take(i + 1);
        proof {
            assert(next.drop_last() =~= done);
            assert(next.last() == function@);
            assert(all[i as int] == function@);
            lemma_le_bytes_len(0, 8);
        }
        let start: usize = out.len() - origin;
        let address: u32 = start as u32;
        if is_prologue(function.name.as_str()) {
            prologues.push(address);
        } else {
            match extract_name(function.bytecode.as_slice(), 0) {
                Ok(name) => {
                    let ghost before = entries(named@);
                    named.push(Named { address, name });
                    proof {
                        let entry = Entry { address, name: name@ };
                        assert(entries(named@) =~= before.push(entry));
                        lemma_embedded_fits(function@.bytecode);
                    }
                },
                Err(_) => {
                    assert(false);
                },
            }
        }
        append(out, function.bytecode.as_slice());
        assert(out@ =~= old(out)@ + TAG_IMAGE@ + le_bytes(0, 8) + image_bytes(next));
        i += 1;
    }
    let length: usize = out.len() - origin;
    patch_u64(out, field, length as u64);
    proof {
        assert(all.take(i as int) =~= all);
        lemma_le_bytes_len(0, 8);
        lemma_le_bytes_len(length as nat, 8);
        assert(out@ =~= old(out)@ + section(TAG_IMAGE@, image_bytes(all)));
    }
    (prologues, named)
}

/// Writes a section whose body is at hand.
fn write_blob(out: &mut Vec<u8>, tag: &[u8; 8], body: &[u8])
    ensures
        final(out)@ == old(out)@ + section(tag@, body@),
{
    append(out, tag);
    push_u64(out, body.len() as u64);
    append(out, body);
    assert(out@ =~= old(out)@ + section(tag@, body@));
}

/// Writes a list of addresses.
fn write_addresses(out: &mut Vec<u8>, addresses: &Vec<u32>)
    ensures
        final(out)@ == old(out)@ + addresses_bytes(addresses@),
{
    let mut i: usize = 0;
    assert(addresses@.take(0) =~= Seq::empty());
    assert(out@ =~= old(out)@ + addresses_bytes(addresses@.take(0)));
    while i < addresses.len()
        invariant
            i <= addresses.len(),
            out@ == old(out)@ + addresses_bytes(addresses@.take(i as int)),
        decreases addresses.len() - i,
    {
        let ghost before = out@;
        assert(addresses@.take(i + 1).drop_last() =~= addresses@.take(i as int));
        push_u32(out, addresses[i]);
        assert(out@ =~= old(out)@ + (addresses_bytes(addresses@.take(i as int)) + le_bytes(
            addresses@[i as int] as nat,
            4,
        )));
        i += 1;
    }
    assert(addresses@.take(i as int) =~= addresses@);
}

/// Writes a list of records.
fn write_entries(out: &mut Vec<u8>, listed: &Vec<Named>)
    requires
        forall|k: int| 0 <= k < listed@.len() ==> fits(#[trigger] entries(listed@)[k]),
    ensures
        final(out)@ == old(out)@ + entries_bytes(entries(listed@)),
{
    let ghost all = entries(listed@);
    let mut i: usize = 0;
    assert(all.take(0) =~= Seq::empty());
    assert(out@ =~= old(out)@ + entries_bytes(all.take(0)));
    while i < listed.len()
        invariant
            i <= listed.len(),
            all == entries(listed@),
            forall|k: int| 0 <= k < listed@.len() ==> fits(#[trigger] entries(listed@)[k]),
            out@ == old(out)@ + entries_bytes(all.take(i as int)),
        decreases listed.len() - i,
    {
        let record = &listed[i];
        let ghost before = out@;
        proof {
            assert(all.take(i + 1).drop_last() =~= all.take(i as int));
            assert(all.take(i + 1).last() == record@);
            assert(fits(entries(listed@)[i as int]));
        }
        push_u32(out, record.address);
        push_u32(out, (record.name.len() / 2) as u32);
        append(out, record.name);
        assert(out@ =~= before + entry_bytes(record@));
        assert(out@ =~= old(out)@ + (entries_bytes(all.take(i as int)) + entry_bytes(record@)));
        i += 1;
    }
    assert(all.take(i as int) =~= all);
}

/// Writes the directory section.
fn write_directory(out: &mut Vec<u8>, prologues: &Vec<u32>, listed: &Vec<Named>)
    requires
        prologues@.len() <= u32::MAX,
        listed@.len() <= u32::MAX,
        forall|k: int| 0 <= k < listed@.len() ==> fits(#[trigger] entries(listed@)[k]),
    ensures
        final(out)@ == old(out)@ + section(
            TAG_FUNCTION@,
            listing_bytes(prologues@, entries(listed@)),
        ),
{
    append(out, &TAG_FUNCTION);
    let field: usize = out.len();
    push_u64(out, 0);
    let ghost head = out@;
    push_u32(out, prologues.len() as u32);
    write_addresses(out, prologues);
    push_u32(out, 0);
    push_u32(out, listed.len() as u32);
    write_entries(out, listed);
    proof {
        lemma_le_bytes_len(0, 8);
        assert(out@ =~= head + listing_bytes(prologues@, entries(listed@)));
    }
    let length: usize = out.len() - field - 8;
    patch_u64(out, field, length as u64);
    proof {
        lemma_le_bytes_len(length as nat, 8);
        assert(out@ =~= old(out)@ + section(
            TAG_FUNCTION@,
            listing_bytes(prologues@, entries(listed@)),
        ));
    }
}

impl CSX {
    /// Whether the image can be written.
    pub fn can_rebuild(&self) -> (ok: bool)
        ensures
            ok == self@.rebuildable(),
    {
        let ghost all = views(self.functions@);
        let count: usize = self.functions.len();
        if count > 0xffff_ffff {
            return false;
        }
        let mut start: u64 = 0;
        let mut i: usize = 0;
        assert(all.take(0) =~= Seq::empty());
        while i < count
            invariant
                i <= count,
                count == self.functions@.len(),
                all == views(self.functions@),
                i < count ==> start == image_bytes(all.take(i as int)).len(),
                start <= u32::MAX,
                forall|k: int| 0 <= k < i ==> #[trigger] image_bytes(all.take(k)).len() <= u32::MAX,
                forall|k: int|
                    0 <= k < i && (#[trigger] all[k]).name != prologue_name() ==> name_field(
                        all[k].bytecode,
                        0,
                    ) is Some,
            decreases count - i,
        {
            let function = &self.functions[i];
            assert(all[i as int] == function@);
            if !is_prologue(function.name.as_str()) {
                if extract_name(function.bytecode.as_slice(), 0).is_err() {
                    return false;
                }
            }
            if i + 1 < count {
                let ghost next = all.take(i + 1);
                assert(next.drop_last() =~= all.take(i as int));
                assert(next.last() == function@);
                if function.bytecode.len() as u64 > 0xffff_ffff - start {
                    assert(image_bytes(all.take(i + 1)).len() > u32::MAX);
                    return false;
                }
                start = start + function.bytecode.len() as u64;
            }
            i += 1;
        }
        true
    }

    /// Writes the six sections.
    fn write_sections(&self, out: &mut Vec<u8>)
        requires
            self@.rebuildable(),
        ensures
            final(out)@ == old(out)@ + sections_bytes(self@),
    {
        let ghost functions = views(self.functions@);
        let (prologues, named) = write_image(out, &self.functions);
        let ghost first = section(TAG_IMAGE@, image_bytes(functions));
        let listed = sort_directory(named);
        proof {
            lemma_sort_keeps(entries(named@), |e: Entry| fits(e));
        }
        write_directory(out, &prologues, &listed);
        let ghost second = first + section(TAG_FUNCTION@, directory_bytes(functions));
        assert(listing_bytes(prologues@, entries(listed@)) == directory_bytes(functions));
        assert(out@ == old(out)@ + second) by {
            assert(out@ =~= old(out)@ + second);
        }
        write_blob(out, &TAG_GLOBAL, self.global.as_slice());
        let ghost third = second + section(TAG_GLOBAL@, self@.global);
        assert(out@ == old(out)@ + third) by {
            assert(out@ =~= old(out)@ + third);
        }
        write_blob(out, &TAG_DATA, self.data.as_slice());
        let ghost fourth = third + section(TAG_DATA@, self@.data);
        assert(out@ == old(out)@ + fourth) by {
            assert(out@ =~= old(out)@ + fourth);
        }
        let small: [u8; 4] = [0u8; 4];
        let large: [u8; 16] = [0u8; 16];
        assert(small@ =~= zeros(4) && large@ =~= zeros(16));
        write_blob(out, &TAG_CONSTSTR, &small);
        let ghost fifth = fourth + section(TAG_CONSTSTR@, zeros(4));
        assert(out@ == old(out)@ + fifth) by {
            assert(out@ =~= old(out)@ + fifth);
        }
        write_blob(out, &TAG_LINKINF, &large);
        let ghost sixth = fifth + section(TAG_LINKINF@, zeros(16));
        assert(out@ == old(out)@ + sixth) by {
            assert(out@ =~= old(out)@ + sixth);
        }
        assert(sixth == sections_bytes(self@));
    }

    /// Writes the image: the header and the six sections, the directory in
    /// the order of the function names.
    pub fn rebuild(&self) -> (out: Vec<u8>)
        requires
            self@.rebuildable(),
        ensures
            out@ == file_bytes(self@),
    {
        let mut out: Vec<u8> = Vec::new();
        append(&mut out, &MAGIC);
        push_u64(&mut out, 0);
        proof {
            lemma_le_bytes_len(0, 8);
        }
        let ghost head = out@;
        self.write_sections(&mut out);
        let length: usize = out.len() - 64;
        patch_u64(&mut out, 56, length as u64);
        proof {
            lemma_le_bytes_len(length as nat, 8);
            assert(head.len() == 64);
            assert(out@ =~= MAGIC@ + le_bytes(length as nat, 8) + sections_bytes(self@));
        }
        out
    }
}

} // verus!
