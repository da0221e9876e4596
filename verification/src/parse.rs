//! Reading an image from bytes.

use vstd::prelude::*;
use crate::bytes::le_value;
use crate::bytes::starts_with;
use crate::bytes::take;
use crate::bytes::take_tag;
use crate::bytes::take_u32;
use crate::bytes::take_u64;
use crate::error::Error;
use crate::error::Failure;
use crate::format::all_zero;
use crate::format::section_slot;
use crate::format::slot_of;
use crate::format::zeros;
use crate::format::MAGIC;
use crate::format::SLOTS;
use crate::format::SLOT_CONSTSTR;
use crate::format::SLOT_DATA;
use crate::format::SLOT_FUNCTION;
use crate::format::SLOT_GLOBAL;
use crate::format::SLOT_IMAGE;
use crate::format::SLOT_LINKINF;
use crate::format::TAG_CONSTSTR;
use crate::format::TAG_DATA;
use crate::format::TAG_GLOBAL;
use crate::format::TAG_LINKINF;
use crate::format::HEADER_LEN;
use crate::sort::ascending;
use crate::sort::at_most;
use crate::sort::lemma_ascending;
use crate::sort::sort_addresses;
use crate::text::decode_utf16le;
use crate::text::is_reserved;
use crate::text::reserved;
use crate::text::reserved_bytes;
use crate::text::utf16_text;
use vstd::relations::sorted_by;
use crate::digest::sha3_224;
use crate::digest::sha3_224_digest;
use crate::image::views;
use crate::image::Function;
use crate::image::FunctionView;
use crate::image::Image;
use crate::image::CSX;
use crate::index::index_entries;
use crate::index::index_insert;
use crate::index::index_new;
use crate::index::set_new;
use crate::index::NameIndex;
use crate::name::extract_name;
use crate::name::name_field;
use crate::name::validate_name;
use crate::name::PROLOGUE;

verus! {

/// The bodies of the sections found so far, by kind.
pub type Found = Seq<Option<Seq<u8>>>;

/// No section found yet.
pub open spec fn nothing_found() -> Found {
    Seq::new(SLOTS as nat, |i: int| None)
}

/// What reading sections gives: the bodies found or the first failure, and
/// the input that was left when reading stopped.
pub struct SectionsRead {
    pub outcome: Result<Found, Failure>,
    pub rest: Seq<u8>,
}

/// Reads sections from `input` to its end, after `found`. A section is a
/// tag of eight bytes, a length of eight bytes and a body of that length.
/// A failing read leaves the input where it stood; a tag that names no kind
/// of section, or one that came before, fails after its section.
pub open spec fn read_sections(input: Seq<u8>, found: Found) -> SectionsRead
    decreases input.len(),
{
    if input.len() == 0 {
        SectionsRead { outcome: Ok(found), rest: input }
    } else if input.len() < 8 {
        SectionsRead { outcome: Err(Failure::UnexpectedEof), rest: input }
    } else if input.len() < 16 {
        SectionsRead { outcome: Err(Failure::UnexpectedEof), rest: input.skip(8) }
    } else if le_value(input.subrange(8, 16)) > input.len() - 16 {
        SectionsRead { outcome: Err(Failure::UnexpectedEof), rest: input.skip(16) }
    } else {
        let tag = input.take(8);
        let end = 16 + le_value(input.subrange(8, 16)) as int;
        match section_slot(tag) {
            None => SectionsRead {
                outcome: Err(Failure::UnknownSection(tag)),
                rest: input.skip(end),
            },
            Some(slot) => if found[slot as int] is Some {
                SectionsRead { outcome: Err(Failure::BadSection(tag)), rest: input.skip(end) }
            } else {
                read_sections(input.skip(end), found.update(slot as int, Some(input.subrange(16, end))))
            },
        }
    }
}

/// The body of the section of one kind: empty where none was found.
pub open spec fn body(found: Found, slot: usize) -> Seq<u8> {
    match found[slot as int] {
        Some(bytes) => bytes,
        None => Seq::empty(),
    }
}

/// What the sections of an image must hold beside its functions: a global
/// and a data blob that are not empty, a constant-string section that is
/// empty or four zero bytes and, in a base, a link section that is empty or
/// sixteen zero bytes.
pub open spec fn check_sections(found: Found, base: bool) -> Result<(), Failure> {
    if body(found, SLOT_GLOBAL).len() == 0 {
        Err(Failure::BadSection(TAG_GLOBAL@))
    } else if body(found, SLOT_DATA).len() == 0 {
        Err(Failure::BadSection(TAG_DATA@))
    } else if body(found, SLOT_CONSTSTR).len() != 0 && body(found, SLOT_CONSTSTR) != zeros(4) {
        Err(Failure::BadSection(TAG_CONSTSTR@))
    } else if base && body(found, SLOT_LINKINF).len() != 0 && body(found, SLOT_LINKINF) != zeros(
        16,
    ) {
        Err(Failure::BadSection(TAG_LINKINF@))
    } else {
        Ok(())
    }
}

/// The sections that the parser holds while it reads.
pub(crate) struct Sections<'a> {
    pub(crate) slots: [Option<&'a [u8]>; 6],
}

impl<'a> Sections<'a> {
    pub(crate) open spec fn found(&self) -> Found {
        Seq::new(
            SLOTS as nat,
            |i: int|
                match self.slots@[i] {
                    Some(bytes) => Some(bytes@),
                    None => None,
                },
        )
    }

    /// The body of the section of one kind: empty where none was found.
    pub(crate) fn get(&self, slot: usize) -> (bytes: &'a [u8])
        requires
            slot < SLOTS,
        ensures
            bytes@ == body(self.found(), slot),
    {
        match self.slots[slot] {
            Some(bytes) => bytes,
            None => {
                let empty: &'a [u8] = &[];
                assert(empty@ =~= Seq::empty());
                empty
            },
        }
    }
}

/// Reads the sections that follow the header.
pub(crate) fn sections<'a>(cursor: &mut &'a [u8]) -> (read: Result<Sections<'a>, Error>)
    ensures
        match read {
            Ok(s) => read_sections(old(cursor)@, nothing_found()).outcome == Ok::<
                Found,
                Failure,
            >(s.found()),
            Err(e) => read_sections(old(cursor)@, nothing_found()).outcome == Err::<
                Found,
                Failure,
            >(e@),
        },
        final(cursor)@ == read_sections(old(cursor)@, nothing_found()).rest,
{
    let mut sections = Sections { slots: [None; 6] };
    assert(sections.found() =~= nothing_found());
    while cursor.len() > 0
        invariant
            read_sections(old(cursor)@, nothing_found()) == read_sections(
                cursor@,
                sections.found(),
            ),
        decreases cursor.len(),
    {
        let ghost input = cursor@;
        let ghost before = sections.found();
        let tag = take_tag(cursor)?;
        let length = take_u64(cursor)?;
        assert(input.skip(8).take(8) =~= input.subrange(8, 16));
        assert(input.skip(8).skip(8) =~= input.skip(16));
        if length > cursor.len() as u64 {
            return Err(Error::UnexpectedEof);
        }
        let contents = take(cursor, length as usize)?;
        assert(contents@ =~= input.subrange(16, 16 + length));
        assert(cursor@ =~= input.skip(16 + length));
        match slot_of(&tag) {
            None => {
                return Err(Error::UnknownSection(tag));
            },
            Some(slot) => {
                if sections.slots[slot].is_some() {
                    return Err(Error::BadSection(tag));
                }
                sections.slots[slot] = Some(contents);
                assert(sections.found() =~= before.update(slot as int, Some(contents@)));
            },
        }
    }
    Ok(sections)
}

/// What reading the prologue list gives: the addresses read and the input
/// that follows them.
pub struct PrologueRead {
    pub addresses: Seq<u32>,
    pub rest: Seq<u8>,
}

/// Reads `count` prologue addresses from `input`, after `addresses`. Each
/// must point at a name field of `image` that holds the prologue's name.
pub open spec fn read_prologue(
    input: Seq<u8>,
    image: Seq<u8>,
    count: nat,
    addresses: Seq<u32>,
) -> Result<PrologueRead, Failure>
    decreases count,
{
    if count == 0 {
        Ok(PrologueRead { addresses, rest: input })
    } else if input.len() < 4 {
        Err(Failure::UnexpectedEof)
    } else {
        let addr = le_value(input.take(4)) as u32;
        match name_field(image, addr as int) {
            None => Err(Failure::BadAddress),
            Some(name) => if name != PROLOGUE@ {
                Err(Failure::BadFunctionName)
            } else {
                read_prologue(input.skip(4), image, (count - 1) as nat, addresses.push(addr))
            },
        }
    }
}

/// Reads `count` records of named functions from `input`, after
/// `addresses`: an address, a count of code units and the name. Each
/// address must point at a name field of `image` that holds the record's
/// name, and no name may be reserved.
pub open spec fn read_named(
    input: Seq<u8>,
    image: Seq<u8>,
    count: nat,
    addresses: Seq<u32>,
) -> Result<Seq<u32>, Failure>
    decreases count,
{
    if count == 0 {
        Ok(addresses)
    } else if input.len() < 8 {
        Err(Failure::UnexpectedEof)
    } else if 2 * le_value(input.subrange(4, 8)) > input.len() - 8 {
        Err(Failure::UnexpectedEof)
    } else {
        let addr = le_value(input.take(4)) as u32;
        let end = 8 + 2 * le_value(input.subrange(4, 8)) as int;
        let name = input.subrange(8, end);
        match name_field(image, addr as int) {
            None => Err(Failure::BadAddress),
            Some(actual) => if actual != name || reserved_bytes(name) {
                Err(Failure::BadFunctionName)
            } else {
                read_named(input.skip(end), image, (count - 1) as nat, addresses.push(addr))
            },
        }
    }
}

/// Reads the function directory: the prologue list, the epilogue list,
/// which must be empty, and the named functions. Gives the addresses in the
/// order in which the directory lists them.
pub open spec fn read_directory(directory: Seq<u8>, image: Seq<u8>) -> Result<
    Seq<u32>,
    Failure,
> {
    if directory.len() < 4 {
        Err(Failure::UnexpectedEof)
    } else {
        match read_prologue(
            directory.skip(4),
            image,
            le_value(directory.take(4)),
            Seq::empty(),
        ) {
            Err(e) => Err(e),
            Ok(prologue) => if prologue.rest.len() < 4 {
                Err(Failure::UnexpectedEof)
            } else if le_value(prologue.rest.take(4)) != 0 {
                Err(Failure::EpilogueNotEmpty)
            } else if prologue.rest.len() < 8 {
                Err(Failure::UnexpectedEof)
            } else {
                read_named(
                    prologue.rest.skip(8),
                    image,
                    le_value(prologue.rest.subrange(4, 8)),
                    prologue.addresses,
                )
            },
        }
    }
}

/// Every address points at a whole name field of the image.
pub open spec fn all_named(image: Seq<u8>, addresses: Seq<u32>) -> bool {
    forall|i: int| 0 <= i < addresses.len() ==> name_field(image, #[trigger] addresses[i] as int) is Some
}

/// Reads `count` prologue addresses off the cursor.
fn prologue_list(input: &mut &[u8], image: &[u8], count: u32) -> (read: Result<Vec<u32>, Error>)
    ensures
        match read {
            Ok(addresses) => read_prologue(old(input)@, image@, count as nat, Seq::empty()) == Ok::<
                PrologueRead,
                Failure,
            >(PrologueRead { addresses: addresses@, rest: final(input)@ }) && all_named(
                image@,
                addresses@,
            ),
            Err(e) => read_prologue(old(input)@, image@, count as nat, Seq::empty()) == Err::<
                PrologueRead,
                Failure,
            >(e@),
        },
{
    let mut addresses: Vec<u32> = Vec::new();
    let mut i: u32 = 0;
    while i < count
        invariant
            i <= count,
            all_named(image@, addresses@),
            read_prologue(old(input)@, image@, count as nat, Seq::empty()) == read_prologue(
                input@,
                image@,
                (count - i) as nat,
                addresses@,
            ),
        decreases count - i,
    {
        let addr = take_u32(input)?;
        validate_name(image, addr, &PROLOGUE)?;
        addresses.push(addr);
        i += 1;
    }
    Ok(addresses)
}

/// Reads `count` records of named functions off the cursor, after the
/// addresses of the prologue list.
fn named_list(input: &mut &[u8], image: &[u8], count: u32, listed: Vec<u32>) -> (read: Result<
    Vec<u32>,
    Error,
>)
    requires
        all_named(image@, listed@),
    ensures
        match read {
            Ok(addresses) => read_named(old(input)@, image@, count as nat, listed@) == Ok::<
                Seq<u32>,
                Failure,
            >(addresses@) && all_named(image@, addresses@),
            Err(e) => read_named(old(input)@, image@, count as nat, listed@) == Err::<
                Seq<u32>,
                Failure,
            >(e@),
        },
{
    let mut addresses: Vec<u32> = listed;
    let mut i: u32 = 0;
    while i < count
        invariant
            i <= count,
            all_named(image@, addresses@),
            read_named(old(input)@, image@, count as nat, listed@) == read_named(
                input@,
                image@,
                (count - i) as nat,
                addresses@,
            ),
        decreases count - i,
    {
        let ghost record = input@;
        let addr = take_u32(input)?;
        let units = take_u32(input)?;
        assert(record.skip(4).take(4) =~= record.subrange(4, 8));
        if 2 * (units as u64) > input.len() as u64 {
            return Err(Error::UnexpectedEof);
        }
        let name = take(input, 2 * (units as usize))?;
        assert(name@ =~= record.subrange(8, 8 + 2 * units));
        assert(input@ =~= record.skip(8 + 2 * units));
        validate_name(image, addr, name)?;
        if starts_with(name, &[0x40, 0x00]) {
            return Err(Error::BadFunctionName);
        }
        addresses.push(addr);
        i += 1;
    }
    Ok(addresses)
}

/// Reads the function directory.
pub(crate) fn directory(listing: &[u8], image: &[u8]) -> (read: Result<Vec<u32>, Error>)
    ensures
        match read {
            Ok(addresses) => read_directory(listing@, image@) == Ok::<Seq<u32>, Failure>(
                addresses@,
            ) && all_named(image@, addresses@),
            Err(e) => read_directory(listing@, image@) == Err::<Seq<u32>, Failure>(e@),
        },
{
    let mut input: &[u8] = listing;
    let prologues = take_u32(&mut input)?;
    let listed = prologue_list(&mut input, image, prologues)?;
    let ghost rest = input@;
    let epilogues = take_u32(&mut input)?;
    if epilogues != 0 {
        return Err(Error::EpilogueNotEmpty);
    }
    let named = take_u32(&mut input)?;
    assert(rest.skip(4).take(4) =~= rest.subrange(4, 8));
    assert(rest.skip(4).skip(4) =~= rest.skip(8));
    named_list(&mut input, image, named, listed)
}

/// The bytes of the function at `index`, when the functions stand at the
/// addresses `sorted`: the image is cut from its first byte into pieces as
/// long as the distances from each address to the next, the last piece as
/// long as the distance from the last address to the end of the image.
pub open spec fn cut(image: Seq<u8>, sorted: Seq<u32>, index: int) -> Seq<u8> {
    let first = sorted[0] as int;
    let end = if index + 1 < sorted.len() {
        sorted[index + 1] as int
    } else {
        image.len() as int
    };
    image.subrange(sorted[index] - first, end - first)
}

/// The function that a piece of the image holds: its name is the text of
/// the name field that opens the piece.
pub open spec fn read_function(bytecode: Seq<u8>) -> Result<FunctionView, Failure> {
    match name_field(bytecode, 0) {
        None => Err(Failure::BadAddress),
        Some(name) => match utf16_text(name) {
            None => Err(Failure::DecodeUtf16),
            Some(text) => Ok(FunctionView { name: text, bytecode }),
        },
    }
}

/// The functions of an image whose directory lists the addresses `sorted`,
/// after those in `done`; the first piece that holds no function fails.
pub open spec fn carve(image: Seq<u8>, sorted: Seq<u32>, done: Seq<FunctionView>) -> Result<
    Seq<FunctionView>,
    Failure,
>
    decreases sorted.len() - done.len(),
{
    if done.len() >= sorted.len() {
        Ok(done)
    } else {
        match read_function(cut(image, sorted, done.len() as int)) {
            Err(e) => Err(e),
            Ok(function) => carve(image, sorted, done.push(function)),
        }
    }
}

/// The index of a base: for each unreserved name, the place of the last
/// function of that name.
pub open spec fn index_of(functions: Seq<FunctionView>) -> Map<Seq<char>, usize>
    decreases functions.len(),
{
    if functions.len() == 0 {
        Map::empty()
    } else if reserved(functions.last().name) {
        index_of(functions.drop_last())
    } else {
        index_of(functions.drop_last()).insert(
            functions.last().name,
            (functions.len() - 1) as usize,
        )
    }
}

/// The index of a base points at functions of the names it holds, and
/// holds every unreserved name.
pub proof fn lemma_index_of(functions: Seq<FunctionView>)
    requires
        functions.len() <= usize::MAX,
    ensures
        forall|name: Seq<char>| #[trigger]
            index_of(functions).contains_key(name) ==> index_of(functions)[name]
                < functions.len() && functions[index_of(functions)[name] as int].name == name
                && !reserved(name),
        forall|i: int|
            0 <= i < functions.len() && !reserved(functions[i].name) ==> index_of(
                functions,
            ).contains_key(#[trigger] functions[i].name) && index_of(functions)[functions[i].name]
                >= i,
    decreases functions.len(),
{
    if functions.len() > 0 {
        lemma_index_of(functions.drop_last());
        let rest = functions.drop_last();
        assert forall|name: Seq<char>| #[trigger]
            index_of(functions).contains_key(name) implies index_of(functions)[name]
            < functions.len() && functions[index_of(functions)[name] as int].name == name
            && !reserved(name) by {
            if !reserved(functions.last().name) && name == functions.last().name {
            } else {
                assert(index_of(rest).contains_key(name));
                assert(rest[index_of(rest)[name] as int] == functions[index_of(rest)[name] as int]);
            }
        }
        assert forall|i: int|
            0 <= i < functions.len() && !reserved(functions[i].name) implies index_of(
            functions,
        ).contains_key(#[trigger] functions[i].name) && index_of(functions)[functions[i].name]
            >= i by {
            if i < functions.len() - 1 {
                assert(rest[i] == functions[i]);
            }
        }
    }
}

/// What the sections of an image hold once they are read: the image, or the
/// first failure.
pub open spec fn build_image(found: Found, base: bool, input: Seq<u8>) -> Result<Image, Failure> {
    match check_sections(found, base) {
        Err(e) => Err(e),
        Ok(_) => match read_directory(body(found, SLOT_FUNCTION), body(found, SLOT_IMAGE)) {
            Err(e) => Err(e),
            Ok(addresses) => match carve(
                body(found, SLOT_IMAGE),
                ascending(addresses),
                Seq::empty(),
            ) {
                Err(e) => Err(e),
                Ok(functions) => Ok(
                    Image {
                        base_hash: if base {
                            sha3_224_digest(input)
                        } else {
                            zeros(28)
                        },
                        base_func: if base {
                            index_of(functions)
                        } else {
                            Map::empty()
                        },
                        mods_used: Set::empty(),
                        global: body(found, SLOT_GLOBAL),
                        data: body(found, SLOT_DATA),
                        functions,
                    },
                ),
            },
        },
    }
}

/// What reading an image gives: the image or the first failure, and the
/// input that was left when reading stopped.
pub struct ImageRead {
    pub outcome: Result<Image, Failure>,
    pub rest: Seq<u8>,
}

/// Reads an image from `input`: the header of 64 bytes, which opens with
/// the signature, then sections to the end of the input. A base carries the
/// digest of the whole input and the index of its functions; a mod carries
/// neither yet.
pub open spec fn parse_image(input: Seq<u8>, base: bool) -> ImageRead {
    if input.len() < HEADER_LEN {
        ImageRead { outcome: Err(Failure::UnexpectedEof), rest: input }
    } else if !MAGIC@.is_prefix_of(input) {
        ImageRead { outcome: Err(Failure::BadMagic), rest: input.skip(HEADER_LEN as int) }
    } else {
        let read = read_sections(input.skip(HEADER_LEN as int), nothing_found());
        match read.outcome {
            Err(e) => ImageRead { outcome: Err(e), rest: read.rest },
            Ok(found) => ImageRead { outcome: build_image(found, base, input), rest: read.rest },
        }
    }
}

/// Cuts the image into its functions.
fn functions(image: &[u8], sorted: &Vec<u32>) -> (read: Result<Vec<Function>, Error>)
    requires
        sorted_by(sorted@, at_most()),
        forall|i: int| 0 <= i < sorted@.len() ==> sorted@[i] <= image@.len(),
    ensures
        match read {
            Ok(functions) => carve(image@, sorted@, Seq::empty()) == Ok::<
                Seq<FunctionView>,
                Failure,
            >(views(functions@)),
            Err(e) => carve(image@, sorted@, Seq::empty()) == Err::<Seq<FunctionView>, Failure>(
                e@,
            ),
        },
{
    let mut functions: Vec<Function> = Vec::new();
    let count: usize = sorted.len();
    let mut i: usize = 0;
    assert(views(functions@) =~= Seq::empty());
    while i < count
        invariant
            i <= count,
            count == sorted@.len(),
            functions@.len() == i,
            sorted_by(sorted@, at_most()),
            forall|k: int| 0 <= k < sorted@.len() ==> sorted@[k] <= image@.len(),
            carve(image@, sorted@, Seq::empty()) == carve(image@, sorted@, views(functions@)),
        decreases count - i,
    {
        let first: usize = sorted[0] as usize;
        let start: usize = sorted[i] as usize;
        let end: usize = if i + 1 < count {
            sorted[i + 1] as usize
        } else {
            image.len()
        };
        assert(at_most()(sorted@[0], sorted@[i as int]));
        assert(i + 1 < count ==> at_most()(sorted@[i as int], sorted@[i + 1]));
        let piece = vstd::slice::slice_subrange(image, start - first, end - first);
        assert(piece@ == cut(image@, sorted@, i as int));
        let name = extract_name(piece, 0)?;
        let text = match decode_utf16le(name) {
            Some(text) => text,
            None => {
                return Err(Error::DecodeUtf16);
            },
        };
        let ghost before = views(functions@);
        functions.push(Function { name: text, bytecode: vstd::slice::slice_to_vec(piece) });
        assert(views(functions@) =~= before.push(
            FunctionView { name: text@, bytecode: piece@ },
        ));
        i += 1;
    }
    Ok(functions)
}

/// Builds the index of a base.
fn index_functions(functions: &Vec<Function>) -> (index: NameIndex)
    ensures
        index_entries(index) == index_of(views(functions@)),
{
    let mut index = index_new();
    let mut i: usize = 0;
    assert(views(functions@).take(0) =~= Seq::empty());
    while i < functions.len()
        invariant
            i <= functions.len(),
            index_entries(index) =~= index_of(views(functions@).take(i as int)),
        decreases functions.len() - i,
    {
        let ghost done = views(functions@).take(i as int);
        let ghost next = views(functions@).take(i + 1);
        assert(next.drop_last() =~= done);
        assert(next.last() == functions@[i as int]@);
        if !is_reserved(functions[i].name.as_str()) {
            index_insert(&mut index, functions[i].name.clone(), i);
        }
        i += 1;
    }
    assert(views(functions@).take(i as int) =~= views(functions@));
    index
}

/// Reads an image off the cursor.
fn parse(cursor: &mut &[u8], base: bool) -> (read: Result<CSX, Error>)
    ensures
        match read {
            Ok(image) => parse_image(old(cursor)@, base).outcome == Ok::<Image, Failure>(image@),
            Err(e) => parse_image(old(cursor)@, base).outcome == Err::<Image, Failure>(e@),
        },
        final(cursor)@ == parse_image(old(cursor)@, base).rest,
{
    let base_hash: [u8; 28] = if base {
        sha3_224(*cursor)
    } else {
        [0u8; 28]
    };
    assert(!base ==> base_hash@ =~= zeros(28));
    let header = take(cursor, HEADER_LEN)?;
    if !starts_with(header, &MAGIC) {
        assert(!MAGIC@.is_prefix_of(old(cursor)@)) by {
            if MAGIC@.is_prefix_of(old(cursor)@) {
                assert(header@.subrange(0, 56) =~= old(cursor)@.subrange(0, 56));
            }
        }
        return Err(Error::BadMagic);
    }
    assert(MAGIC@.is_prefix_of(old(cursor)@)) by {
        assert(header@.subrange(0, 56) =~= old(cursor)@.subrange(0, 56));
    }
    let found = sections(cursor)?;
    let global = found.get(SLOT_GLOBAL);
    if global.len() == 0 {
        return Err(Error::BadSection(TAG_GLOBAL));
    }
    let data = found.get(SLOT_DATA);
    if data.len() == 0 {
        return Err(Error::BadSection(TAG_DATA));
    }
    let conststr = found.get(SLOT_CONSTSTR);
    if conststr.len() != 0 && !(conststr.len() == 4 && all_zero(conststr)) {
        return Err(Error::BadSection(TAG_CONSTSTR));
    }
    let linkinf = found.get(SLOT_LINKINF);
    if base && linkinf.len() != 0 && !(linkinf.len() == 16 && all_zero(linkinf)) {
        return Err(Error::BadSection(TAG_LINKINF));
    }
    let image = found.get(SLOT_IMAGE);
    let addresses = directory(found.get(SLOT_FUNCTION), image)?;
    let sorted = sort_addresses(&addresses);
    proof {
        lemma_ascending(addresses@);
        assert forall|i: int| 0 <= i < sorted@.len() implies sorted@[i] <= image@.len() by {
            let a = sorted@[i];
            assert(addresses@.contains(a));
            let k = choose|k: int| 0 <= k < addresses@.len() && addresses@[k] == a;
            assert(name_field(image@, addresses@[k] as int) is Some);
        }
    }
    let functions = functions(image, &sorted)?;
    let base_func = if base {
        index_functions(&functions)
    } else {
        index_new()
    };
    let count = functions.len();
    proof {
        lemma_index_of(views(functions@));
    }
    Ok(
        CSX {
            base_hash,
            base_func,
            mods_used: set_new(),
            global: vstd::slice::slice_to_vec(global),
            data: vstd::slice::slice_to_vec(data),
            functions,
        },
    )
}

impl CSX {
    /// Reads a base image off the cursor. The cursor is left where reading
    /// stopped: at the field that could not be read, or at the end.
    pub fn new(csx: &mut &[u8]) -> (read: Result<CSX, Error>)
        ensures
            match read {
                Ok(image) => parse_image(old(csx)@, true).outcome == Ok::<Image, Failure>(image@),
                Err(e) => parse_image(old(csx)@, true).outcome == Err::<Image, Failure>(e@),
            },
            final(csx)@ == parse_image(old(csx)@, true).rest,
    {
        parse(csx, true)
    }

    /// Reads a mod for this base off the cursor. The mod carries the digest
    /// of this base; whether the two fit is tested when they are merged.
    pub fn new_mods(&self, csx: &mut &[u8]) -> (read: Result<CSX, Error>)
        ensures
            match read {
                Ok(mods) => match parse_image(old(csx)@, false).outcome {
                    Ok(image) => mods@ == (Image { base_hash: self@.base_hash, ..image }),
                    Err(_) => false,
                },
                Err(e) => parse_image(old(csx)@, false).outcome == Err::<Image, Failure>(e@),
            },
            final(csx)@ == parse_image(old(csx)@, false).rest,
    {
        let mut mods = parse(csx, false)?;
        proof {
            use_type_invariant(&mods);
        }
        mods.base_hash = self.base_hash;
        Ok(mods)
    }
}

} // verus!
