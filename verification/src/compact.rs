//! The compact archive of a mod: a frame of named entries that hold what
//! the mod changes in its base.

use vstd::prelude::*;
use vstd::utf8::decode_utf8;
use vstd::utf8::encode_utf8;
use vstd::utf8::valid_utf8;
use crate::bytes::le_bytes;
use crate::bytes::le_value;
use crate::bytes::lemma_le_bytes_of_value;
use crate::bytes::push_u32;
use crate::bytes::starts_with;
use crate::bytes::take;
use crate::bytes::take_u32;
use crate::error::Error;
use crate::error::Failure;
use crate::rebuild::append;
use crate::text::decode_utf8_name;

verus! {

/// The signature that opens an archive, before the digest of its base.
pub const MAGIC: [u8; 8] = [0x53, 0x65, 0x6e, 0x6b, 0x6f, 0x1a, 0x00, 0x00];

/// The length of the header: the signature and the digest.
pub const HEADER_LEN: usize = 36;

/// The byte that ends the name of an entry stored as it is.
pub const FLAG_RAW: u8 = 0xC0;

/// The byte that ends the name of an entry stored as a compressed stream.
pub const FLAG_ZLIB: u8 = 0xC1;

/// An entry of an archive: a blob or a function of the mod.
pub struct CompactEntry {
    pub name: String,
    /// Whether `data` is a zlib stream, and not the bytes themselves.
    pub zlib: bool,
    pub data: Vec<u8>,
}

/// A [`CompactEntry`] as mathematics.
pub struct EntryView {
    pub name: Seq<char>,
    pub zlib: bool,
    pub data: Seq<u8>,
}

impl View for CompactEntry {
    type V = EntryView;

    open spec fn view(&self) -> EntryView {
        EntryView { name: self.name@, zlib: self.zlib, data: self.data@ }
    }
}

/// The views of a list of entries.
pub open spec fn entry_views(entries: Seq<CompactEntry>) -> Seq<EntryView> {
    entries.map_values(|e: CompactEntry| e@)
}

/// An archive as mathematics.
pub struct Archive {
    pub base_hash: Seq<u8>,
    pub entries: Seq<EntryView>,
}

/// The compact archive of a mod.
pub struct CompactCO {
    pub(crate) base_hash: [u8; 28],
    pub(crate) entries: Vec<CompactEntry>,
}

impl View for CompactCO {
    type V = Archive;

    open(crate) spec fn view(&self) -> Archive {
        Archive { base_hash: self.base_hash@, entries: entry_views(self.entries@) }
    }
}

/// Whether a byte ends the name of an entry.
pub open spec fn is_flag(byte: u8) -> bool {
    byte == FLAG_RAW || byte == FLAG_ZLIB
}

/// Where the first byte that ends a name stands in `input`, if there is one.
pub open spec fn flag_at(input: Seq<u8>) -> Option<int>
    decreases input.len(),
{
    if input.len() == 0 {
        None
    } else if is_flag(input[0]) {
        Some(0)
    } else {
        match flag_at(input.skip(1)) {
            Some(at) => Some(at + 1),
            None => None,
        }
    }
}

/// The first flag stands behind bytes that are no flags; where there is
/// none, no byte is a flag.
pub proof fn lemma_flag_at(input: Seq<u8>)
    ensures
        match flag_at(input) {
            Some(at) => 0 <= at < input.len() && is_flag(input[at]) && forall|j: int|
                0 <= j < at ==> !is_flag(#[trigger] input[j]),
            None => forall|j: int| 0 <= j < input.len() ==> !is_flag(#[trigger] input[j]),
        },
    decreases input.len(),
{
    if input.len() > 0 && !is_flag(input[0]) {
        let rest = input.skip(1);
        lemma_flag_at(rest);
        match flag_at(rest) {
            Some(at) => {
                assert forall|j: int| 0 <= j < at + 1 implies !is_flag(#[trigger] input[j]) by {
                    if j > 0 {
                        assert(input[j] == rest[j - 1]);
                    }
                }
            },
            None => {
                assert forall|j: int| 0 <= j < input.len() implies !is_flag(
                    #[trigger] input[j],
                ) by {
                    if j > 0 {
                        assert(input[j] == rest[j - 1]);
                    }
                }
            },
        }
    }
}

/// A flag behind bytes that are no flags is the first flag.
pub proof fn lemma_flag_found(input: Seq<u8>, at: int)
    requires
        0 <= at < input.len(),
        is_flag(input[at]),
        forall|j: int| 0 <= j < at ==> !is_flag(#[trigger] input[j]),
    ensures
        flag_at(input) == Some(at),
    decreases at,
{
    if at > 0 {
        let rest = input.skip(1);
        assert(!is_flag(input[0]));
        assert forall|j: int| 0 <= j < at - 1 implies !is_flag(#[trigger] rest[j]) by {
            assert(rest[j] == input[j + 1]);
        }
        lemma_flag_found(rest, at - 1);
    }
}

/// What reading entries gives: the entries or the first failure, and the
/// input that was left when reading stopped.
pub struct EntriesRead {
    pub outcome: Result<Seq<EntryView>, Failure>,
    pub rest: Seq<u8>,
}

/// Reads entries from `input` to its end, after `done`. An entry is a name
/// in UTF-8, the flag that ends it, the length of the payload in four bytes
/// and the payload.
pub open spec fn read_entries(input: Seq<u8>, done: Seq<EntryView>) -> EntriesRead
    decreases input.len(),
{
    if input.len() == 0 {
        EntriesRead { outcome: Ok(done), rest: input }
    } else {
        match flag_at(input) {
            None => EntriesRead { outcome: Err(Failure::UnexpectedEof), rest: input },
            Some(at) => if !(0 <= at < input.len()) {
                EntriesRead { outcome: Err(Failure::UnexpectedEof), rest: input }
            } else if !valid_utf8(input.take(at)) {
                EntriesRead { outcome: Err(Failure::DecodeUtf8), rest: input.skip(at) }
            } else if input.len() - at - 1 < 4 {
                EntriesRead { outcome: Err(Failure::UnexpectedEof), rest: input.skip(at + 1) }
            } else if le_value(input.subrange(at + 1, at + 5)) > input.len() - at - 5 {
                EntriesRead { outcome: Err(Failure::UnexpectedEof), rest: input.skip(at + 5) }
            } else {
                let end = at + 5 + le_value(input.subrange(at + 1, at + 5));
                read_entries(
                    input.skip(end),
                    done.push(
                        EntryView {
                            name: decode_utf8(input.take(at)),
                            zlib: input[at] == FLAG_ZLIB,
                            data: input.subrange(at + 5, end),
                        },
                    ),
                )
            },
        }
    }
}

/// What reading an archive gives: the archive or the first failure, and the
/// input that was left when reading stopped.
pub struct ArchiveRead {
    pub outcome: Result<Archive, Failure>,
    pub rest: Seq<u8>,
}

/// Reads an archive from `input`: the header of 36 bytes, which opens with
/// the signature and holds the digest of the base, then entries to the end
/// of the input.
pub open spec fn parse_archive(input: Seq<u8>) -> ArchiveRead {
    if input.len() < HEADER_LEN {
        ArchiveRead { outcome: Err(Failure::UnexpectedEof), rest: input }
    } else if !MAGIC@.is_prefix_of(input) {
        ArchiveRead { outcome: Err(Failure::BadMagic), rest: input.skip(HEADER_LEN as int) }
    } else {
        let read = read_entries(input.skip(HEADER_LEN as int), Seq::empty());
        ArchiveRead {
            outcome: match read.outcome {
                Ok(entries) => Ok(Archive { base_hash: input.subrange(8, 36), entries }),
                Err(e) => Err(e),
            },
            rest: read.rest,
        }
    }
}

/// An entry as the archive holds it.
pub open spec fn entry_frame(entry: EntryView) -> Seq<u8> {
    encode_utf8(entry.name) + seq![
        if entry.zlib {
            FLAG_ZLIB
        } else {
            FLAG_RAW
        },
    ] + le_bytes(entry.data.len(), 4) + entry.data
}

/// A list of entries as the archive holds it.
pub open spec fn frames(entries: Seq<EntryView>) -> Seq<u8>
    decreases entries.len(),
{
    if entries.len() == 0 {
        Seq::empty()
    } else {
        frames(entries.drop_last()) + entry_frame(entries.last())
    }
}

/// An archive as bytes: the signature, the digest of the base and the
/// entries.
pub open spec fn archive_bytes(archive: Archive) -> Seq<u8> {
    MAGIC@ + archive.base_hash + frames(archive.entries)
}

/// Whether the length of every payload fits the four bytes that hold it.
pub open spec fn payloads_fit(entries: Seq<EntryView>) -> bool {
    forall|i: int| 0 <= i < entries.len() ==> (#[trigger] entries[i]).data.len() <= u32::MAX
}

impl Archive {
    /// Whether the archive can be written.
    pub open spec fn rebuildable(self) -> bool {
        payloads_fit(self.entries)
    }
}

/// Finds the first byte that ends a name.
fn find_flag(input: &[u8]) -> (at: Option<usize>)
    ensures
        match at {
            Some(k) => flag_at(input@) == Some(k as int) && k < input@.len(),
            None => flag_at(input@) is None,
        },
{
    let mut i: usize = 0;
    while i < input.len()
        invariant
            i <= input.len(),
            forall|j: int| 0 <= j < i ==> !is_flag(#[trigger] input@[j]),
        decreases input.len() - i,
    {
        if input[i] == FLAG_RAW || input[i] == FLAG_ZLIB {
            proof {
                lemma_flag_found(input@, i as int);
            }
            return Some(i);
        }
        i += 1;
    }
    proof {
        lemma_flag_at(input@);
    }
    None
}

/// Reads the entries that follow the header.
fn entries(cursor: &mut &[u8]) -> (read: Result<Vec<CompactEntry>, Error>)
    ensures
        match read {
            Ok(entries) => read_entries(old(cursor)@, Seq::empty()).outcome == Ok::<
                Seq<EntryView>,
                Failure,
            >(entry_views(entries@)),
            Err(e) => read_entries(old(cursor)@, Seq::empty()).outcome == Err::<
                Seq<EntryView>,
                Failure,
            >(e@),
        },
        final(cursor)@ == read_entries(old(cursor)@, Seq::empty()).rest,
{
    let mut entries: Vec<CompactEntry> = Vec::new();
    assert(entry_views(entries@) =~= Seq::empty());
    while cursor.len() > 0
        invariant
            read_entries(old(cursor)@, Seq::empty()) == read_entries(
                cursor@,
                entry_views(entries@),
            ),
        decreases cursor.len(),
    {
        let ghost input = cursor@;
        let at = match find_flag(*cursor) {
            Some(at) => at,
            None => {
                return Err(Error::UnexpectedEof);
            },
        };
        let bytes = take(cursor, at)?;
        let name = match decode_utf8_name(bytes) {
            Ok(name) => name,
            Err(e) => {
                return Err(Error::DecodeUtf8(e));
            },
        };
        let flag = take(cursor, 1)?;
        let zlib = flag[0] == FLAG_ZLIB;
        assert(cursor@ =~= input.skip(at + 1));
        let len = take_u32(cursor)?;
        assert(input.skip(at + 1).take(4) =~= input.subrange(at + 1, at + 5));
        assert(cursor@ =~= input.skip(at + 5));
        if len as u64 > cursor.len() as u64 {
            return Err(Error::UnexpectedEof);
        }
        let data = take(cursor, len as usize)?;
        assert(data@ =~= input.subrange(at + 5, at + 5 + len));
        assert(cursor@ =~= input.skip(at + 5 + len));
        let ghost before = entry_views(entries@);
        entries.push(CompactEntry { name, zlib, data: vstd::slice::slice_to_vec(data) });
        assert(entry_views(entries@) =~= before.push(
            EntryView { name: name@, zlib, data: data@ },
        ));
    }
    Ok(entries)
}

impl CompactCO {
    /// Reads an archive off the cursor. The cursor is left where reading
    /// stopped: at the field that could not be read, or at the end.
    pub fn new(cco: &mut &[u8]) -> (read: Result<CompactCO, Error>)
        ensures
            match read {
                Ok(archive) => parse_archive(old(cco)@).outcome == Ok::<Archive, Failure>(
                    archive@,
                ),
                Err(e) => parse_archive(old(cco)@).outcome == Err::<Archive, Failure>(e@),
            },
            final(cco)@ == parse_archive(old(cco)@).rest,
    {
        let header = take(cco, HEADER_LEN)?;
        if !starts_with(header, &MAGIC) {
            assert(!MAGIC@.is_prefix_of(old(cco)@)) by {
                if MAGIC@.is_prefix_of(old(cco)@) {
                    assert(header@.subrange(0, 8) =~= old(cco)@.subrange(0, 8));
                }
            }
            return Err(Error::BadMagic);
        }
        assert(MAGIC@.is_prefix_of(old(cco)@)) by {
            assert(header@.subrange(0, 8) =~= old(cco)@.subrange(0, 8));
        }
        let mut base_hash: [u8; 28] = [0u8; 28];
        let mut i: usize = 0;
        while i < 28
            invariant
                i <= 28,
                header@.len() == 36,
                forall|k: int| 0 <= k < i ==> base_hash@[k] == header@[k + 8],
            decreases 28 - i,
        {
            base_hash[i] = header[i + 8];
            i += 1;
        }
        assert(base_hash@ =~= old(cco)@.subrange(8, 36));
        let entries = entries(cco)?;
        Ok(CompactCO { base_hash, entries })
    }

    /// Whether the archive can be written.
    pub fn can_rebuild(&self) -> (ok: bool)
        ensures
            ok == self@.rebuildable(),
    {
        let mut i: usize = 0;
        while i < self.entries.len()
            invariant
                i <= self.entries.len(),
                forall|k: int| 0 <= k < i ==> (#[trigger] self@.entries[k]).data.len() <= u32::MAX,
            decreases self.entries.len() - i,
        {
            if self.entries[i].data.len() > 0xffff_ffff {
                assert(self@.entries[i as int].data.len() > u32::MAX);
                return false;
            }
            i += 1;
        }
        true
    }

    /// Writes the archive: the header, then every entry.
    pub fn rebuild(&self) -> (out: Vec<u8>)
        requires
            self@.rebuildable(),
        ensures
            out@ == archive_bytes(self@),
    {
        let ghost all = self@.entries;
        let mut out: Vec<u8> = Vec::new();
        append(&mut out, &MAGIC);
        append(&mut out, &self.base_hash);
        let ghost head = out@;
        let mut i: usize = 0;
        assert(all.take(0) =~= Seq::empty());
        assert(out@ =~= head + frames(all.take(0)));
        while i < self.entries.len()
            invariant
                i <= self.entries.len(),
                all == self@.entries,
                self@.rebuildable(),
                out@ == head + frames(all.take(i as int)),
            decreases self.entries.len() - i,
        {
            let entry = &self.entries[i];
            let ghost before = out@;
            proof {
                assert(all.take(i + 1).drop_last() =~= all.take(i as int));
                assert(all.take(i + 1).last() == entry@);
                assert(all[i as int] == entry@);
            }
            append(&mut out, entry.name.as_str().as_bytes());
            out.push(
                if entry.zlib {
                    FLAG_ZLIB
                } else {
                    FLAG_RAW
                },
            );
            push_u32(&mut out, entry.data.len() as u32);
            append(&mut out, entry.data.as_slice());
            assert(out@ =~= before + entry_frame(entry@));
            assert(out@ =~= head + (frames(all.take(i as int)) + entry_frame(entry@)));
            i += 1;
        }
        assert(all.take(i as int) =~= all);
        out
    }
}

/// The entries read from an input, written again after those read before,
/// spell the input.
pub proof fn lemma_entries_round_trip(input: Seq<u8>, done: Seq<EntryView>)
    requires
        read_entries(input, done).outcome is Ok,
    ensures
        frames(read_entries(input, done).outcome->Ok_0) == frames(done) + input,
        read_entries(input, done).rest.len() == 0,
        payloads_fit(done) ==> payloads_fit(read_entries(input, done).outcome->Ok_0),
    decreases input.len(),
{
    if input.len() == 0 {
        assert(frames(done) + input =~= frames(done));
    } else {
        lemma_flag_at(input);
        let at = flag_at(input)->Some_0;
        let name = input.take(at);
        let size = input.subrange(at + 1, at + 5);
        let end = at + 5 + le_value(size);
        let entry = EntryView {
            name: decode_utf8(name),
            zlib: input[at] == FLAG_ZLIB,
            data: input.subrange(at + 5, end),
        };
        let more = done.push(entry);
        lemma_entries_round_trip(input.skip(end), more);
        vstd::utf8::decode_utf8_encode_utf8(name);
        lemma_le_bytes_of_value(size);
        crate::bytes::lemma_le_value_bound(size);
        crate::bytes::lemma_radix_values();
        assert(more.drop_last() =~= done);
        assert(entry_frame(entry) =~= input.take(end));
        assert(frames(more) + input.skip(end) =~= frames(done) + input);
        if payloads_fit(done) {
            assert forall|i: int| 0 <= i < more.len() implies (#[trigger] more[i]).data.len()
                <= u32::MAX by {
                if i < done.len() {
                    assert(more[i] == done[i]);
                } else {
                    assert(more[i] == entry);
                    assert(entry.data.len() == le_value(size));
                }
            }
        }
    }
}

/// An archive that was read can be written, and writing it gives the bytes
/// that it was read from.
pub proof fn lemma_archive_round_trip(input: Seq<u8>)
    requires
        parse_archive(input).outcome is Ok,
    ensures
        parse_archive(input).outcome->Ok_0.rebuildable(),
        archive_bytes(parse_archive(input).outcome->Ok_0) == input,
{
    let rest = input.skip(HEADER_LEN as int);
    lemma_entries_round_trip(rest, Seq::empty());
    let archive = parse_archive(input).outcome->Ok_0;
    assert(MAGIC@ =~= input.subrange(0, 8));
    assert(archive_bytes(archive) =~= input);
}

} // verus!
