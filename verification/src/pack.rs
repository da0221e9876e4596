//! Packing a mod into an archive and unpacking it again: every blob and
//! function is stored as a compressed delta from the base where that is
//! shorter, and as it is where it is not.

use vstd::prelude::*;
use crate::bytes::same_bytes;
use crate::codec::bsdiff_delta;
use crate::codec::bspatch_applied;
use crate::codec::delta_apply;
use crate::codec::delta_encode;
use crate::codec::zlib_decode;
use crate::codec::zlib_deflated;
use crate::codec::zlib_encode;
use crate::codec::zlib_inflated;
use crate::compact::entry_views;
use crate::compact::Archive;
use crate::compact::CompactCO;
use crate::compact::CompactEntry;
use crate::compact::EntryView;
use crate::error::Error;
use crate::error::Failure;
use crate::image::views;
use crate::image::Function;
use crate::image::FunctionView;
use crate::image::Image;
use crate::image::CSX;
use crate::index::index_get;
use crate::index::index_new;
use crate::index::set_new;
use crate::merge::fit;
use crate::merge::validate_items_same_prefix;
use crate::merge::validate_same_hash;
use crate::text::same_text;

verus! {

/// The name of the entry that holds the global blob.
pub open spec fn global_name() -> Seq<char> {
    " global "@
}

/// The name of the entry that holds the data blob.
pub open spec fn data_name() -> Seq<char> {
    " data "@
}

/// The entry that stores `mods_data` when `compressed` is what compression
/// made of it: the compressed form where it is shorter, or else the bytes
/// as they are.
pub open spec fn chosen(name: Seq<char>, compressed: Seq<u8>, mods_data: Seq<u8>) -> EntryView {
    if compressed.len() < mods_data.len() {
        EntryView { name, zlib: true, data: compressed }
    } else {
        EntryView { name, zlib: false, data: mods_data }
    }
}

/// The stream that is compressed for an entry: the delta from the base's
/// bytes where the base has some, or else the bytes themselves.
pub open spec fn stream(base_data: Option<Seq<u8>>, mods_data: Seq<u8>) -> Option<Seq<u8>> {
    match base_data {
        Some(base_data) => bsdiff_delta(base_data, mods_data),
        None => Some(mods_data),
    }
}

/// The entry made for `mods_data`; it fails where a codec fails.
pub open spec fn made(name: Seq<char>, base_data: Option<Seq<u8>>, mods_data: Seq<u8>) -> Result<
    EntryView,
    Failure,
> {
    match stream(base_data, mods_data) {
        None => Err(Failure::IO),
        Some(stream) => match zlib_deflated(stream) {
            None => Err(Failure::IO),
            Some(compressed) => Ok(chosen(name, compressed, mods_data)),
        },
    }
}

/// The bytes that an entry stands for, given the base's bytes of its name:
/// its payload where that is stored as it is; or else what the payload
/// decompresses to, applied as a delta where the base has bytes.
pub open spec fn restored(entry: EntryView, base_data: Option<Seq<u8>>) -> Result<
    Seq<u8>,
    Failure,
> {
    if !entry.zlib {
        Ok(entry.data)
    } else {
        match zlib_inflated(entry.data) {
            None => Err(Failure::IO),
            Some(stream) => match base_data {
                None => Ok(stream),
                Some(base_data) => match bspatch_applied(base_data, stream) {
                    None => Err(Failure::IO),
                    Some(bytes) => Ok(bytes),
                },
            },
        }
    }
}

/// The bytes of the base that an entry of this name is a delta from: a
/// blob for the two names that stand for the blobs, or else the bytecode of
/// the base's function of that name.
pub open spec fn base_bytes(base: Image, name: Seq<char>) -> Option<Seq<u8>> {
    if name == global_name() {
        Some(base.global)
    } else if name == data_name() {
        Some(base.data)
    } else {
        function_bytes(base, name)
    }
}

/// The bytecode of the base's function of this name.
pub open spec fn function_bytes(base: Image, name: Seq<char>) -> Option<Seq<u8>> {
    if base.base_func.contains_key(name) {
        Some(base.functions[base.base_func[name] as int].bytecode)
    } else {
        None
    }
}

/// What an entry unpacks to over a base.
pub open spec fn unpacked(entry: EntryView, base: Image) -> Result<FunctionView, Failure> {
    match restored(entry, base_bytes(base, entry.name)) {
        Ok(bytecode) => Ok(FunctionView { name: entry.name, bytecode }),
        Err(e) => Err(e),
    }
}

/// Where an unpacked entry goes in the mod: to a blob for the two names
/// that stand for the blobs, or else behind the functions.
pub open spec fn routed(mods: Image, function: FunctionView) -> Image {
    if function.name == global_name() {
        Image { global: function.bytecode, ..mods }
    } else if function.name == data_name() {
        Image { data: function.bytecode, ..mods }
    } else {
        Image { functions: mods.functions.push(function), ..mods }
    }
}

/// Unpacks the entries in their order into a mod; the first that cannot be
/// unpacked fails.
pub open spec fn unpack_all(entries: Seq<EntryView>, base: Image, mods: Image) -> Result<
    Image,
    Failure,
>
    decreases entries.len(),
{
    if entries.len() == 0 {
        Ok(mods)
    } else {
        match unpack_all(entries.drop_last(), base, mods) {
            Err(e) => Err(e),
            Ok(filled) => match unpacked(entries.last(), base) {
                Err(e) => Err(e),
                Ok(function) => Ok(routed(filled, function)),
            },
        }
    }
}

/// The mod of an archive before any entry is unpacked.
pub open spec fn empty_mod(base_hash: Seq<u8>) -> Image {
    Image {
        base_hash,
        base_func: Map::empty(),
        mods_used: Set::empty(),
        global: Seq::empty(),
        data: Seq::empty(),
        functions: Seq::empty(),
    }
}

/// The mod that an archive holds over a base: both must carry one digest.
pub open spec fn decompressed(archive: Archive, base: Image) -> Result<Image, Failure> {
    if base.base_hash != archive.base_hash {
        Err(Failure::HashMismatch)
    } else {
        unpack_all(archive.entries, base, empty_mod(archive.base_hash))
    }
}

/// The entries made for the functions of a mod, in their order; the first
/// that cannot be made fails.
pub open spec fn function_entries(base: Image, functions: Seq<FunctionView>) -> Result<
    Seq<EntryView>,
    Failure,
>
    decreases functions.len(),
{
    if functions.len() == 0 {
        Ok(Seq::empty())
    } else {
        match function_entries(base, functions.drop_last()) {
            Err(e) => Err(e),
            Ok(entries) => match made(
                functions.last().name,
                function_bytes(base, functions.last().name),
                functions.last().bytecode,
            ) {
                Err(e) => Err(e),
                Ok(entry) => Ok(entries.push(entry)),
            },
        }
    }
}

/// The archive of a mod over its base: the mod must fit the base; the
/// entries are the global blob, the data blob and the functions.
pub open spec fn compressed(base: Image, mods: Image) -> Result<Archive, Failure> {
    match fit(base, mods) {
        Err(e) => Err(e),
        Ok(_) => match made(global_name(), Some(base.global), mods.global) {
            Err(e) => Err(e),
            Ok(global) => match made(data_name(), Some(base.data), mods.data) {
                Err(e) => Err(e),
                Ok(data) => match function_entries(base, mods.functions) {
                    Err(e) => Err(e),
                    Ok(entries) => Ok(
                        Archive { base_hash: base.base_hash, entries: seq![global, data] + entries },
                    ),
                },
            },
        }
    }
}

/// No function carries a name that stands for a blob.
pub open spec fn plain_names(functions: Seq<FunctionView>) -> bool {
    forall|i: int|
        0 <= i < functions.len() ==> (#[trigger] functions[i]).name != global_name()
            && functions[i].name != data_name()
}

impl CompactEntry {
    /// Stores `mods_data` under `name`, given what compression made of it:
    /// the compressed form where it is strictly shorter, or else the bytes
    /// as they are.
    pub fn pick(name: String, compressed: Vec<u8>, mods_data: &[u8]) -> (entry: CompactEntry)
        ensures
            entry@ == chosen(name@, compressed@, mods_data@),
            entry@.zlib <==> entry@.data.len() < mods_data@.len(),
            !entry@.zlib ==> entry@.data == mods_data@,
    {
        if compressed.len() < mods_data.len() {
            CompactEntry { name, zlib: true, data: compressed }
        } else {
            CompactEntry { name, zlib: false, data: vstd::slice::slice_to_vec(mods_data) }
        }
    }

    /// Makes the entry that stores `mods_data` under `name`, as a delta
    /// from `base_data` where the base has bytes of that name. The payload
    /// is shorter than `mods_data` exactly when it is compressed, and the
    /// entry restores `mods_data` over the same base bytes.
    pub fn make(name: String, base_data: Option<&[u8]>, mods_data: &[u8]) -> (entry: Result<
        CompactEntry,
        Error,
    >)
        ensures
            match entry {
                Ok(entry) => made(name@, bytes_of(base_data), mods_data@) == Ok::<
                    EntryView,
                    Failure,
                >(entry@) && restored(entry@, bytes_of(base_data)) == Ok::<Seq<u8>, Failure>(
                    mods_data@,
                ) && (entry@.zlib <==> entry@.data.len() < mods_data@.len()) && (!entry@.zlib
                    ==> entry@.data == mods_data@),
                Err(e) => made(name@, bytes_of(base_data), mods_data@) == Err::<
                    EntryView,
                    Failure,
                >(e@),
            },
    {
        let compressed = match base_data {
            Some(base_data) => {
                let delta = match delta_encode(base_data, mods_data) {
                    Ok(delta) => delta,
                    Err(e) => {
                        return Err(Error::IO(e));
                    },
                };
                match zlib_encode(delta.as_slice()) {
                    Ok(compressed) => compressed,
                    Err(e) => {
                        return Err(Error::IO(e));
                    },
                }
            },
            None => match zlib_encode(mods_data) {
                Ok(compressed) => compressed,
                Err(e) => {
                    return Err(Error::IO(e));
                },
            },
        };
        Ok(CompactEntry::pick(name, compressed, mods_data))
    }

    /// Unpacks the entry over a base.
    pub fn unpack(&self, base: &CSX) -> (function: Result<Function, Error>)
        ensures
            match function {
                Ok(function) => unpacked(self@, base@) == Ok::<FunctionView, Failure>(function@),
                Err(e) => unpacked(self@, base@) == Err::<FunctionView, Failure>(e@),
            },
    {
        if !self.zlib {
            return Ok(
                Function {
                    name: self.name.clone(),
                    bytecode: vstd::slice::slice_to_vec(self.data.as_slice()),
                },
            );
        }
        proof {
            use_type_invariant(base);
        }
        let base_data: Option<&[u8]> = if same_text(self.name.as_str(), " global ") {
            Some(base.global.as_slice())
        } else if same_text(self.name.as_str(), " data ") {
            Some(base.data.as_slice())
        } else {
            match index_get(&base.base_func, self.name.as_str()) {
                Some(place) => Some(base.functions[place].bytecode.as_slice()),
                None => None,
            }
        };
        assert(bytes_of(base_data) == base_bytes(base@, self@.name));
        let stream = match zlib_decode(self.data.as_slice()) {
            Ok(stream) => stream,
            Err(e) => {
                return Err(Error::IO(e));
            },
        };
        let bytecode = match base_data {
            Some(base_data) => match delta_apply(base_data, stream.as_slice()) {
                Ok(bytecode) => bytecode,
                Err(e) => {
                    return Err(Error::IO(e));
                },
            },
            None => stream,
        };
        Ok(Function { name: self.name.clone(), bytecode })
    }
}

/// The bytes behind an optional slice.
pub open spec fn bytes_of(data: Option<&[u8]>) -> Option<Seq<u8>> {
    match data {
        Some(data) => Some(data@),
        None => None,
    }
}

/// Whether unpacking the archive over the base gives back the blobs and
/// the functions of the mod.
pub open spec fn restores(archive: Archive, base: Image, mods: Image) -> bool {
    decompressed(archive, base) == Ok::<Image, Failure>(
        Image {
            global: mods.global,
            data: mods.data,
            functions: mods.functions,
            ..empty_mod(archive.base_hash)
        },
    )
}

/// The two names that stand for the blobs differ.
pub proof fn lemma_blob_names()
    ensures
        global_name() != data_name(),
        global_name().len() == 8,
        data_name().len() == 6,
{
    reveal_strlit(" global ");
    reveal_strlit(" data ");
    assert(" global "@.len() == 8);
    assert(" data "@.len() == 6);
}

/// Once unpacking the first entries of a list fails, unpacking the list
/// fails in the same way.
pub proof fn lemma_unpack_fails(entries: Seq<EntryView>, base: Image, mods: Image, upto: int)
    requires
        0 <= upto <= entries.len(),
        unpack_all(entries.take(upto), base, mods) is Err,
    ensures
        unpack_all(entries, base, mods) == unpack_all(entries.take(upto), base, mods),
    decreases entries.len() - upto,
{
    if upto == entries.len() {
        assert(entries.take(upto) =~= entries);
    } else {
        assert(entries.take(upto + 1).drop_last() =~= entries.take(upto));
        lemma_unpack_fails(entries, base, mods, upto + 1);
    }
}

/// Once making the entries of the first functions fails, making them all
/// fails in the same way.
pub proof fn lemma_entries_fail(base: Image, functions: Seq<FunctionView>, upto: int)
    requires
        0 <= upto <= functions.len(),
        function_entries(base, functions.take(upto)) is Err,
    ensures
        function_entries(base, functions) == function_entries(base, functions.take(upto)),
    decreases functions.len() - upto,
{
    if upto == functions.len() {
        assert(functions.take(upto) =~= functions);
    } else {
        assert(functions.take(upto + 1).drop_last() =~= functions.take(upto));
        lemma_entries_fail(base, functions, upto + 1);
    }
}

impl CompactCO {
    /// Packs a mod into an archive over its base. Where no function of the
    /// mod carries a name that stands for a blob, unpacking the archive
    /// over the same base gives back the blobs and the functions of the
    /// mod.
    pub fn compress(base: &CSX, mods: &CSX) -> (archive: Result<CompactCO, Error>)
        ensures
            match archive {
                Ok(archive) => compressed(base@, mods@) == Ok::<Archive, Failure>(archive@) && (
                plain_names(mods@.functions) ==> restores(archive@, base@, mods@)),
                Err(e) => compressed(base@, mods@) == Err::<Archive, Failure>(e@),
            },
    {
        proof {
            use_type_invariant(base);
            lemma_blob_names();
        }
        validate_same_hash(base, mods)?;
        validate_items_same_prefix(base, mods)?;
        let ghost all = mods@.functions;
        let ghost empty = empty_mod(base@.base_hash);
        let mut entries: Vec<CompactEntry> = Vec::new();
        let global = CompactEntry::make(
            " global ".to_owned(),
            Some(base.global.as_slice()),
            mods.global.as_slice(),
        )?;
        let data = CompactEntry::make(
            " data ".to_owned(),
            Some(base.data.as_slice()),
            mods.data.as_slice(),
        )?;
        let ghost blobs = seq![global@, data@];
        entries.push(global);
        entries.push(data);
        proof {
            assert(entry_views(entries@) =~= blobs + Seq::<EntryView>::empty());
            assert(all.take(0) =~= Seq::empty());
            assert(blobs.drop_last() =~= seq![blobs[0]]);
            assert(blobs.drop_last().drop_last() =~= Seq::empty());
            let one = blobs.drop_last();
            assert(one.last() == blobs[0]);
            assert(unpack_all(one.drop_last(), base@, empty) == Ok::<Image, Failure>(empty));
            assert(blobs[0].name == global_name());
            assert(base_bytes(base@, blobs[0].name) == Some(base@.global));
            assert(unpacked(blobs[0], base@) == Ok::<FunctionView, Failure>(
                FunctionView { name: global_name(), bytecode: mods@.global },
            ));
            assert(unpack_all(one, base@, empty) == Ok::<Image, Failure>(
                Image { global: mods@.global, ..empty },
            ));
            assert(blobs.last() == blobs[1]);
            assert(blobs[1].name == data_name());
            assert(base_bytes(base@, blobs[1].name) == Some(base@.data));
            assert(unpacked(blobs[1], base@) == Ok::<FunctionView, Failure>(
                FunctionView { name: data_name(), bytecode: mods@.data },
            ));
            assert(unpack_all(blobs, base@, empty) == Ok::<Image, Failure>(
                Image { global: mods@.global, data: mods@.data, ..empty },
            ));
            assert(Seq::<FunctionView>::empty() =~= all.take(0));
        }
        let mut i: usize = 0;
        while i < mods.functions.len()
            invariant
                i <= mods.functions.len(),
                all == views(mods.functions@),
                all == mods@.functions,
                empty == empty_mod(base@.base_hash),
                base@.indexed(),
                global_name() != data_name(),
                fit(base@, mods@) is Ok,
                blobs.len() == 2,
                made(global_name(), Some(base@.global), mods@.global) == Ok::<EntryView, Failure>(
                    blobs[0],
                ),
                made(data_name(), Some(base@.data), mods@.data) == Ok::<EntryView, Failure>(
                    blobs[1],
                ),
                function_entries(base@, all.take(i as int)) is Ok,
                entry_views(entries@) == blobs + function_entries(base@, all.take(i as int))->Ok_0,
                plain_names(all) ==> unpack_all(entry_views(entries@), base@, empty) == Ok::<
                    Image,
                    Failure,
                >(
                    Image {
                        global: mods@.global,
                        data: mods@.data,
                        functions: all.take(i as int),
                        ..empty
                    },
                ),
            decreases mods.functions.len() - i,
        {
            let function = &mods.functions[i];
            let ghost before = entry_views(entries@);
            let ghost made_before = function_entries(base@, all.take(i as int))->Ok_0;
            proof {
                assert(all.take(i + 1).drop_last() =~= all.take(i as int));
                assert(all.take(i + 1).last() == function@);
                assert(all[i as int] == function@);
            }
            let base_data: Option<&[u8]> = match index_get(
                &base.base_func,
                function.name.as_str(),
            ) {
                Some(place) => Some(base.functions[place].bytecode.as_slice()),
                None => None,
            };
            assert(bytes_of(base_data) == function_bytes(base@, function@.name));
            let entry = match CompactEntry::make(
                function.name.clone(),
                base_data,
                function.bytecode.as_slice(),
            ) {
                Ok(entry) => entry,
                Err(e) => {
                    proof {
                        lemma_entries_fail(base@, all, i + 1);
                    }
                    return Err(e);
                },
            };
            let ghost added = entry@;
            entries.push(entry);
            proof {
                assert(entry_views(entries@) =~= before.push(added));
                assert(before.push(added) =~= blobs + made_before.push(added));
                assert(entry_views(entries@).drop_last() =~= before);
                if plain_names(all) {
                    assert(base_bytes(base@, added.name) == function_bytes(base@, added.name));
                    assert(all.take(i + 1) =~= all.take(i as int).push(function@));
                }
            }
            i += 1;
        }
        proof {
            assert(all.take(i as int) =~= all);
        }
        Ok(CompactCO { base_hash: base.base_hash, entries })
    }

    /// Unpacks the archive into the mod that it holds over a base.
    pub fn decompress(&self, base: &CSX) -> (mods: Result<CSX, Error>)
        ensures
            match mods {
                Ok(mods) => decompressed(self@, base@) == Ok::<Image, Failure>(mods@),
                Err(e) => decompressed(self@, base@) == Err::<Image, Failure>(e@),
            },
    {
        if !same_bytes(&base.base_hash, &self.base_hash) {
            return Err(Error::HashMismatch);
        }
        let ghost all = self@.entries;
        let ghost empty = empty_mod(self@.base_hash);
        let mut global: Vec<u8> = Vec::new();
        let mut data: Vec<u8> = Vec::new();
        let mut functions: Vec<Function> = Vec::new();
        let mut i: usize = 0;
        proof {
            assert(all.take(0) =~= Seq::empty());
            assert(views(functions@) =~= Seq::empty());
        }
        while i < self.entries.len()
            invariant
                i <= self.entries.len(),
                all == self@.entries,
                empty == empty_mod(self@.base_hash),
                base@.base_hash == self@.base_hash,
                unpack_all(all.take(i as int), base@, empty) == Ok::<Image, Failure>(
                    Image {
                        global: global@,
                        data: data@,
                        functions: views(functions@),
                        ..empty
                    },
                ),
            decreases self.entries.len() - i,
        {
            let entry = &self.entries[i];
            proof {
                assert(all.take(i + 1).drop_last() =~= all.take(i as int));
                assert(all.take(i + 1).last() == entry@);
            }
            let function = match entry.unpack(base) {
                Ok(function) => function,
                Err(e) => {
                    proof {
                        lemma_unpack_fails(all, base@, empty, i + 1);
                    }
                    return Err(e);
                },
            };
            if same_text(function.name.as_str(), " global ") {
                global = function.bytecode;
            } else if same_text(function.name.as_str(), " data ") {
                data = function.bytecode;
            } else {
                let ghost before = views(functions@);
                functions.push(function);
                assert(views(functions@) =~= before.push(function@));
            }
            i += 1;
        }
        proof {
            assert(all.take(i as int) =~= all);
        }
        Ok(
            CSX {
                base_hash: self.base_hash,
                base_func: index_new(),
                mods_used: set_new(),
                global,
                data,
                functions,
            },
        )
    }
}

} // verus!
