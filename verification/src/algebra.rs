//! What holds of merging, whatever the images: how digests gate every
//! operation, how the blobs of joined mods grow, and when functions of two
//! mods collide.

use vstd::prelude::*;
use crate::compact::Archive;
use crate::error::Failure;
use crate::image::FunctionView;
use crate::image::Image;
use crate::merge::apply;
use crate::merge::apply_function;
use crate::merge::apply_functions;
use crate::merge::concat;
use crate::merge::fit;
use crate::merge::join;
use crate::merge::longer;
use crate::merge::with_blobs;
use crate::pack::compressed;
use crate::pack::decompressed;
use crate::text::prologue_name;
use crate::text::reserved;

verus! {

/// A mod made for another base is not applied: the operation fails with
/// `HashMismatch`.
pub proof fn lemma_apply_needs_same_base(base: Image, mods: Image)
    requires
        base.base_hash != mods.base_hash,
    ensures
        apply(base, mods) == Err::<Image, Failure>(Failure::HashMismatch),
{
}

/// A mod made for another base is not packed: the operation fails with
/// `HashMismatch`.
pub proof fn lemma_compress_needs_same_base(base: Image, mods: Image)
    requires
        base.base_hash != mods.base_hash,
    ensures
        compressed(base, mods) == Err::<Archive, Failure>(Failure::HashMismatch),
{
}

/// An archive made for another base is not unpacked: the operation fails
/// with `HashMismatch`.
pub proof fn lemma_decompress_needs_same_base(archive: Archive, base: Image)
    requires
        base.base_hash != archive.base_hash,
    ensures
        decompressed(archive, base) == Err::<Image, Failure>(Failure::HashMismatch),
{
}

/// Whether one of two blobs extends the other.
pub open spec fn comparable(a: Seq<u8>, b: Seq<u8>) -> bool {
    a.is_prefix_of(b) || b.is_prefix_of(a)
}

/// Mods that were joined were all made for one base, which is that of the
/// result; each blob of the result is a blob of one of the mods, and the
/// same blob of every mod is a prefix of it: it is the longest of them. The
/// functions of the result are as many as those of the mods together.
pub proof fn lemma_concat_grows(mods: Seq<Image>)
    requires
        concat(mods) is Ok,
    ensures
        mods.len() > 0,
        forall|i: int|
            0 <= i < mods.len() ==> (#[trigger] mods[i]).base_hash == concat(
                mods,
            )->Ok_0.base_hash,
        forall|i: int|
            0 <= i < mods.len() ==> (#[trigger] mods[i]).global.is_prefix_of(
                concat(mods)->Ok_0.global,
            ) && mods[i].data.is_prefix_of(concat(mods)->Ok_0.data),
        exists|i: int| 0 <= i < mods.len() && (#[trigger] mods[i]).global == concat(mods)->Ok_0.global,
        exists|i: int| 0 <= i < mods.len() && (#[trigger] mods[i]).data == concat(mods)->Ok_0.data,
    decreases mods.len(),
{
    let joined = concat(mods)->Ok_0;
    if mods.len() == 1 {
        assert(mods[0].global == joined.global);
        assert(mods[0].data == joined.data);
    } else {
        let before = mods.drop_last();
        let held = concat(before)->Ok_0;
        let last = mods.last();
        lemma_concat_grows(before);
        assert forall|i: int| 0 <= i < mods.len() implies (#[trigger] mods[i]).base_hash
            == joined.base_hash && mods[i].global.is_prefix_of(joined.global)
            && mods[i].data.is_prefix_of(joined.data) by {
            if i < before.len() {
                assert(mods[i] == before[i]);
                lemma_prefix_chain(before[i].global, held.global, joined.global);
                lemma_prefix_chain(before[i].data, held.data, joined.data);
            } else {
                assert(mods[i] == last);
            }
        }
        let g = choose|i: int| 0 <= i < before.len() && (#[trigger] before[i]).global == held.global;
        let d = choose|i: int| 0 <= i < before.len() && (#[trigger] before[i]).data == held.data;
        assert(mods[g] == before[g] && mods[d] == before[d]);
        assert(mods[mods.len() - 1] == last);
        if joined.global == held.global {
            assert(mods[g].global == joined.global);
        } else {
            assert(mods[mods.len() - 1].global == joined.global);
        }
        if joined.data == held.data {
            assert(mods[d].data == joined.data);
        } else {
            assert(mods[mods.len() - 1].data == joined.data);
        }
    }
}

/// A prefix of a prefix is a prefix.
pub proof fn lemma_prefix_chain(a: Seq<u8>, b: Seq<u8>, c: Seq<u8>)
    requires
        a.is_prefix_of(b),
        b.is_prefix_of(c),
    ensures
        a.is_prefix_of(c),
{
    assert(a =~= c.subrange(0, a.len() as int));
}

/// Two prefixes of one blob extend one another.
pub proof fn lemma_prefixes_comparable(a: Seq<u8>, b: Seq<u8>, c: Seq<u8>)
    requires
        a.is_prefix_of(c),
        b.is_prefix_of(c),
    ensures
        comparable(a, b),
{
    if a.len() <= b.len() {
        assert(a =~= b.subrange(0, a.len() as int));
    } else {
        assert(b =~= a.subrange(0, b.len() as int));
    }
}

/// Mods can be joined exactly when there is one at least, all were made
/// for one base, and of any two the blobs of one extend those of the other.
pub proof fn lemma_concat_succeeds(mods: Seq<Image>)
    ensures
        concat(mods) is Ok <==> mods.len() > 0 && (forall|i: int, j: int|
            0 <= i < mods.len() && 0 <= j < mods.len() ==> (#[trigger] mods[i]).base_hash == (
            #[trigger] mods[j]).base_hash && comparable(mods[i].global, mods[j].global)
                && comparable(mods[i].data, mods[j].data)),
        mods.len() == 0 ==> concat(mods) == Err::<Image, Failure>(Failure::NoMods),
    decreases mods.len(),
{
    if concat(mods) is Ok {
        lemma_concat_grows(mods);
        let joined = concat(mods)->Ok_0;
        assert forall|i: int, j: int| 0 <= i < mods.len() && 0 <= j < mods.len() implies (
        #[trigger] mods[i]).base_hash == (#[trigger] mods[j]).base_hash && comparable(
            mods[i].global,
            mods[j].global,
        ) && comparable(mods[i].data, mods[j].data) by {
            lemma_prefixes_comparable(mods[i].global, mods[j].global, joined.global);
            lemma_prefixes_comparable(mods[i].data, mods[j].data, joined.data);
        }
    } else if mods.len() > 1 {
        let before = mods.drop_last();
        let last = mods.last();
        lemma_concat_succeeds(before);
        if concat(before) is Ok {
            lemma_concat_grows(before);
            let held = concat(before)->Ok_0;
            let g = choose|i: int|
                0 <= i < before.len() && (#[trigger] before[i]).global == held.global;
            let d = choose|i: int| 0 <= i < before.len() && (#[trigger] before[i]).data == held.data;
            assert(mods[g] == before[g] && mods[d] == before[d] && mods[0] == before[0]);
            assert(mods[mods.len() - 1] == last);
            assert(join(held, last) is Err);
            if held.base_hash != last.base_hash {
                assert(mods[0].base_hash != mods[mods.len() - 1].base_hash);
            } else if longer(held.global, last.global) is None {
                assert(!comparable(mods[g].global, mods[mods.len() - 1].global));
            } else {
                assert(!comparable(mods[d].data, mods[mods.len() - 1].data));
            }
        } else {
            let (i, j) = choose|i: int, j: int|
                0 <= i < before.len() && 0 <= j < before.len() && !((#[trigger] before[i]).base_hash
                    == (#[trigger] before[j]).base_hash && comparable(
                    before[i].global,
                    before[j].global,
                ) && comparable(before[i].data, before[j].data));
            assert(mods[i] == before[i] && mods[j] == before[j]);
        }
    }
}

/// Where the first mods of a list can be joined and the next was made for
/// another base, joining the list fails with `HashMismatch`.
pub proof fn lemma_concat_needs_same_base(mods: Seq<Image>, at: int)
    requires
        0 < at < mods.len(),
        concat(mods.take(at)) is Ok,
        mods[at].base_hash != mods[0].base_hash,
    ensures
        concat(mods) == Err::<Image, Failure>(Failure::HashMismatch),
{
    let before = mods.take(at);
    lemma_concat_grows(before);
    assert(before[0] == mods[0]);
    assert(mods.take(at + 1).drop_last() =~= before);
    assert(mods.take(at + 1).last() == mods[at]);
    assert(concat(mods.take(at + 1)) == Err::<Image, Failure>(Failure::HashMismatch));
    crate::merge::lemma_concat_fails(mods, at + 1);
}

/// Whether every reserved name among the functions is the prologue's.
pub open spec fn allowed_names(functions: Seq<FunctionView>) -> bool {
    forall|i: int|
        0 <= i < functions.len() && reserved((#[trigger] functions[i]).name) ==> functions[i].name
            == prologue_name()
}

/// Whether one of the functions carries this name.
pub open spec fn defines(functions: Seq<FunctionView>, name: Seq<char>) -> bool {
    exists|i: int| 0 <= i < functions.len() && (#[trigger] functions[i]).name == name
}

/// Whether the function at `at` collides: its name is not reserved, and
/// was taken by a mod before or is carried by a function before it.
pub open spec fn collides(used: Set<Seq<char>>, functions: Seq<FunctionView>, at: int) -> bool {
    &&& 0 <= at < functions.len()
    &&& !reserved(functions[at].name)
    &&& (used.contains(functions[at].name) || defines(functions.take(at), functions[at].name))
}

/// Whether an unreserved name occurs more than once among the functions and
/// the names that mods took before.
pub open spec fn conflict(used: Set<Seq<char>>, functions: Seq<FunctionView>) -> bool {
    exists|at: int| collides(used, functions, at)
}

/// The names that mods have taken once the functions are applied.
pub open spec fn taken(used: Set<Seq<char>>, functions: Seq<FunctionView>) -> Set<Seq<char>> {
    Set::new(|name: Seq<char>| used.contains(name) || (!reserved(name) && defines(functions, name)))
}

/// Functions whose reserved names are all the prologue's are applied
/// exactly when no unreserved name occurs more than once among them and the
/// names that mods took before; where one does, applying fails with
/// `ModsConflicts`.
pub proof fn lemma_conflicts(image: Image, functions: Seq<FunctionView>)
    requires
        allowed_names(functions),
    ensures
        apply_functions(image, functions) is Ok <==> !conflict(image.mods_used, functions),
        apply_functions(image, functions) matches Err(e) ==> e is ModsConflicts,
        apply_functions(image, functions) matches Ok(applied) ==> applied.mods_used == taken(
            image.mods_used,
            functions,
        ),
    decreases functions.len(),
{
    let used = image.mods_used;
    if functions.len() == 0 {
        assert(taken(used, functions) =~= used);
    } else {
        let before = functions.drop_last();
        let last = functions.last();
        let at = functions.len() - 1;
        assert forall|i: int| 0 <= i < before.len() && reserved(
            (#[trigger] before[i]).name,
        ) implies before[i].name == prologue_name() by {
            assert(before[i] == functions[i]);
        }
        lemma_conflicts(image, before);
        assert(functions.take(at) =~= before);
        assert(functions[at] == last);
        assert forall|i: int| 0 <= i < at implies (collides(used, before, i) <==> collides(
            used,
            functions,
            i,
        )) by {
            assert(before[i] == functions[i]);
            assert(before.take(i) =~= functions.take(i));
        }
        if conflict(used, before) {
            let i = choose|i: int| collides(used, before, i);
            assert(collides(used, functions, i));
        } else {
            let applied = apply_functions(image, before)->Ok_0;
            assert(applied.mods_used == taken(used, before));
            if reserved(last.name) {
                assert(taken(used, functions) =~= taken(used, before)) by {
                    assert forall|name: Seq<char>| !reserved(name) implies (defines(
                        functions,
                        name,
                    ) <==> defines(before, name)) by {
                        if defines(functions, name) {
                            let k = choose|k: int|
                                0 <= k < functions.len() && (#[trigger] functions[k]).name == name;
                            assert(before[k] == functions[k]);
                        }
                        if defines(before, name) {
                            let k = choose|k: int|
                                0 <= k < before.len() && (#[trigger] before[k]).name == name;
                            assert(before[k] == functions[k]);
                        }
                    }
                }
                assert(!conflict(used, functions)) by {
                    if conflict(used, functions) {
                        let i = choose|i: int| collides(used, functions, i);
                        assert(i < at);
                        assert(collides(used, before, i));
                    }
                }
            } else if applied.mods_used.contains(last.name) {
                assert(collides(used, functions, at));
            } else {
                assert(!collides(used, functions, at));
                assert(!conflict(used, functions)) by {
                    if conflict(used, functions) {
                        let i = choose|i: int| collides(used, functions, i);
                        if i < at {
                            assert(collides(used, before, i));
                        }
                    }
                }
                assert(apply_function(applied, last)->Ok_0.mods_used =~= taken(used, functions)) by {
                    assert forall|name: Seq<char>| !reserved(name) implies (defines(
                        functions,
                        name,
                    ) <==> (defines(before, name) || name == last.name)) by {
                        if defines(functions, name) {
                            let k = choose|k: int|
                                0 <= k < functions.len() && (#[trigger] functions[k]).name == name;
                            if k < at {
                                assert(before[k] == functions[k]);
                            }
                        }
                        if defines(before, name) {
                            let k = choose|k: int|
                                0 <= k < before.len() && (#[trigger] before[k]).name == name;
                            assert(before[k] == functions[k]);
                        }
                        if name == last.name {
                            assert(functions[at].name == name);
                        }
                    }
                }
            }
        }
    }
}

/// A mod that fits its base, and whose reserved names are all the
/// prologue's, fails to apply exactly when an unreserved name occurs more
/// than once among its functions and the names that mods took before; it
/// then fails with `ModsConflicts`.
pub proof fn lemma_apply_conflicts(base: Image, mods: Image)
    requires
        fit(base, mods) is Ok,
        allowed_names(mods.functions),
    ensures
        apply(base, mods) is Err <==> conflict(base.mods_used, mods.functions),
        apply(base, mods) matches Err(e) ==> e is ModsConflicts,
{
    lemma_conflicts(with_blobs(base, mods), mods.functions);
}

/// Functions are applied only where every reserved name among them is the
/// prologue's, and no other reserved name comes into the image with them.
pub proof fn lemma_apply_names(image: Image, functions: Seq<FunctionView>)
    requires
        image.indexed(),
        apply_functions(image, functions) is Ok,
    ensures
        allowed_names(functions),
        apply_functions(image, functions)->Ok_0.indexed(),
        allowed_names(image.functions) ==> allowed_names(
            apply_functions(image, functions)->Ok_0.functions,
        ),
    decreases functions.len(),
{
    if functions.len() > 0 {
        let before = functions.drop_last();
        let last = functions.last();
        lemma_apply_names(image, before);
        let applied = apply_functions(image, before)->Ok_0;
        let after = apply_function(applied, last)->Ok_0;
        crate::merge::lemma_apply_function_indexed(applied, last);
        assert forall|i: int| 0 <= i < functions.len() && reserved(
            (#[trigger] functions[i]).name,
        ) implies functions[i].name == prologue_name() by {
            if i < before.len() {
                assert(before[i] == functions[i]);
            }
        }
        if allowed_names(image.functions) {
            assert forall|i: int| 0 <= i < after.functions.len() && reserved(
                (#[trigger] after.functions[i]).name,
            ) implies after.functions[i].name == prologue_name() by {
                if reserved(last.name) || !applied.base_func.contains_key(last.name) {
                    assert(after.functions == applied.functions.push(last));
                    if i < applied.functions.len() {
                        assert(after.functions[i] == applied.functions[i]);
                    }
                } else {
                    let place = applied.base_func[last.name] as int;
                    assert(after.functions == applied.functions.update(place, last));
                    if i != place {
                        assert(after.functions[i] == applied.functions[i]);
                    }
                }
            }
        }
    }
}

} // verus!
