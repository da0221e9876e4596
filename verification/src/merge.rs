//! Merging images: joining the mods made for one base, and applying a mod
//! to its base.

use vstd::prelude::*;
use crate::bytes::same_bytes;
use crate::bytes::starts_with;
use crate::error::Error;
use crate::error::Failure;
use crate::image::views;
use crate::image::FunctionView;
use crate::image::Image;
use crate::image::CSX;
use crate::index::index_entries;
use crate::index::index_get;
use crate::index::index_new;
use crate::index::set_contains;
use crate::index::set_insert;
use crate::index::set_names;
use crate::index::set_new;
use crate::index::NameSet;
use crate::text::is_prologue;
use crate::text::is_reserved;
use crate::text::prologue_name;
use crate::text::reserved;

verus! {

/// The views of a list of images.
pub open spec fn images(list: Seq<CSX>) -> Seq<Image> {
    list.map_values(|image: CSX| image@)
}

/// The longer of two blobs of which one extends the other; `None` where
/// neither does.
pub open spec fn longer(held: Seq<u8>, next: Seq<u8>) -> Option<Seq<u8>> {
    if held.is_prefix_of(next) {
        Some(next)
    } else if next.is_prefix_of(held) {
        Some(held)
    } else {
        None
    }
}

/// Joins a mod to the mods joined before it: both must be made for one
/// base, the blobs of one must extend those of the other, and the functions
/// of the new mod follow those joined before.
pub open spec fn join(joined: Image, next: Image) -> Result<Image, Failure> {
    if joined.base_hash != next.base_hash {
        Err(Failure::HashMismatch)
    } else {
        match longer(joined.global, next.global) {
            None => Err(Failure::IncompatibleGlobal),
            Some(global) => match longer(joined.data, next.data) {
                None => Err(Failure::IncompatibleData),
                Some(data) => Ok(
                    Image { global, data, functions: joined.functions + next.functions, ..joined },
                ),
            },
        }
    }
}

/// Joins a list of mods, the first with the second, the result with the
/// third and so on; an empty list fails.
pub open spec fn concat(mods: Seq<Image>) -> Result<Image, Failure>
    decreases mods.len(),
{
    if mods.len() == 0 {
        Err(Failure::NoMods)
    } else if mods.len() == 1 {
        Ok(mods[0])
    } else {
        match concat(mods.drop_last()) {
            Err(e) => Err(e),
            Ok(joined) => join(joined, mods.last()),
        }
    }
}

/// Applies one function of a mod. A reserved name must be the prologue's,
/// and the function is appended. Another name must not have been defined by
/// a mod before; the function takes the place of the base's function of
/// that name, or is appended where the base has none.
pub open spec fn apply_function(image: Image, function: FunctionView) -> Result<Image, Failure> {
    if reserved(function.name) {
        if function.name != prologue_name() {
            Err(Failure::BadFunctionName)
        } else {
            Ok(Image { functions: image.functions.push(function), ..image })
        }
    } else if image.mods_used.contains(function.name) {
        Err(Failure::ModsConflicts(function.name))
    } else if image.base_func.contains_key(function.name) {
        Ok(
            Image {
                mods_used: image.mods_used.insert(function.name),
                functions: image.functions.update(
                    image.base_func[function.name] as int,
                    function,
                ),
                ..image
            },
        )
    } else {
        Ok(
            Image {
                mods_used: image.mods_used.insert(function.name),
                functions: image.functions.push(function),
                ..image
            },
        )
    }
}

/// Applies the functions of a mod in their order; the first that cannot be
/// applied fails.
pub open spec fn apply_functions(image: Image, functions: Seq<FunctionView>) -> Result<
    Image,
    Failure,
>
    decreases functions.len(),
{
    if functions.len() == 0 {
        Ok(image)
    } else {
        match apply_functions(image, functions.drop_last()) {
            Err(e) => Err(e),
            Ok(applied) => apply_function(applied, functions.last()),
        }
    }
}

/// Whether a mod fits a base: both carry one digest, and the blobs of the
/// base extend those of the mod.
pub open spec fn fit(base: Image, mods: Image) -> Result<(), Failure> {
    if base.base_hash != mods.base_hash {
        Err(Failure::HashMismatch)
    } else if !mods.global.is_prefix_of(base.global) {
        Err(Failure::IncompatibleGlobal)
    } else if !mods.data.is_prefix_of(base.data) {
        Err(Failure::IncompatibleData)
    } else {
        Ok(())
    }
}

/// Applies a mod to its base: the mod must fit, the base takes the blobs of
/// the mod, and the functions of the mod are applied in their order.
pub open spec fn apply(base: Image, mods: Image) -> Result<Image, Failure> {
    match fit(base, mods) {
        Err(e) => Err(e),
        Ok(_) => apply_functions(
            Image { global: mods.global, data: mods.data, ..base },
            mods.functions,
        ),
    }
}

/// Tests that two images carry one digest.
pub(crate) fn validate_same_hash(base: &CSX, mods: &CSX) -> (checked: Result<(), Error>)
    ensures
        match checked {
            Ok(_) => base@.base_hash == mods@.base_hash,
            Err(e) => base@.base_hash != mods@.base_hash && e@ == Failure::HashMismatch,
        },
{
    if !same_bytes(&base.base_hash, &mods.base_hash) {
        return Err(Error::HashMismatch);
    }
    Ok(())
}

/// Tests that the blobs of the base extend those of the mod.
pub(crate) fn validate_items_same_prefix(base: &CSX, mods: &CSX) -> (checked: Result<(), Error>)
    ensures
        match checked {
            Ok(_) => mods@.global.is_prefix_of(base@.global) && mods@.data.is_prefix_of(
                base@.data,
            ),
            Err(e) => if !mods@.global.is_prefix_of(base@.global) {
                e@ == Failure::IncompatibleGlobal
            } else {
                !mods@.data.is_prefix_of(base@.data) && e@ == Failure::IncompatibleData
            },
        },
{
    if !starts_with(base.global.as_slice(), mods.global.as_slice()) {
        return Err(Error::IncompatibleGlobal);
    }
    if !starts_with(base.data.as_slice(), mods.data.as_slice()) {
        return Err(Error::IncompatibleData);
    }
    Ok(())
}

impl CSX {
    /// Joins the mods made for one base into one mod.
    pub fn concat_mods(all_mods: Vec<CSX>) -> (joined: Result<CSX, Error>)
        ensures
            match joined {
                Ok(mods) => concat(images(all_mods@)) == Ok::<Image, Failure>(mods@),
                Err(e) => concat(images(all_mods@)) == Err::<Image, Failure>(e@),
            },
    {
        let ghost all = images(all_mods@);
        let mut rest = all_mods;
        if rest.len() == 0 {
            return Err(Error::NoMods);
        }
        let first = rest.remove(0);
        proof {
            use_type_invariant(&first);
        }
        let ghost start = first@;
        let CSX { base_hash, base_func, mods_used, mut global, mut data, mut functions } = first;
        let ghost mut done: int = 1;
        let ghost mut joined = start;
        assert(all.take(1).len() == 1 && all.take(1)[0] == start);
        while rest.len() > 0
            invariant
                1 <= done <= all.len(),
                all == images(all_mods@),
                rest@ == all_mods@.skip(done),
                concat(all.take(done)) == Ok::<Image, Failure>(joined),
                joined == (Image {
                    global: global@,
                    data: data@,
                    functions: views(functions@),
                    ..start
                }),
                start.base_hash == base_hash@,
                start.base_func == index_entries(base_func),
                start.mods_used == set_names(mods_used),
                start.indexed(),
                start.functions.len() <= functions@.len(),
                forall|k: int| 0 <= k < start.functions.len() ==> start.functions[k] == functions@[k]@,
            decreases rest.len(),
        {
            let next = rest.remove(0);
            proof {
                assert(all.take(done + 1).drop_last() =~= all.take(done));
                assert(all.take(done + 1).last() == next@);
                assert(rest@ =~= all_mods@.skip(done + 1));
            }
            if !same_bytes(&base_hash, &next.base_hash) {
                proof {
                    lemma_concat_fails(all, done + 1);
                }
                return Err(Error::HashMismatch);
            }
            let CSX {
                base_hash: _,
                base_func: _,
                mods_used: _,
                global: next_global,
                data: next_data,
                functions: mut next_functions,
            } = next;
            let ghost held_global = global@;
            if starts_with(next_global.as_slice(), global.as_slice()) {
                global = next_global;
            } else if !starts_with(global.as_slice(), next_global.as_slice()) {
                proof {
                    lemma_concat_fails(all, done + 1);
                }
                return Err(Error::IncompatibleGlobal);
            }
            if starts_with(next_data.as_slice(), data.as_slice()) {
                data = next_data;
            } else if !starts_with(data.as_slice(), next_data.as_slice()) {
                proof {
                    lemma_concat_fails(all, done + 1);
                }
                return Err(Error::IncompatibleData);
            }
            let ghost before = functions@;
            let ghost added = next_functions@;
            functions.append(&mut next_functions);
            proof {
                assert(views(functions@) =~= views(before) + views(added));
                joined =
                Image { global: global@, data: data@, functions: views(functions@), ..start };
                done = done + 1;
            }
        }
        proof {
            assert(all.take(done) =~= all);
        }
        Ok(CSX { base_hash, base_func, mods_used, global, data, functions })
    }
}

/// The image that the functions of a mod are applied to: the base with the
/// blobs of the mod.
pub open spec fn with_blobs(base: Image, mods: Image) -> Image {
    Image { global: mods.global, data: mods.data, ..base }
}

/// Finds the first function of the mod that cannot be applied to the base.
fn first_offence(base: &CSX, mods: &CSX) -> (checked: Result<(), Error>)
    ensures
        match checked {
            Ok(_) => apply_functions(with_blobs(base@, mods@), mods@.functions) is Ok,
            Err(e) => apply_functions(with_blobs(base@, mods@), mods@.functions) == Err::<
                Image,
                Failure,
            >(e@),
        },
{
    let ghost start = with_blobs(base@, mods@);
    let ghost all = mods@.functions;
    let mut seen: NameSet = set_new();
    let mut i: usize = 0;
    assert(all.take(0) =~= Seq::empty());
    assert(start.mods_used.union(set_names(seen)) =~= start.mods_used);
    while i < mods.functions.len()
        invariant
            i <= mods.functions.len(),
            all == views(mods.functions@),
            start == with_blobs(base@, mods@),
            apply_functions(start, all.take(i as int)) is Ok,
            apply_functions(start, all.take(i as int))->Ok_0.mods_used == start.mods_used.union(
                set_names(seen),
            ),
            apply_functions(start, all.take(i as int))->Ok_0.base_func == start.base_func,
        decreases mods.functions.len() - i,
    {
        let function = &mods.functions[i];
        let ghost applied = apply_functions(start, all.take(i as int))->Ok_0;
        proof {
            assert(all.take(i + 1).drop_last() =~= all.take(i as int));
            assert(all.take(i + 1).last() == function@);
        }
        if is_reserved(function.name.as_str()) {
            if !is_prologue(function.name.as_str()) {
                proof {
                    lemma_apply_fails(start, all, i + 1);
                }
                return Err(Error::BadFunctionName);
            }
        } else {
            let taken = set_contains(&base.mods_used, function.name.as_str());
            let ghost before = set_names(seen);
            if taken || !set_insert(&mut seen, function.name.clone()) {
                proof {
                    lemma_apply_fails(start, all, i + 1);
                }
                return Err(Error::ModsConflicts(function.name.clone()));
            }
            assert(applied.mods_used.insert(function@.name) =~= start.mods_used.union(
                set_names(seen),
            ));
        }
        i += 1;
    }
    assert(all.take(i as int) =~= all);
    Ok(())
}

/// Once applying the first functions of a mod fails, applying them all
/// fails in the same way.
pub proof fn lemma_apply_fails(image: Image, functions: Seq<FunctionView>, upto: int)
    requires
        0 <= upto <= functions.len(),
        apply_functions(image, functions.take(upto)) is Err,
    ensures
        apply_functions(image, functions) == apply_functions(image, functions.take(upto)),
    decreases functions.len() - upto,
{
    if upto == functions.len() {
        assert(functions.take(upto) =~= functions);
    } else {
        assert(functions.take(upto + 1).drop_last() =~= functions.take(upto));
        lemma_apply_fails(image, functions, upto + 1);
    }
}

/// Applying a function keeps the index of the base and leaves it pointing
/// at functions of the names it holds.
pub proof fn lemma_apply_function_indexed(image: Image, function: FunctionView)
    requires
        image.indexed(),
        apply_function(image, function) is Ok,
    ensures
        apply_function(image, function)->Ok_0.indexed(),
        apply_function(image, function)->Ok_0.base_func == image.base_func,
        apply_function(image, function)->Ok_0.base_hash == image.base_hash,
        apply_function(image, function)->Ok_0.global == image.global,
        apply_function(image, function)->Ok_0.data == image.data,
{
    let after = apply_function(image, function)->Ok_0;
    assert forall|name: Seq<char>| #[trigger] after.base_func.contains_key(name) implies
        after.base_func[name] < after.functions.len() && after.functions[after.base_func[name] as int].name
        == name by {
        assert(image.base_func.contains_key(name));
    }
}

impl CSX {
    /// Applies a mod to this base. Where the mod cannot be applied, the base
    /// is left as it was.
    pub fn apply_all_mods(&mut self, mods: CSX) -> (applied: Result<(), Error>)
        ensures
            match applied {
                Ok(_) => apply(old(self)@, mods@) == Ok::<Image, Failure>(final(self)@),
                Err(e) => apply(old(self)@, mods@) == Err::<Image, Failure>(e@) && final(self)@
                    == old(self)@,
            },
    {
        proof {
            use_type_invariant(&*self);
        }
        validate_same_hash(self, &mods)?;
        validate_items_same_prefix(self, &mods)?;
        first_offence(self, &mods)?;
        let ghost start = with_blobs(self@, mods@);
        let ghost all = mods@.functions;
        let mut held = CSX {
            base_hash: [0u8; 28],
            base_func: index_new(),
            mods_used: set_new(),
            global: Vec::new(),
            data: Vec::new(),
            functions: Vec::new(),
        };
        std::mem::swap(self, &mut held);
        let CSX { base_hash, base_func, mut mods_used, global: _, data: _, mut functions } = held;
        let CSX {
            base_hash: _,
            base_func: _,
            mods_used: _,
            global,
            data,
            functions: added,
        } = mods;
        let ghost mut current = start;
        assert(all.take(0) =~= Seq::empty());
        for function in it: added
            invariant
                views(it.seq()) == all,
                apply_functions(start, all) is Ok,
                apply_functions(start, all.take(it.index() as int)) == Ok::<Image, Failure>(current),
                current.indexed(),
                current == (Image {
                    base_hash: base_hash@,
                    base_func: index_entries(base_func),
                    mods_used: set_names(mods_used),
                    global: global@,
                    data: data@,
                    functions: views(functions@),
                }),
        {
            let ghost done = it.index() as int;
            proof {
                assert(all.take(done + 1).drop_last() =~= all.take(done));
                assert(all.take(done + 1).last() == function@);
                if apply_functions(start, all.take(done + 1)) is Err {
                    lemma_apply_fails(start, all, done + 1);
                }
                lemma_apply_function_indexed(current, function@);
            }
            let ghost before = views(functions@);
            if is_reserved(function.name.as_str()) {
                functions.push(function);
                assert(views(functions@) =~= before.push(function@));
            } else {
                set_insert(&mut mods_used, function.name.clone());
                match index_get(&base_func, function.name.as_str()) {
                    Some(place) => {
                        functions[place] = function;
                        assert(views(functions@) =~= before.update(place as int, function@));
                    },
                    None => {
                        functions.push(function);
                        assert(views(functions@) =~= before.push(function@));
                    },
                }
            }
            proof {
                current = apply_function(current, function@)->Ok_0;
            }
        }
        proof {
            assert(all.take(all.len() as int) =~= all);
        }
        *self = CSX { base_hash, base_func, mods_used, global, data, functions };
        Ok(())
    }
}

/// Once joining the first mods of a list fails, joining the list fails in
/// the same way.
pub proof fn lemma_concat_fails(mods: Seq<Image>, upto: int)
    requires
        0 <= upto <= mods.len(),
        concat(mods.take(upto)) is Err,
        upto > 0,
    ensures
        concat(mods) == concat(mods.take(upto)),
    decreases mods.len() - upto,
{
    if upto == mods.len() {
        assert(mods.take(upto) =~= mods);
    } else {
        assert(mods.take(upto + 1).drop_last() =~= mods.take(upto));
        lemma_concat_fails(mods, upto + 1);
    }
}

} // verus!
