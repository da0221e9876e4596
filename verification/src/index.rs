//! The two hashed collections of an image, keyed by function name: the
//! index from a name to the place of its function, and the set of names
//! that mods have taken.

use vstd::prelude::*;

verus! {

/// The randomly seeded hasher state of foldhash. Nothing of its contents is
/// visible to proofs.
#[verifier::external_type_specification]
#[verifier::external_body]
pub struct ExRandomState(foldhash::fast::RandomState);

/// A map from function names to places in the function list.
pub type NameIndex = std::collections::HashMap<String, usize, foldhash::fast::RandomState>;

/// A set of function names.
pub type NameSet = std::collections::HashSet<String, foldhash::fast::RandomState>;

/// What a [`NameIndex`] holds: the place recorded for each name.
pub uninterp spec fn index_entries(index: NameIndex) -> Map<Seq<char>, usize>;

/// What a [`NameSet`] holds.
pub uninterp spec fn set_names(names: NameSet) -> Set<Seq<char>>;

/// An empty index.
///
/// Trusted: `HashMap::default` with the hasher of foldhash makes a map
/// without entries.
#[verifier::external_body]
pub(crate) fn index_new() -> (index: NameIndex)
    ensures
        index_entries(index) =~= Map::empty(),
{
    NameIndex::default()
}

/// Records `place` for `name`, in place of what was recorded before.
///
/// Trusted: `HashMap::insert` sets the value of the key and leaves every
/// other entry as it was.
#[verifier::external_body]
pub(crate) fn index_insert(index: &mut NameIndex, name: String, place: usize)
    ensures
        index_entries(*final(index)) == index_entries(*old(index)).insert(name@, place),
{
    index.insert(name, place);
}

/// The place recorded for `name`, if any.
///
/// Trusted: `HashMap::get` finds the value of a key that is present and
/// nothing for one that is absent.
#[verifier::external_body]
pub(crate) fn index_get(index: &NameIndex, name: &str) -> (place: Option<usize>)
    ensures
        place == if index_entries(*index).contains_key(name@) {
            Some(index_entries(*index)[name@])
        } else {
            None
        },
{
    match index.get(name) {
        Some(place) => Some(*place),
        None => None,
    }
}

/// An empty set of names.
///
/// Trusted: `HashSet::default` with the hasher of foldhash makes a set
/// without elements.
#[verifier::external_body]
pub(crate) fn set_new() -> (names: NameSet)
    ensures
        set_names(names) =~= Set::empty(),
{
    NameSet::default()
}

/// Adds `name` to the set and says whether it was new.
///
/// Trusted: `HashSet::insert` returns `true` exactly when the value was not
/// in the set, and the set then holds it beside what it held.
#[verifier::external_body]
pub(crate) fn set_insert(names: &mut NameSet, name: String) -> (fresh: bool)
    ensures
        fresh == !set_names(*old(names)).contains(name@),
        set_names(*final(names)) == set_names(*old(names)).insert(name@),
{
    names.insert(name)
}

/// Whether the set holds `name`.
///
/// Trusted: `HashSet::contains` says whether the value is in the set.
#[verifier::external_body]
pub(crate) fn set_contains(names: &NameSet, name: &str) -> (found: bool)
    ensures
        found == set_names(*names).contains(name@),
{
    names.contains(name)
}

} // verus!
