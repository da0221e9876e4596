//! The image: its functions, its two blobs and what ties it to a base.

use vstd::prelude::*;
use crate::index::index_entries;
use crate::index::set_names;
use crate::index::NameIndex;
use crate::index::NameSet;

verus! {

/// A function of an image: its name, and its bytecode, which opens with the
/// name field.
#[derive(Debug, Clone)]
pub struct Function {
    pub name: String,
    pub bytecode: Vec<u8>,
}

/// A [`Function`] as mathematics.
pub struct FunctionView {
    pub name: Seq<char>,
    pub bytecode: Seq<u8>,
}

impl View for Function {
    type V = FunctionView;

    open spec fn view(&self) -> FunctionView {
        FunctionView { name: self.name@, bytecode: self.bytecode@ }
    }
}

/// The views of a list of functions.
pub open spec fn views(functions: Seq<Function>) -> Seq<FunctionView> {
    functions.map_values(|f: Function| f@)
}

/// An image as mathematics.
pub struct Image {
    /// The digest of the base that the image is, or was made for.
    pub base_hash: Seq<u8>,
    /// For a base: where the function of each unreserved name stands.
    pub base_func: Map<Seq<char>, usize>,
    /// The unreserved names that mods have defined in this base.
    pub mods_used: Set<Seq<char>>,
    pub global: Seq<u8>,
    pub data: Seq<u8>,
    pub functions: Seq<FunctionView>,
}

impl Image {
    /// Every entry of the index points at a function of that name.
    pub open spec fn indexed(self) -> bool {
        forall|name: Seq<char>| #[trigger]
            self.base_func.contains_key(name) ==> self.base_func[name] < self.functions.len()
                && self.functions[self.base_func[name] as int].name == name
    }
}

/// A Cotopha image: a base, or a mod made for one.
pub struct CSX {
    pub(crate) base_hash: [u8; 28],
    pub(crate) base_func: NameIndex,
    pub(crate) mods_used: NameSet,
    pub(crate) global: Vec<u8>,
    pub(crate) data: Vec<u8>,
    pub(crate) functions: Vec<Function>,
}

impl View for CSX {
    type V = Image;

    open(crate) spec fn view(&self) -> Image {
        Image {
            base_hash: self.base_hash@,
            base_func: index_entries(self.base_func),
            mods_used: set_names(self.mods_used),
            global: self.global@,
            data: self.data@,
            functions: views(self.functions@),
        }
    }
}

impl CSX {
    #[verifier::type_invariant]
    pub(crate) open spec fn well_indexed(&self) -> bool {
        self@.indexed()
    }
}

} // verus!
