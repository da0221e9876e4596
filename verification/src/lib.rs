//! Function-level patching of Cotopha images, and a compact archive for the
//! patches.
//!
//! An image is read from bytes ([`CSX::new`], [`CSX::new_mods`]), mods are
//! joined ([`CSX::concat_mods`]) and applied to their base
//! ([`CSX::apply_all_mods`]), and the result is written again
//! ([`CSX::rebuild`]). A mod can be packed into an archive that holds what
//! it changes in its base ([`compact::CompactCO`]).

pub mod error;
pub mod bytes;
pub mod text;
pub mod name;
pub mod order;
pub mod digest;
pub mod index;
pub mod codec;
pub mod format;
pub mod sort;
pub mod listing;
pub mod image;
pub mod parse;
pub mod rebuild;
pub mod merge;
pub mod compact;
pub mod pack;
pub mod algebra;
pub mod canon;

pub use error::Error;
pub use image::Function;
pub use image::CSX;
pub use name::extract_name;
pub use name::validate_name;
pub use order::cmp_utf16;
