//! The failures that the codecs and the merge operations report.

use vstd::prelude::*;

verus! {

/// The error of the standard library's I/O layer, which the compression
/// primitives return. Nothing of its contents is visible to proofs.
#[verifier::external_type_specification]
#[verifier::external_body]
pub struct ExIoError(std::io::Error);

/// The error of the standard library's UTF-8 validation. Nothing of its
/// contents is visible to proofs.
#[verifier::external_type_specification]
#[verifier::external_body]
pub struct ExUtf8Error(core::str::Utf8Error);

/// Why an operation on an image or an archive failed.
#[derive(Debug)]
pub enum Error {
    /// The input ended before a field was complete.
    UnexpectedEof,
    /// The input does not start with the expected signature.
    BadMagic,
    /// An address does not point at a well-formed name field.
    BadAddress,
    /// A name is not the one expected, or is reserved.
    BadFunctionName,
    /// The directory lists epilogue functions.
    EpilogueNotEmpty,
    /// A name is not valid UTF-16.
    DecodeUtf16,
    /// A name is not valid UTF-8.
    DecodeUtf8(core::str::Utf8Error),
    /// A section carries a tag that the format does not know.
    UnknownSection([u8; 8]),
    /// A section is missing, repeated or has unexpected contents.
    BadSection([u8; 8]),
    /// The global blobs of two images do not extend one another.
    IncompatibleGlobal,
    /// The data blobs of two images do not extend one another.
    IncompatibleData,
    /// Two images were made for different bases.
    HashMismatch,
    /// An empty list of mods was given.
    NoMods,
    /// Two mods define the function of this name.
    ModsConflicts(String),
    /// A compression primitive failed.
    IO(std::io::Error),
}

/// What an [`Error`] says, without the opaque payloads.
pub enum Failure {
    UnexpectedEof,
    BadMagic,
    BadAddress,
    BadFunctionName,
    EpilogueNotEmpty,
    DecodeUtf16,
    DecodeUtf8,
    UnknownSection(Seq<u8>),
    BadSection(Seq<u8>),
    IncompatibleGlobal,
    IncompatibleData,
    HashMismatch,
    NoMods,
    ModsConflicts(Seq<char>),
    IO,
}

impl View for Error {
    type V = Failure;

    open spec fn view(&self) -> Failure {
        match self {
            Error::UnexpectedEof => Failure::UnexpectedEof,
            Error::BadMagic => Failure::BadMagic,
            Error::BadAddress => Failure::BadAddress,
            Error::BadFunctionName => Failure::BadFunctionName,
            Error::EpilogueNotEmpty => Failure::EpilogueNotEmpty,
            Error::DecodeUtf16 => Failure::DecodeUtf16,
            Error::DecodeUtf8(_) => Failure::DecodeUtf8,
            Error::UnknownSection(tag) => Failure::UnknownSection(tag@),
            Error::BadSection(tag) => Failure::BadSection(tag@),
            Error::IncompatibleGlobal => Failure::IncompatibleGlobal,
            Error::IncompatibleData => Failure::IncompatibleData,
            Error::HashMismatch => Failure::HashMismatch,
            Error::NoMods => Failure::NoMods,
            Error::ModsConflicts(name) => Failure::ModsConflicts(name@),
            Error::IO(_) => Failure::IO,
        }
    }
}

} // verus!
