//! The two byte codecs that the compact archive is built on: zlib and the
//! binary delta of bsdiff.

use vstd::prelude::*;
use std::io::Read;
use flate2::bufread::ZlibDecoder;
use flate2::bufread::ZlibEncoder;
use flate2::Compression;

verus! {

/// The zlib stream that the encoder makes of `stream` at its best
/// compression, or `None` where it fails.
pub uninterp spec fn zlib_deflated(stream: Seq<u8>) -> Option<Seq<u8>>;

/// The bytes that the zlib stream at the start of `data` decodes to, or
/// `None` where `data` does not start with a whole, sound zlib stream.
pub uninterp spec fn zlib_inflated(data: Seq<u8>) -> Option<Seq<u8>>;

/// The delta that bsdiff computes from `old` to `new`, or `None` where it
/// fails.
pub uninterp spec fn bsdiff_delta(old: Seq<u8>, new: Seq<u8>) -> Option<Seq<u8>>;

/// What applying `delta` to `old` gives, or `None` where `delta` is cut
/// short or points outside `old`.
pub uninterp spec fn bspatch_applied(old: Seq<u8>, delta: Seq<u8>) -> Option<Seq<u8>>;

/// Compresses `stream` with zlib at the best compression level.
///
/// Trusted: reads a `ZlibEncoder` of flate2 over `stream` to its end. The
/// contract names the result, and claims of it what makes zlib a codec: that
/// decoding it gives `stream` back.
#[verifier::external_body]
pub(crate) fn zlib_encode(stream: &[u8]) -> (encoded: Result<Vec<u8>, std::io::Error>)
    ensures
        match encoded {
            Ok(data) => zlib_deflated(stream@) == Some(data@) && zlib_inflated(data@) == Some(
                stream@,
            ),
            Err(_) => zlib_deflated(stream@) is None,
        },
{
    let mut encoder = ZlibEncoder::new(stream, Compression::best());
    let mut data = Vec::new();
    match encoder.read_to_end(&mut data) {
        Ok(_) => Ok(data),
        Err(e) => Err(e),
    }
}

/// Decompresses the zlib stream at the start of `data`.
///
/// Trusted: reads a `ZlibDecoder` of flate2 over `data` to its end. The
/// contract only names the result: what comes out, or that the stream is
/// refused, depends on the bytes alone.
#[verifier::external_body]
pub(crate) fn zlib_decode(data: &[u8]) -> (decoded: Result<Vec<u8>, std::io::Error>)
    ensures
        match decoded {
            Ok(stream) => zlib_inflated(data@) == Some(stream@),
            Err(_) => zlib_inflated(data@) is None,
        },
{
    let mut decoder = ZlibDecoder::new(data);
    let mut stream = Vec::new();
    match decoder.read_to_end(&mut stream) {
        Ok(_) => Ok(stream),
        Err(e) => Err(e),
    }
}

/// Computes the delta from `old` to `new`.
///
/// Trusted: calls `bsdiff::diff` with an empty vector to write into. The
/// contract names the result, and claims of it what bsdiff documents: that
/// the patch, applied to `old`, returns `new`.
#[verifier::external_body]
pub(crate) fn delta_encode(old: &[u8], new: &[u8]) -> (encoded: Result<Vec<u8>, std::io::Error>)
    ensures
        match encoded {
            Ok(delta) => bsdiff_delta(old@, new@) == Some(delta@) && bspatch_applied(
                old@,
                delta@,
            ) == Some(new@),
            Err(_) => bsdiff_delta(old@, new@) is None,
        },
{
    let mut delta = Vec::new();
    match bsdiff::diff(old, new, &mut delta) {
        Ok(_) => Ok(delta),
        Err(e) => Err(e),
    }
}

/// Applies `delta` to `old`.
///
/// Trusted: calls `bsdiff::patch` with `delta` as the reader and an empty
/// vector to write into. The contract only names the result: what comes
/// out, or that the delta is refused, depends on the two byte strings alone.
#[verifier::external_body]
pub(crate) fn delta_apply(old: &[u8], delta: &[u8]) -> (applied: Result<Vec<u8>, std::io::Error>)
    ensures
        match applied {
            Ok(new) => bspatch_applied(old@, delta@) == Some(new@),
            Err(_) => bspatch_applied(old@, delta@) is None,
        },
{
    let mut reader = delta;
    let mut new = Vec::new();
    match bsdiff::patch(old, &mut reader, &mut new) {
        Ok(_) => Ok(new),
        Err(e) => Err(e),
    }
}

} // verus!
