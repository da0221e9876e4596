//! The digest that ties a mod to the base image it was made for.

use vstd::prelude::*;
use sha3::Digest;
use sha3::Sha3_224;

verus! {

/// The SHA3-224 digest of `data`: 28 bytes.
pub uninterp spec fn sha3_224_digest(data: Seq<u8>) -> Seq<u8>;

/// Computes the SHA3-224 digest of `data`.
///
/// Trusted: feeds `data` to `Sha3_224` of sha3 in one `update` and returns
/// what `finalize` gives. The contract only names the result: the digest is
/// a function of the bytes alone.
#[verifier::external_body]
pub(crate) fn sha3_224(data: &[u8]) -> (hash: [u8; 28])
    ensures
        hash@ == sha3_224_digest(data@),
{
    let mut hasher = Sha3_224::new();
    hasher.update(data);
    hasher.finalize().into()
}

} // verus!
