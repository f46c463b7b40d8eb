//! The SHA-2 digests that the data hash of the hard binding may use, computed
//! by the `sha2` crate.

use vstd::prelude::*;
use sha2::Digest;

verus! {

/// The SHA-256 digest of `data`, as the `sha2` crate computes it.
pub uninterp spec fn sha256_of(data: Seq<u8>) -> Seq<u8>;

/// The SHA-384 digest of `data`, as the `sha2` crate computes it.
pub uninterp spec fn sha384_of(data: Seq<u8>) -> Seq<u8>;

/// The SHA-512 digest of `data`, as the `sha2` crate computes it.
pub uninterp spec fn sha512_of(data: Seq<u8>) -> Seq<u8>;

/// Trusted: calls `sha2::Sha256::digest`. The contract claims that the
/// result depends on the input bytes alone and is 32 bytes long, the output
/// size of SHA-256.
#[verifier::external_body]
pub(crate) fn sha256(data: &[u8]) -> (r: Vec<u8>)
    ensures
        r@ == sha256_of(data@),
        r@.len() == 32,
{
    sha2::Sha256::digest(data).to_vec()
}

/// Trusted: calls `sha2::Sha384::digest`. The contract claims that the
/// result depends on the input bytes alone and is 48 bytes long, the output
/// size of SHA-384.
#[verifier::external_body]
pub(crate) fn sha384(data: &[u8]) -> (r: Vec<u8>)
    ensures
        r@ == sha384_of(data@),
        r@.len() == 48,
{
    sha2::Sha384::digest(data).to_vec()
}

/// Trusted: calls `sha2::Sha512::digest`. The contract claims that the
/// result depends on the input bytes alone and is 64 bytes long, the output
/// size of SHA-512.
#[verifier::external_body]
pub(crate) fn sha512(data: &[u8]) -> (r: Vec<u8>)
    ensures
        r@ == sha512_of(data@),
        r@.len() == 64,
{
    sha2::Sha512::digest(data).to_vec()
}

} // verus!
