//! The SHA-256 fingerprint of a digest, through the `sha2` crate.

use sha2::{Digest, Sha256};
use vstd::prelude::*;

verus! {

/// The SHA-256 hash of `data`.
pub uninterp spec fn sha256_of(data: Seq<u8>) -> Seq<u8>;

/// Calls `Sha256::digest` on `data` and returns the thirty-two hash bytes.
/// Claimed: the bytes are the SHA-256 hash of exactly the bytes of `data`, a
/// function of those bytes alone.
#[verifier::external_body]
pub(crate) fn sha256_compute(data: &[u8]) -> (r: [u8; 32])
    ensures
        r@ == sha256_of(data@),
{
    Sha256::digest(data).into()
}

} // verus!
