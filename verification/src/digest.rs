//! Content hashing.
//!
//! The digest itself is computed by the `sha1` crate and is not verified here:
//! this module gives it a name and trusts the call.

use sha1::{Digest, Sha1};
use vstd::prelude::*;

verus! {

/// The SHA-1 digest of `data`, as the `sha1` crate computes it.
pub uninterp spec fn sha1(data: Seq<u8>) -> Seq<u8>;

/// Hashes `data` with `Sha1::new`, `update` and `finalize` of the `sha1` crate.
///
/// Trusted: the twenty bytes returned are taken to be the SHA-1 digest of
/// `data`, which depends on nothing but `data`.
#[verifier::external_body]
pub(crate) fn sha1_digest(data: &[u8]) -> (digest: [u8; 20])
    ensures
        digest@ == sha1(data@),
{
    let mut hasher = Sha1::new();
    hasher.update(data);
    hasher.finalize().into()
}

} // verus!
