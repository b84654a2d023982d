//! Trusted wrapper around sha2's SHA-256.  The search loop hashes one
//! work buffer per iteration; the buffer itself is allocated once and
//! reused, only its four modifier bytes change between digests.

use vstd::prelude::*;

verus! {

/// The SHA-256 digest of a byte string.  The result depends on the bytes
/// alone; its value is not axiomatised beyond its 32-byte length.
pub uninterp spec fn sha256_of(data: Seq<u8>) -> Seq<u8>;

/// Relies on `sha2::Digest::digest`: the 32-byte SHA-256 digest of the
/// input bytes, a deterministic function of the bytes alone.
#[verifier::external_body]
pub(crate) fn sha256(data: &[u8]) -> (r: Vec<u8>)
    ensures
        r@ == sha256_of(data@),
        r@.len() == 32,
{
    let digest = <sha2::Sha256 as sha2::Digest>::digest(data);
    digest.to_vec()
}

} // verus!
