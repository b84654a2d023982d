//! Trusted wrappers around the base64 engines that carry challenge tokens
//! (URL-safe, unpadded) and proof-of-work solutions (standard, unpadded).

use base64::Engine;
use vstd::prelude::*;

verus! {

/// What base64's `URL_SAFE_NO_PAD` engine decodes a string to: `Some` of
/// the raw bytes when the string is valid in that alphabet without
/// padding, `None` otherwise.  The result depends on the characters alone.
pub uninterp spec fn b64url_decoded(s: Seq<char>) -> Option<Seq<u8>>;

/// What base64's `STANDARD_NO_PAD` engine encodes a byte string to.  The
/// result depends on the bytes alone.
pub uninterp spec fn b64std_encoded(b: Seq<u8>) -> Seq<char>;

/// Relies on base64's `Engine::decode` with the `URL_SAFE_NO_PAD` engine:
/// a deterministic decode of `s`, `Err` exactly on input that is not
/// valid unpadded URL-safe base64.
#[verifier::external_body]
pub(crate) fn b64url_decode(s: &str) -> (r: Option<Vec<u8>>)
    ensures
        r is Some <==> b64url_decoded(s@) is Some,
        r matches Some(v) ==> b64url_decoded(s@) == Some(v@),
{
    base64::engine::general_purpose::URL_SAFE_NO_PAD.decode(s).ok()
}

/// Relies on base64's `Engine::encode` with the `STANDARD_NO_PAD` engine:
/// a deterministic encode of `b` in the standard alphabet, unpadded.
#[verifier::external_body]
pub(crate) fn b64std_encode(b: &[u8]) -> (r: String)
    ensures
        r@ == b64std_encoded(b@),
{
    base64::engine::general_purpose::STANDARD_NO_PAD.encode(b)
}

} // verus!
