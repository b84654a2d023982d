//! The proof-of-work search: build the work buffer, then increment a
//! 4-byte modifier until the SHA-256 digest of the whole buffer falls at
//! or below the threshold derived from the difficulty byte.

use crate::b64::{b64std_encode, b64std_encoded, b64url_decode, b64url_decoded};
use crate::sha::{sha256, sha256_of};
use crate::threshold::{derive_threshold, threshold_spec};
use vstd::bytes::{spec_u32_to_le_bytes, u32_to_le_bytes};
use vstd::prelude::*;

verus! {

/// Raw byte length of a decoded challenge token.
pub const TOKEN_LEN: usize = 48;

/// Number of token copies in the work buffer; a protocol constant.
pub const TOKEN_COPIES: usize = 262144;

/// Why no solution string was produced.
#[derive(Clone, Copy, Debug, PartialEq, Eq, Structural)]
pub enum SolveError {
    /// The token string is not valid URL-safe unpadded base64.
    InvalidBase64,
    /// The token decodes, but not to exactly 48 bytes.
    InvalidLength,
    /// Every 32-bit modifier was tried and none met the threshold.  One
    /// full cycle of the modifier exhausts the search space: further
    /// passes would hash the same buffers again.
    Exhausted,
}

/// A well-formed challenge token: URL-safe unpadded base64 of exactly
/// 48 raw bytes.
pub open spec fn valid_token(s: Seq<char>) -> bool {
    &&& b64url_decoded(s) is Some
    &&& b64url_decoded(s)->0.len() == TOKEN_LEN
}

/// `n` copies of `t`, laid end to end.
pub open spec fn repeat_bytes(t: Seq<u8>, n: nat) -> Seq<u8>
    decreases n,
{
    if n == 0 {
        Seq::<u8>::empty()
    } else {
        repeat_bytes(t, (n - 1) as nat) + t
    }
}

/// The buffer hashed for modifier value `m`: the modifier's four
/// little-endian bytes, then 262,144 copies of the token.
pub open spec fn work_buffer(m: u32, token: Seq<u8>) -> Seq<u8> {
    spec_u32_to_le_bytes(m) + repeat_bytes(token, TOKEN_COPIES as nat)
}

/// The first four bytes of a digest read as a big-endian integer.
pub open spec fn digest_prefix(d: Seq<u8>) -> int
    recommends
        d.len() >= 4,
{
    d[0] * 0x1000000 + d[1] * 0x10000 + d[2] * 0x100 + d[3]
}

/// Modifier `m` solves the challenge `(token, easiness)`: the big-endian
/// 32-bit prefix of the work buffer's digest is at most the threshold.
pub open spec fn modifier_accepted(m: u32, token: Seq<u8>, easiness: u8) -> bool {
    digest_prefix(sha256_of(work_buffer(m, token))) <= threshold_spec(easiness)
}

/// Find the proof-of-work solution for a challenge.
///
/// The token must be URL-safe unpadded base64 of exactly 48 bytes; any
/// other input is rejected with the matching error.  Modifiers are tried
/// in ascending order counted up from 1, with 0 tried last after the
/// 32-bit wraparound; the search succeeds exactly when some modifier
/// meets the threshold, and the result is then the standard-alphabet
/// unpadded base64 encoding of the first such modifier's little-endian
/// bytes.
pub fn gencash(token_b64: &str, easiness: u8) -> (r: Result<String, SolveError>)
    ensures
        r == Err::<String, SolveError>(SolveError::InvalidBase64) <==> b64url_decoded(
            token_b64@,
        ) is None,
        r == Err::<String, SolveError>(SolveError::InvalidLength) <==> (b64url_decoded(token_b64@)
            matches Some(t) && t.len() != TOKEN_LEN),
        r is Ok <==> valid_token(token_b64@) && (exists|m: u32|
            #[trigger] modifier_accepted(m, b64url_decoded(token_b64@)->0, easiness)),
        r matches Ok(s) ==> exists|m: u32|
            {
                &&& s@ == b64std_encoded(spec_u32_to_le_bytes(m))
                &&& #[trigger] modifier_accepted(m, b64url_decoded(token_b64@)->0, easiness)
                &&& forall|k: u32|
                    1 <= k < m ==> !modifier_accepted(k, b64url_decoded(token_b64@)->0, easiness)
            },
{
    let token_bytes = match b64url_decode(token_b64) {
        Some(v) => v,
        None => {
            return Err(SolveError::InvalidBase64);
        },
    };
    if token_bytes.len() != TOKEN_LEN {
        return Err(SolveError::InvalidLength);
    }
    let threshold = derive_threshold(easiness);

    let mut buffer = u32_to_le_bytes(0);
    buffer.reserve(TOKEN_COPIES * TOKEN_LEN);
    assert(buffer@ =~= spec_u32_to_le_bytes(0) + repeat_bytes(token_bytes@, 0));
    for i in 0..TOKEN_COPIES
        invariant
            token_bytes@.len() == TOKEN_LEN,
            buffer@ == spec_u32_to_le_bytes(0) + repeat_bytes(token_bytes@, i as nat),
    {
        let ghost before = buffer@;
        for j in 0..TOKEN_LEN
            invariant
                token_bytes@.len() == TOKEN_LEN,
                j <= TOKEN_LEN,
                buffer@ == before + token_bytes@.take(j as int),
        {
            buffer.push(token_bytes[j]);
            assert(buffer@ =~= before + token_bytes@.take(j as int + 1));
        }
        assert(token_bytes@.take(TOKEN_LEN as int) =~= token_bytes@);
        assert(buffer@ == spec_u32_to_le_bytes(0) + repeat_bytes(token_bytes@, (i + 1) as nat));
    }

    let mut m: u32 = 0;
    let mut tries: u64 = 0;
    while tries < 0x1_0000_0000u64
        invariant
            valid_token(token_b64@),
            b64url_decoded(token_b64@) == Some(token_bytes@),
            threshold == threshold_spec(easiness),
            buffer@ == work_buffer(m, token_bytes@),
            tries <= 0x1_0000_0000,
            tries < 0x1_0000_0000 ==> m == tries,
            tries == 0x1_0000_0000 ==> m == 0,
            forall|k: u32| 1 <= k <= tries ==> !modifier_accepted(k, token_bytes@, easiness),
            tries == 0x1_0000_0000 ==> !modifier_accepted(0u32, token_bytes@, easiness),
        decreases 0x1_0000_0000 - tries,
    {
        proof {
            vstd::bytes::lemma_auto_spec_u32_to_from_le_bytes();
        }
        m = m.wrapping_add(1);
        tries = tries + 1;
        let mbytes = u32_to_le_bytes(m);
        buffer[0] = mbytes[0];
        buffer[1] = mbytes[1];
        buffer[2] = mbytes[2];
        buffer[3] = mbytes[3];
        assert(buffer@ =~= work_buffer(m, token_bytes@));

        let digest = sha256(buffer.as_slice());
        let value: u32 = (digest[0] as u32) * 0x1000000 + (digest[1] as u32) * 0x10000 + (
        digest[2] as u32) * 0x100 + (digest[3] as u32);
        assert(value == digest_prefix(sha256_of(work_buffer(m, token_bytes@))));

        if value <= threshold {
            let solution = b64std_encode(mbytes.as_slice());
            proof {
                let decoded = b64url_decoded(token_b64@)->0;
                assert(decoded == token_bytes@);
                assert(modifier_accepted(m, decoded, easiness));
                assert(forall|k: u32| 1 <= k < m ==> !modifier_accepted(k, decoded, easiness));
                assert(solution@ == b64std_encoded(spec_u32_to_le_bytes(m)));
            }
            return Ok(solution);
        }
    }
    Err(SolveError::Exhausted)
}

} // verus!
