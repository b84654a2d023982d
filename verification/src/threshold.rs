//! Derivation of the 32-bit acceptance threshold from the one-byte
//! difficulty ("easiness") value sent by the server.

use vstd::prelude::*;

verus! {

/// The threshold encoded by a difficulty byte: the low 6 bits form a
/// mantissa that yields an odd base value, the high 2 bits select a shift
/// of 3, 10, 17 or 24 places.
pub open spec fn threshold_spec(easiness: u8) -> u32 {
    let low = (((easiness & 0x3f) as u32) << 1) | 1;
    let shift = ((easiness >> 6) as u32) * 7 + 3;
    low << shift
}

/// Compute the acceptance threshold for a difficulty byte.  Total on all
/// 256 byte values; a digest is accepted when its big-endian 32-bit prefix
/// is at most this value.
pub fn derive_threshold(easiness: u8) -> (t: u32)
    ensures
        t == threshold_spec(easiness),
{
    proof {
        assert((easiness >> 6) < 4) by (bit_vector);
    }
    let low: u32 = (((easiness & 0x3f) as u32) << 1) | 1;
    let shift: u32 = ((easiness >> 6) as u32) * 7 + 3;
    low << shift
}

} // verus!
