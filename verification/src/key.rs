//! Keys for double-precision values.
//!
//! The searchers order `i64` keys. A double that is not a NaN is given a key
//! from its IEEE-754 bit pattern such that keys compare as the doubles do:
//! the magnitude bits of a non-negative value, the negated magnitude bits of
//! a negative one. Both zeros get the key 0.
use vstd::prelude::*;

verus! {

/// The bit pattern of positive infinity, the largest magnitude that is a
/// number.
pub const INFINITY_BITS: u64 = 0x7FF0_0000_0000_0000;

/// The sign bit of a double.
pub const SIGN_BIT: u64 = 0x8000_0000_0000_0000;

/// The bit pattern without its sign bit.
pub open spec fn magnitude(bits: u64) -> int {
    bits as int % 0x8000_0000_0000_0000
}

/// The sign bit is set.
pub open spec fn is_negative(bits: u64) -> bool {
    bits >= SIGN_BIT
}

/// The pattern is a NaN: all exponent bits set and a mantissa that is not 0.
pub open spec fn is_nan(bits: u64) -> bool {
    magnitude(bits) > INFINITY_BITS
}

/// The key of a bit pattern.
pub open spec fn key_of(bits: u64) -> int {
    if is_negative(bits) {
        -magnitude(bits)
    } else {
        magnitude(bits)
    }
}

/// The key of the double with bit pattern `bits`, or `None` for a NaN.
pub fn key_from_bits(bits: u64) -> (r: Option<i64>)
    ensures
        r is None <==> is_nan(bits),
        r matches Some(k) ==> k == key_of(bits),
{
    let m: u64 = bits & 0x7FFF_FFFF_FFFF_FFFF;
    assert(m == bits % 0x8000_0000_0000_0000) by (bit_vector)
        requires
            m == bits & 0x7FFF_FFFF_FFFF_FFFF,
    ;
    if m > INFINITY_BITS {
        None
    } else if bits >= SIGN_BIT {
        Some(-(m as i64))
    } else {
        Some(m as i64)
    }
}

/// Among numbers of one sign, keys are ordered as the magnitudes are for
/// non-negative values and against them for negative ones; every negative
/// value's key is at most every non-negative value's key.
pub proof fn lemma_key_order(a: u64, b: u64)
    requires
        !is_nan(a),
        !is_nan(b),
    ensures
        !is_negative(a) && !is_negative(b) ==> (key_of(a) <= key_of(b) <==> a <= b),
        is_negative(a) && is_negative(b) ==> (key_of(a) <= key_of(b) <==> a >= b),
        is_negative(a) && !is_negative(b) ==> key_of(a) <= key_of(b),
{
}

} // verus!
