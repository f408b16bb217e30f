//! A bit-pattern model of IEEE-754 binary64 values.
//!
//! The engine never computes with floating-point numbers itself: every
//! approximate value, error and step size travels through the library as
//! the `u64` bit pattern of a binary64 value.  The few facts the
//! bookkeeping needs — which patterns denote zero, how the sign bit is
//! cleared, how a positive normal value is halved — are plain facts about
//! the binary64 layout: one sign bit, an 11-bit biased exponent, and a
//! 52-bit fraction.

use vstd::prelude::*;

verus! {

/// Mask that clears the sign bit of a binary64 bit pattern.
pub const F64_ABS_MASK: u64 = 0x7FFF_FFFF_FFFF_FFFF;

/// The bit pattern of a quiet not-a-number, used to stand for an absent
/// value inside an output array.
pub const F64_NAN_BITS: u64 = 0x7FF8_0000_0000_0000;

/// Adding this to a positive normal bit pattern increments the biased
/// exponent field, which doubles the value; subtracting it halves it.
pub const F64_EXP_STEP: u64 = 0x0010_0000_0000_0000;

/// Mask of the sign bit of a binary64 bit pattern.
pub const F64_SIGN_MASK: u64 = 0x8000_0000_0000_0000;

/// A key that orders binary64 bit patterns as the values they denote.
/// The layout orders same-sign values by their magnitude bits, so a
/// pattern with the sign bit clear maps to itself shifted above all
/// negatives (plus `2^63`), and one with the sign bit set maps to its
/// complement (order reversed, below all positives).  Under this key
/// `-0.0` falls just below `+0.0`, and each not-a-number pattern takes
/// a fixed place beyond the infinities of its sign, so ordering by the
/// key never fails on one.
pub open spec fn f64_order_key(b: u64) -> u64 {
    if b >= F64_SIGN_MASK {
        (0xFFFF_FFFF_FFFF_FFFFu64 - b) as u64
    } else {
        (b + F64_SIGN_MASK) as u64
    }
}

/// Compute the value-order key of a bit pattern.
pub fn order_key(b: u64) -> (r: u64)
    ensures
        r == f64_order_key(b),
{
    if b >= F64_SIGN_MASK {
        0xFFFF_FFFF_FFFF_FFFF - b
    } else {
        b + F64_SIGN_MASK
    }
}

/// A binary64 bit pattern denotes zero exactly when all bits below the
/// sign bit are clear (this covers +0.0 and -0.0).
pub open spec fn is_zero_bits(b: u64) -> bool {
    b & F64_ABS_MASK == 0
}

/// Bit pattern of the absolute value: the sign bit cleared.
pub open spec fn abs_bits_spec(b: u64) -> u64 {
    b & F64_ABS_MASK
}

/// Clear the sign bit of a binary64 bit pattern, which maps the pattern
/// of `x` to the pattern of `|x|`.
pub fn abs_bits(b: u64) -> (r: u64)
    ensures
        r == abs_bits_spec(b),
{
    b & F64_ABS_MASK
}

/// Decide whether a bit pattern denotes (positive or negative) zero.
pub fn is_zero(b: u64) -> (r: bool)
    ensures
        r == is_zero_bits(b),
{
    b & F64_ABS_MASK == 0
}

/// The control-parameter sequence of a halving sweep: `count` bit
/// patterns beginning at `start`, each denoting half the value before it.
///
/// For a positive normal binary64 value (biased exponent field at least
/// `count`, so no step leaves the normal range) halving the value is
/// exactly a decrement of the exponent field, that is, a subtraction of
/// `F64_EXP_STEP` from the bit pattern.
pub fn halving_steps(start: u64, count: usize) -> (r: Vec<u64>)
    requires
        count as u64 <= start >> 52,
        start >> 52 < 0x7FF,
    ensures
        r.len() == count,
        forall|i: int| 0 <= i < count ==> r[i] == start - i * F64_EXP_STEP,
{
    proof {
        assert(start >= ((start >> 52) << 52)) by (bit_vector);
        assert(start >> 52 < 0x7FF ==> ((start >> 52) << 52) == (start >> 52)
            * 0x0010_0000_0000_0000u64) by (bit_vector);
        assert(start >= (count as u64) * F64_EXP_STEP);
    }
    let mut out: Vec<u64> = Vec::new();
    let mut b = start;
    for i in 0..count
        invariant
            out.len() == i,
            forall|j: int| 0 <= j < i ==> out[j] == start - j * F64_EXP_STEP,
            b == start - i * F64_EXP_STEP,
            start >= (count as u64) * F64_EXP_STEP,
    {
        out.push(b);
        b = b - F64_EXP_STEP;
    }
    out
}

} // verus!
