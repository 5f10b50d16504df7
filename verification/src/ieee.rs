//! IEEE-754 numbers by their bit patterns: what NaN is, and how the others are ordered.

use vstd::prelude::*;

verus! {

/// Bits of the largest finite single precision number.
pub const SINGLE_MAX: u32 = 0x7F7F_FFFF;

/// Bits of the smallest (most negative) finite single precision number.
pub const SINGLE_MIN: u32 = 0xFF7F_FFFF;

/// Bits of the largest finite double precision number.
pub const DOUBLE_MAX: u64 = 0x7FEF_FFFF_FFFF_FFFF;

/// Bits of the smallest (most negative) finite double precision number.
pub const DOUBLE_MIN: u64 = 0xFFEF_FFFF_FFFF_FFFF;

/// Bits of the single precision number one.
pub const SINGLE_ONE: u32 = 0x3F80_0000;

/// Bits of the double precision number one.
pub const DOUBLE_ONE: u64 = 0x3FF0_0000_0000_0000;

/// Bits of the double precision number zero.
pub const DOUBLE_ZERO: u64 = 0;

/// A single precision pattern is NaN: all exponent bits are set and the fraction is not zero.
pub open spec fn single_nan(bits: u32) -> bool {
    bits % 0x8000_0000 > 0x7F80_0000
}

/// The place of a single precision number in the numeric order.
///
/// The magnitude grows with the low 31 bits and the top bit is the sign, so both zeros have
/// place 0 and a number is less than another exactly where its place is.
pub open spec fn single_rank(bits: u32) -> int {
    if bits < 0x8000_0000 {
        bits as int
    } else {
        0x8000_0000 - bits
    }
}

/// `a < b` on single precision numbers: false where either is NaN.
pub open spec fn single_lt(a: u32, b: u32) -> bool {
    !single_nan(a) && !single_nan(b) && single_rank(a) < single_rank(b)
}

/// A double precision pattern is NaN: all exponent bits are set and the fraction is not zero.
pub open spec fn double_nan(bits: u64) -> bool {
    bits % 0x8000_0000_0000_0000 > 0x7FF0_0000_0000_0000
}

/// The place of a double precision number in the numeric order.
pub open spec fn double_rank(bits: u64) -> int {
    if bits < 0x8000_0000_0000_0000 {
        bits as int
    } else {
        0x8000_0000_0000_0000 - bits
    }
}

/// `a < b` on double precision numbers: false where either is NaN.
pub open spec fn double_lt(a: u64, b: u64) -> bool {
    !double_nan(a) && !double_nan(b) && double_rank(a) < double_rank(b)
}

/// `a == b` on double precision numbers: false where either is NaN, true for the two zeros.
pub open spec fn double_eq(a: u64, b: u64) -> bool {
    !double_nan(a) && !double_nan(b) && double_rank(a) == double_rank(b)
}

/// `a <= b` on double precision numbers: false where either is NaN.
pub open spec fn double_le(a: u64, b: u64) -> bool {
    !double_nan(a) && !double_nan(b) && double_rank(a) <= double_rank(b)
}

/// Whether a single precision pattern is NaN.
pub fn single_is_nan(bits: u32) -> (r: bool)
    ensures
        r == single_nan(bits),
{
    bits % 0x8000_0000 > 0x7F80_0000
}

/// The place of a single precision number in the numeric order.
pub fn single_key(bits: u32) -> (r: i64)
    ensures
        r == single_rank(bits),
{
    if bits < 0x8000_0000 {
        bits as i64
    } else {
        0x8000_0000i64 - bits as i64
    }
}

/// `a < b` on single precision numbers.
pub fn single_less(a: u32, b: u32) -> (r: bool)
    ensures
        r == single_lt(a, b),
{
    !single_is_nan(a) && !single_is_nan(b) && single_key(a) < single_key(b)
}

/// Whether a double precision pattern is NaN.
pub fn double_is_nan(bits: u64) -> (r: bool)
    ensures
        r == double_nan(bits),
{
    bits % 0x8000_0000_0000_0000 > 0x7FF0_0000_0000_0000
}

/// The place of a double precision number in the numeric order.
pub fn double_key(bits: u64) -> (r: i64)
    ensures
        r == double_rank(bits),
{
    if bits < 0x8000_0000_0000_0000 {
        bits as i64
    } else {
        let magnitude: i64 = (bits - 0x8000_0000_0000_0000) as i64;
        -magnitude
    }
}

/// `a < b` on double precision numbers.
pub fn double_less(a: u64, b: u64) -> (r: bool)
    ensures
        r == double_lt(a, b),
{
    !double_is_nan(a) && !double_is_nan(b) && double_key(a) < double_key(b)
}

/// `a == b` on double precision numbers.
pub fn double_equal(a: u64, b: u64) -> (r: bool)
    ensures
        r == double_eq(a, b),
{
    !double_is_nan(a) && !double_is_nan(b) && double_key(a) == double_key(b)
}

/// `a <= b` on double precision numbers.
pub fn double_less_equal(a: u64, b: u64) -> (r: bool)
    ensures
        r == double_le(a, b),
{
    !double_is_nan(a) && !double_is_nan(b) && double_key(a) <= double_key(b)
}

} // verus!
