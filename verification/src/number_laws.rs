//! The order of IEEE-754 numbers by what their bits stand for.

use crate::ieee;
use vstd::arithmetic::power2::{lemma_pow2_pos, lemma_pow2_strictly_increases, lemma_pow2_unfold, pow2};
use vstd::prelude::*;

verus! {

/// The magnitude of a single precision pattern, in units of the smallest number above zero: the
/// fraction, with a leading one and shifted by the exponent unless that is zero.
pub open spec fn single_magnitude(bits: u32) -> int {
    let exponent = bits as int % 0x8000_0000 / 0x80_0000;
    let fraction = bits as int % 0x80_0000;
    if exponent == 0 {
        fraction
    } else {
        (0x80_0000 + fraction) * pow2((exponent - 1) as nat)
    }
}

/// The number that a single precision pattern stands for, in the same units: the magnitude, with
/// the top bit as the sign.
pub open spec fn single_value(bits: u32) -> int {
    if bits >= 0x8000_0000 {
        -single_magnitude(bits)
    } else {
        single_magnitude(bits)
    }
}

/// The magnitude of a double precision pattern, in units of the smallest number above zero.
pub open spec fn double_magnitude(bits: u64) -> int {
    let exponent = bits as int % 0x8000_0000_0000_0000 / 0x10_0000_0000_0000;
    let fraction = bits as int % 0x10_0000_0000_0000;
    if exponent == 0 {
        fraction
    } else {
        (0x10_0000_0000_0000 + fraction) * pow2((exponent - 1) as nat)
    }
}

/// The number that a double precision pattern stands for, in the same units.
pub open spec fn double_value(bits: u64) -> int {
    if bits >= 0x8000_0000_0000_0000 {
        -double_magnitude(bits)
    } else {
        double_magnitude(bits)
    }
}

/// A magnitude with exponent `e` and fraction `f` below `unit`.
spec fn magnitude(e: int, f: int, unit: int) -> int {
    if e == 0 {
        f
    } else {
        (unit + f) * pow2((e - 1) as nat)
    }
}

/// Magnitudes grow with the exponent, and with the fraction where the exponents are equal.
proof fn magnitudes_grow(e: int, f: int, g: int, h: int, unit: int)
    requires
        0 <= e,
        0 <= g,
        0 <= f < unit,
        0 <= h < unit,
        e < g || e == g && f < h,
    ensures
        0 <= magnitude(e, f, unit) < magnitude(g, h, unit),
{
    if e == g {
        if e > 0 {
            let p = pow2((e - 1) as nat) as int;
            lemma_pow2_pos((e - 1) as nat);
            assert(0 <= (unit + f) * p < (unit + h) * p) by (nonlinear_arith)
                requires
                    0 <= f < h,
                    0 < unit,
                    0 < p,
            ;
        }
    } else {
        let q = pow2((g - 1) as nat) as int;
        lemma_pow2_pos((g - 1) as nat);
        if e == 0 {
            assert(unit <= (unit + h) * q) by (nonlinear_arith)
                requires
                    0 < unit,
                    0 <= h,
                    1 <= q,
            ;
        } else {
            let p = pow2((e - 1) as nat) as int;
            lemma_pow2_pos((e - 1) as nat);
            lemma_pow2_unfold(e as nat);
            if e < g - 1 {
                lemma_pow2_strictly_increases(e as nat, (g - 1) as nat);
            }
            assert(2 * p <= q);
            assert(0 <= (unit + f) * p < (unit + h) * q) by (nonlinear_arith)
                requires
                    0 <= f < unit,
                    0 <= h,
                    0 < p,
                    2 * p <= q,
            ;
        }
    }
}

/// Single precision numbers compare as what they stand for; a pattern is no number where all bits
/// of the exponent are set and the fraction is not zero, and then it compares with none.
pub proof fn singles_compare_by_value(a: u32, b: u32)
    ensures
        ieee::single_nan(a) <==> a as int % 0x8000_0000 / 0x80_0000 == 255 && a as int % 0x80_0000 != 0,
        ieee::single_lt(a, b) <==> !ieee::single_nan(a) && !ieee::single_nan(b) && single_value(a)
            < single_value(b),
        ieee::single_rank(a) < ieee::single_rank(b) <==> single_value(a) < single_value(b),
        ieee::single_rank(a) == ieee::single_rank(b) <==> single_value(a) == single_value(b),
        ieee::single_rank(a) == 0 <==> single_value(a) == 0,
{
    let unit: int = 0x80_0000;
    let (x, y) = (a as int % 0x8000_0000, b as int % 0x8000_0000);
    let (e, f) = (x / unit, x % unit);
    let (g, h) = (y / unit, y % unit);
    assert(x == e * unit + f && y == g * unit + h);
    assert(f == a as int % unit && h == b as int % unit);
    assert(single_magnitude(a) == magnitude(e, f, unit));
    assert(single_magnitude(b) == magnitude(g, h, unit));
    if x < y {
        magnitudes_grow(e, f, g, h, unit);
    }
    if y < x {
        magnitudes_grow(g, h, e, f, unit);
    }
    if x > 0 {
        magnitudes_grow(0, 0, e, f, unit);
    }
    if y > 0 {
        magnitudes_grow(0, 0, g, h, unit);
    }
}

/// Double precision numbers compare as what they stand for.
pub proof fn doubles_compare_by_value(a: u64, b: u64)
    ensures
        ieee::double_nan(a) <==> a as int % 0x8000_0000_0000_0000 / 0x10_0000_0000_0000 == 2047
            && a as int % 0x10_0000_0000_0000 != 0,
        ieee::double_lt(a, b) <==> !ieee::double_nan(a) && !ieee::double_nan(b) && double_value(a)
            < double_value(b),
        ieee::double_le(a, b) <==> !ieee::double_nan(a) && !ieee::double_nan(b) && double_value(a)
            <= double_value(b),
        ieee::double_eq(a, b) <==> !ieee::double_nan(a) && !ieee::double_nan(b) && double_value(a)
            == double_value(b),
        ieee::double_rank(a) < ieee::double_rank(b) <==> double_value(a) < double_value(b),
        ieee::double_rank(a) == ieee::double_rank(b) <==> double_value(a) == double_value(b),
{
    let unit: int = 0x10_0000_0000_0000;
    let (x, y) = (a as int % 0x8000_0000_0000_0000, b as int % 0x8000_0000_0000_0000);
    let (e, f) = (x / unit, x % unit);
    let (g, h) = (y / unit, y % unit);
    assert(x == e * unit + f && y == g * unit + h);
    assert(f == a as int % unit && h == b as int % unit);
    assert(double_magnitude(a) == magnitude(e, f, unit));
    assert(double_magnitude(b) == magnitude(g, h, unit));
    if x < y {
        magnitudes_grow(e, f, g, h, unit);
    }
    if y < x {
        magnitudes_grow(g, h, e, f, unit);
    }
    if x > 0 {
        magnitudes_grow(0, 0, e, f, unit);
    }
    if y > 0 {
        magnitudes_grow(0, 0, g, h, unit);
    }
}

/// No finite number lies outside the largest and the smallest one.
pub proof fn limits_hold_all_finite_numbers(x: u32, y: u64)
    ensures
        x as int % 0x8000_0000 < 0x7F80_0000 ==> single_value(ieee::SINGLE_MIN) <= single_value(x)
            <= single_value(ieee::SINGLE_MAX),
        y as int % 0x8000_0000_0000_0000 < 0x7FF0_0000_0000_0000 ==> double_value(ieee::DOUBLE_MIN)
            <= double_value(y) <= double_value(ieee::DOUBLE_MAX),
        ieee::SINGLE_MAX < 0x7F80_0000,
        ieee::SINGLE_MIN as int % 0x8000_0000 < 0x7F80_0000,
        ieee::DOUBLE_MAX < 0x7FF0_0000_0000_0000,
        ieee::DOUBLE_MIN as int % 0x8000_0000_0000_0000 < 0x7FF0_0000_0000_0000,
{
    singles_compare_by_value(x, ieee::SINGLE_MAX);
    singles_compare_by_value(ieee::SINGLE_MIN, x);
    doubles_compare_by_value(y, ieee::DOUBLE_MAX);
    doubles_compare_by_value(ieee::DOUBLE_MIN, y);
}

} // verus!
