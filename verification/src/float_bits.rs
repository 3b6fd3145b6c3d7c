//! IEEE-754 single-precision values handled through their bit patterns.
//!
//! A value is NaN when its exponent field is all ones and its fraction is not
//! zero. For all other values the numeric order coincides with the order of
//! the signed magnitude held in the bits, where both zeros have rank zero.

use vstd::prelude::*;

verus! {

/// Bit pattern of `+inf`.
pub const F32_POS_INF: u32 = 0x7f80_0000u32;

/// Bit pattern of `-inf`.
pub const F32_NEG_INF: u32 = 0xff80_0000u32;

/// Bit pattern of the largest finite value (`f32::MAX`).
pub const F32_MAX: u32 = 0x7f7f_ffffu32;

/// Bit pattern of the most negative finite value (`f32::MIN`).
pub const F32_LOWEST: u32 = 0xff7f_ffffu32;

/// Bit pattern of `+0.0`.
pub const F32_ZERO: u32 = 0u32;

/// Bit pattern of `1.0`.
pub const F32_ONE: u32 = 0x3f80_0000u32;

/// Bit pattern of `-1.0`.
pub const F32_NEG_ONE: u32 = 0xbf80_0000u32;

/// The biased exponent field.
pub open spec fn f32_exponent(b: u32) -> int {
    (b as int / 0x80_0000) % 0x100
}

/// The fraction field.
pub open spec fn f32_fraction(b: u32) -> int {
    b as int % 0x80_0000
}

/// `b` encodes a NaN.
pub open spec fn f32_is_nan(b: u32) -> bool {
    f32_exponent(b) == 0xff && f32_fraction(b) != 0
}

/// `b` encodes a finite value (neither an infinity nor a NaN).
pub open spec fn f32_is_finite(b: u32) -> bool {
    f32_exponent(b) != 0xff
}

/// Signed magnitude of `b`: the position of a non-NaN value in the numeric order.
pub open spec fn f32_rank(b: u32) -> int {
    if b >= 0x8000_0000 {
        -(b as int - 0x8000_0000)
    } else {
        b as int
    }
}

/// IEEE-754 `a < b`: false whenever either side is NaN.
pub open spec fn f32_lt(a: u32, b: u32) -> bool {
    !f32_is_nan(a) && !f32_is_nan(b) && f32_rank(a) < f32_rank(b)
}

/// IEEE-754 `a == b`: false whenever either side is NaN, true for `+0.0` and `-0.0`.
pub open spec fn f32_eq(a: u32, b: u32) -> bool {
    !f32_is_nan(a) && !f32_is_nan(b) && f32_rank(a) == f32_rank(b)
}

/// Tells whether `b` encodes a NaN.
pub fn is_nan_bits(b: u32) -> (r: bool)
    ensures
        r == f32_is_nan(b),
{
    (b / 0x80_0000) % 0x100 == 0xff && b % 0x80_0000 != 0
}

/// Tells whether `b` encodes a finite value.
pub fn is_finite_bits(b: u32) -> (r: bool)
    ensures
        r == f32_is_finite(b),
{
    (b / 0x80_0000) % 0x100 != 0xff
}

/// Signed magnitude of `b`.
pub fn rank_bits(b: u32) -> (r: i64)
    ensures
        r == f32_rank(b),
{
    if b >= 0x8000_0000 {
        -((b - 0x8000_0000) as i64)
    } else {
        b as i64
    }
}

/// IEEE-754 less-than over bit patterns.
pub fn lt_bits(a: u32, b: u32) -> (r: bool)
    ensures
        r == f32_lt(a, b),
{
    !is_nan_bits(a) && !is_nan_bits(b) && rank_bits(a) < rank_bits(b)
}

/// IEEE-754 equality over bit patterns.
pub fn eq_bits(a: u32, b: u32) -> (r: bool)
    ensures
        r == f32_eq(a, b),
{
    !is_nan_bits(a) && !is_nan_bits(b) && rank_bits(a) == rank_bits(b)
}

/// `b` encodes a double-precision NaN.
pub open spec fn f64_is_nan(b: u64) -> bool {
    (b as int / 0x10_0000_0000_0000) % 0x800 == 0x7ff && b as int % 0x10_0000_0000_0000 != 0
}

/// Signed magnitude of the double-precision value `b`.
pub open spec fn f64_rank(b: u64) -> int {
    if b >= 0x8000_0000_0000_0000 {
        -(b as int - 0x8000_0000_0000_0000)
    } else {
        b as int
    }
}

/// IEEE-754 `a == b` over double-precision bit patterns.
pub open spec fn f64_eq(a: u64, b: u64) -> bool {
    !f64_is_nan(a) && !f64_is_nan(b) && f64_rank(a) == f64_rank(b)
}

/// IEEE-754 equality over double-precision bit patterns.
pub fn eq_bits_f64(a: u64, b: u64) -> (r: bool)
    ensures
        r == f64_eq(a, b),
{
    let a_nan = (a / 0x10_0000_0000_0000) % 0x800 == 0x7ff && a % 0x10_0000_0000_0000 != 0;
    let b_nan = (b / 0x10_0000_0000_0000) % 0x800 == 0x7ff && b % 0x10_0000_0000_0000 != 0;
    let a_rank: i128 = if a >= 0x8000_0000_0000_0000 {
        -((a - 0x8000_0000_0000_0000) as i128)
    } else {
        a as i128
    };
    let b_rank: i128 = if b >= 0x8000_0000_0000_0000 {
        -((b - 0x8000_0000_0000_0000) as i128)
    } else {
        b as i128
    };
    !a_nan && !b_nan && a_rank == b_rank
}

} // verus!
