//! IEEE 754 binary64 values as `u64` bit patterns, with round-to-nearest-even
//! arithmetic carried out on integers.
//!
//! A finite pattern `x` stands for `±significand(x) · 2^(scale(x) - 1074)`.

use vstd::arithmetic::power2::pow2;
use vstd::prelude::*;

pub mod power;
pub mod rounding;
pub mod addition;
pub mod multiplication;
pub mod conversion;
pub mod division;
pub mod root;
pub mod comparison;
pub mod laws;
pub mod accuracy;

verus! {

/// The sign bit.
pub const SIGN_BIT: u64 = 0x8000_0000_0000_0000;

/// The implicit leading bit of a normal significand, `2^52`.
pub const HIDDEN_BIT: u64 = 0x0010_0000_0000_0000;

/// Positive infinity; every larger magnitude is a NaN.
pub const INFINITY: u64 = 0x7ff0_0000_0000_0000;

/// The one quiet NaN that the operations return where a result is not a
/// number, whatever NaN went in.
pub const NAN: u64 = 0x7ff8_0000_0000_0000;

/// `+0.0`
pub const ZERO: u64 = 0;

/// `1.0`
pub const ONE: u64 = 0x3ff0_0000_0000_0000;

/// The pattern with its sign bit cleared.
pub open spec fn magnitude(x: u64) -> u64 {
    if x >= SIGN_BIT {
        (x - SIGN_BIT) as u64
    } else {
        x
    }
}

/// Whether the sign bit is set: true of `-0.0` too.
pub open spec fn is_negative(x: u64) -> bool {
    x >= SIGN_BIT
}

/// Whether the pattern is not a number.
pub open spec fn is_nan(x: u64) -> bool {
    magnitude(x) > INFINITY
}

/// Whether the pattern is an infinity of either sign.
pub open spec fn is_infinite(x: u64) -> bool {
    magnitude(x) == INFINITY
}

/// Whether the pattern is neither an infinity nor a NaN.
pub open spec fn is_finite(x: u64) -> bool {
    magnitude(x) < INFINITY
}

/// Whether the pattern is a zero of either sign.
pub open spec fn is_zero(x: u64) -> bool {
    magnitude(x) == 0
}

/// The integer significand: the fraction field, with the hidden bit for a
/// normal value.
pub open spec fn significand(x: u64) -> nat {
    let m = magnitude(x);
    if m < HIDDEN_BIT {
        m as nat
    } else {
        (m % HIDDEN_BIT + HIDDEN_BIT) as nat
    }
}

/// The power of two that scales the significand, counted from the smallest
/// subnormal: the value is `significand · 2^scale` units of `2^-1074`.
pub open spec fn scale(x: u64) -> nat {
    let m = magnitude(x);
    if m < HIDDEN_BIT {
        0
    } else {
        (m / HIDDEN_BIT - 1) as nat
    }
}

/// The magnitude of a finite value as a whole number of units of `2^-1074`,
/// the smallest subnormal.
pub open spec fn units(x: u64) -> nat {
    significand(x) * pow2(scale(x))
}

/// The significand carrying the value's sign.
pub open spec fn signed_significand(x: u64) -> int {
    if is_negative(x) {
        -(significand(x) as int)
    } else {
        significand(x) as int
    }
}

/// The pattern of the given magnitude and sign.
pub open spec fn with_sign(negative: bool, magnitude: u64) -> u64
    recommends
        magnitude < SIGN_BIT,
{
    if negative {
        (magnitude + SIGN_BIT) as u64
    } else {
        magnitude
    }
}

/// The value with its sign flipped.
pub open spec fn negated(x: u64) -> u64 {
    with_sign(!is_negative(x), magnitude(x))
}

/// What `x >= 0.0` means: not a NaN, and positive or a zero of either sign.
pub open spec fn at_least_zero(x: u64) -> bool {
    !is_nan(x) && (!is_negative(x) || is_zero(x))
}

/// The pattern with its sign bit cleared.
pub fn magnitude_of(x: u64) -> (m: u64)
    ensures
        m == magnitude(x),
        m < SIGN_BIT,
{
    if x >= SIGN_BIT {
        x - SIGN_BIT
    } else {
        x
    }
}

/// Whether the sign bit is set.
pub fn sign_of(x: u64) -> (negative: bool)
    ensures
        negative == is_negative(x),
{
    x >= SIGN_BIT
}

/// Whether the pattern is not a number.
pub fn check_nan(x: u64) -> (r: bool)
    ensures
        r == is_nan(x),
{
    magnitude_of(x) > INFINITY
}

/// Whether the pattern is an infinity.
pub fn check_infinite(x: u64) -> (r: bool)
    ensures
        r == is_infinite(x),
{
    magnitude_of(x) == INFINITY
}

/// Whether the pattern is a zero; this is what `x == 0.0` means.
pub fn check_zero(x: u64) -> (r: bool)
    ensures
        r == is_zero(x),
{
    magnitude_of(x) == 0
}

/// Whether `x >= 0.0`.
pub fn check_at_least_zero(x: u64) -> (r: bool)
    ensures
        r == at_least_zero(x),
{
    let m: u64 = magnitude_of(x);
    m <= INFINITY && (x < SIGN_BIT || m == 0)
}

/// The integer significand.
pub fn significand_of(x: u64) -> (s: u64)
    ensures
        s == significand(x),
        s < 2 * HIDDEN_BIT,
{
    let m: u64 = magnitude_of(x);
    if m < HIDDEN_BIT {
        m
    } else {
        m % HIDDEN_BIT + HIDDEN_BIT
    }
}

/// The power of two that scales the significand.
pub fn scale_of(x: u64) -> (s: u64)
    ensures
        s == scale(x),
        s <= 2046,
        is_finite(x) ==> s <= 2045,
{
    let m: u64 = magnitude_of(x);
    if m < HIDDEN_BIT {
        0
    } else {
        m / HIDDEN_BIT - 1
    }
}

/// The pattern of the given magnitude and sign.
pub fn apply_sign(negative: bool, magnitude: u64) -> (r: u64)
    requires
        magnitude < SIGN_BIT,
    ensures
        r == with_sign(negative, magnitude),
{
    if negative {
        magnitude + SIGN_BIT
    } else {
        magnitude
    }
}

/// The value with its sign flipped.
pub fn negate(x: u64) -> (r: u64)
    ensures
        r == negated(x),
{
    if x >= SIGN_BIT {
        x - SIGN_BIT
    } else {
        x + SIGN_BIT
    }
}

} // verus!
