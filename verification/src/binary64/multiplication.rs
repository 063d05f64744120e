//! The product of two binary64 values.

use crate::binary64::rounding::{round_pack, rounded};
use crate::binary64::{
    apply_sign, check_infinite, check_nan, check_zero, is_infinite, is_nan, is_negative, is_zero,
    scale, scale_of, sign_of, significand, significand_of, with_sign, INFINITY, NAN,
};
use vstd::prelude::*;

verus! {

/// `a · b`: the exact product of the two significands, rounded once.
/// Infinity times zero is invalid; the sign of any other result is the
/// exclusive or of the operands' signs.
pub open spec fn product(a: u64, b: u64) -> u64 {
    if is_nan(a) || is_nan(b) {
        NAN
    } else if (is_infinite(a) && is_zero(b)) || (is_zero(a) && is_infinite(b)) {
        NAN
    } else if is_infinite(a) || is_infinite(b) {
        with_sign(is_negative(a) != is_negative(b), INFINITY)
    } else {
        with_sign(
            is_negative(a) != is_negative(b),
            rounded(significand(a) * significand(b), scale(a) + scale(b) - 1074),
        )
    }
}

/// Multiplies two binary64 values.
pub fn times(a: u64, b: u64) -> (r: u64)
    ensures
        r == product(a, b),
{
    if check_nan(a) || check_nan(b) {
        return NAN;
    }
    let a_infinite: bool = check_infinite(a);
    let b_infinite: bool = check_infinite(b);
    if (a_infinite && check_zero(b)) || (check_zero(a) && b_infinite) {
        return NAN;
    }
    let negative: bool = sign_of(a) != sign_of(b);
    if a_infinite || b_infinite {
        return apply_sign(negative, INFINITY);
    }
    let ma: u128 = significand_of(a) as u128;
    let mb: u128 = significand_of(b) as u128;
    assert(ma * mb < 0x40_0000_0000_0000_0000_0000_0000_0000) by (nonlinear_arith)
        requires
            ma < 0x20_0000_0000_0000,
            mb < 0x20_0000_0000_0000,
    ;
    let e: i64 = scale_of(a) as i64 + scale_of(b) as i64 - 1074;
    apply_sign(negative, round_pack(ma * mb, e))
}

} // verus!
