//! The quotient of two binary64 values.

use crate::binary64::power::{bit_length, bit_length_of, lemma_pow2_increases, power_of_two};
use crate::binary64::rounding::{round_pack, rounded};
use crate::binary64::{
    apply_sign, check_infinite, check_nan, check_zero, is_infinite, is_nan, is_negative, is_zero,
    scale, scale_of, sign_of, significand, significand_of, with_sign, INFINITY, NAN,
};
use vstd::arithmetic::power2::{lemma2_to64, lemma2_to64_rest, lemma_pow2_adds, pow2};
use vstd::prelude::*;

verus! {

/// The left shift that brings a significand to its full 53 bits; it is zero
/// for a normal value.
pub open spec fn normalizing_shift(m: nat) -> nat {
    (53 - bit_length(m)) as nat
}

/// Twice the integer quotient of `n` by `d`, plus one where the division
/// leaves a remainder. The extra low bit keeps an inexact quotient from
/// being taken for an exact one, or for a tie, when it is rounded.
pub open spec fn sticky_quotient(n: nat, d: nat) -> nat {
    if n % d == 0 {
        2 * (n / d)
    } else {
        2 * (n / d) + 1
    }
}

/// The quotient of two full significands, carried 65 bits past the point.
pub open spec fn significand_quotient(n: nat, d: nat) -> nat {
    sticky_quotient(n * pow2(64), d)
}

/// The quotient of two finite, nonzero magnitudes.
pub open spec fn finite_quotient(a: u64, b: u64) -> u64 {
    let za = normalizing_shift(significand(a));
    let zb = normalizing_shift(significand(b));
    rounded(
        significand_quotient(significand(a) * pow2(za), significand(b) * pow2(zb)),
        (scale(a) - za) - (scale(b) - zb) + 1009,
    )
}

/// `a / b`: the quotient rounded once. Zero by zero and infinity by infinity
/// are invalid; a finite nonzero value by zero is an infinity. The sign is
/// the exclusive or of the operands' signs.
pub open spec fn quotient(a: u64, b: u64) -> u64 {
    if is_nan(a) || is_nan(b) {
        NAN
    } else if (is_infinite(a) && is_infinite(b)) || (is_zero(a) && is_zero(b)) {
        NAN
    } else if is_infinite(a) || is_zero(b) {
        with_sign(is_negative(a) != is_negative(b), INFINITY)
    } else if is_infinite(b) || is_zero(a) {
        with_sign(is_negative(a) != is_negative(b), 0)
    } else {
        with_sign(is_negative(a) != is_negative(b), finite_quotient(a, b))
    }
}

/// Shifts a nonzero significand left until it has 53 bits.
pub fn normalize_significand(m: u64) -> (r: (u64, u32))
    requires
        0 < m < 0x20_0000_0000_0000,
    ensures
        r.1 == normalizing_shift(m as nat),
        r.1 <= 52,
        r.0 == m * pow2(r.1 as nat),
        0x10_0000_0000_0000 <= r.0 < 0x20_0000_0000_0000,
{
    let len: u32 = bit_length_of(m as u128);
    proof {
        lemma2_to64();
        lemma2_to64_rest();
        if len > 53 {
            lemma_pow2_increases(53, (len - 1) as nat);
        }
    }
    let shift: u32 = 53 - len;
    let p: u128 = power_of_two(shift);
    proof {
        lemma_pow2_adds((len - 1) as nat, shift as nat);
        lemma_pow2_adds(len as nat, shift as nat);
        assert(pow2((len - 1) as nat) * p <= m * p) by (nonlinear_arith)
            requires
                pow2((len - 1) as nat) <= m,
                p > 0,
        ;
        assert(m * p < pow2(len as nat) * p) by (nonlinear_arith)
            requires
                m < pow2(len as nat),
                p > 0,
        ;
    }
    let wide: u128 = m as u128 * p;
    (wide as u64, shift)
}

/// Divides `a` by `b`.
pub fn divide(a: u64, b: u64) -> (r: u64)
    ensures
        r == quotient(a, b),
{
    if check_nan(a) || check_nan(b) {
        return NAN;
    }
    let a_infinite: bool = check_infinite(a);
    let b_infinite: bool = check_infinite(b);
    let a_zero: bool = check_zero(a);
    let b_zero: bool = check_zero(b);
    if (a_infinite && b_infinite) || (a_zero && b_zero) {
        return NAN;
    }
    let negative: bool = sign_of(a) != sign_of(b);
    if a_infinite || b_zero {
        return apply_sign(negative, INFINITY);
    }
    if b_infinite || a_zero {
        return apply_sign(negative, 0);
    }
    let (na, za) = normalize_significand(significand_of(a));
    let (nb, zb) = normalize_significand(significand_of(b));
    proof {
        lemma2_to64();
        assert(na * 0x1_0000_0000_0000_0000 < 0x20_0000_0000_0000 * 0x1_0000_0000_0000_0000)
            by (nonlinear_arith)
            requires
                na < 0x20_0000_0000_0000,
        ;
    }
    let wide: u128 = na as u128 * 0x1_0000_0000_0000_0000;
    let q: u128 = wide / (nb as u128);
    let rem: u128 = wide % (nb as u128);
    let sig: u128 = if rem == 0 { 2 * q } else { 2 * q + 1 };
    let e: i64 = (scale_of(a) as i64 - za as i64) - (scale_of(b) as i64 - zb as i64) + 1009;
    apply_sign(negative, round_pack(sig, e))
}

} // verus!
