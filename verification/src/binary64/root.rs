//! The square root of a binary64 value.

use crate::binary64::division::{normalize_significand, normalizing_shift};
use crate::binary64::rounding::{round_pack, rounded};
use crate::binary64::{
    check_infinite, check_nan, check_zero, is_infinite, is_nan, is_negative, is_zero, scale,
    scale_of, sign_of, significand, significand_of, INFINITY, NAN,
};
use vstd::arithmetic::power2::{lemma2_to64, lemma2_to64_rest, lemma_pow2_adds, pow2};
use vstd::prelude::*;

verus! {

/// `r` is the square root of `n` rounded down.
pub open spec fn is_integer_root(r: nat, n: nat) -> bool {
    r * r <= n < (r + 1) * (r + 1)
}

/// The square root of `n` rounded down.
pub open spec fn integer_root(n: nat) -> nat {
    choose|r: nat| is_integer_root(r, n)
}

/// Every number has a rounded-down root.
pub proof fn lemma_integer_root_exists(n: nat)
    ensures
        is_integer_root(integer_root(n), n),
    decreases n,
{
    if n == 0 {
        let zero: nat = 0;
        assert(zero * zero == 0 && (zero + 1) * (zero + 1) == 1) by (nonlinear_arith)
            requires
                zero == 0,
        ;
        assert(is_integer_root(zero, 0));
    } else {
        lemma_integer_root_exists((n - 1) as nat);
        let r = integer_root((n - 1) as nat);
        if (r + 1) * (r + 1) <= n {
            assert(n < (r + 2) * (r + 2)) by (nonlinear_arith)
                requires
                    n - 1 < (r + 1) * (r + 1),
            ;
            assert(is_integer_root(r + 1, n));
        } else {
            assert(is_integer_root(r, n));
        }
    }
}

/// Only one number is the rounded-down root of `n`.
pub proof fn lemma_integer_root_unique(r: nat, n: nat)
    requires
        is_integer_root(r, n),
    ensures
        integer_root(n) == r,
{
    let c = integer_root(n);
    assert(is_integer_root(c, n));
    assert(c == r) by (nonlinear_arith)
        requires
            c * c <= n < (c + 1) * (c + 1),
            r * r <= n < (r + 1) * (r + 1),
    ;
}

/// The root of a radicand, carried one bit past the point: twice the integer
/// root, plus one where the radicand is no perfect square.
pub open spec fn significand_root(n: nat) -> nat {
    let r = integer_root(n);
    if r * r == n {
        2 * r
    } else {
        2 * r + 1
    }
}

/// The power of two that goes with the full significand of `a` once the
/// value is counted in units of `2^-2148`, whose root is the unit `2^-1074`.
pub open spec fn radicand_scale(a: u64) -> int {
    scale(a) - normalizing_shift(significand(a)) + 1074
}

/// The whole number whose root is taken: the full significand, doubled
/// where its power of two is odd, and widened by 72 bits.
pub open spec fn radicand(a: u64) -> nat {
    let n = significand(a) * pow2(normalizing_shift(significand(a)));
    if radicand_scale(a) % 2 == 1 {
        2 * n * pow2(72)
    } else {
        n * pow2(72)
    }
}

/// Half of the even power of two that is left beside the radicand.
pub open spec fn half_scale(a: u64) -> int {
    if radicand_scale(a) % 2 == 1 {
        (radicand_scale(a) - 1) / 2
    } else {
        radicand_scale(a) / 2
    }
}

/// The root of a finite positive value.
pub open spec fn finite_root(a: u64) -> u64 {
    rounded(significand_root(radicand(a)), half_scale(a) - 37)
}

/// The square root, rounded once. A zero keeps its sign; any other negative
/// value has no root.
pub open spec fn square_root(a: u64) -> u64 {
    if is_nan(a) {
        NAN
    } else if is_zero(a) {
        a
    } else if is_negative(a) {
        NAN
    } else if is_infinite(a) {
        INFINITY
    } else {
        finite_root(a)
    }
}

/// The square root of `n`, rounded down.
pub fn integer_root_of(n: u128) -> (r: u128)
    ensures
        r == integer_root(n as nat),
        is_integer_root(r as nat, n as nat),
        r < 0x1_0000_0000_0000_0000,
{
    let mut lo: u128 = 0;
    let mut hi: u128 = 0x1_0000_0000_0000_0000;
    assert(hi * hi > n) by (nonlinear_arith)
        requires
            hi == 0x1_0000_0000_0000_0000,
            n <= u128::MAX,
    ;
    while hi - lo > 1
        invariant
            lo < hi <= 0x1_0000_0000_0000_0000,
            lo * lo <= n < hi * hi,
        decreases hi - lo,
    {
        let mid: u128 = lo + (hi - lo) / 2;
        assert(mid * mid <= 0xffff_ffff_ffff_ffff * 0xffff_ffff_ffff_ffff) by (nonlinear_arith)
            requires
                mid <= 0xffff_ffff_ffff_ffff,
        ;
        if mid * mid <= n {
            lo = mid;
        } else {
            hi = mid;
        }
    }
    proof {
        lemma_integer_root_unique(lo as nat, n as nat);
    }
    lo
}

/// Takes the square root of `a`.
pub fn sqrt(a: u64) -> (r: u64)
    ensures
        r == square_root(a),
{
    if check_nan(a) {
        return NAN;
    }
    if check_zero(a) {
        return a;
    }
    if sign_of(a) {
        return NAN;
    }
    if check_infinite(a) {
        return INFINITY;
    }
    let (n, z) = normalize_significand(significand_of(a));
    let t: i64 = scale_of(a) as i64 - z as i64 + 1074;
    let odd: bool = t % 2 == 1;
    let doubled: u128 = if odd { 2 * (n as u128) } else { n as u128 };
    proof {
        lemma2_to64();
        lemma2_to64_rest();
        lemma_pow2_adds(64, 8);
        assert(pow2(72) == 0x1_00_0000_0000_0000_0000);
        assert(doubled * 0x1_00_0000_0000_0000_0000 < 0x40_0000_0000_0000
            * 0x1_00_0000_0000_0000_0000) by (nonlinear_arith)
            requires
                doubled < 0x40_0000_0000_0000,
        ;
    }
    let radicand: u128 = doubled * 0x1_00_0000_0000_0000_0000;
    let root: u128 = integer_root_of(radicand);
    let sig: u128 = if root * root == radicand { 2 * root } else { 2 * root + 1 };
    let half: i64 = if odd { (t - 1) / 2 } else { t / 2 };
    round_pack(sig, half - 37)
}

} // verus!
