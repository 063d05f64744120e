//! The sum and difference of two binary64 values.

use crate::binary64::power::{
    bit_length, lemma_bit_length_unique, lemma_pow2_increases, power_of_two,
};
use crate::binary64::rounding::{dropped_bits, kept_significand, round_pack, rounded};
use crate::binary64::{
    apply_sign, check_infinite, check_nan, is_finite, is_infinite, is_nan, is_negative, magnitude,
    negate, negated, scale, scale_of, sign_of, signed_significand, significand, significand_of,
    with_sign, HIDDEN_BIT, NAN,
};
use vstd::arithmetic::div_mod::lemma_fundamental_div_mod_converse;
use vstd::arithmetic::power2::{
    lemma2_to64, lemma2_to64_rest, lemma_pow2_adds, lemma_pow2_pos, lemma_pow2_unfold, pow2,
};
use vstd::prelude::*;

verus! {

/// The smaller of the two scales: the unit in which the exact sum is written.
pub open spec fn common_scale(a: u64, b: u64) -> nat {
    if scale(a) <= scale(b) {
        scale(a)
    } else {
        scale(b)
    }
}

/// The exact sum of two finite values, in units of `2^(common_scale - 1074)`.
pub open spec fn exact_total(a: u64, b: u64) -> int {
    let s = common_scale(a, b);
    signed_significand(a) * pow2((scale(a) - s) as nat) + signed_significand(b) * pow2(
        (scale(b) - s) as nat,
    )
}

/// `a + b`: the exact sum, rounded once. Infinities of opposite sign have no
/// sum; an exact zero is negative only when both operands are.
pub open spec fn sum(a: u64, b: u64) -> u64 {
    if is_nan(a) || is_nan(b) {
        NAN
    } else if is_infinite(a) {
        if is_infinite(b) && is_negative(a) != is_negative(b) {
            NAN
        } else {
            a
        }
    } else if is_infinite(b) {
        b
    } else {
        let total = exact_total(a, b);
        if total == 0 {
            with_sign(is_negative(a) && is_negative(b), 0)
        } else if total < 0 {
            with_sign(true, rounded((-total) as nat, common_scale(a, b) as int))
        } else {
            with_sign(false, rounded(total as nat, common_scale(a, b) as int))
        }
    }
}

/// `a - b`, which is `a + (-b)`.
pub open spec fn difference(a: u64, b: u64) -> u64 {
    sum(a, negated(b))
}

/// Addition does not depend on the order of its operands.
pub proof fn lemma_sum_commutes(a: u64, b: u64)
    ensures
        sum(a, b) == sum(b, a),
{
    if is_finite(a) && is_finite(b) {
        assert(common_scale(a, b) == common_scale(b, a));
        assert(exact_total(a, b) == exact_total(b, a));
    }
}

/// A full significand `m` at scale `s + g` absorbs an addend `y` that lies
/// `g >= 54` places below it: the sum rounds back to `m`.
proof fn lemma_absorbs_added(m: nat, y: nat, g: nat, s: nat)
    requires
        pow2(52) <= m < pow2(53),
        y < pow2(53),
        g >= 54,
    ensures
        bit_length(m * pow2(g) + y) == 53 + g,
        dropped_bits(m * pow2(g) + y, s as int) == g,
        kept_significand(m * pow2(g) + y, s as int) == m,
{
    let p = pow2(g);
    let n = m * p + y;
    lemma_pow2_pos(g);
    lemma_pow2_adds(52, g);
    lemma_pow2_adds(53, g);
    lemma_pow2_increases(54, g);
    lemma_pow2_unfold(54);
    assert(pow2(52) * p <= m * p) by (nonlinear_arith)
        requires
            pow2(52) <= m,
            p > 0,
    ;
    assert((m + 1) * p <= pow2(53) * p) by (nonlinear_arith)
        requires
            m + 1 <= pow2(53),
            p > 0,
    ;
    assert((m + 1) * p == m * p + p) by (nonlinear_arith);
    lemma_bit_length_unique(n, 53 + g);
    lemma_fundamental_div_mod_converse(n as int, p as int, m as int, y as int);
}

/// A full significand `m` at scale `s + g` absorbs a subtrahend `y` that
/// lies `g >= 55` places below it, even where the difference falls into the
/// next lower binade: it rounds back to `m`.
proof fn lemma_absorbs_subtracted(m: nat, y: nat, g: nat, s: nat)
    requires
        pow2(52) <= m < pow2(53),
        0 < y < pow2(53),
        g >= 55,
    ensures
        m * pow2(g) > y,
        (s + dropped_bits((m * pow2(g) - y) as nat, s as int)) * pow2(52) + kept_significand(
            (m * pow2(g) - y) as nat,
            s as int,
        ) == (s + g) * pow2(52) + m,
{
    let p = pow2(g);
    let half = pow2((g - 1) as nat);
    lemma2_to64_rest();
    lemma_pow2_pos(g);
    lemma_pow2_unfold(g);
    lemma_pow2_unfold((g - 1) as nat);
    lemma_pow2_adds(52, g);
    lemma_pow2_adds(53, g);
    lemma_pow2_adds(51, g);
    lemma_pow2_adds(53, (g - 1) as nat);
    lemma_pow2_increases(53, (g - 2) as nat);
    lemma_pow2_unfold(52);
    lemma_pow2_unfold(53);
    assert(pow2(52) * p <= m * p) by (nonlinear_arith)
        requires
            pow2(52) <= m,
            p > 0,
    ;
    assert(m * p < pow2(53) * p) by (nonlinear_arith)
        requires
            m < pow2(53),
            p > 0,
    ;
    assert(pow2(52) * p >= p) by (nonlinear_arith)
        requires
            pow2(52) >= 1,
            p > 0,
    ;
    let n = (m * p - y) as nat;
    if m > pow2(52) {
        assert(m * p == (m - 1) * p + p) by (nonlinear_arith);
        assert(pow2(52) * p <= (m - 1) * p) by (nonlinear_arith)
            requires
                pow2(52) <= m - 1,
                p > 0,
        ;
        lemma_bit_length_unique(n, 53 + g);
        lemma_fundamental_div_mod_converse(n as int, p as int, m - 1, p - y);
        assert(dropped_bits(n, s as int) == g);
        assert(kept_significand(n, s as int) == m);
    } else {
        // The difference has one bit less, and one more bit is kept.
        assert(m * p == pow2(53) * half) by (nonlinear_arith)
            requires
                m == pow2(52),
                pow2(53) == 2 * pow2(52),
                p == 2 * half,
        ;
        assert(pow2(53) * half == (pow2(53) - 1) * half + half) by (nonlinear_arith);
        assert(pow2(51) * p == pow2(52) * half) by (nonlinear_arith)
            requires
                pow2(52) == 2 * pow2(51),
                p == 2 * half,
        ;
        assert(pow2(52) * half <= (pow2(53) - 1) * half) by (nonlinear_arith)
            requires
                pow2(52) <= pow2(53) - 1,
                half > 0,
        ;
        lemma_pow2_adds(52, (g - 1) as nat);
        lemma_bit_length_unique(n, 52 + g);
        lemma_fundamental_div_mod_converse(n as int, half as int, pow2(53) - 1, half - y);
        assert(dropped_bits(n, s as int) == g - 1);
        assert((pow2(53) - 1) % 2 == 1);
        assert(kept_significand(n, s as int) == pow2(53));
    }
}

/// Adds two finite values, the first of which has the scale that is not
/// smaller.
fn plus_ordered(hi: u64, lo: u64) -> (r: u64)
    requires
        is_finite(hi),
        is_finite(lo),
        scale(hi) >= scale(lo),
    ensures
        r == sum(hi, lo),
{
    let s_hi: u64 = scale_of(hi);
    let s_lo: u64 = scale_of(lo);
    let m_hi: u64 = significand_of(hi);
    let m_lo: u64 = significand_of(lo);
    let neg_hi: bool = sign_of(hi);
    let neg_lo: bool = sign_of(lo);
    let gap: u64 = s_hi - s_lo;
    proof {
        lemma2_to64();
        lemma2_to64_rest();
        assert(common_scale(hi, lo) == s_lo);
        assert(magnitude(hi) == s_hi * HIDDEN_BIT + m_hi);
    }
    if gap > 64 {
        proof {
            // A scale above zero belongs to a normal value.
            assert(m_hi >= HIDDEN_BIT);
            let total = exact_total(hi, lo);
            let wide = m_hi as nat * pow2(gap as nat);
            if neg_hi == neg_lo || m_lo == 0 {
                lemma_absorbs_added(m_hi as nat, m_lo as nat, gap as nat, s_lo as nat);
                assert(total == if neg_hi { -(wide + m_lo) } else { wide + m_lo }) by (nonlinear_arith)
                    requires
                        total == signed_significand(hi) * pow2(gap as nat) + signed_significand(
                            lo,
                        ) * pow2(0),
                        pow2(0) == 1,
                        wide == m_hi * pow2(gap as nat),
                        signed_significand(hi) == if neg_hi { -(m_hi as int) } else { m_hi as int },
                        signed_significand(lo) == if neg_hi { -(m_lo as int) } else { m_lo as int },
                ;
            } else {
                lemma_absorbs_subtracted(m_hi as nat, m_lo as nat, gap as nat, s_lo as nat);
                assert(total == if neg_hi { -(wide - m_lo) } else { wide - m_lo }) by (nonlinear_arith)
                    requires
                        total == signed_significand(hi) * pow2(gap as nat) + signed_significand(
                            lo,
                        ) * pow2(0),
                        pow2(0) == 1,
                        wide == m_hi * pow2(gap as nat),
                        signed_significand(hi) == if neg_hi { -(m_hi as int) } else { m_hi as int },
                        signed_significand(lo) == if neg_hi { m_lo as int } else { -(m_lo as int) },
                ;
            }
        }
        return hi;
    }
    let p: u128 = power_of_two(gap as u32);
    proof {
        lemma_pow2_increases(gap as nat, 64);
        assert(m_hi * p <= 0x20_0000_0000_0000 * 0x1_0000_0000_0000_0000) by (nonlinear_arith)
            requires
                m_hi <= 0x20_0000_0000_0000,
                p <= 0x1_0000_0000_0000_0000,
        ;
    }
    let wide: u128 = m_hi as u128 * p;
    let low: u128 = m_lo as u128;
    proof {
        let total = exact_total(hi, lo);
        assert(total == signed_significand(hi) * pow2(gap as nat) + signed_significand(lo) * pow2(
            0,
        ));
        assert(signed_significand(lo) * pow2(0) == signed_significand(lo)) by (nonlinear_arith)
            requires
                pow2(0) == 1,
        ;
        if neg_hi {
            assert(signed_significand(hi) * pow2(gap as nat) == -(wide as int)) by (nonlinear_arith)
                requires
                    signed_significand(hi) == -(m_hi as int),
                    wide == m_hi * pow2(gap as nat),
            ;
        } else {
            assert(signed_significand(hi) * pow2(gap as nat) == wide as int);
        }
    }
    if neg_hi == neg_lo {
        let total: u128 = wide + low;
        if total == 0 {
            apply_sign(neg_hi, 0)
        } else {
            apply_sign(neg_hi, round_pack(total, s_lo as i64))
        }
    } else if wide == low {
        0
    } else if wide > low {
        apply_sign(neg_hi, round_pack(wide - low, s_lo as i64))
    } else {
        apply_sign(neg_lo, round_pack(low - wide, s_lo as i64))
    }
}

/// Adds two binary64 values.
pub fn plus(a: u64, b: u64) -> (r: u64)
    ensures
        r == sum(a, b),
{
    if check_nan(a) || check_nan(b) {
        return NAN;
    }
    if check_infinite(a) {
        if check_infinite(b) && sign_of(a) != sign_of(b) {
            return NAN;
        }
        return a;
    }
    if check_infinite(b) {
        return b;
    }
    if scale_of(a) >= scale_of(b) {
        plus_ordered(a, b)
    } else {
        proof {
            lemma_sum_commutes(a, b);
        }
        plus_ordered(b, a)
    }
}

/// Subtracts `b` from `a`.
pub fn minus(a: u64, b: u64) -> (r: u64)
    ensures
        r == difference(a, b),
{
    plus(a, negate(b))
}

} // verus!
