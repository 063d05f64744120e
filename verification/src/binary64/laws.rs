//! What holds of the arithmetic for all operands.

use crate::binary64::addition::{common_scale, difference, exact_total, lemma_sum_commutes, sum};
use crate::binary64::conversion::from_integer;
use crate::binary64::multiplication::product;
use crate::binary64::power::{bit_length, lemma_bit_length_bounds, lemma_bit_length_unique};
use crate::binary64::rounding::{dropped_bits, kept_significand, round_half_even, rounded};
use crate::binary64::{
    is_finite, is_nan, is_negative, is_zero, magnitude, negated, scale, signed_significand,
    significand, units, with_sign, ONE, ZERO,
};
use vstd::arithmetic::div_mod::lemma_fundamental_div_mod_converse;
use vstd::arithmetic::power2::{
    lemma2_to64, lemma2_to64_rest, lemma_pow2_adds, lemma_pow2_pos, lemma_pow2_strictly_increases,
    pow2,
};
use vstd::prelude::*;

verus! {

/// A magnitude is its scale field times `2^52` plus its significand.
pub proof fn lemma_magnitude_parts(x: u64)
    ensures
        magnitude(x) == scale(x) * pow2(52) + significand(x),
        significand(x) < pow2(53),
        scale(x) > 0 ==> significand(x) >= pow2(52),
        is_finite(x) ==> scale(x) <= 2045,
{
    lemma2_to64_rest();
}

/// Shifting a positive number left by `e` places adds `e` to its bit
/// length.
pub proof fn lemma_bit_length_shift(n: nat, e: nat)
    requires
        n > 0,
    ensures
        bit_length(n * pow2(e)) == bit_length(n) + e,
{
    let len = bit_length(n);
    let p = pow2(e);
    lemma_bit_length_bounds(n);
    lemma_pow2_pos(e);
    lemma_pow2_adds((len - 1) as nat, e);
    lemma_pow2_adds(len, e);
    assert(pow2((len - 1) as nat) * p <= n * p) by (nonlinear_arith)
        requires
            pow2((len - 1) as nat) <= n,
            p > 0,
    ;
    assert(n * p < pow2(len) * p) by (nonlinear_arith)
        requires
            n < pow2(len),
            p > 0,
    ;
    lemma_bit_length_unique(n * p, len + e);
}

/// A number below `2^k` has at most `k` bits.
pub proof fn lemma_bit_length_below(n: nat, k: nat)
    requires
        n < pow2(k),
    ensures
        bit_length(n) <= k,
{
    if n > 0 {
        lemma_bit_length_bounds(n);
        let len = bit_length(n);
        if len > k {
            if k < len - 1 {
                lemma_pow2_strictly_increases(k, (len - 1) as nat);
            }
        }
    }
}

/// Rounding is exact on what can be written exactly: where `n · 2^e` units
/// is the magnitude of a finite value, rounding gives that value. The
/// exponent may be negative; both sides are counted in parts of `2^-f` of a
/// unit, which makes them whole.
pub proof fn lemma_rounded_representable(x: u64, n: nat, e: int, f: nat)
    requires
        is_finite(x),
        n > 0,
        e + f >= 0,
        n * pow2((e + f) as nat) == units(x) * pow2(f),
    ensures
        rounded(n, e) == magnitude(x),
{
    let m = significand(x);
    let s = scale(x);
    let g = (e + f) as nat;
    let pg = pow2(g);
    let psf = pow2(s + f);
    lemma_magnitude_parts(x);
    lemma2_to64();
    lemma2_to64_rest();
    lemma_pow2_pos(g);
    lemma_pow2_pos(s + f);
    lemma_pow2_pos(f);
    lemma_pow2_adds(s, f);
    assert(n * pg == m * psf) by (nonlinear_arith)
        requires
            n * pg == (m * pow2(s)) * pow2(f),
            psf == pow2(s) * pow2(f),
    ;
    assert(m > 0) by (nonlinear_arith)
        requires
            n * pg == m * psf,
            n > 0,
            pg > 0,
    ;
    lemma_bit_length_shift(n, g);
    lemma_bit_length_shift(m, s + f);
    assert(bit_length(n) + e == bit_length(m) + s);
    if s == 0 {
        lemma_bit_length_below(m, 53);
        assert(dropped_bits(n, e) == -e);
        if e >= 0 {
            let pe = pow2(e as nat);
            lemma_pow2_adds(e as nat, f);
            assert(n * pe == m) by (nonlinear_arith)
                requires
                    n * pg == m * psf,
                    pg == pe * psf,
                    psf > 0,
            ;
        } else {
            let pd = pow2((-e) as nat);
            lemma_pow2_adds((-e) as nat, g);
            lemma_pow2_pos((-e) as nat);
            assert(n == m * pd) by (nonlinear_arith)
                requires
                    n * pg == m * psf,
                    psf == pd * pg,
                    pg > 0,
            ;
            lemma_fundamental_div_mod_converse(n as int, pd as int, m as int, 0);
            assert(round_half_even(n, (-e) as nat) == m);
        }
        assert(kept_significand(n, e) == m);
    } else {
        lemma_bit_length_unique(m, 53);
        assert(dropped_bits(n, e) == s - e);
        if s <= e {
            let pd = pow2((e - s) as nat);
            lemma_pow2_adds((e - s) as nat, s + f);
            assert(n * pd == m) by (nonlinear_arith)
                requires
                    n * pg == m * psf,
                    pg == pd * psf,
                    psf > 0,
            ;
        } else {
            let pd = pow2((s - e) as nat);
            lemma_pow2_adds((s - e) as nat, g);
            lemma_pow2_pos((s - e) as nat);
            assert(n == m * pd) by (nonlinear_arith)
                requires
                    n * pg == m * psf,
                    psf == pd * pg,
                    pg > 0,
            ;
            lemma_fundamental_div_mod_converse(n as int, pd as int, m as int, 0);
            assert(round_half_even(n, (s - e) as nat) == m);
        }
        assert(kept_significand(n, e) == m);
    }
}

/// Multiplication does not depend on the order of its operands.
pub proof fn lemma_product_commutes(a: u64, b: u64)
    ensures
        product(a, b) == product(b, a),
{
    assert(significand(a) * significand(b) == significand(b) * significand(a)) by (nonlinear_arith);
}

/// One is neutral in multiplication: a value that is no NaN, times `1.0`,
/// is the value.
pub proof fn lemma_product_with_one(x: u64)
    requires
        !is_nan(x),
    ensures
        product(x, ONE) == x,
{
    lemma2_to64();
    lemma2_to64_rest();
    assert(significand(ONE) == pow2(52) && scale(ONE) == 1022);
    assert(!is_negative(ONE) && !is_zero(ONE) && is_finite(ONE));
    if is_finite(x) {
        let m = significand(x);
        let s = scale(x);
        let n = m * pow2(52);
        if m == 0 {
            lemma_magnitude_parts(x);
            assert(n == 0) by (nonlinear_arith)
                requires
                    n == m * pow2(52),
                    m == 0,
            ;
            assert(magnitude(x) == 0) by (nonlinear_arith)
                requires
                    magnitude(x) == s * pow2(52) + m,
                    m == 0,
                    s > 0 ==> m >= pow2(52),
                    pow2(52) > 0,
            ;
        } else {
            assert(n > 0) by (nonlinear_arith)
                requires
                    n == m * pow2(52),
                    m > 0,
                    pow2(52) > 0,
            ;
            assert(n * pow2(s) == units(x) * pow2(52)) by (nonlinear_arith)
                requires
                    n == m * pow2(52),
                    units(x) == m * pow2(s),
            ;
            lemma_rounded_representable(x, n, s - 52, 52);
        }
    }
}

/// A finite value times `+0.0` is the zero of its own sign.
pub proof fn lemma_product_with_zero(x: u64)
    requires
        is_finite(x),
    ensures
        product(x, ZERO) == with_sign(is_negative(x), 0),
{
    assert(significand(x) * significand(ZERO) == 0) by (nonlinear_arith)
        requires
            significand(ZERO) == 0,
    ;
}

/// Adding a zero leaves a finite value as it is, unless the value is a
/// zero of the other sign.
pub proof fn lemma_sum_with_zero(x: u64, negative: bool)
    requires
        is_finite(x),
        !is_zero(x) || negative == is_negative(x),
    ensures
        sum(x, with_sign(negative, 0)) == x,
{
    let z = with_sign(negative, 0);
    let m = significand(x);
    let s = scale(x);
    lemma2_to64();
    lemma_magnitude_parts(x);
    assert(magnitude(z) == 0);
    assert(is_negative(z) == negative);
    assert(scale(z) == 0 && significand(z) == 0);
    assert(common_scale(x, z) == 0);
    assert(signed_significand(z) * pow2(0) == 0) by (nonlinear_arith)
        requires
            signed_significand(z) == 0,
    ;
    let total = exact_total(x, z);
    assert(total == signed_significand(x) * pow2(s));
    lemma_pow2_pos(s);
    if m == 0 {
        assert(total == 0) by (nonlinear_arith)
            requires
                total == signed_significand(x) * pow2(s),
                signed_significand(x) == 0,
        ;
        assert(magnitude(x) == 0);
    } else {
        let u = units(x);
        assert(u > 0) by (nonlinear_arith)
            requires
                u == m * pow2(s),
                m > 0,
                pow2(s) > 0,
        ;
        lemma_rounded_representable(x, u, 0, 0);
        if is_negative(x) {
            assert(total == -(u as int)) by (nonlinear_arith)
                requires
                    total == signed_significand(x) * pow2(s),
                    signed_significand(x) == -(m as int),
                    u == m * pow2(s),
            ;
        } else {
            assert(total == u as int);
        }
    }
}

/// Two zeros add up to a zero, which is negative only where both are.
pub proof fn lemma_sum_of_zeros(first: bool, second: bool)
    ensures
        sum(with_sign(first, 0), with_sign(second, 0)) == with_sign(first && second, 0),
{
    let a = with_sign(first, 0);
    let b = with_sign(second, 0);
    assert(magnitude(a) == 0 && magnitude(b) == 0);
    assert(scale(a) == 0 && significand(a) == 0);
    assert(scale(b) == 0 && significand(b) == 0);
    lemma2_to64();
    assert(exact_total(a, b) == 0) by (nonlinear_arith)
        requires
            exact_total(a, b) == 0 * pow2(0) + 0 * pow2(0),
    ;
}

/// `+0.0` plus a value is the value, unless the value is a NaN or `-0.0`.
pub proof fn lemma_zero_plus(x: u64)
    requires
        !is_nan(x),
        x != with_sign(true, 0),
    ensures
        sum(ZERO, x) == x,
{
    assert(ZERO == with_sign(false, 0));
    if is_finite(x) {
        lemma_sum_commutes(ZERO, x);
        if is_zero(x) {
            assert(x == ZERO);
            lemma_sum_of_zeros(false, false);
        } else {
            lemma_sum_with_zero(x, false);
        }
    }
}

/// The count one is `1.0`.
pub proof fn lemma_count_one()
    ensures
        from_integer(1) == ONE,
{
    lemma2_to64();
    lemma2_to64_rest();
    lemma_bit_length_unique(1, 1);
    assert(dropped_bits(1, 1074) == -52);
    assert(1 * pow2(52) == pow2(52)) by (nonlinear_arith);
    assert(kept_significand(1, 1074) == pow2(52));
    assert((1074 + -52) * pow2(52) + pow2(52) == 0x3ff0_0000_0000_0000) by (nonlinear_arith)
        requires
            pow2(52) == 0x10_0000_0000_0000,
    ;
}

/// A finite value minus itself is `+0.0`.
pub proof fn lemma_difference_with_itself(x: u64)
    requires
        is_finite(x),
    ensures
        difference(x, x) == ZERO,
{
    let y = negated(x);
    assert(magnitude(y) == magnitude(x));
    assert(scale(y) == scale(x) && significand(y) == significand(x));
    assert(common_scale(x, y) == scale(x));
    assert(signed_significand(y) == -signed_significand(x));
    lemma2_to64();
    assert(exact_total(x, y) == 0) by (nonlinear_arith)
        requires
            exact_total(x, y) == signed_significand(x) * pow2(0) + signed_significand(y) * pow2(0),
            signed_significand(y) == -signed_significand(x),
    ;
}

/// Shifting a finite value by what `+0.0` minus the value is gives `+0.0`.
pub proof fn lemma_centered_on_itself(x: u64)
    requires
        is_finite(x),
    ensures
        sum(x, difference(ZERO, x)) == ZERO,
{
    let y = negated(x);
    assert(magnitude(y) == magnitude(x));
    lemma_sum_commutes(ZERO, y);
    if is_zero(x) {
        assert(x == with_sign(is_negative(x), 0));
        assert(y == with_sign(!is_negative(x), 0));
        assert(ZERO == with_sign(false, 0));
        lemma_sum_of_zeros(false, !is_negative(x));
        lemma_sum_of_zeros(is_negative(x), false);
    } else {
        assert(ZERO == with_sign(false, 0));
        lemma_sum_with_zero(y, false);
        assert(difference(ZERO, x) == y);
        lemma_difference_with_itself(x);
    }
}

/// A finite value plus `+0.0` times itself is the value again.
pub proof fn lemma_sum_with_zero_multiple(x: u64)
    requires
        is_finite(x),
    ensures
        sum(x, product(x, ZERO)) == x,
{
    lemma_product_with_zero(x);
    lemma_sum_with_zero(x, is_negative(x));
}

/// A product that is no NaN has the sign that its operands give it.
pub proof fn lemma_product_sign(a: u64, b: u64)
    requires
        !is_nan(product(a, b)),
    ensures
        is_negative(product(a, b)) == (is_negative(a) != is_negative(b)),
{
}

} // verus!
