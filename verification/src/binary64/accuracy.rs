//! How far a rounded result lies from the exact one.

use crate::binary64::addition::{common_scale, difference, exact_total, sum};
use crate::binary64::conversion::from_integer;
use crate::binary64::division::{normalizing_shift, quotient, sticky_quotient};
use crate::binary64::laws::{lemma_bit_length_below, lemma_bit_length_shift, lemma_magnitude_parts};
use crate::binary64::multiplication::product;
use crate::binary64::power::{
    bit_length, lemma_bit_length_bounds, lemma_bit_length_unique, lemma_pow2_increases,
};
use crate::binary64::root::{
    half_scale, integer_root, lemma_integer_root_exists, radicand, radicand_scale,
    significand_root, square_root,
};
use crate::binary64::rounding::{
    dropped_bits, kept_significand, lemma_quotient_below, round_half_even, rounded,
};
use crate::binary64::{
    is_finite, is_negative, is_zero, magnitude, negated, scale, signed_significand, significand,
    units, with_sign, INFINITY,
};
use vstd::arithmetic::div_mod::{lemma_fundamental_div_mod, lemma_mod_bound};
use vstd::arithmetic::power2::{
    lemma2_to64, lemma2_to64_rest, lemma_pow2_adds, lemma_pow2_pos, lemma_pow2_unfold, pow2,
};
use vstd::prelude::*;

verus! {

/// The value of a finite pattern as a signed whole number of units of
/// `2^-1074`.
pub open spec fn signed_units(x: u64) -> int {
    if is_negative(x) {
        -(units(x) as int)
    } else {
        units(x) as int
    }
}

/// The distance of two whole numbers.
pub open spec fn distance(a: int, b: int) -> nat {
    if a >= b {
        (a - b) as nat
    } else {
        (b - a) as nat
    }
}

/// A scale field `s` and a significand `k` that were added into a finite
/// magnitude stand for `k · 2^s` units, also where `k` is the `2^53` that
/// carries into the scale.
pub proof fn lemma_units_of_packed(s: nat, k: nat)
    requires
        k <= pow2(53),
        s == 0 || k >= pow2(52),
        s * pow2(52) + k < INFINITY,
    ensures
        units((s * pow2(52) + k) as u64) == k * pow2(s),
        s <= scale((s * pow2(52) + k) as u64) <= s + 1,
        magnitude((s * pow2(52) + k) as u64) == s * pow2(52) + k,
{
    lemma2_to64();
    lemma2_to64_rest();
    let raw = (s * pow2(52) + k) as u64;
    assert(magnitude(raw) == raw);
    if k < pow2(52) {
        assert(raw == k);
        assert(scale(raw) == 0 && significand(raw) == k);
    } else if k < pow2(53) {
        assert(raw / 0x10_0000_0000_0000 == s + 1);
        assert(raw % 0x10_0000_0000_0000 == k - 0x10_0000_0000_0000);
        assert(scale(raw) == s && significand(raw) == k);
    } else {
        assert(raw / 0x10_0000_0000_0000 == s + 2);
        assert(raw % 0x10_0000_0000_0000 == 0);
        assert(scale(raw) == s + 1 && significand(raw) == pow2(52));
        lemma_pow2_unfold(s + 1);
        assert(pow2(52) * pow2(s + 1) == k * pow2(s)) by (nonlinear_arith)
            requires
                pow2(s + 1) == 2 * pow2(s),
                k == 2 * pow2(52),
        ;
    }
}

/// Rounding to nearest moves a number by at most half of the last place
/// that is kept.
pub proof fn lemma_round_half_even_error(n: nat, k: nat)
    ensures
        2 * distance((round_half_even(n, k) * pow2(k)) as int, n as int) <= pow2(k),
        n / pow2(k) <= round_half_even(n, k) <= n / pow2(k) + 1,
{
    let p = pow2(k) as int;
    lemma_pow2_pos(k);
    let q = (n as int) / p;
    let r = (n as int) % p;
    lemma_fundamental_div_mod(n as int, p);
    lemma_mod_bound(n as int, p);
    assert((q + 1) * p == q * p + p) by (nonlinear_arith);
    assert(p * q == q * p) by (nonlinear_arith);
}

/// The result of rounding `n · 2^e` units, where it is finite, stands for
/// the kept significand at the scale that is left after the dropped bits.
pub proof fn lemma_rounded_units(n: nat, e: int)
    requires
        n > 0,
        rounded(n, e) < INFINITY,
    ensures
        e + dropped_bits(n, e) >= 0,
        units(rounded(n, e)) == kept_significand(n, e) * pow2((e + dropped_bits(n, e)) as nat),
        scale(rounded(n, e)) >= e + dropped_bits(n, e),
{
    let len = bit_length(n);
    let d = dropped_bits(n, e);
    let s = (e + d) as nat;
    let k = kept_significand(n, e);
    lemma2_to64();
    lemma2_to64_rest();
    lemma_bit_length_bounds(n);
    if d <= 0 {
        let shift = (-d) as nat;
        let p = pow2(shift);
        lemma_pow2_pos(shift);
        lemma_pow2_adds((len - 1) as nat, shift);
        lemma_pow2_adds(len, shift);
        lemma_pow2_increases(len + shift, 53);
        assert(n * p < pow2(len) * p) by (nonlinear_arith)
            requires
                n < pow2(len),
                p > 0,
        ;
        assert(pow2((len - 1) as nat) * p <= n * p) by (nonlinear_arith)
            requires
                pow2((len - 1) as nat) <= n,
                p > 0,
        ;
        if s > 0 {
            // Bits were dropped for length only: the significand is full.
            assert(len - 1 + shift == 52);
        }
    } else {
        let p = pow2(d as nat);
        lemma_pow2_pos(d as nat);
        lemma_pow2_increases(len, (53 + d) as nat);
        lemma_quotient_below(n, 53, d as nat);
        lemma_round_half_even_error(n, d as nat);
        if s > 0 {
            assert(d == len - 53);
            lemma_pow2_adds(52, d as nat);
            assert(n / p >= pow2(52)) by (nonlinear_arith)
                requires
                    n >= pow2(52) * p,
                    p > 0,
            ;
        }
    }
    lemma_units_of_packed(s, k);
}

/// Where bits are dropped, the kept significand times the weight of the
/// dropped bits lies within half that weight of the exact significand;
/// where none are dropped it is exact.
pub proof fn lemma_kept_is_nearest(n: nat, e: int)
    requires
        n > 0,
    ensures
        dropped_bits(n, e) <= 0 ==> kept_significand(n, e) == n * pow2(
            (-dropped_bits(n, e)) as nat,
        ),
        dropped_bits(n, e) > 0 ==> 2 * distance(
            (kept_significand(n, e) * pow2(dropped_bits(n, e) as nat)) as int,
            n as int,
        ) <= pow2(dropped_bits(n, e) as nat),
{
    let d = dropped_bits(n, e);
    if d > 0 {
        lemma_round_half_even_error(n, d as nat);
    }
}

/// A finite result of rounding a whole number of units lies within half a
/// unit in its last place of that number.
pub proof fn lemma_rounded_error(n: nat, e: nat)
    requires
        n > 0,
        rounded(n, e as int) < INFINITY,
    ensures
        2 * distance(units(rounded(n, e as int)) as int, (n * pow2(e)) as int) <= pow2(
            scale(rounded(n, e as int)),
        ),
{
    let r = rounded(n, e as int);
    let d = dropped_bits(n, e as int);
    let k = kept_significand(n, e as int);
    let pe = pow2(e);
    lemma_rounded_units(n, e as int);
    lemma_kept_is_nearest(n, e as int);
    lemma_pow2_pos(e);
    lemma_pow2_pos(scale(r));
    if d <= 0 {
        let shift = (-d) as nat;
        lemma_pow2_adds(shift, (e + d) as nat);
        assert(k * pow2((e + d) as nat) == n * pe) by (nonlinear_arith)
            requires
                k == n * pow2(shift),
                pe == pow2(shift) * pow2((e + d) as nat),
        ;
    } else {
        let pd = pow2(d as nat);
        lemma_pow2_adds(d as nat, e);
        lemma_pow2_increases((e + d) as nat, scale(r));
        let exact = n * pe;
        let got = k * pow2((e + d) as nat);
        assert(got == (k * pd) * pe) by (nonlinear_arith)
            requires
                got == k * pow2((e + d) as nat),
                pow2((e + d) as nat) == pd * pe,
        ;
        assert(2 * distance(got as int, exact as int) <= pd * pe) by (nonlinear_arith)
            requires
                got == (k * pd) * pe,
                exact == n * pe,
                2 * distance((k * pd) as int, n as int) <= pd,
                pe > 0,
        ;
    }
}

/// The same with the exponent counted from any place at or below the
/// units: a finite result of rounding `n · 2^e` units, taken in parts of
/// `2^-f` of a unit, lies within half a unit in its last place of
/// `n · 2^(e + f)`.
pub proof fn lemma_rounded_error_scaled(n: nat, e: int, f: nat)
    requires
        n > 0,
        e + f >= 0,
        rounded(n, e) < INFINITY,
    ensures
        2 * distance(
            (units(rounded(n, e)) * pow2(f)) as int,
            (n * pow2((e + f) as nat)) as int,
        ) <= pow2(scale(rounded(n, e))) * pow2(f),
{
    let r = rounded(n, e);
    let d = dropped_bits(n, e);
    let k = kept_significand(n, e);
    let s = (e + d) as nat;
    let pf = pow2(f);
    let target = pow2((e + f) as nat);
    lemma_rounded_units(n, e);
    lemma_kept_is_nearest(n, e);
    lemma_pow2_pos(f);
    lemma_pow2_pos(s);
    lemma_pow2_pos(scale(r));
    lemma_pow2_pos((e + f) as nat);
    lemma_pow2_increases(s, scale(r));
    lemma_pow2_adds(s, f);
    assert(pow2(s) * pf <= pow2(scale(r)) * pf) by (nonlinear_arith)
        requires
            pow2(s) <= pow2(scale(r)),
            pf > 0,
    ;
    let got = units(r) * pf;
    assert(got == k * (pow2(s) * pf)) by (nonlinear_arith)
        requires
            got == (k * pow2(s)) * pf,
    ;
    if d <= 0 {
        let shift = (-d) as nat;
        lemma_pow2_adds(shift, s + f);
        assert(s + f + shift == e + f);
        assert(got == n * target) by (nonlinear_arith)
            requires
                got == k * (pow2(s) * pf),
                k == n * pow2(shift),
                pow2(s + f) == pow2(s) * pf,
                target == pow2(shift) * pow2(s + f),
        ;
    } else {
        let pd = pow2(d as nat);
        lemma_pow2_pos(d as nat);
        lemma_pow2_adds(d as nat, (e + f) as nat);
        assert(s + f == d + (e + f));
        assert(got == (k * pd) * target) by (nonlinear_arith)
            requires
                got == k * (pow2(s) * pf),
                pow2(s + f) == pow2(s) * pf,
                pow2(s + f) == pd * target,
        ;
        assert(2 * distance(got as int, (n * target) as int) <= pd * target) by (nonlinear_arith)
            requires
                got == (k * pd) * target,
                2 * distance((k * pd) as int, n as int) <= pd,
                target > 0,
        ;
    }
}

/// The sign does not change what a magnitude stands for.
pub proof fn lemma_with_sign_parts(negative: bool, m: u64)
    requires
        m <= INFINITY,
    ensures
        magnitude(with_sign(negative, m)) == m,
        scale(with_sign(negative, m)) == scale(m),
        significand(with_sign(negative, m)) == significand(m),
        units(with_sign(negative, m)) == units(m),
        is_negative(with_sign(negative, m)) == negative,
        magnitude(m) == m,
{
}

/// The exact total of a sum, scaled back to units, is the sum of the two
/// values.
pub proof fn lemma_exact_total_units(a: u64, b: u64)
    ensures
        exact_total(a, b) * pow2(common_scale(a, b)) == signed_units(a) + signed_units(b),
{
    let c = common_scale(a, b);
    let pc = pow2(c) as int;
    let ga = (scale(a) - c) as nat;
    let gb = (scale(b) - c) as nat;
    lemma_pow2_adds(ga, c);
    lemma_pow2_adds(gb, c);
    let sa = signed_significand(a);
    let sb = signed_significand(b);
    assert((sa * pow2(ga) + sb * pow2(gb)) * pc == sa * (pow2(ga) * pc) + sb * (pow2(gb) * pc))
        by (nonlinear_arith);
    assert(sa * pow2(scale(a)) == signed_units(a)) by (nonlinear_arith)
        requires
            signed_units(a) == if is_negative(a) {
                -(significand(a) * pow2(scale(a)))
            } else {
                (significand(a) * pow2(scale(a))) as int
            },
            sa == if is_negative(a) {
                -(significand(a) as int)
            } else {
                significand(a) as int
            },
    ;
    assert(sb * pow2(scale(b)) == signed_units(b)) by (nonlinear_arith)
        requires
            signed_units(b) == if is_negative(b) {
                -(significand(b) * pow2(scale(b)))
            } else {
                (significand(b) * pow2(scale(b))) as int
            },
            sb == if is_negative(b) {
                -(significand(b) as int)
            } else {
                significand(b) as int
            },
    ;
}

/// A finite sum of two finite values lies within half a unit in its last
/// place of their exact sum.
pub proof fn lemma_sum_is_nearest(a: u64, b: u64)
    requires
        is_finite(a),
        is_finite(b),
        is_finite(sum(a, b)),
    ensures
        2 * distance(signed_units(sum(a, b)), signed_units(a) + signed_units(b)) <= pow2(
            scale(sum(a, b)),
        ),
{
    let c = common_scale(a, b);
    let total = exact_total(a, b);
    let r = sum(a, b);
    lemma_exact_total_units(a, b);
    lemma_pow2_pos(scale(r));
    lemma2_to64();
    if total == 0 {
        assert(total * pow2(c) == 0) by (nonlinear_arith)
            requires
                total == 0,
        ;
        lemma_with_sign_parts(is_negative(a) && is_negative(b), 0);
        assert(units(r) == 0) by (nonlinear_arith)
            requires
                units(r) == significand(r) * pow2(scale(r)),
                significand(r) == 0,
        ;
    } else if total < 0 {
        let n = (-total) as nat;
        let m = rounded(n, c as int);
        lemma_with_sign_parts(true, m);
        lemma_rounded_error(n, c);
        assert(n * pow2(c) == -(total * pow2(c))) by (nonlinear_arith)
            requires
                n == -total,
        ;
    } else {
        let n = total as nat;
        let m = rounded(n, c as int);
        lemma_with_sign_parts(false, m);
        lemma_rounded_error(n, c);
    }
}

/// Flipping the sign flips the value.
pub proof fn lemma_negated_units(x: u64)
    requires
        is_finite(x),
    ensures
        is_finite(negated(x)),
        scale(negated(x)) == scale(x),
        units(negated(x)) == units(x),
        units(x) > 0 ==> signed_units(negated(x)) == -signed_units(x),
        units(x) == 0 ==> signed_units(negated(x)) == 0 && signed_units(x) == 0,
{
    lemma_with_sign_parts(!is_negative(x), magnitude(x));
}

/// Adding `b` and taking it away again gives `a` back up to the two
/// roundings: the result lies within half a unit in the last place of the
/// sum, plus half a unit in its own last place, of `a`.
pub proof fn lemma_add_then_subtract_value(a: u64, b: u64)
    requires
        is_finite(a),
        is_finite(b),
        is_finite(sum(a, b)),
        is_finite(difference(sum(a, b), b)),
    ensures
        2 * distance(signed_units(difference(sum(a, b), b)), signed_units(a)) <= pow2(
            scale(sum(a, b)),
        ) + pow2(scale(difference(sum(a, b), b))),
{
    let r = sum(a, b);
    let t = difference(r, b);
    lemma_sum_is_nearest(a, b);
    lemma_negated_units(b);
    lemma_sum_is_nearest(r, negated(b));
}

/// A finite product of two finite values lies within half a unit in its
/// last place of their exact product. The exact product of `units(a)` and
/// `units(b)` counts parts of `2^-1074` of a unit.
pub proof fn lemma_product_is_nearest(a: u64, b: u64)
    requires
        is_finite(a),
        is_finite(b),
        is_finite(product(a, b)),
    ensures
        2 * distance((units(product(a, b)) * pow2(1074)) as int, (units(a) * units(b)) as int)
            <= pow2(scale(product(a, b))) * pow2(1074),
{
    let n = significand(a) * significand(b);
    let e = scale(a) + scale(b) - 1074;
    let m = rounded(n, e);
    let r = product(a, b);
    lemma_with_sign_parts(is_negative(a) != is_negative(b), m);
    lemma_pow2_pos(scale(r));
    lemma_pow2_pos(1074);
    lemma_pow2_adds(scale(a), scale(b));
    assert(units(a) * units(b) == n * pow2(scale(a) + scale(b))) by (nonlinear_arith)
        requires
            units(a) == significand(a) * pow2(scale(a)),
            units(b) == significand(b) * pow2(scale(b)),
            n == significand(a) * significand(b),
            pow2(scale(a) + scale(b)) == pow2(scale(a)) * pow2(scale(b)),
    ;
    if n == 0 {
        assert(units(r) == 0) by (nonlinear_arith)
            requires
                units(r) == significand(r) * pow2(scale(r)),
                significand(r) == 0,
        ;
        assert(units(r) * pow2(1074) == 0) by (nonlinear_arith)
            requires
                units(r) == 0,
        ;
        assert(n * pow2(scale(a) + scale(b)) == 0) by (nonlinear_arith)
            requires
                n == 0,
        ;
        assert(pow2(scale(r)) * pow2(1074) >= 0) by (nonlinear_arith)
            requires
                pow2(scale(r)) > 0,
                pow2(1074) > 0,
        ;
    } else {
        lemma_rounded_error_scaled(n, e, 1074);
    }
}

/// The binary64 of a count, where it is finite, lies within half a unit in
/// its last place of the count. A count of one is `2^1074` units.
pub proof fn lemma_count_is_nearest(n: nat)
    requires
        from_integer(n) < INFINITY,
    ensures
        2 * distance(units(from_integer(n)) as int, (n * pow2(1074)) as int) <= pow2(
            scale(from_integer(n)),
        ),
{
    lemma_pow2_pos(scale(from_integer(n)));
    if n == 0 {
        lemma2_to64();
        assert(units(0) == 0) by (nonlinear_arith)
            requires
                units(0) == significand(0) * pow2(scale(0)),
                significand(0) == 0,
        ;
        assert(n * pow2(1074) == 0) by (nonlinear_arith)
            requires
                n == 0,
        ;
    } else {
        lemma_rounded_error(n, 1074);
    }
}

/// Six factors, grouped in two ways.
proof fn lemma_regroup_six(a: int, b: int, c: int, d: int, e: int, f: int)
    by (nonlinear_arith)
    ensures
        ((a * b) * (c * d)) * (e * f) == (a * (c * f)) * (b * (d * e)),
{
}

/// Five factors, grouped in two ways.
proof fn lemma_regroup_five(a: int, b: int, c: int, d: int, e: int)
    by (nonlinear_arith)
    ensures
        (a * b) * (c * (d * e)) == ((a * c) * e) * (b * d),
{
}

/// Four factors, grouped in two ways.
proof fn lemma_regroup_four(a: int, b: int, c: int, d: int)
    by (nonlinear_arith)
    ensures
        (a * b * c) * d == (a * c) * (b * d),
{
}

/// The full significand of a finite value that is no zero: it has 53 bits,
/// and with its shift it stands for the same number of units.
pub proof fn lemma_full_significand(x: u64)
    requires
        is_finite(x),
        !is_zero(x),
    ensures
        significand(x) > 0,
        normalizing_shift(significand(x)) <= 52,
        pow2(52) <= significand(x) * pow2(normalizing_shift(significand(x))) < pow2(53),
{
    let m = significand(x);
    lemma_magnitude_parts(x);
    lemma2_to64_rest();
    lemma_bit_length_below(m, 53);
    lemma_bit_length_bounds(m);
    let z = normalizing_shift(m);
    lemma_bit_length_shift(m, z);
    lemma_pow2_pos(z);
    assert(m * pow2(z) > 0) by (nonlinear_arith)
        requires
            m > 0,
            pow2(z) > 0,
    ;
    lemma_bit_length_bounds(m * pow2(z));
}

/// A quotient that carries a sticky bit rounds as the exact quotient does:
/// where at least two bits are dropped, the kept significand lies within
/// half of the last kept place of twice `n / d`, although only the integer
/// quotient and the fact of a remainder went into the rounding.
pub proof fn lemma_sticky_quotient_is_nearest(n: nat, d: nat, k: nat)
    requires
        d > 0,
        k >= 2,
    ensures
        2 * distance(
            (round_half_even(sticky_quotient(n, d), k) * pow2(k) * d) as int,
            (2 * n) as int,
        ) <= pow2(k) * d,
{
    let q = n / d;
    let rem = n % d;
    let sig = sticky_quotient(n, d);
    let p = pow2(k);
    let kept = round_half_even(sig, k);
    lemma_fundamental_div_mod(n as int, d as int);
    lemma_mod_bound(n as int, d as int);
    lemma_pow2_pos(k);
    lemma_pow2_unfold(k);
    lemma_pow2_unfold((k - 1) as nat);
    lemma_pow2_pos((k - 2) as nat);
    let quarter = pow2((k - 2) as nat);
    assert(p == 4 * quarter);
    lemma_round_half_even_error(sig, k);
    let q0 = sig / p;
    let r0 = sig % p;
    lemma_fundamental_div_mod(sig as int, p as int);
    lemma_mod_bound(sig as int, p as int);
    assert(n == d * q + rem);
    if rem == 0 {
        assert(2 * n == sig * d) by (nonlinear_arith)
            requires
                n == d * q,
                sig == 2 * q,
        ;
        assert(2 * distance((kept * p * d) as int, (sig * d) as int) <= p * d)
            by (nonlinear_arith)
            requires
                2 * distance((kept * p) as int, sig as int) <= p,
                d > 0,
        ;
    } else {
        let delta = 2 * rem - d;
        assert(2 * n == sig * d + delta) by (nonlinear_arith)
            requires
                n == d * q + rem,
                sig == 2 * q + 1,
                delta == 2 * rem - d,
        ;
        // The significand is odd and the weight of the dropped bits is a
        // multiple of four, so that the dropped bits are odd too and no tie.
        let w = quarter * q0;
        assert(p * q0 == 4 * w) by (nonlinear_arith)
            requires
                p == 4 * quarter,
                w == quarter * q0,
        ;
        assert(r0 == 2 * (q - 2 * w) + 1);
        assert(r0 % 2 == 1);
        assert(2 * r0 != p);
        if 2 * r0 > p {
            assert(kept == q0 + 1);
            assert(r0 >= 2 * quarter + 1);
            assert(kept * p * d - 2 * n == (p - r0) * d - delta) by (nonlinear_arith)
                requires
                    kept == q0 + 1,
                    sig == p * q0 + r0,
                    2 * n == sig * d + delta,
            ;
            assert((p - r0) * d <= (2 * quarter - 1) * d) by (nonlinear_arith)
                requires
                    p - r0 <= 2 * quarter - 1,
                    d > 0,
            ;
            assert((p - r0) * d >= d) by (nonlinear_arith)
                requires
                    p - r0 >= 1,
                    d > 0,
            ;
            assert(p * d == 4 * quarter * d) by (nonlinear_arith)
                requires
                    p == 4 * quarter,
            ;
            assert((2 * quarter - 1) * d == 2 * quarter * d - d) by (nonlinear_arith);
            assert(2 * quarter * d == 2 * (quarter * d)) by (nonlinear_arith);
            assert(4 * quarter * d == 4 * (quarter * d)) by (nonlinear_arith);
        } else {
            assert(kept == q0);
            assert(1 <= r0 <= 2 * quarter - 1);
            assert(2 * n - kept * p * d == r0 * d + delta) by (nonlinear_arith)
                requires
                    kept == q0,
                    sig == p * q0 + r0,
                    2 * n == sig * d + delta,
            ;
            assert(r0 * d <= (2 * quarter - 1) * d) by (nonlinear_arith)
                requires
                    r0 <= 2 * quarter - 1,
                    d > 0,
            ;
            assert(r0 * d >= d) by (nonlinear_arith)
                requires
                    r0 >= 1,
                    d > 0,
            ;
            assert(p * d == 4 * quarter * d) by (nonlinear_arith)
                requires
                    p == 4 * quarter,
            ;
            assert((2 * quarter - 1) * d == 2 * quarter * d - d) by (nonlinear_arith);
            assert(2 * quarter * d == 2 * (quarter * d)) by (nonlinear_arith);
            assert(4 * quarter * d == 4 * (quarter * d)) by (nonlinear_arith);
        }
    }
}

/// A finite quotient of two finite values lies within half a unit in its
/// last place of their exact quotient. Both sides are multiplied by the
/// divisor, and the dividend counts parts of `2^-1074` of a unit.
pub proof fn lemma_quotient_is_nearest(a: u64, b: u64)
    requires
        is_finite(a),
        is_finite(b),
        is_finite(quotient(a, b)),
    ensures
        2 * distance(
            (units(quotient(a, b)) * units(b)) as int,
            (units(a) * pow2(1074)) as int,
        ) <= pow2(scale(quotient(a, b))) * units(b),
{
    let r = quotient(a, b);
    let ua = units(a);
    let ub = units(b);
    let t = pow2(1074);
    lemma2_to64();
    lemma2_to64_rest();
    lemma_pow2_pos(scale(r));
    lemma_pow2_pos(1074);
    lemma_pow2_pos(scale(b));
    lemma_pow2_pos(scale(a));
    assert(!is_zero(b));
    assert(pow2(scale(r)) * ub >= 0) by (nonlinear_arith)
        requires
            pow2(scale(r)) > 0,
            ub >= 0,
    ;
    if is_zero(a) {
        lemma_with_sign_parts(is_negative(a) != is_negative(b), 0);
        assert(units(r) * ub == 0) by (nonlinear_arith)
            requires
                units(r) == significand(r) * pow2(scale(r)),
                significand(r) == 0,
        ;
        assert(ua * t == 0) by (nonlinear_arith)
            requires
                ua == significand(a) * pow2(scale(a)),
                significand(a) == 0,
        ;
    } else {
        let ma = significand(a);
        let mb = significand(b);
        let sa = scale(a);
        let sb = scale(b);
        let za = normalizing_shift(ma);
        let zb = normalizing_shift(mb);
        lemma_full_significand(a);
        lemma_full_significand(b);
        let pa = pow2(za);
        let pb = pow2(zb);
        let na = ma * pa;
        let nb = mb * pb;
        let w = pow2(64);
        let n = na * w;
        let sig = sticky_quotient(n, nb);
        let e = (sa - za) - (sb - zb) + 1009;
        let m = rounded(sig, e);
        lemma_with_sign_parts(is_negative(a) != is_negative(b), m);
        assert(r == with_sign(is_negative(a) != is_negative(b), m));

        // The quotient has at least 64 bits, so that at least 12 are dropped.
        lemma_pow2_adds(52, 64);
        lemma_pow2_adds(63, 53);
        assert(n >= pow2(63) * nb) by (nonlinear_arith)
            requires
                n == na * w,
                na >= pow2(52),
                pow2(52) * w == pow2(63) * pow2(53),
                nb < pow2(53),
                w > 0,
        ;
        assert(n / nb >= pow2(63)) by (nonlinear_arith)
            requires
                n >= pow2(63) * nb,
                nb > 0,
        ;
        assert(sig >= pow2(64));
        lemma_bit_length_bounds(sig);
        if bit_length(sig) <= 64 {
            lemma_pow2_increases(bit_length(sig), 64);
        }
        let d = dropped_bits(sig, e);
        assert(d >= 12);
        let k = kept_significand(sig, e);
        let p = pow2(d as nat);
        lemma_rounded_units(sig, e);
        let es = pow2((e + d) as nat);
        lemma_pow2_pos((e + d) as nat);
        lemma_pow2_increases((e + d) as nat, scale(m));
        lemma_sticky_quotient_is_nearest(n, nb, d as nat);

        // One power of two that brings both sides of the bound to whole
        // numbers of the same kind.
        let lift = pow2((sa + zb + 1009) as nat);
        let spa = pow2(sa);
        let spb = pow2(sb);
        lemma_pow2_pos((sa + zb + 1009) as nat);
        lemma_pow2_pos(za);
        lemma_pow2_pos(zb);
        lemma_pow2_adds(d as nat, (sa + zb + 1009) as nat);
        lemma_pow2_adds(sb, za);
        lemma_pow2_adds((e + d) as nat, sb + za);
        assert(d + (sa + zb + 1009) == (e + d) + (sb + za));
        assert(p * lift == es * (spb * pa));
        lemma_pow2_unfold(65);
        lemma_pow2_adds(65, (sa + zb + 1009) as nat);
        lemma_pow2_adds(zb, 1074);
        lemma_pow2_adds(sa, zb + 1074);
        assert(65 + (sa + zb + 1009) == sa + (zb + 1074));
        assert(2 * w * lift == spa * (pb * t));

        let both = pa * pb;
        assert(both > 0) by (nonlinear_arith)
            requires
                both == pa * pb,
                pa > 0,
                pb > 0,
        ;
        let x = units(r) * ub;
        let y = ua * t;
        let z = pow2(scale(r)) * ub;
        let kx = (k * p * nb) * lift;
        let ky = (2 * n) * lift;
        let kz = (p * nb) * lift;
        assert(2 * distance(kx as int, ky as int) <= kz) by (nonlinear_arith)
            requires
                kx == (k * p * nb) * lift,
                ky == (2 * n) * lift,
                kz == (p * nb) * lift,
                2 * distance((k * p * nb) as int, (2 * n) as int) <= p * nb,
                lift > 0,
        ;
        assert(x * both == kx) by {
            lemma_regroup_six(k as int, es as int, mb as int, spb as int, pa as int, pb as int);
            lemma_regroup_four(k as int, p as int, nb as int, lift as int);
        }
        assert(y * both == ky) by {
            let step = 2 * w * lift;
            assert(ky == na * step) by (nonlinear_arith)
                requires
                    ky == (2 * (na * w)) * lift,
                    step == 2 * w * lift,
            ;
            assert(step == spa * (pb * t));
            lemma_regroup_five(ma as int, pa as int, spa as int, pb as int, t as int);
        }
        assert(kz == (es * ub) * both) by {
            lemma_regroup_six(1, es as int, mb as int, spb as int, pa as int, pb as int);
            lemma_regroup_four(1, p as int, nb as int, lift as int);
            assert((1 * es) * (mb * spb) == es * ub) by (nonlinear_arith)
                requires
                    ub == mb * spb,
            ;
            assert((1 * p * nb) * lift == kz) by (nonlinear_arith)
                requires
                    kz == (p * nb) * lift,
            ;
            assert((1 * nb) * (p * lift) == (1 * (mb * pb)) * (es * (spb * pa)));
        }
        assert((es * ub) * both <= z * both) by (nonlinear_arith)
            requires
                z == pow2(scale(r)) * ub,
                es <= pow2(scale(r)),
                ub >= 0,
                both > 0,
        ;
        assert(2 * distance(x as int, y as int) <= z) by (nonlinear_arith)
            requires
                2 * distance((x * both) as int, (y * both) as int) <= z * both,
                both > 0,
                x >= 0,
                y >= 0,
        ;
    }
}

/// A smaller number has the smaller square.
proof fn lemma_square_grows(x: int, y: int)
    by (nonlinear_arith)
    requires
        0 <= x <= y,
    ensures
        x * x <= y * y,
{
}

/// A root that carries a sticky bit rounds as the exact root does: where at
/// least two bits are dropped, twice the exact root of `n` lies within half
/// of the last kept place of the kept significand, although only the integer
/// root and the fact of a remainder went into the rounding. The bound is
/// stated in squares, four times over.
pub proof fn lemma_sticky_root_is_nearest(n: nat, k: nat)
    requires
        k >= 2,
        significand_root(n) >= pow2(k),
    ensures
        round_half_even(significand_root(n), k) >= 1,
        (2 * round_half_even(significand_root(n), k) * pow2(k) - pow2(k)) * (2 * round_half_even(
            significand_root(n),
            k,
        ) * pow2(k) - pow2(k)) <= 16 * n,
        16 * n <= (2 * round_half_even(significand_root(n), k) * pow2(k) + pow2(k)) * (2
            * round_half_even(significand_root(n), k) * pow2(k) + pow2(k)),
{
    let s = integer_root(n);
    let sig = significand_root(n);
    let p = pow2(k);
    let kept = round_half_even(sig, k);
    lemma_integer_root_exists(n);
    lemma_pow2_pos(k);
    lemma_pow2_unfold(k);
    lemma_pow2_unfold((k - 1) as nat);
    lemma_pow2_pos((k - 2) as nat);
    let quarter = pow2((k - 2) as nat);
    assert(p == 4 * quarter);
    lemma_round_half_even_error(sig, k);
    let q0 = sig / p;
    let r0 = sig % p;
    lemma_fundamental_div_mod(sig as int, p as int);
    lemma_mod_bound(sig as int, p as int);
    assert(q0 >= 1) by (nonlinear_arith)
        requires
            sig == p * q0 + r0,
            sig >= p,
            r0 < p,
            p > 0,
    ;
    let kp = kept * p;
    assert(kp >= p) by (nonlinear_arith)
        requires
            kp == kept * p,
            kept >= 1,
            p > 0,
    ;
    let lo: int = 2 * kp - p;
    let hi: int = (2 * kp + p) as int;
    let twice: int = (2 * sig) as int;
    assert(2 * kept * p == 2 * kp) by (nonlinear_arith)
        requires
            kp == kept * p,
    ;
    if s * s == n {
        assert(lo <= twice <= hi);
        lemma_square_grows(lo, twice);
        lemma_square_grows(twice, hi);
        assert(twice * twice == 16 * n) by (nonlinear_arith)
            requires
                twice == 4 * s,
                s * s == n,
        ;
    } else {
        let w = quarter * q0;
        assert(p * q0 == 4 * w) by (nonlinear_arith)
            requires
                p == 4 * quarter,
                w == quarter * q0,
        ;
        assert(r0 == 2 * (s - 2 * w) + 1);
        assert(r0 % 2 == 1);
        assert(2 * r0 != p);
        if 2 * r0 > p {
            assert(kept == q0 + 1);
            assert(kp == p * q0 + p) by (nonlinear_arith)
                requires
                    kp == (q0 + 1) * p,
            ;
        } else {
            assert(kept == q0);
            assert(kp == p * q0) by (nonlinear_arith)
                requires
                    kp == q0 * p,
            ;
        }
        assert(lo <= twice - 2);
        assert(twice + 2 <= hi);
        lemma_square_grows(lo, twice - 2);
        lemma_square_grows(twice + 2, hi);
        assert((twice - 2) * (twice - 2) == 16 * (s * s)) by (nonlinear_arith)
            requires
                twice == 4 * s + 2,
        ;
        assert((twice + 2) * (twice + 2) == 16 * ((s + 1) * (s + 1))) by (nonlinear_arith)
            requires
                twice == 4 * s + 2,
        ;
    }
}

/// The radicand of a finite positive value has 125 or 126 bits, and with
/// the even power of two beside it stands for the value, counted in parts
/// of `2^-1074` of a unit and widened by 72 bits.
pub proof fn lemma_radicand(a: u64)
    requires
        is_finite(a),
        !is_zero(a),
    ensures
        pow2(124) <= radicand(a) < pow2(126),
        511 <= half_scale(a) <= 1560,
        radicand(a) * pow2((2 * half_scale(a)) as nat) == units(a) * pow2(1074) * pow2(72),
{
    let m = significand(a);
    let z = normalizing_shift(m);
    let s = scale(a);
    let full = m * pow2(z);
    let t = radicand_scale(a);
    let hh = half_scale(a);
    let w = pow2(72);
    lemma_full_significand(a);
    lemma_magnitude_parts(a);
    lemma2_to64();
    lemma2_to64_rest();
    lemma_pow2_pos(72);
    lemma_pow2_adds(52, 72);
    lemma_pow2_adds(54, 72);
    lemma_pow2_unfold(54);
    let base = (2 * hh) as nat;
    let pt = pow2(t as nat);
    lemma_pow2_adds(z, t as nat);
    lemma_pow2_adds(s, 1074);
    assert(z + t == s + 1074);
    assert(full * pt == m * (pow2(s) * pow2(1074))) by (nonlinear_arith)
        requires
            full == m * pow2(z),
            pow2(z) * pt == pow2(s) * pow2(1074),
    ;
    assert(m * (pow2(s) * pow2(1074)) == units(a) * pow2(1074)) by (nonlinear_arith)
        requires
            units(a) == m * pow2(s),
    ;
    if t % 2 == 1 {
        lemma_pow2_unfold(t as nat);
        assert(radicand(a) == (2 * full) * w) by (nonlinear_arith)
            requires
                radicand(a) == 2 * full * w,
        ;
        assert(pow2(52) * w <= (2 * full) * w < pow2(54) * w) by (nonlinear_arith)
            requires
                pow2(52) <= full < pow2(53),
                pow2(54) == 2 * pow2(53),
                w > 0,
        ;
        assert(((2 * full) * w) * pow2(base) == (full * pt) * w) by (nonlinear_arith)
            requires
                pt == 2 * pow2(base),
        ;
    } else {
        assert(pow2(52) * w <= full * w < pow2(54) * w) by (nonlinear_arith)
            requires
                pow2(52) <= full < pow2(53),
                pow2(54) == 2 * pow2(53),
                w > 0,
        ;
        assert((full * w) * pow2(base) == (full * pt) * w) by (nonlinear_arith)
            requires
                pt == pow2(base),
        ;
    }
}

/// The square root of a finite positive value is finite, and lies within
/// half a unit in its last place of the exact root. The bound is stated in
/// squares, four times over; the value under the root counts parts of
/// `2^-1074` of a unit.
pub proof fn lemma_root_is_nearest(a: u64)
    requires
        is_finite(a),
        !is_zero(a),
        !is_negative(a),
    ensures
        is_finite(square_root(a)),
        2 * units(square_root(a)) >= pow2(scale(square_root(a))),
        (2 * units(square_root(a)) - pow2(scale(square_root(a)))) * (2 * units(square_root(a))
            - pow2(scale(square_root(a)))) <= 4 * (units(a) * pow2(1074)),
        4 * (units(a) * pow2(1074)) <= (2 * units(square_root(a)) + pow2(scale(square_root(a))))
            * (2 * units(square_root(a)) + pow2(scale(square_root(a)))),
{
    let n = radicand(a);
    let hh = half_scale(a);
    let e = hh - 37;
    let root = integer_root(n);
    let sig = significand_root(n);
    lemma_radicand(a);
    lemma_integer_root_exists(n);
    lemma2_to64();
    lemma2_to64_rest();
    lemma_pow2_adds(62, 62);
    lemma_pow2_adds(63, 63);
    lemma_pow2_unfold(64);
    // The root has 63 bits, and 64 with the sticky bit.
    if root + 1 <= pow2(62) {
        lemma_square_grows((root + 1) as int, pow2(62) as int);
    }
    if root >= pow2(63) {
        lemma_square_grows(pow2(63) as int, root as int);
    }
    assert(pow2(62) <= root < pow2(63));
    assert(pow2(63) <= sig < pow2(64));
    lemma_bit_length_unique(sig, 64);
    assert(dropped_bits(sig, e) == 11);
    let kept = round_half_even(sig, 11);
    assert(kept_significand(sig, e) == kept);
    let p = pow2(11);
    lemma_sticky_root_is_nearest(n, 11);
    lemma_round_half_even_error(sig, 11);
    lemma_pow2_adds(53, 11);
    lemma_quotient_below(sig, 53, 11);
    assert(kept <= pow2(53));
    // Nothing overflows.
    let raw = (e + 11) * pow2(52) + kept;
    assert(raw < INFINITY) by (nonlinear_arith)
        requires
            raw == (e + 11) * pow2(52) + kept,
            e + 11 <= 1534,
            kept <= pow2(53),
            pow2(52) == 0x10_0000_0000_0000,
            pow2(53) == 0x20_0000_0000_0000,
            INFINITY == 0x7ff0_0000_0000_0000,
    ;
    let r = square_root(a);
    assert(r == rounded(sig, e));
    assert(r == raw);
    lemma_rounded_units(sig, e);
    let es = pow2((e + 11) as nat);
    let u = units(r);
    let h = pow2(scale(r));
    lemma_pow2_pos((e + 11) as nat);
    lemma_pow2_pos(scale(r));
    lemma_pow2_increases((e + 11) as nat, scale(r));
    assert(u == kept * es);
    assert(u >= es) by (nonlinear_arith)
        requires
            u == kept * es,
            kept >= 1,
            es > 0,
    ;
    // The last place of the result is at most the result itself.
    assert(u >= h) by (nonlinear_arith)
        requires
            u == significand(r) * h,
            u > 0,
            h > 0,
    ;
    // The bound of the rounding, brought to units.
    let f = pow2(hh as nat);
    let c = pow2(37);
    lemma_pow2_pos(hh as nat);
    lemma_pow2_pos(37);
    lemma_pow2_adds(hh as nat, hh as nat);
    lemma_pow2_adds(11, hh as nat);
    lemma_pow2_adds((e + 11) as nat, 37);
    assert(11 + hh == (e + 11) + 37);
    assert(p * f == es * c);
    lemma_pow2_adds(37, 37);
    lemma_pow2_adds(74, 2);
    lemma_pow2_adds(72, 4);
    let exact = units(a) * pow2(1074);
    let lo: int = 2 * u - es;
    let hi: int = (2 * u + es) as int;
    let klo: int = 2 * kept * p - p;
    let khi: int = (2 * kept * p + p) as int;
    assert(klo * f == lo * c) by (nonlinear_arith)
        requires
            klo == 2 * kept * p - p,
            lo == 2 * u - es,
            u == kept * es,
            p * f == es * c,
    ;
    assert(khi * f == hi * c) by (nonlinear_arith)
        requires
            khi == 2 * kept * p + p,
            hi == 2 * u + es,
            u == kept * es,
            p * f == es * c,
    ;
    assert((16 * n) * (f * f) == (4 * exact) * (c * c)) by (nonlinear_arith)
        requires
            n * pow2((2 * hh) as nat) == exact * pow2(72),
            f * f == pow2((2 * hh) as nat),
            c * c == pow2(74),
            pow2(76) == pow2(74) * pow2(2),
            pow2(76) == pow2(72) * pow2(4),
            pow2(2) == 4,
            pow2(4) == 16,
    ;
    assert((lo * c) * (lo * c) <= (4 * exact) * (c * c)) by (nonlinear_arith)
        requires
            klo * klo <= 16 * n,
            klo * f == lo * c,
            (16 * n) * (f * f) == (4 * exact) * (c * c),
            f > 0,
    ;
    assert((4 * exact) * (c * c) <= (hi * c) * (hi * c)) by (nonlinear_arith)
        requires
            16 * n <= khi * khi,
            khi * f == hi * c,
            (16 * n) * (f * f) == (4 * exact) * (c * c),
            f > 0,
    ;
    assert(lo * lo <= 4 * exact) by (nonlinear_arith)
        requires
            (lo * c) * (lo * c) <= (4 * exact) * (c * c),
            c > 0,
    ;
    assert(4 * exact <= hi * hi) by (nonlinear_arith)
        requires
            (4 * exact) * (c * c) <= (hi * c) * (hi * c),
            c > 0,
    ;
    // The last place of the result may be one above the scale that the
    // rounding used: the bound only widens.
    lemma_square_grows(2 * u - h, lo);
    lemma_square_grows(hi, (2 * u + h) as int);
}

} // verus!
