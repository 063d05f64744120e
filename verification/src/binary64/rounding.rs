//! Rounding an exact significand and exponent to the nearest binary64 value,
//! ties to the even significand.

use crate::binary64::power::{
    bit_length, bit_length_of, lemma_pow2_127, lemma_pow2_increases, power_of_two,
};
use crate::binary64::{HIDDEN_BIT, INFINITY};
use vstd::arithmetic::power2::{lemma2_to64, lemma2_to64_rest, lemma_pow2_adds, lemma_pow2_pos, pow2};
use vstd::prelude::*;

verus! {

/// `n / 2^k` rounded to the nearest integer, a tie going to the even one.
pub open spec fn round_half_even(n: nat, k: nat) -> nat {
    let q = n / pow2(k);
    let r = n % pow2(k);
    if 2 * r > pow2(k) || (2 * r == pow2(k) && q % 2 == 1) {
        q + 1
    } else {
        q
    }
}

/// How many low bits of `sig` cannot be kept when `sig · 2^(e - 1074)` is
/// written as a binary64: those beyond 53 significant bits, or those below
/// the smallest subnormal. A negative count is room to shift left.
pub open spec fn dropped_bits(sig: nat, e: int) -> int {
    let over = bit_length(sig) - 53;
    if over >= -e {
        over
    } else {
        -e
    }
}

/// The significand that is kept: `sig` shifted by `dropped_bits`, rounded
/// where bits are lost.
pub open spec fn kept_significand(sig: nat, e: int) -> nat {
    let d = dropped_bits(sig, e);
    if d <= 0 {
        sig * pow2((-d) as nat)
    } else {
        round_half_even(sig, d as nat)
    }
}

/// The magnitude of the binary64 nearest to `sig · 2^(e - 1074)`, ties to
/// even; infinity where the rounded value is out of range.
///
/// The kept significand is added to the scale field rather than or-ed into
/// it, so that a significand rounded up to `2^53` carries into the exponent.
pub open spec fn rounded(sig: nat, e: int) -> u64 {
    if sig == 0 {
        0
    } else {
        let raw = (e + dropped_bits(sig, e)) * pow2(52) + kept_significand(sig, e);
        if raw >= INFINITY {
            INFINITY
        } else {
            raw as u64
        }
    }
}

/// A quotient by a power of two is below `2^a` when the dividend is below
/// `2^(a + k)`.
pub proof fn lemma_quotient_below(n: nat, a: nat, k: nat)
    requires
        n < pow2(a + k),
    ensures
        n / pow2(k) < pow2(a),
{
    lemma_pow2_adds(a, k);
    lemma_pow2_pos(k);
    let p = pow2(k) as int;
    let b = pow2(a) as int;
    assert((n as int) / p < b) by (nonlinear_arith)
        requires
            n < b * p,
            p > 0,
    ;
}

/// Joins a scale and a significand of at most 53 bits (or exactly `2^53`)
/// into a magnitude, saturating at infinity.
fn pack(scale: u64, m: u64) -> (r: u64)
    requires
        m <= 2 * HIDDEN_BIT,
    ensures
        r == (if scale * pow2(52) + m >= INFINITY {
            INFINITY
        } else {
            (scale * pow2(52) + m) as u64
        }),
{
    proof {
        lemma2_to64_rest();
    }
    if scale >= 2047 {
        INFINITY
    } else {
        let raw: u64 = scale * HIDDEN_BIT + m;
        if raw >= INFINITY {
            INFINITY
        } else {
            raw
        }
    }
}

/// Rounds `sig · 2^(e - 1074)` to the nearest binary64 magnitude. The
/// exponent must lie within 8192 of zero, which is far more than any
/// operation on two binary64 values asks for.
pub fn round_pack(sig: u128, e: i64) -> (r: u64)
    requires
        -8192 <= e <= 8192,
    ensures
        r == rounded(sig as nat, e as int),
        r <= INFINITY,
{
    if sig == 0 {
        return 0;
    }
    let len: i64 = bit_length_of(sig) as i64;
    let over: i64 = len - 53;
    let d: i64 = if over >= -e { over } else { -e };
    let scale: u64 = (e + d) as u64;
    proof {
        lemma2_to64();
        lemma2_to64_rest();
        lemma_pow2_127();
        assert(d == dropped_bits(sig as nat, e as int));
    }
    if d <= 0 {
        let shift: u32 = (-d) as u32;
        let p: u128 = power_of_two(shift);
        proof {
            lemma_pow2_adds(len as nat, shift as nat);
            lemma_pow2_increases((len + shift) as nat, 53);
            assert(sig * p < pow2(len as nat) * p) by (nonlinear_arith)
                requires
                    sig < pow2(len as nat),
                    p > 0,
            ;
        }
        let m: u128 = sig * p;
        pack(scale, m as u64)
    } else if d > 128 {
        proof {
            lemma_pow2_increases(129, d as nat);
            lemma_pow2_adds(128, 1);
            let pd = pow2(d as nat) as int;
            vstd::arithmetic::div_mod::lemma_small_mod(sig as nat, pd as nat);
            vstd::arithmetic::div_mod::lemma_basic_div(sig as int, pd);
        }
        0
    } else if d == 128 {
        proof {
            let pd = pow2(128) as int;
            vstd::arithmetic::div_mod::lemma_small_mod(sig as nat, pd as nat);
            vstd::arithmetic::div_mod::lemma_basic_div(sig as int, pd);
        }
        if sig > 0x8000_0000_0000_0000_0000_0000_0000_0000 {
            1
        } else {
            0
        }
    } else {
        let p: u128 = power_of_two(d as u32);
        let q: u128 = sig / p;
        let rem: u128 = sig % p;
        proof {
            lemma_pow2_increases(d as nat, 127);
            lemma_pow2_increases(len as nat, (53 + d) as nat);
            lemma_quotient_below(sig as nat, 53, d as nat);
        }
        let up: bool = 2 * rem > p || (2 * rem == p && q % 2 == 1);
        let m: u128 = if up { q + 1 } else { q };
        pack(scale, m as u64)
    }
}

} // verus!
