//! Powers of two and bit lengths of wide integers.

use vstd::arithmetic::div_mod::lemma_div_denominator;
use vstd::arithmetic::power2::{
    lemma2_to64, lemma2_to64_rest, lemma_pow2_adds, lemma_pow2_pos, lemma_pow2_strictly_increases,
    lemma_pow2_unfold, pow2,
};
use vstd::prelude::*;

verus! {

/// The number of bits needed to write `n`: zero for zero, else one more than
/// the position of the highest set bit.
pub open spec fn bit_length(n: nat) -> nat
    decreases n,
{
    if n == 0 {
        0
    } else {
        1 + bit_length(n / 2)
    }
}

/// A positive `n` lies between the two powers of two that its bit length names.
pub proof fn lemma_bit_length_bounds(n: nat)
    requires
        n > 0,
    ensures
        bit_length(n) >= 1,
        pow2((bit_length(n) - 1) as nat) <= n < pow2(bit_length(n)),
    decreases n,
{
    lemma2_to64();
    if n == 1 {
        assert(bit_length(1) == 1 + bit_length(0));
    } else {
        lemma_bit_length_bounds(n / 2);
        let k = bit_length(n / 2);
        lemma_pow2_unfold(k);
        lemma_pow2_unfold(k + 1);
    }
}

/// The bit length is the only `k` with `2^(k-1) <= n < 2^k`.
pub proof fn lemma_bit_length_unique(n: nat, k: nat)
    requires
        k >= 1,
        pow2((k - 1) as nat) <= n < pow2(k),
    ensures
        bit_length(n) == k,
{
    lemma_pow2_pos((k - 1) as nat);
    lemma_bit_length_bounds(n);
    let b = bit_length(n);
    if b < k {
        if b < k - 1 {
            lemma_pow2_strictly_increases(b, (k - 1) as nat);
        }
    } else if b > k {
        if k < b - 1 {
            lemma_pow2_strictly_increases(k, (b - 1) as nat);
        }
    }
}

/// Monotonicity of `pow2`, equality allowed.
pub proof fn lemma_pow2_increases(a: nat, b: nat)
    requires
        a <= b,
    ensures
        pow2(a) <= pow2(b),
{
    if a < b {
        lemma_pow2_strictly_increases(a, b);
    }
}

/// The two largest powers of two that matter for a 128-bit integer.
pub proof fn lemma_pow2_127()
    ensures
        pow2(127) == 0x8000_0000_0000_0000_0000_0000_0000_0000,
        pow2(128) == 0x1_0000_0000_0000_0000_0000_0000_0000_0000,
{
    lemma2_to64();
    lemma2_to64_rest();
    lemma_pow2_adds(64, 63);
    lemma_pow2_adds(64, 64);
}

/// `2^k` as a machine integer.
pub fn power_of_two(k: u32) -> (p: u128)
    requires
        k <= 127,
    ensures
        p == pow2(k as nat),
        p >= 1,
{
    let mut p: u128 = 1;
    let mut i: u32 = 0;
    proof {
        lemma2_to64();
    }
    while i < k
        invariant
            i <= k <= 127,
            p == pow2(i as nat),
            p >= 1,
        decreases k - i,
    {
        proof {
            lemma_pow2_unfold((i + 1) as nat);
            lemma_pow2_increases((i + 1) as nat, 127);
            lemma_pow2_127();
        }
        p = p * 2;
        i = i + 1;
    }
    p
}

/// The bit length of a machine integer.
pub fn bit_length_of(x: u128) -> (len: u32)
    ensures
        len == bit_length(x as nat),
        len <= 128,
        x > 0 ==> len >= 1 && pow2((len - 1) as nat) <= x < pow2(len as nat),
{
    let mut rest: u128 = x;
    let mut len: u32 = 0;
    proof {
        lemma2_to64();
    }
    while rest > 0
        invariant
            len <= 128,
            rest as int == (x as int) / (pow2(len as nat) as int),
            bit_length(x as nat) == len + bit_length(rest as nat),
        decreases rest,
    {
        proof {
            let p = pow2(len as nat) as int;
            lemma_pow2_pos(len as nat);
            lemma_pow2_unfold((len + 1) as nat);
            lemma_div_denominator(x as int, p, 2);
            if len >= 128 {
                lemma_pow2_increases(128, len as nat);
                lemma_pow2_127();
                vstd::arithmetic::div_mod::lemma_basic_div(x as int, p);
            }
        }
        rest = rest / 2;
        len = len + 1;
    }
    proof {
        if x > 0 {
            lemma_bit_length_bounds(x as nat);
        }
    }
    len
}

} // verus!
