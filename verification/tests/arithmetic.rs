//! The integer arithmetic of the library against the machine's own
//! double-precision operations.

use evo_nn::binary64::addition::{minus, plus};
use evo_nn::binary64::conversion::from_count;
use evo_nn::binary64::division::divide;
use evo_nn::binary64::multiplication::times;
use evo_nn::binary64::root::sqrt;
use evo_nn::binary64::{check_at_least_zero, check_nan, check_zero, negate, NAN, ONE, ZERO};

/// Values at the edges of the format.
fn corner_values() -> Vec<f64> {
    vec![
        0.0,
        -0.0,
        1.0,
        -1.0,
        2.0,
        0.5,
        0.25,
        0.1,
        -0.1,
        1.3,
        3.5,
        5.25,
        1.0e-300,
        1.0e300,
        -1.0e300,
        1.0e-320,
        -1.0e-320,
        f64::MIN_POSITIVE,
        f64::MIN_POSITIVE / 2.0,
        f64::from_bits(1),
        f64::from_bits(0x000f_ffff_ffff_ffff),
        f64::from_bits(0x0010_0000_0000_0001),
        f64::MAX,
        f64::MIN,
        f64::EPSILON,
        1.0 + f64::EPSILON,
        1.0 - f64::EPSILON / 2.0,
        9007199254740992.0,
        9007199254740993.0,
        4503599627370497.0,
        f64::INFINITY,
        f64::NEG_INFINITY,
        f64::NAN,
        std::f64::consts::PI,
        -std::f64::consts::E,
        1.0 / 3.0,
        2.0 / 3.0,
        6.7,
        1.78,
        4.357,
    ]
}

/// A fixed stream of bit patterns that covers all exponents.
fn next_pattern(state: &mut u64) -> u64 {
    *state ^= *state << 13;
    *state ^= *state >> 7;
    *state ^= *state << 17;
    *state
}

/// A fixed stream of values whose exponents lie close together, so that
/// sums cancel and quotients stay in range.
fn next_near(state: &mut u64) -> f64 {
    let raw = next_pattern(state);
    let exponent = 1023 - 40 + (raw >> 52) % 80;
    f64::from_bits((raw & 0x800f_ffff_ffff_ffff) | (exponent << 52))
}

fn same(expected: f64, got: u64) -> bool {
    if expected.is_nan() {
        check_nan(got)
    } else {
        expected.to_bits() == got
    }
}

fn check_pair(a: f64, b: f64) {
    let (x, y) = (a.to_bits(), b.to_bits());
    assert!(same(a + b, plus(x, y)), "{:e} + {:e}: {:x} {:x}", a, b, (a + b).to_bits(), plus(x, y));
    assert!(same(a - b, minus(x, y)), "{:e} - {:e}: {:x} {:x}", a, b, (a - b).to_bits(), minus(x, y));
    assert!(same(a * b, times(x, y)), "{:e} * {:e}: {:x} {:x}", a, b, (a * b).to_bits(), times(x, y));
    assert!(same(a / b, divide(x, y)), "{:e} / {:e}: {:x} {:x}", a, b, (a / b).to_bits(), divide(x, y));
}

fn check_one(a: f64) {
    let x = a.to_bits();
    assert!(same(a.sqrt(), sqrt(x)), "sqrt {:e}: {:x} {:x}", a, a.sqrt().to_bits(), sqrt(x));
    assert_eq!(a >= 0.0, check_at_least_zero(x), "{:e} >= 0", a);
    assert_eq!(a == 0.0, check_zero(x), "{:e} == 0", a);
    assert_eq!(a.is_nan(), check_nan(x));
    if !a.is_nan() {
        assert_eq!((-a).to_bits(), negate(x));
    }
}

#[test]
fn corner_values_agree_with_the_machine() {
    let values = corner_values();
    for a in values.iter() {
        check_one(*a);
        for b in values.iter() {
            check_pair(*a, *b);
        }
    }
}

#[test]
fn arbitrary_patterns_agree_with_the_machine() {
    let mut state: u64 = 0x9e37_79b9_7f4a_7c15;
    for _ in 0..20000 {
        let a = f64::from_bits(next_pattern(&mut state));
        let b = f64::from_bits(next_pattern(&mut state));
        check_one(a);
        check_pair(a, b);
    }
}

#[test]
fn nearby_values_agree_with_the_machine() {
    let mut state: u64 = 0x2545_f491_4f6c_dd1d;
    for _ in 0..20000 {
        let a = next_near(&mut state);
        let b = next_near(&mut state);
        check_one(a);
        check_pair(a, b);
        check_pair(a, -a);
        check_pair(a, f64::from_bits(a.to_bits() + 1));
    }
}

#[test]
fn subnormal_results_agree_with_the_machine() {
    let mut state: u64 = 0x1234_5678_9abc_def1;
    for _ in 0..20000 {
        let raw = next_pattern(&mut state);
        let tiny = f64::from_bits(raw & 0x803f_ffff_ffff_ffff);
        let other = next_near(&mut state);
        check_one(tiny);
        check_pair(tiny, other);
        check_pair(other, tiny);
        check_pair(tiny, f64::from_bits(next_pattern(&mut state) & 0x801f_ffff_ffff_ffff));
    }
}

#[test]
fn large_results_agree_with_the_machine() {
    let mut state: u64 = 0x0fed_cba9_8765_4321;
    for _ in 0..20000 {
        let raw = next_pattern(&mut state);
        let huge = f64::from_bits((raw & 0x800f_ffff_ffff_ffff) | (0x7fd + (raw >> 63)) << 52);
        let other = next_near(&mut state);
        check_pair(huge, other);
        check_pair(other, huge);
        check_pair(huge, huge);
        check_pair(huge, -huge);
    }
}

#[test]
fn counts_agree_with_the_machine() {
    let mut state: u64 = 0x6a09_e667_f3bc_c908;
    for n in 0u128..2000 {
        assert_eq!((n as f64).to_bits(), from_count(n));
    }
    for _ in 0..20000 {
        let n = next_pattern(&mut state);
        let shift = next_pattern(&mut state) % 64;
        let n = n >> shift;
        assert_eq!((n as f64).to_bits(), from_count(n as u128), "{}", n);
        let wide = (n as u128) << (next_pattern(&mut state) % 64);
        assert_eq!((wide as f64).to_bits(), from_count(wide), "{}", wide);
    }
    assert_eq!((u128::MAX as f64).to_bits(), from_count(u128::MAX));
    assert_eq!(9007199254740992.0f64.to_bits(), from_count(9007199254740993));
    assert_eq!(9007199254740996.0f64.to_bits(), from_count(9007199254740995));
}

#[test]
fn rounding_goes_to_the_even_neighbour() {
    // 2^53 + 1 lies halfway between 2^53 and 2^53 + 2.
    let big = 9007199254740992.0f64;
    assert_eq!(plus(big.to_bits(), ONE), big.to_bits());
    assert_eq!(plus((big + 2.0).to_bits(), ONE), (big + 4.0).to_bits());
    // One third is not exact: the quotient is rounded, not cut off.
    assert_eq!(divide(ONE, 3.0f64.to_bits()), 0x3fd5_5555_5555_5555);
    assert_eq!(divide(2.0f64.to_bits(), 3.0f64.to_bits()), 0x3fe5_5555_5555_5555);
    assert_eq!(sqrt(2.0f64.to_bits()), 0x3ff6_a09e_667f_3bcd);
    assert_eq!(times(0.1f64.to_bits(), 0.1f64.to_bits()), 0x3f84_7ae1_47ae_147c);
}

#[test]
fn invalid_operations_give_the_quiet_nan() {
    let inf = f64::INFINITY.to_bits();
    assert_eq!(minus(inf, inf), NAN);
    assert_eq!(times(inf, ZERO), NAN);
    assert_eq!(divide(ZERO, ZERO), NAN);
    assert_eq!(divide(inf, inf), NAN);
    assert_eq!(sqrt((-1.0f64).to_bits()), NAN);
    assert_eq!(plus(f64::NAN.to_bits(), ONE), NAN);
}

#[test]
fn zeros_keep_their_signs() {
    let minus_zero = (-0.0f64).to_bits();
    assert_eq!(plus(minus_zero, minus_zero), minus_zero);
    assert_eq!(plus(minus_zero, ZERO), ZERO);
    assert_eq!(minus(ONE, ONE), ZERO);
    assert_eq!(times(minus_zero, ONE), minus_zero);
    assert_eq!(divide(minus_zero, ONE), minus_zero);
    assert_eq!(sqrt(minus_zero), minus_zero);
    assert_eq!(divide(ONE, minus_zero), f64::NEG_INFINITY.to_bits());
}

/// A value with the given power of two and a fraction from the stream.
fn with_exponent(state: &mut u64, exponent: i64) -> f64 {
    let raw = next_pattern(state);
    let fraction = raw & 0x000f_ffff_ffff_ffff;
    let sign = raw & 0x8000_0000_0000_0000;
    if exponent < -1022 {
        // A subnormal: the fraction is shifted down instead.
        let shift = (-1022 - exponent) as u32;
        if shift > 52 {
            return f64::from_bits(sign);
        }
        return f64::from_bits(sign | ((fraction | 0x0010_0000_0000_0000) >> shift));
    }
    f64::from_bits(sign | (((exponent + 1023) as u64) << 52) | fraction)
}

#[test]
fn results_at_the_lower_limit_agree_with_the_machine() {
    let mut state: u64 = 0x5851_f42d_4c95_7f2d;
    for target in -1140i64..=-960 {
        for split in [-1000i64, -700, -537, -300, 0, 100] {
            for _ in 0..8 {
                let a = with_exponent(&mut state, split);
                let b = with_exponent(&mut state, target - split);
                let (x, y) = (a.to_bits(), b.to_bits());
                assert!(same(a * b, times(x, y)), "{:e} * {:e}", a, b);
                let c = with_exponent(&mut state, split - target);
                assert!(same(a / c, divide(x, c.to_bits())), "{:e} / {:e}", a, c);
                let d = with_exponent(&mut state, target);
                let e = with_exponent(&mut state, target + (split.rem_euclid(60)) - 30);
                check_pair(d, e);
                check_one(d);
            }
        }
    }
}

#[test]
fn results_at_the_upper_limit_agree_with_the_machine() {
    let mut state: u64 = 0x1405_7b7e_f767_814f;
    for target in 960i64..=1060 {
        for split in [-1000i64, -300, 0, 100, 511, 900] {
            for _ in 0..8 {
                let a = with_exponent(&mut state, split);
                let b = with_exponent(&mut state, target - split);
                let (x, y) = (a.to_bits(), b.to_bits());
                assert!(same(a * b, times(x, y)), "{:e} * {:e}", a, b);
                let c = with_exponent(&mut state, split - target);
                assert!(same(a / c, divide(x, c.to_bits())), "{:e} / {:e}", a, c);
                if target <= 1023 {
                    let d = with_exponent(&mut state, target);
                    let e = with_exponent(&mut state, target - (split.rem_euclid(60)));
                    check_pair(d, e);
                    check_one(d);
                }
            }
        }
    }
}

#[test]
fn sums_across_every_gap_agree_with_the_machine() {
    let mut state: u64 = 0x9e37_79b9_7f4a_7c15;
    for gap in 0i64..=130 {
        for base in [-1074i64, -1022, -500, 0, 400, 890] {
            for _ in 0..8 {
                let small = with_exponent(&mut state, base);
                let large = with_exponent(&mut state, base + gap);
                check_pair(small, large);
                check_pair(large, small);
                // A power of two minus a little falls into the binade below.
                let power = f64::from_bits(large.to_bits() & 0xfff0_0000_0000_0000);
                check_pair(power, small);
                check_pair(power, -small);
            }
        }
    }
}

#[test]
fn roots_of_every_exponent_agree_with_the_machine() {
    let mut state: u64 = 0x3c6e_f372_fe94_f82b;
    for exponent in -1080i64..=1023 {
        for _ in 0..4 {
            let a = with_exponent(&mut state, exponent).abs();
            assert!(same(a.sqrt(), sqrt(a.to_bits())), "sqrt {:e}", a);
            let square = f64::from_bits(a.to_bits() & 0xffff_ffff_0000_0000);
            let exact = square * square;
            assert!(same(exact.sqrt(), sqrt(exact.to_bits())), "sqrt {:e}", exact);
        }
    }
}
