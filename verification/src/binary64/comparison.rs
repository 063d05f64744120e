//! The order of binary64 values.

use crate::binary64::{check_nan, is_nan, is_negative, magnitude, magnitude_of, sign_of};
use vstd::prelude::*;

verus! {

/// The place of a value that is no NaN on the number line of magnitudes:
/// the two zeros share the place 0.
pub open spec fn rank(x: u64) -> int {
    if is_negative(x) {
        -(magnitude(x) as int)
    } else {
        magnitude(x) as int
    }
}

/// What `a <= b` means: neither is a NaN, and `a` does not lie above `b`.
pub open spec fn at_most(a: u64, b: u64) -> bool {
    !is_nan(a) && !is_nan(b) && rank(a) <= rank(b)
}

/// Whether `a <= b`.
pub fn check_at_most(a: u64, b: u64) -> (r: bool)
    ensures
        r == at_most(a, b),
{
    if check_nan(a) || check_nan(b) {
        return false;
    }
    let ma: u64 = magnitude_of(a);
    let mb: u64 = magnitude_of(b);
    if sign_of(a) {
        if sign_of(b) {
            ma >= mb
        } else {
            true
        }
    } else if sign_of(b) {
        ma == 0 && mb == 0
    } else {
        ma <= mb
    }
}

} // verus!
