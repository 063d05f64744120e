//! Conversion of a count to binary64.

use crate::binary64::rounding::{round_pack, rounded};
use vstd::prelude::*;

verus! {

/// The binary64 nearest to the integer `n`.
pub open spec fn from_integer(n: nat) -> u64 {
    rounded(n, 1074)
}

/// Converts a count to binary64, rounding to nearest where it has more than
/// 53 significant bits.
pub fn from_count(n: u128) -> (r: u64)
    ensures
        r == from_integer(n as nat),
{
    round_pack(n, 1074)
}

} // verus!
