//! Contracts for functions of the standard library that the algorithms call.

use vstd::prelude::*;

verus! {

/// `u64::overflowing_sub` returns the difference wrapped around at `2^64`,
/// and whether the subtraction overflowed, which is when `x < y`.
pub assume_specification[ u64::overflowing_sub ](x: u64, y: u64) -> (r: (u64, bool))
    ensures
        r.1 == (x < y),
        r.0 == (if x < y {
            x - y + 0x1_0000_0000_0000_0000
        } else {
            x - y
        }),
;

} // verus!
