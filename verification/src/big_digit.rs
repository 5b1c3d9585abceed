//! The digit type and its radix.

use vstd::prelude::*;

verus! {

/// One digit of a magnitude: an unsigned machine word.
pub type BigDigit = u64;

/// A signed accumulator twice as wide as a digit. It carries the borrow from
/// one digit position to the next.
pub type SignedDoubleBigDigit = i128;

/// Width of a [`BigDigit`] in bits.
pub const BITS: usize = 64;

/// The radix of the representation, `2^BITS`.
pub open spec fn base() -> int {
    0x1_0000_0000_0000_0000
}

} // verus!
