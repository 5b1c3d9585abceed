//! The sign of a signed big integer.

use vstd::prelude::*;

verus! {

/// The sign of a signed value: negative, zero or positive.
#[derive(Clone, Copy, Debug, PartialEq, Eq, Hash, Structural)]
pub enum Sign {
    Minus,
    NoSign,
    Plus,
}

impl Sign {
    /// The sign of the integer `v`.
    pub open spec fn of(v: int) -> Sign {
        if v < 0 {
            Sign::Minus
        } else if v == 0 {
            Sign::NoSign
        } else {
            Sign::Plus
        }
    }

    /// The signed value that this sign gives to the magnitude `m`.
    pub open spec fn apply(self, m: int) -> int {
        match self {
            Sign::Minus => -m,
            Sign::NoSign => 0,
            Sign::Plus => m,
        }
    }
}

} // verus!
