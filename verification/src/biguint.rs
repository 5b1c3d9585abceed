//! An unsigned big integer: a normalized magnitude in a digit buffer.

use crate::algorithms::order::normalized_len;
use crate::big_digit::BigDigit;
use crate::digit_buf::{
    buf_as_slice, buf_digits, buf_from_slice, buf_new, buf_truncate, DigitBuf,
};
use crate::magnitude::{is_normalized, lemma_normalized, normalized};
use vstd::prelude::*;

verus! {

/// An unsigned big integer. Its digits are always normalized: the most
/// significant digit is not zero, and zero has no digits.
pub struct BigUint {
    data: DigitBuf,
}

impl View for BigUint {
    type V = Seq<BigDigit>;

    /// The digits, least significant first.
    closed spec fn view(&self) -> Seq<BigDigit> {
        buf_digits(self.data)
    }
}

impl BigUint {
    #[verifier::type_invariant]
    closed spec fn well_formed(self) -> bool {
        is_normalized(buf_digits(self.data))
    }

    /// The canonical zero.
    pub fn zero() -> (r: BigUint)
        ensures
            r@ == Seq::<BigDigit>::empty(),
    {
        BigUint { data: buf_new() }
    }

    /// Wraps a digit buffer, dropping the zero digits at its most
    /// significant end.
    pub(crate) fn new_native(digits: DigitBuf) -> (r: BigUint)
        ensures
            r@ == normalized(buf_digits(digits)),
    {
        let mut data = digits;
        let len = normalized_len(buf_as_slice(&data));
        proof {
            lemma_normalized(buf_digits(data));
            assert(buf_digits(data).take(buf_digits(data).len() as int) =~= buf_digits(data));
        }
        buf_truncate(&mut data, len);
        BigUint { data }
    }

    /// The big integer that the digits of `digits` denote, which need not
    /// be normalized.
    pub fn from_slice(digits: &[BigDigit]) -> (r: BigUint)
        ensures
            r@ == normalized(digits@),
    {
        BigUint::new_native(buf_from_slice(digits))
    }

    /// The digits, least significant first.
    pub fn as_slice(&self) -> (digits: &[BigDigit])
        ensures
            digits@ == self@,
            is_normalized(digits@),
    {
        proof {
            use_type_invariant(self);
        }
        buf_as_slice(&self.data)
    }
}

} // verus!
