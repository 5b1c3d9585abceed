//! Normalizing magnitudes and ordering them by value.

use crate::big_digit::BigDigit;
use crate::bigint::Sign;
use crate::magnitude::{
    is_normalized, lemma_shorter_is_smaller, lemma_top_digit_decides, mag_value, trimmed_len,
};
use vstd::prelude::*;

verus! {

/// The length of `x` without the zero digits at its most significant end.
pub fn normalized_len(x: &[BigDigit]) -> (n: usize)
    ensures
        n == trimmed_len(x@),
{
    let mut n = x.len();
    assert(x@.take(n as int) =~= x@);
    while n > 0 && x[n - 1] == 0
        invariant
            n <= x.len(),
            trimmed_len(x@) == trimmed_len(x@.take(n as int)),
        decreases n,
    {
        assert(x@.take(n as int).drop_last() =~= x@.take(n - 1));
        n -= 1;
    }
    n
}

/// The sign of `a - b` for normalized magnitudes: the longer one is the
/// larger, and between magnitudes of one length the most significant digit
/// that differs decides.
pub fn difference_sign(a: &[BigDigit], b: &[BigDigit]) -> (sign: Sign)
    requires
        is_normalized(a@),
        is_normalized(b@),
    ensures
        sign == Sign::of(mag_value(a@) - mag_value(b@)),
{
    let n = a.len();
    if n < b.len() {
        proof {
            lemma_shorter_is_smaller(a@, b@);
        }
        return Sign::Minus;
    }
    if n > b.len() {
        proof {
            lemma_shorter_is_smaller(b@, a@);
        }
        return Sign::Plus;
    }
    let mut i = n;
    while i > 0
        invariant
            i <= n,
            a@.len() == n,
            b@.len() == n,
            forall|j: int| i <= j < n ==> a@[j] == b@[j],
        decreases i,
    {
        i -= 1;
        if a[i] < b[i] {
            proof {
                lemma_top_digit_decides(a@, b@, i as int);
            }
            return Sign::Minus;
        }
        if a[i] > b[i] {
            proof {
                lemma_top_digit_decides(b@, a@, i as int);
            }
            return Sign::Plus;
        }
    }
    assert(a@ =~= b@);
    Sign::NoSign
}

} // verus!
