//! Laws that relate the subtraction routines to one another.
//!
//! Each law speaks of the routines through their contracts: a parameter
//! that stands for a routine's output is bound by that routine's
//! postcondition.

use crate::algorithms::sub::{sub2_value, sub_sign_result};
use crate::big_digit::BigDigit;
use crate::bigint::Sign;
use crate::magnitude::{
    base_pow, lemma_normalized, lemma_normalized_unique, lemma_value_injective,
    lemma_value_single, lemma_zero_padding, mag_value, normalized, zeros,
};
use vstd::prelude::*;

verus! {

/// Subtracting and adding back: where `b` does not exceed `a` and `diff` is
/// what [`sub2`](crate::algorithms::sub::sub2) leaves of `a`, a magnitude
/// `sum` of the length of `a` that denotes `diff + b` is `a` itself.
pub proof fn lemma_sub2_add_back(
    a: Seq<BigDigit>,
    b: Seq<BigDigit>,
    diff: Seq<BigDigit>,
    sum: Seq<BigDigit>,
)
    requires
        mag_value(b) <= mag_value(a),
        diff.len() == a.len(),
        mag_value(diff) == mag_value(a) - mag_value(b),
        sum.len() == a.len(),
        mag_value(sum) == mag_value(diff) + mag_value(b),
    ensures
        mag_value(diff) + mag_value(b) == mag_value(a),
        sum == a,
{
    lemma_value_injective(sum, a);
}

/// For a single digit `b`, [`__sub2`](crate::algorithms::sub::__sub2) on the
/// one-digit magnitude and
/// [`__sub_scalar`](crate::algorithms::sub::__sub_scalar) on the digit
/// report the same borrow and leave the same digits: `general` and `scalar`
/// stand for what the two leave of `a`.
pub proof fn lemma_sub2_agrees_with_scalar(
    a: Seq<BigDigit>,
    b: BigDigit,
    general: Seq<BigDigit>,
    scalar: Seq<BigDigit>,
)
    requires
        general.len() == a.len(),
        mag_value(general) == sub2_value(a, seq![b]),
        scalar.len() == a.len(),
        mag_value(scalar) == (mag_value(a) - b) % base_pow(a.len()),
    ensures
        (mag_value(a) < mag_value(seq![b])) == (mag_value(a) < b),
        general == scalar,
{
    lemma_value_single(seq![b]);
    lemma_value_injective(general, scalar);
}

/// For `a` and `b` of one length with `a` not above `b`, the digits that
/// [`sub2rev`](crate::algorithms::sub::sub2rev) writes over `a` for `b - a`
/// are, once normalized, the magnitude that
/// [`sub_sign`](crate::algorithms::sub::sub_sign) returns for `b - a`.
pub proof fn lemma_sub2rev_agrees_with_sub_sign(
    a: Seq<BigDigit>,
    b: Seq<BigDigit>,
    reversed: Seq<BigDigit>,
    sign: Sign,
    magnitude: Seq<BigDigit>,
)
    requires
        a.len() == b.len(),
        mag_value(a) <= mag_value(b),
        reversed.len() == a.len(),
        mag_value(reversed) == mag_value(b) - mag_value(a),
        sub_sign_result(b, a, sign, magnitude),
    ensures
        sign != Sign::Minus,
        mag_value(reversed) == mag_value(magnitude),
        normalized(reversed) == magnitude,
{
    lemma_normalized(reversed);
    lemma_normalized_unique(normalized(reversed), magnitude);
}

/// [`sub_sign`](crate::algorithms::sub::sub_sign) of a magnitude and itself
/// is zero: no sign, no digits.
pub proof fn lemma_sub_sign_self(a: Seq<BigDigit>, sign: Sign, magnitude: Seq<BigDigit>)
    requires
        sub_sign_result(a, a, sign, magnitude),
    ensures
        sign == Sign::NoSign,
        magnitude == Seq::<BigDigit>::empty(),
{
    lemma_normalized_unique(magnitude, Seq::<BigDigit>::empty());
}

/// [`sub_sign`](crate::algorithms::sub::sub_sign) has one result for each
/// pair of operands.
pub proof fn lemma_sub_sign_unique(
    a: Seq<BigDigit>,
    b: Seq<BigDigit>,
    sign1: Sign,
    magnitude1: Seq<BigDigit>,
    sign2: Sign,
    magnitude2: Seq<BigDigit>,
)
    requires
        sub_sign_result(a, b, sign1, magnitude1),
        sub_sign_result(a, b, sign2, magnitude2),
    ensures
        sign1 == sign2,
        magnitude1 == magnitude2,
{
    lemma_normalized_unique(magnitude1, magnitude2);
}

/// Zero digits appended to either operand do not change what
/// [`sub_sign`](crate::algorithms::sub::sub_sign) returns.
pub proof fn lemma_sub_sign_ignores_padding(
    a: Seq<BigDigit>,
    b: Seq<BigDigit>,
    m: nat,
    n: nat,
    sign: Sign,
    magnitude: Seq<BigDigit>,
    padded_sign: Sign,
    padded_magnitude: Seq<BigDigit>,
)
    requires
        sub_sign_result(a, b, sign, magnitude),
        sub_sign_result(a + zeros(m), b + zeros(n), padded_sign, padded_magnitude),
    ensures
        padded_sign == sign,
        padded_magnitude == magnitude,
{
    lemma_zero_padding(a, m);
    lemma_zero_padding(b, n);
    lemma_sub_sign_unique(a, b, sign, magnitude, padded_sign, padded_magnitude);
}

} // verus!
