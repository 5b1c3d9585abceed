//! The growable digit buffer that holds a magnitude.
//!
//! The buffer is a `SmallVec`, which keeps short magnitudes inline. Nothing
//! in this module is proved: each contract states what the `smallvec` source
//! shows of the function that the body calls.

use crate::big_digit::BigDigit;
use smallvec::SmallVec;
use vstd::prelude::*;

verus! {

/// Number of digits that a buffer holds without a heap allocation.
pub const VEC_SIZE: usize = 4;

/// A `SmallVec` of digits. Its contents are [`buf_digits`].
#[verifier::external_body]
pub struct DigitBuf {
    inner: SmallVec<[BigDigit; VEC_SIZE]>,
}

/// The digits that a buffer holds, in order.
pub uninterp spec fn buf_digits(buf: DigitBuf) -> Seq<BigDigit>;

/// `SmallVec::new`: an empty buffer.
#[verifier::external_body]
pub(crate) fn buf_new() -> (buf: DigitBuf)
    ensures
        buf_digits(buf) == Seq::<BigDigit>::empty(),
{
    DigitBuf { inner: SmallVec::new() }
}

/// `SmallVec::from` on a slice: a buffer that holds a copy of the digits of
/// `digits`, in the same order.
#[verifier::external_body]
pub(crate) fn buf_from_slice(digits: &[BigDigit]) -> (buf: DigitBuf)
    ensures
        buf_digits(buf) == digits@,
{
    DigitBuf { inner: SmallVec::from(digits) }
}

/// `SmallVec::as_slice`: the contents as a slice.
#[verifier::external_body]
pub(crate) fn buf_as_slice(buf: &DigitBuf) -> (digits: &[BigDigit])
    ensures
        digits@ == buf_digits(*buf),
{
    buf.inner.as_slice()
}

/// `SmallVec::as_mut_slice`: the contents as a mutable slice. What is
/// written through the slice is what the buffer holds afterwards.
#[verifier::external_body]
pub(crate) fn buf_as_mut_slice(buf: &mut DigitBuf) -> (digits: &mut [BigDigit])
    ensures
        digits@ == buf_digits(*old(buf)),
        buf_digits(*final(buf)) == final(digits)@,
{
    buf.inner.as_mut_slice()
}

/// `SmallVec::truncate`: keeps the first `len` digits and drops the rest;
/// no effect if the buffer holds no more than `len` digits.
#[verifier::external_body]
pub(crate) fn buf_truncate(buf: &mut DigitBuf, len: usize)
    ensures
        buf_digits(*final(buf)) == (if len < buf_digits(*old(buf)).len() {
            buf_digits(*old(buf)).take(len as int)
        } else {
            buf_digits(*old(buf))
        }),
{
    buf.inner.truncate(len)
}

} // verus!
