//! Subtraction kernels for arbitrary-precision magnitudes.
//!
//! A magnitude is a little-endian sequence of [`BigDigit`]s. The routines in
//! [`algorithms::sub`] subtract one magnitude from another in place, with
//! borrow propagation, and [`sub_sign`] computes the signed difference of two
//! magnitudes. Every routine carries a contract over the mathematical value
//! of the digit sequences, defined in [`magnitude`].

pub mod algorithms;
pub mod big_digit;
pub mod bigint;
pub mod biguint;
pub mod digit_buf;
pub mod magnitude;
pub mod std_specs;

pub use crate::algorithms::sub::{
    __sub2, __sub2rev, __sub_scalar, is_zero, sbb, sub2, sub2rev, sub_sign,
};
pub use crate::big_digit::{BigDigit, SignedDoubleBigDigit, BITS};
pub use crate::bigint::Sign;
pub use crate::biguint::BigUint;
pub use crate::digit_buf::VEC_SIZE;
