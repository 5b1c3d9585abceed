//! The arithmetic kernels.

pub mod laws;
pub mod order;
pub mod sub;
