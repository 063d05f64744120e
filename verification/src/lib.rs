//! Evolution-strategy training of a small feed-forward network.
//!
//! Every number is a double-precision value held as its IEEE 754 binary64
//! bit pattern in a `u64`; the standard library's `to_bits` and `from_bits`
//! lead in and out. The arithmetic on the patterns is done on integers and
//! rounds to nearest, ties to even.
//!
//! - `binary64`: the arithmetic on single values.
//! - `matrix`: dense matrices, their arithmetic, statistics and activation.
//! - `nn`: the network, its construction, inference and arithmetic.
//! - `trainer`: the steps of a generation and the state of a run.
//! - `xor`: the task that the accompanying program trains for.
//! - `laws`: what holds of matrices and networks for all inputs.

pub mod binary64;
pub mod error;
pub mod laws;
pub mod matrix;
pub mod nn;
pub mod trainer;
pub mod xor;
