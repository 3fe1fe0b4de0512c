//! Exact symbolic algebra for rational transfer functions of one transform
//! variable whose coefficients are integer-weighted products of named
//! parameters raised to integer powers.

pub mod order;
pub mod integer;
pub mod partial_zero;
pub mod partial_one;
pub mod is_neg;
pub mod simplify;
pub mod text;
pub mod sym;
pub mod powered_product;
pub mod weighted_sum;
pub mod coefficient;
pub mod polynomial;
pub mod transfer_function;
pub mod idempotence;
pub mod division;

pub use crate::transfer_function::{Tf, TfVar};
