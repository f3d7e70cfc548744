//! A HyperLogLog cardinality estimator over a fixed array of registers.
//!
//! The register array, its update rule, and every integer part of the
//! estimate (the harmonic sum, the bias constant, the choice between the raw
//! estimate and linear counting) are verified here. Turning those exact
//! quantities into a floating-point estimate is left to the caller.

pub mod estimate;
pub mod registers;

pub use estimate::Regime;
pub use registers::{HyperLogLog, HyperLogLogError, MAX_REGISTERS};
