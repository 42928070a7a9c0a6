//! Exact damage distributions for tabletop attack routines.
//!
//! Probabilities are kept as integer weights over a common denominator, so
//! every distribution, mean and comparison below is exact.

pub mod sums;
pub mod combat;
pub mod pmf;
pub mod math;
pub mod algebra;
pub mod coordinator;
