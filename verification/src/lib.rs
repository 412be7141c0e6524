//! Index bookkeeping and exact combinatorial tables for the mutual-potential
//! expansion of a binary asteroid system.

pub mod coefficients;
pub mod stokes;
pub mod types;
pub mod coefficient_laws;
