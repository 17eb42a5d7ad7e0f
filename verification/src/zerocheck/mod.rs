//! Kernels of the zero check.

pub mod multilinear;
pub mod univariate_skip_optimized;
