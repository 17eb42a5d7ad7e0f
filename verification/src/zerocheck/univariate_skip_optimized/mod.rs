//! The univariate-skip round: the byte extension, its fused product kernels, and
//! the accumulation of their results.

pub mod inv_table;
pub mod gfni_extend;
pub mod kernels;
pub mod laws;
pub mod pad_skip;
