//! Kernels of the multilinear rounds: folds fused with the next round's message.

pub mod fold;
pub mod laws;
pub mod message;
pub mod row_fold;
pub mod sweep;
