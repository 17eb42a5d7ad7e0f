//! Seed expansion and the pipeline that proves ahead of its caller.

pub mod blocks;
pub mod generator;
pub mod laws;
pub mod line;
pub mod pipe;
