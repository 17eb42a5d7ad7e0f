//! Binary fields and the slice kernels over them.

pub mod f128_slice;
pub mod gf2_128;
pub mod gf2_8;
