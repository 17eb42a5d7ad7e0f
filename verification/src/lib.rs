//! Prover kernels: binary-field arithmetic, folds, hashing and witness packing.

pub mod bench_alloc;
pub mod bits;
pub mod blake3_core;
pub mod blake3_hash_many8;
pub mod bytes64;
pub mod compression;
pub mod field;
pub mod gaptime;
pub mod hash;
pub mod lanes;
pub mod lincheck;
pub mod merkle;
pub mod ntt;
pub mod r1cs_hashes;
pub mod recycle_alloc;
pub mod seed_pipe;
pub mod settings;
pub mod zerocheck;
