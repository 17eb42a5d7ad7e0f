# flock

Kernels of a prover over binary fields, with proofs of what they compute.

- `field`: GF(2^128) and GF(2^8), products in several forms, folds over slices
- `bits`, `bytes64`, `lanes`: bit transposes and vectors of bytes and words
- `blake3_core`, `blake3_hash_many8`, `merkle`, `compression`, `hash`: BLAKE3, one
  block at a time and many in lockstep
- `r1cs_hashes`: the packed witness rows of BLAKE3 compressions
- `zerocheck`, `lincheck`, `ntt`: kernels of the sum checks and of the transform
- `seed_pipe`, `recycle_alloc`, `settings`, `bench_alloc`: the decisions of the
  process around the prover

`app/` holds what touches the machine: the process allocator, descriptors and
threads, the environment, and the allocation benchmark.
