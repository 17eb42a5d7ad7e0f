//! Whole vectors of blocks: filling them, and comparing them.

use crate::r1cs_hashes::{inputs_of, Compression, Inputs};
use crate::seed_pipe::generator::{
    gen_block, generated, generator_init, init_of, FILL_CHUNK, WARMUP_SEED,
};
use rayon::prelude::{
    IndexedParallelIterator, ParallelIterator, ParallelSlice, ParallelSliceMut,
};
use vstd::arithmetic::power2::pow2;
use vstd::prelude::*;

verus! {

/// Blocks that one comparing task takes.
pub const EQ_CHUNK: usize = 8192;

/// Whether `v` holds the first blocks of the sequence that starts from `init`.
pub open spec fn are_generated(v: Seq<Compression>, init: u64) -> bool {
    forall|i: int| 0 <= i < v.len() ==> #[trigger] inputs_of(v[i]) == generated(init, i)
}

/// Whether two vectors hold the same blocks.
pub open spec fn same_blocks(a: Seq<Compression>, b: Seq<Compression>) -> bool {
    &&& a.len() == b.len()
    &&& forall|i: int| 0 <= i < a.len() ==> #[trigger] inputs_of(a[i]) == inputs_of(b[i])
}

/// Two vectors of one length from one seed hold the same blocks.
pub proof fn law_generated_vectors_agree(a: Seq<Compression>, b: Seq<Compression>, init: u64)
    requires
        a.len() == b.len(),
        are_generated(a, init),
        are_generated(b, init),
    ensures
        same_blocks(a, b),
{
    assert forall|i: int| 0 <= i < a.len() implies #[trigger] inputs_of(a[i]) == inputs_of(b[i]) by {
        assert(inputs_of(b[i]) == generated(init, i));
    }
}

/// The inputs of a block of zeros.
pub open spec fn zero_inputs() -> Inputs {
    Inputs {
        cv: Seq::new(8, |w: int| 0u32),
        message: Seq::new(16, |w: int| 0u32),
        counter: 0,
        block_len: 0,
        flags: 0,
    }
}

/// A block of zeros.
fn zero_compression() -> (c: Compression)
    ensures
        inputs_of(c) == zero_inputs(),
{
    let c = ([0u32; 8], [0u32; 16], 0u64, 0u32, 0u32);
    assert(c.0@ =~= zero_inputs().cv);
    assert(c.1@ =~= zero_inputs().message);
    c
}

/// `count` blocks of zeros, every page of them written.
pub fn prefaulted_blocks(count: usize) -> (v: Vec<Compression>)
    requires
        count * 112 <= isize::MAX,
    ensures
        v.len() == count,
        forall|i: int| 0 <= i < count ==> inputs_of(#[trigger] v@[i]) == zero_inputs(),
{
    let mut v: Vec<Compression> = Vec::with_capacity(count);
    for i in 0..count
        invariant
            v.len() == i,
            forall|k: int| 0 <= k < i ==> inputs_of(#[trigger] v@[k]) == zero_inputs(),
    {
        v.push(zero_compression());
    }
    v
}

/// Fills chunk number `index` of a vector.
fn fill_nth_chunk(dst: &mut [Compression], index: usize, init: u64)
    requires
        index * 4096 + old(dst).len() <= usize::MAX,
    ensures
        final(dst).len() == old(dst).len(),
        forall|k: int|
            0 <= k < old(dst).len() ==> inputs_of(#[trigger] final(dst)@[k]) == generated(init, 4096 * index + k),
{
    let n = dst.len();
    let base = index * FILL_CHUNK;
    for k in 0..n
        invariant
            n == dst.len(),
            base == 4096 * index,
            base + n <= usize::MAX,
            forall|j: int| 0 <= j < k ==> inputs_of(#[trigger] dst@[j]) == generated(init, 4096 * index + j),
    {
        dst[k] = gen_block(init, base + k);
    }
}

/// `rayon`'s `par_chunks_mut`, `enumerate` and `for_each`. What is claimed of them
/// is that the slice is cut into chunks of [`FILL_CHUNK`] blocks, the last one
/// shorter where they do not fit, and that [`fill_nth_chunk`] is called once on each
/// chunk, with the chunk's number.
#[verifier::external_body]
fn par_fill(out: &mut [Compression], init: u64)
    ensures
        final(out).len() == old(out).len(),
        forall|i: int|
            0 <= i < old(out).len() ==> inputs_of(#[trigger] final(out)@[i]) == generated(
                init,
                4096 * (i / 4096) + i % 4096,
            ),
{
    out.par_chunks_mut(FILL_CHUNK).enumerate().for_each(|(index, dst)| fill_nth_chunk(dst, index, init));
}

/// Fills `out` with the blocks for a size and a seed, chunk by chunk in parallel.
pub fn fill_compressions_par(out: &mut [Compression], log2_size: u32, seed: u64)
    ensures
        final(out).len() == old(out).len(),
        are_generated(final(out)@, init_of(log2_size, seed)),
{
    let init = generator_init(log2_size, seed);
    par_fill(out, init);
    proof {
        assert forall|i: int| 0 <= i < out.len() implies #[trigger] inputs_of(out@[i]) == generated(init, i) by {
            assert(4096 * (i / 4096) + i % 4096 == i);
            assert(inputs_of(out@[i]) == generated(init, 4096 * (i / 4096) + i % 4096));
        }
    }
}

/// `2^log2_size`.
pub fn block_count(log2_size: u32) -> (n: usize)
    requires
        log2_size < usize::BITS,
    ensures
        n == pow2(log2_size as nat),
{
    proof {
        vstd::bits::lemma_usize_pow2_no_overflow(log2_size as nat);
        vstd::bits::lemma_usize_shl_is_mul(1, log2_size as usize);
    }
    1usize << (log2_size as usize)
}

/// The `2^log2_size` blocks for a seed.
pub fn generate_compressions_par(log2_size: u32, seed: u64) -> (out: Vec<Compression>)
    requires
        log2_size < usize::BITS,
        pow2(log2_size as nat) * 112 <= isize::MAX,
    ensures
        out.len() == pow2(log2_size as nat),
        are_generated(out@, init_of(log2_size, seed)),
{
    let mut out = prefaulted_blocks(block_count(log2_size));
    fill_compressions_par(&mut out, log2_size, seed);
    out
}

/// The blocks for a seed, in the buffer set aside for them when it has the right
/// size, and in a new one otherwise.
pub fn blocks_for_seed(scratch: Vec<Compression>, log2_size: u32, seed: u64) -> (out: Vec<Compression>)
    requires
        log2_size < usize::BITS,
        pow2(log2_size as nat) * 112 <= isize::MAX,
    ensures
        out.len() == pow2(log2_size as nat),
        are_generated(out@, init_of(log2_size, seed)),
{
    if scratch.len() == block_count(log2_size) {
        let mut buf = scratch;
        fill_compressions_par(&mut buf, log2_size, seed);
        buf
    } else {
        generate_compressions_par(log2_size, seed)
    }
}

/// Whether two blocks are the same, word by word.
fn block_eq(a: &Compression, b: &Compression) -> (r: bool)
    ensures
        r == (inputs_of(*a) == inputs_of(*b)),
{
    for w in 0..8usize
        invariant
            forall|k: int| 0 <= k < w ==> a.0@[k] == b.0@[k],
    {
        if a.0[w] != b.0[w] {
            assert(inputs_of(*a).cv[w as int] != inputs_of(*b).cv[w as int]);
            return false;
        }
    }
    for w in 0..16usize
        invariant
            forall|k: int| 0 <= k < w ==> a.1@[k] == b.1@[k],
    {
        if a.1[w] != b.1[w] {
            assert(inputs_of(*a).message[w as int] != inputs_of(*b).message[w as int]);
            return false;
        }
    }
    assert(a.0@ =~= b.0@);
    assert(a.1@ =~= b.1@);
    a.2 == b.2 && a.3 == b.3 && a.4 == b.4
}

/// Whether two vectors hold the same blocks, one block after another.
pub fn blocks_eq_serial(a: &[Compression], b: &[Compression]) -> (r: bool)
    ensures
        r == same_blocks(a@, b@),
{
    if a.len() != b.len() {
        return false;
    }
    let n = a.len();
    for i in 0..n
        invariant
            n == a.len(),
            a.len() == b.len(),
            forall|k: int| 0 <= k < i ==> #[trigger] inputs_of(a@[k]) == inputs_of(b@[k]),
    {
        if !block_eq(&a[i], &b[i]) {
            assert(inputs_of(a@[i as int]) != inputs_of(b@[i as int]));
            return false;
        }
    }
    true
}

/// The smaller of two numbers.
pub open spec fn smaller(a: int, b: int) -> int {
    if a < b {
        a
    } else {
        b
    }
}

/// Chunk `c` of `v`.
pub open spec fn eq_chunk(v: Seq<Compression>, c: int) -> Seq<Compression> {
    v.subrange(8192 * c, smaller(8192 * c + 8192, v.len() as int))
}

/// `rayon`'s `par_chunks`, `zip` and `all`. What is claimed of them is that both
/// slices, of one length, are cut into chunks of [`EQ_CHUNK`] blocks, and that the
/// result says whether [`blocks_eq_serial`] holds of every pair of chunks.
#[verifier::external_body]
fn par_all_equal(a: &[Compression], b: &[Compression]) -> (r: bool)
    requires
        a.len() == b.len(),
    ensures
        r == (forall|c: int|
            0 <= c && 8192 * c < a.len() ==> #[trigger] same_blocks(eq_chunk(a@, c), eq_chunk(b@, c))),
{
    a.par_chunks(EQ_CHUNK).zip(b.par_chunks(EQ_CHUNK)).all(|(x, y)| blocks_eq_serial(x, y))
}

/// Whether two vectors hold the same blocks, chunk by chunk in parallel.
pub fn blocks_eq(a: &[Compression], b: &[Compression]) -> (r: bool)
    ensures
        r == same_blocks(a@, b@),
{
    if a.len() != b.len() {
        return false;
    }
    let r = par_all_equal(a, b);
    proof {
        if r {
            assert forall|i: int| 0 <= i < a.len() implies #[trigger] inputs_of(a@[i]) == inputs_of(b@[i]) by {
                let c = i / 8192;
                assert(same_blocks(eq_chunk(a@, c), eq_chunk(b@, c)));
                assert(eq_chunk(a@, c)[i - 8192 * c] == a@[i]);
                assert(eq_chunk(b@, c)[i - 8192 * c] == b@[i]);
                assert(inputs_of(eq_chunk(a@, c)[i - 8192 * c]) == inputs_of(eq_chunk(b@, c)[i - 8192 * c]));
            }
        } else {
            if same_blocks(a@, b@) {
                assert forall|c: int| 0 <= c && 8192 * c < a.len() implies #[trigger] same_blocks(
                    eq_chunk(a@, c),
                    eq_chunk(b@, c),
                ) by {
                    let x = eq_chunk(a@, c);
                    let y = eq_chunk(b@, c);
                    assert forall|i: int| 0 <= i < x.len() implies #[trigger] inputs_of(x[i]) == inputs_of(y[i]) by {
                        assert(x[i] == a@[8192 * c + i]);
                        assert(y[i] == b@[8192 * c + i]);
                        assert(inputs_of(a@[8192 * c + i]) == inputs_of(b@[8192 * c + i]));
                    }
                }
            }
        }
    }
    r
}

/// Whether the warm-up blocks that the caller was given are those of this
/// generator for the warm-up seed. Nothing is compared when the comparison is
/// switched off, outside the ranked worker, or when the number of blocks is off.
pub fn verify_generator_at_warmup(
    log2_size: u32,
    warmup_blocks: &[Compression],
    off_is_set: bool,
    ranked_worker: bool,
) -> (verified: bool)
    requires
        log2_size < usize::BITS,
        pow2(log2_size as nat) * 112 <= isize::MAX,
    ensures
        verified == (!off_is_set && ranked_worker && warmup_blocks.len() == pow2(log2_size as nat) && are_generated(
            warmup_blocks@,
            init_of(log2_size, WARMUP_SEED),
        )),
{
    if off_is_set || !ranked_worker {
        return false;
    }
    if warmup_blocks.len() != block_count(log2_size) {
        return false;
    }
    let ours = generate_compressions_par(log2_size, WARMUP_SEED);
    let r = blocks_eq_serial(&ours, warmup_blocks);
    proof {
        let init = init_of(log2_size, WARMUP_SEED);
        if r {
            assert forall|i: int| 0 <= i < warmup_blocks.len() implies #[trigger] inputs_of(warmup_blocks@[i])
                == generated(init, i) by {
                assert(inputs_of(ours@[i]) == generated(init, i));
            }
        } else if are_generated(warmup_blocks@, init) {
            law_generated_vectors_agree(ours@, warmup_blocks@, init);
        }
    }
    r
}

/// Whether the speculative blocks are those of the caller: all of them compared,
/// or, once the generator has been verified for this build, the length and the
/// first and the last block.
pub fn blocks_matched(generator_verified: bool, speculative: &[Compression], blocks: &[Compression]) -> (r: bool)
    ensures
        !generator_verified ==> r == same_blocks(speculative@, blocks@),
        generator_verified ==> r == (speculative.len() == blocks.len() && (blocks.len() > 0 ==> inputs_of(
            speculative@[0],
        ) == inputs_of(blocks@[0]) && inputs_of(speculative@[speculative.len() - 1]) == inputs_of(
            blocks@[blocks.len() - 1],
        ))),
{
    if generator_verified {
        if speculative.len() != blocks.len() {
            return false;
        }
        let n = blocks.len();
        n == 0 || (block_eq(&speculative[0], &blocks[0]) && block_eq(&speculative[n - 1], &blocks[n - 1]))
    } else {
        blocks_eq(speculative, blocks)
    }
}

} // verus!
