//! Eight BLAKE3 compressions at a time.

use crate::bits::{interleaved8_block_into, is_interleaved, HashMany8Inputs, Interleaved8Block};
use crate::blake3_core::{
    blake3_compress, block_to_words, block_words, compress_cv, compress_full, init_state, steps, BLAKE3_IV,
};
use crate::lanes::{lane_of, seven_rounds_lanes, Lanes, U32x8};
use vstd::prelude::*;

verus! {

/// Lanes of the batch.
pub const DEGREE: usize = 8;

/// Bytes of a block.
pub const BLOCK_LEN: usize = 64;

/// Words of the initial chaining value.
pub const IV_LEN: usize = 8;

/// Words of a chaining value.
pub const OUT_LEN_WORDS: usize = 8;

/// Bytes of a chaining value.
pub const OUT_LEN_BYTES: usize = 32;

/// One chaining value for each lane.
pub type ChainingValues8 = [[u32; 8]; 8];

/// The chaining value of lane `l`.
pub open spec fn lane_cv(inputs: HashMany8Inputs, l: int) -> Seq<u32> {
    compress_cv(
        inputs.chaining_values@[l]@,
        block_words(inputs.blocks@[l]@),
        inputs.counter@[l],
        inputs.block_len@[l],
        inputs.flags@[l],
    )
}

/// Eight compressions; `avx2` selects the form that runs them in lockstep.
pub fn hash_many8(inputs: &HashMany8Inputs, avx2: bool) -> (out: ChainingValues8)
    ensures
        forall|l: int| 0 <= l < 8 ==> #[trigger] out@[l]@ == lane_cv(*inputs, l),
        forall|l: int|
            0 <= l < 8 ==> #[trigger] out@[l]@ == compress_cv(
                inputs.chaining_values@[l]@,
                block_words(inputs.blocks@[l]@),
                inputs.counter@[l],
                inputs.block_len@[l],
                inputs.flags@[l],
            ),
{
    if avx2 {
        hash_many8_avx2(inputs)
    } else {
        hash_many8_scalar(inputs)
    }
}

/// Eight compressions, one after the other.
pub fn hash_many8_scalar(inputs: &HashMany8Inputs) -> (out: ChainingValues8)
    ensures
        forall|l: int| 0 <= l < 8 ==> #[trigger] out@[l]@ == lane_cv(*inputs, l),
{
    let mut out = [[0u32; 8]; 8];
    for lane in 0..8usize
        invariant
            forall|l: int| 0 <= l < lane ==> #[trigger] out@[l]@ == lane_cv(*inputs, l),
    {
        let m = block_to_words(inputs.blocks[lane]);
        let state = blake3_compress(
            inputs.chaining_values[lane],
            &m,
            inputs.counter[lane],
            inputs.block_len[lane],
            inputs.flags[lane],
        );
        let cv = [state[0], state[1], state[2], state[3], state[4], state[5], state[6], state[7]];
        proof {
            assert(cv@ =~= lane_cv(*inputs, lane as int));
        }
        out[lane] = cv;
    }
    out
}

/// Message word `w` of the eight blocks, out of the interleaved bytes.
fn message_word(buf: &Interleaved8Block, w: usize, Ghost(input): Ghost<Seq<&[u8; 64]>>) -> (v: U32x8)
    requires
        w < 16,
        is_interleaved(buf.0@, input),
    ensures
        forall|l: int| 0 <= l < 8 ==> #[trigger] v@[l] == block_words(input[l]@)[w as int],
{
    let bytes = buf.as_bytes();
    let mut lanes = [0u32; 8];
    for l in 0..8usize
        invariant
            w < 16,
            bytes@ == buf.0@,
            is_interleaved(buf.0@, input),
            forall|k: int| 0 <= k < l ==> #[trigger] lanes@[k] == block_words(input[k]@)[w as int],
    {
        let at: usize = 32 * w + l;
        proof {
            assert(buf.0@[8 * (4 * w as int) + l as int] == input[l as int]@[4 * w as int]);
            assert(buf.0@[8 * (4 * w + 1) + l as int] == input[l as int]@[4 * w + 1]);
            assert(buf.0@[8 * (4 * w + 2) + l as int] == input[l as int]@[4 * w + 2]);
            assert(buf.0@[8 * (4 * w + 3) + l as int] == input[l as int]@[4 * w + 3]);
        }
        lanes[l] = (bytes[at] as u32) | ((bytes[at + 8] as u32) << 8) | ((bytes[at + 16] as u32) << 16) | ((
        bytes[at + 24] as u32) << 24);
    }
    Lanes { lanes }
}

/// Chaining value word `w` of every lane.
fn chaining_word(inputs: &HashMany8Inputs, w: usize) -> (v: U32x8)
    requires
        w < 8,
    ensures
        forall|l: int| 0 <= l < 8 ==> #[trigger] v@[l] == inputs.chaining_values@[l]@[w as int],
{
    let mut lanes = [0u32; 8];
    for l in 0..8usize
        invariant
            w < 8,
            forall|k: int| 0 <= k < l ==> #[trigger] lanes@[k] == inputs.chaining_values@[k]@[w as int],
    {
        lanes[l] = inputs.chaining_values[l][w];
    }
    Lanes { lanes }
}

/// The low and high words of the counters.
fn counter_words(inputs: &HashMany8Inputs) -> (v: (U32x8, U32x8))
    ensures
        forall|l: int| 0 <= l < 8 ==> #[trigger] v.0@[l] == crate::blake3_core::counter_lo(inputs.counter@[l]),
        forall|l: int| 0 <= l < 8 ==> #[trigger] v.1@[l] == crate::blake3_core::counter_hi(inputs.counter@[l]),
{
    let mut lo = [0u32; 8];
    let mut hi = [0u32; 8];
    for l in 0..8usize
        invariant
            forall|k: int| 0 <= k < l ==> #[trigger] lo@[k] == crate::blake3_core::counter_lo(inputs.counter@[k]),
            forall|k: int| 0 <= k < l ==> #[trigger] hi@[k] == crate::blake3_core::counter_hi(inputs.counter@[k]),
    {
        lo[l] = inputs.counter[l] as u32;
        hi[l] = (inputs.counter[l] >> 32) as u32;
    }
    (Lanes { lanes: lo }, Lanes { lanes: hi })
}

/// Eight compressions in lockstep: the blocks are interleaved byte by byte, the
/// state is sixteen vectors with one compression in each lane.
pub fn hash_many8_avx2(inputs: &HashMany8Inputs) -> (out: ChainingValues8)
    ensures
        forall|l: int| 0 <= l < 8 ==> #[trigger] out@[l]@ == lane_cv(*inputs, l),
{
    let mut scratch = Interleaved8Block::uninit();
    interleaved8_block_into(&mut scratch, &inputs.blocks);
    let zero: U32x8 = Lanes::splat(0);
    let mut msg = [zero, zero, zero, zero, zero, zero, zero, zero, zero, zero, zero, zero, zero, zero, zero, zero];
    for w in 0..16usize
        invariant
            is_interleaved(scratch.0@, inputs.blocks@),
            forall|k: int, l: int|
                0 <= k < w && 0 <= l < 8 ==> #[trigger] msg@[k]@[l] == block_words(inputs.blocks@[l]@)[k],
    {
        let v = message_word(&scratch, w, Ghost(inputs.blocks@));
        msg[w] = v;
    }
    let (lo, hi) = counter_words(inputs);
    let mut s = [
        chaining_word(inputs, 0),
        chaining_word(inputs, 1),
        chaining_word(inputs, 2),
        chaining_word(inputs, 3),
        chaining_word(inputs, 4),
        chaining_word(inputs, 5),
        chaining_word(inputs, 6),
        chaining_word(inputs, 7),
        Lanes::splat(BLAKE3_IV[0]),
        Lanes::splat(BLAKE3_IV[1]),
        Lanes::splat(BLAKE3_IV[2]),
        Lanes::splat(BLAKE3_IV[3]),
        lo,
        hi,
        Lanes { lanes: inputs.block_len },
        Lanes { lanes: inputs.flags },
    ];
    let ghost s0 = s@;
    seven_rounds_lanes(&mut s, &msg);
    let mut out = [[0u32; 8]; 8];
    for lane in 0..8usize
        invariant
            forall|l: int, w: int|
                0 <= l < lane && 0 <= w < 8 ==> #[trigger] out@[l]@[w] == s@[w]@[l] ^ s@[w + 8]@[l],
    {
        let mut cv = [0u32; 8];
        for w in 0..8usize
            invariant
                lane < 8,
                forall|k: int| 0 <= k < w ==> #[trigger] cv@[k] == s@[k]@[lane as int] ^ s@[k + 8]@[lane as int],
        {
            let v = s[w].xor(s[w + 8]);
            assert(v@[lane as int] == s@[w as int]@[lane as int] ^ s@[w + 8]@[lane as int]);
            cv[w] = v.lanes[lane];
        }
        out[lane] = cv;
    }
    proof {
        assert forall|l: int| 0 <= l < 8 implies #[trigger] out@[l]@ == lane_cv(*inputs, l) by {
            let cv = inputs.chaining_values@[l]@;
            let m = block_words(inputs.blocks@[l]@);
            assert(lane_of(msg@, l) =~= m);
            assert(lane_of(s0, l) =~= init_state(cv, inputs.counter@[l], inputs.block_len@[l], inputs.flags@[l]));
            assert(lane_of(s@, l) == steps(lane_of(s0, l), lane_of(msg@, l), 0, 56));
            assert forall|w: int| 0 <= w < 8 implies #[trigger] out@[l]@[w] == lane_cv(*inputs, l)[w] by {
                assert(lane_of(s@, l)[w] == s@[w]@[l]);
                assert(lane_of(s@, l)[w + 8] == s@[w + 8]@[l]);
            }
            assert(out@[l]@ =~= lane_cv(*inputs, l));
        }
    }
    out
}

/// The lanes do not mix: a lane's chaining value is what one compression of that
/// lane's block alone gives, so batches that agree in a lane agree in its result.
pub proof fn law_lanes_do_not_mix(p: HashMany8Inputs, q: HashMany8Inputs, i: int, j: int)
    requires
        p.chaining_values@[i]@ == q.chaining_values@[j]@,
        p.blocks@[i]@ == q.blocks@[j]@,
        p.counter@[i] == q.counter@[j],
        p.block_len@[i] == q.block_len@[j],
        p.flags@[i] == q.flags@[j],
    ensures
        lane_cv(p, i) == lane_cv(q, j),
        lane_cv(p, i) == compress_full(
            q.chaining_values@[j]@,
            block_words(q.blocks@[j]@),
            q.counter@[j],
            q.block_len@[j],
            q.flags@[j],
        ).subrange(0, 8),
{
    assert(lane_cv(p, i) =~= compress_full(
        q.chaining_values@[j]@,
        block_words(q.blocks@[j]@),
        q.counter@[j],
        q.block_len@[j],
        q.flags@[j],
    ).subrange(0, 8));
}

} // verus!
