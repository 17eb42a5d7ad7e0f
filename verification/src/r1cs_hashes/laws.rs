//! Where the witness bits stand in the buffers, and what the lanes take as inputs.

use super::blake3_witgen16::{hexa_inputs, HexaInputs};
use super::blake3_witgen8::{first_group, lane_inputs, last_group};
use super::{
    bit32, is_drained, is_word, law_elision_keeps_blocks_whole, witness_bit, Compression, Inputs, Side,
    ELIDE_B_TAIL_CHUNK, ELIDE_B_TAIL_CHUNK_WIN, ELIDE_ZERO_CHUNK,
};
use crate::seed_pipe::generator::generated;
use vstd::prelude::*;

verus! {

/// A block takes 512 words of a buffer. Bit `i` of block `k` stands in word `i / 32` of the
/// block, where its group of eight words was stored; the words of the other groups are as
/// they were.
pub proof fn law_buffers_hold_every_stored_bit(
    d0: Seq<u32>,
    d: Seq<u32>,
    side: Side,
    cs: Seq<Inputs>,
    g0: int,
    g1: int,
    k: int,
    i: int,
)
    requires
        is_drained(d0, d, side, cs, g0, g1),
        0 <= k,
        512 * k + 512 <= d.len(),
        0 <= i < 16384,
    ensures
        d.len() == d0.len(),
        256 * g0 <= i < 256 * g1 ==> ((d[512 * k + i / 32] >> ((i % 32) as u32)) & 1 == 1) == witness_bit(
            side,
            cs[k],
            i,
        ),
        !(256 * g0 <= i < 256 * g1) ==> d[512 * k + i / 32] == d0[512 * k + i / 32],
{
    let w = i / 32;
    let p = 512 * k + w;
    assert(p % 512 == w && p / 512 == k);
    assert(256 * g0 <= i < 256 * g1 <==> 8 * g0 <= w < 8 * g1);
    assert(d[p] == d[p]);
    if 8 * g0 <= w < 8 * g1 {
        assert(is_word(d[p], side, cs[p / 512], p % 512));
        assert(bit32(d[p], i % 32) == witness_bit(side, cs[k], 32 * w + i % 32));
    }
}

/// Without elision every group is stored, from the first to the last of the sixty-four.
pub proof fn law_without_elision_all_groups_are_stored(tail_chunk: int)
    ensures
        first_group(false) == 0,
        last_group(false, tail_chunk) == 64,
{
}

/// Elision stores no wrong block: over a buffer that held the blocks of any compressions,
/// the groups that are stored and those that are left out make up the whole blocks of the
/// new ones, on every side and whatever the switches say.
pub proof fn law_elision_stores_whole_blocks(
    z0: Seq<u32>,
    z: Seq<u32>,
    b0: Seq<u32>,
    b: Seq<u32>,
    side: Side,
    before: Seq<Inputs>,
    cs: Seq<Inputs>,
    elide: bool,
    in_pairs: bool,
)
    requires
        side != Side::B,
        is_drained(z0, z0, side, before, 0, 64),
        is_drained(b0, b0, Side::B, before, 0, 64),
        is_drained(z0, z, side, cs, 0, last_group(elide, ELIDE_ZERO_CHUNK as int)),
        is_drained(
            b0,
            b,
            Side::B,
            cs,
            first_group(elide),
            last_group(
                elide,
                if in_pairs {
                    ELIDE_B_TAIL_CHUNK_WIN as int
                } else {
                    ELIDE_B_TAIL_CHUNK as int
                },
            ),
        ),
    ensures
        forall|k: int, i: int|
            0 <= k && 512 * k + 512 <= z.len() && 0 <= i < 16384 ==> bit32(z[512 * k + #[trigger] (i / 32)], i % 32)
                == #[trigger] witness_bit(side, cs[k], i),
        forall|k: int, i: int|
            0 <= k && 512 * k + 512 <= b.len() && 0 <= i < 16384 ==> bit32(b[512 * k + #[trigger] (i / 32)], i % 32)
                == #[trigger] witness_bit(Side::B, cs[k], i),
{
    let b_tail = if in_pairs {
        ELIDE_B_TAIL_CHUNK_WIN as int
    } else {
        ELIDE_B_TAIL_CHUNK as int
    };
    law_elision_keeps_blocks_whole(z0, z, side, before, cs, 0, last_group(elide, ELIDE_ZERO_CHUNK as int));
    law_elision_keeps_blocks_whole(b0, b, Side::B, before, cs, first_group(elide), last_group(elide, b_tail));
    assert forall|k: int, i: int| 0 <= k && 512 * k + 512 <= z.len() && 0 <= i < 16384 implies bit32(
        z[512 * k + #[trigger] (i / 32)],
        i % 32,
    ) == #[trigger] witness_bit(side, cs[k], i) by {
        law_buffers_hold_every_stored_bit(z0, z, side, cs, 0, 64, k, i);
    }
    assert forall|k: int, i: int| 0 <= k && 512 * k + 512 <= b.len() && 0 <= i < 16384 implies bit32(
        b[512 * k + #[trigger] (i / 32)],
        i % 32,
    ) == #[trigger] witness_bit(Side::B, cs[k], i) by {
        law_buffers_hold_every_stored_bit(b0, b, Side::B, cs, 0, 64, k, i);
    }
}

/// Lane `j` takes the chaining value, the message, the counter, the length and the flags
/// of block `j`; closed lanes take the generated blocks from `base` on.
pub proof fn law_lanes_take_their_own_inputs(blocks: [&Compression; 16], init: u64, base: usize, j: int)
    requires
        0 <= j < 16,
    ensures
        ({
            let open = hexa_inputs(HexaInputs::Blocks(blocks));
            let closed = hexa_inputs(HexaInputs::Closed { init, base });
            &&& open.len() == 16
            &&& open[j].cv == blocks@[j].0@
            &&& open[j].message == blocks@[j].1@
            &&& open[j].counter == blocks@[j].2
            &&& open[j].block_len == blocks@[j].3
            &&& open[j].flags == blocks@[j].4
            &&& closed.len() == 16
            &&& closed[j] == generated(init, base + j)
        }),
{
}

/// The same of lanes behind any array of references.
pub proof fn law_lanes_take_inputs_in_order(inputs: Seq<&Compression>, j: int)
    requires
        0 <= j < inputs.len(),
    ensures
        lane_inputs(inputs).len() == inputs.len(),
        lane_inputs(inputs)[j].cv == inputs[j].0@,
        lane_inputs(inputs)[j].message == inputs[j].1@,
        lane_inputs(inputs)[j].counter == inputs[j].2,
        lane_inputs(inputs)[j].block_len == inputs[j].3,
        lane_inputs(inputs)[j].flags == inputs[j].4,
{
}

} // verus!
