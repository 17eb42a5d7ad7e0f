//! Witness rows of eight compressions in lockstep.
//!
//! The rows are staged word by word with one compression in each lane, then
//! transposed into eight consecutive blocks.

use super::{
    are_fields, bit32, chain_word, field_pos, is_drained, is_full_stage, is_word, lanes_at, lemma_bit_ops,
    lemma_bit_shifts, lemma_field_bit, lemma_head_word, lemma_out_hi_bit, lemma_zero_word, next_bits, state_at,
    step_field, step_fields, streamed, witness_bit, inputs_of, Compression, Inputs, Side, DUMP_CHUNKS,
    ELIDE_B_PREFIX_CHUNKS, ELIDE_B_TAIL_CHUNK, ELIDE_B_TAIL_CHUNK_WIN, ELIDE_ZERO_CHUNK, GS_BASE, G_STRIDE,
    LAST_WORD, OUT_HI_BASE, U32_PER_BLOCK, USEFUL_BITS,
};
use crate::blake3_core::{init_state, BLAKE3_IV};
use crate::lanes::{join8, lane_of, tr8, tr8z, Lanes, U32x16, U32x8};
use vstd::prelude::*;

verus! {

/// Eight packed-word writers side by side. `pending` holds the bits of the
/// incomplete word in its low end; complete words go to `stage`.
pub struct W8 {
    pub pending: U32x8,
    pub stage: Vec<U32x8>,
}

/// Whether the pending words end with the useful bits.
spec fn high_clear(pending: U32x8) -> bool {
    forall|j: int, t: int| 0 <= j < 8 && 17 <= t < 32 ==> !#[trigger] bit32(pending@[j], t)
}

impl W8 {
    /// A writer over a zeroed block.
    fn at(pending: U32x8) -> (w: W8)
        ensures
            w.pending == pending,
            w.stage@.len() == U32_PER_BLOCK,
    {
        let mut stage: Vec<U32x8> = Vec::new();
        let zero: U32x8 = Lanes::splat(0);
        for i in 0..U32_PER_BLOCK
            invariant
                stage@.len() == i,
        {
            stage.push(zero);
        }
        W8 { pending, stage }
    }

    /// Appends the low `width` bits of `v` at bit `pos`.
    fn push(&mut self, pos: usize, width: usize, v: U32x8, Ghost(side): Ghost<Side>, Ghost(cs): Ghost<Seq<Inputs>>)
        requires
            old(self).stage@.len() == U32_PER_BLOCK,
            1153 <= pos,
            pos + width <= USEFUL_BITS,
            width == 31 || width == 32,
            streamed(old(self).stage@, old(self).pending, side, cs, pos as int),
            next_bits(v, side, cs, pos as int, width as int),
        ensures
            final(self).stage@.len() == U32_PER_BLOCK,
            streamed(final(self).stage@, final(self).pending, side, cs, pos + width),
            forall|w: int| 0 <= w < 36 ==> #[trigger] final(self).stage@[w] == old(self).stage@[w],
            width == 32 && pos % 32 > 0 ==> forall|j: int|
                0 <= j < 8 ==> #[trigger] final(self).pending@[j] == v@[j] >> ((32 - pos % 32) as u32),
    {
        let used: usize = pos % 32;
        let word: usize = pos / 32;
        let ghost stage0 = self.stage@;
        let ghost pending0 = self.pending;
        if used == 0 {
            if width == 32 {
                self.stage[word] = v;
                self.pending = Lanes::splat(0);
            } else {
                self.pending = v;
            }
        } else {
            let out = self.pending.vsli(v, used as u32);
            self.stage[word] = out;
            if used + width == 32 {
                self.pending = Lanes::splat(0);
            } else {
                self.pending = v.shr((32 - used) as u32);
            }
        }
        proof {
            assert forall|j: int, i: int| 0 <= j < 8 && 1152 <= i < pos + width implies #[trigger] witness_bit(
                side,
                cs[j],
                i,
            ) == bit32(
                if i / 32 < (pos + width) / 32 {
                    self.stage@[i / 32]@[j]
                } else {
                    self.pending@[j]
                },
                i % 32,
            ) by {
                let t = i % 32;
                if i < pos {
                    assert(witness_bit(side, cs[j], i) == bit32(
                        if i / 32 < pos as int / 32 {
                            stage0[i / 32]@[j]
                        } else {
                            pending0@[j]
                        },
                        i % 32,
                    ));
                } else {
                    assert(bit32(v@[j], i - pos) == witness_bit(side, cs[j], pos + (i - pos)));
                }
                lemma_bit_shifts(pending0@[j], v@[j], used as u32, t as u32);
                if used > 0 {
                    if i / 32 == word {
                        assert(self.stage@[word as int]@[j] == crate::lanes::merge_bits(
                            pending0@[j],
                            v@[j],
                            used as u32,
                        ));
                    } else if i / 32 > word {
                        assert(i / 32 == word + 1);
                        assert(self.pending@[j] == v@[j] >> ((32 - used) as u32));
                    }
                }
            }
        }
    }

    /// Appends the fields of record `n`.
    fn push_record(
        &mut self,
        n: usize,
        fields: &[U32x8; 8],
        Ghost(side): Ghost<Side>,
        Ghost(cs): Ghost<Seq<Inputs>>,
    )
        requires
            old(self).stage@.len() == U32_PER_BLOCK,
            n < 56,
            streamed(old(self).stage@, old(self).pending, side, cs, GS_BASE + G_STRIDE * n),
            forall|f: int, j: int|
                0 <= f < 8 && 0 <= j < 8 ==> #[trigger] fields@[f]@[j] == step_field(
                    side,
                    state_at(cs[j], n as int),
                    cs[j].message,
                    n as int,
                    f,
                ),
        ensures
            final(self).stage@.len() == U32_PER_BLOCK,
            streamed(final(self).stage@, final(self).pending, side, cs, GS_BASE + G_STRIDE * (n + 1)),
            forall|w: int| 0 <= w < 36 ==> #[trigger] final(self).stage@[w] == old(self).stage@[w],
    {
        let ghost stage0 = self.stage@;
        let base: usize = GS_BASE + G_STRIDE * n;
        for f in 0..8usize
            invariant
                n < 56,
                base == GS_BASE + G_STRIDE * n,
                self.stage@.len() == U32_PER_BLOCK,
                streamed(self.stage@, self.pending, side, cs, base + field_pos(f as int)),
                forall|w: int| 0 <= w < 36 ==> #[trigger] self.stage@[w] == stage0[w],
                forall|f: int, j: int|
                    0 <= f < 8 && 0 <= j < 8 ==> #[trigger] fields@[f]@[j] == step_field(
                        side,
                        state_at(cs[j], n as int),
                        cs[j].message,
                        n as int,
                        f,
                    ),
        {
            let v = fields[f];
            let (off, width): (usize, usize) = if f < 6 {
                (31 * f, 31)
            } else {
                (186 + 32 * (f - 6), 32)
            };
            proof {
                assert forall|j: int, t: int| 0 <= j < 8 && 0 <= t < width implies #[trigger] bit32(v@[j], t)
                    == witness_bit(side, cs[j], (base + off) + t) by {
                    lemma_field_bit(side, cs[j], n as int, f as int, t);
                    assert(fields@[f as int]@[j] == v@[j]);
                }
            }
            self.push(base + off, width, v, Ghost(side), Ghost(cs));
        }
    }

    /// Appends word `w` of the upper output half.
    fn push_out_hi(&mut self, w: usize, v: U32x8, Ghost(side): Ghost<Side>, Ghost(cs): Ghost<Seq<Inputs>>)
        requires
            old(self).stage@.len() == U32_PER_BLOCK,
            w < 8,
            streamed(old(self).stage@, old(self).pending, side, cs, OUT_HI_BASE + 32 * w),
            forall|j: int|
                0 <= j < 8 ==> #[trigger] v@[j] == (if side == Side::B {
                    u32::MAX
                } else {
                    state_at(cs[j], 56)[w + 8] ^ cs[j].cv[w as int]
                }),
        ensures
            final(self).stage@.len() == U32_PER_BLOCK,
            streamed(final(self).stage@, final(self).pending, side, cs, OUT_HI_BASE + 32 * (w + 1)),
            forall|k: int| 0 <= k < 36 ==> #[trigger] final(self).stage@[k] == old(self).stage@[k],
            high_clear(final(self).pending),
    {
        proof {
            assert forall|j: int, t: int| 0 <= j < 8 && 0 <= t < 32 implies #[trigger] bit32(v@[j], t) == witness_bit(
                side,
                cs[j],
                (OUT_HI_BASE + 32 * w) + t,
            ) by {
                lemma_out_hi_bit(side, cs[j], w as int, t);
                lemma_bit_ops(v@[j], v@[j], t as u32);
            }
            assert((OUT_HI_BASE + 32 * w) % 32 == 17);
        }
        self.push(OUT_HI_BASE + 32 * w, 32, v, Ghost(side), Ghost(cs));
        proof {
            assert forall|j: int, t: int| 0 <= j < 8 && 17 <= t < 32 implies !#[trigger] bit32(self.pending@[j], t) by {
                lemma_bit_shifts(v@[j], v@[j], 17, t as u32);
            }
        }
    }

    /// Stores the last incomplete word and the zero tail, which completes the
    /// stage if the words before the records are in place.
    fn finish(&mut self, Ghost(side): Ghost<Side>, Ghost(cs): Ghost<Seq<Inputs>>)
        requires
            old(self).stage@.len() == U32_PER_BLOCK,
            streamed(old(self).stage@, old(self).pending, side, cs, USEFUL_BITS as int),
            high_clear(old(self).pending),
            forall|w: int, j: int|
                0 <= w < 36 && 0 <= j < 8 ==> is_word(#[trigger] old(self).stage@[w]@[j], side, cs[j], w),
        ensures
            is_full_stage(final(self).stage@, side, cs),
    {
        let ghost stage0 = self.stage@;
        let pending = self.pending;
        self.stage[LAST_WORD] = pending;
        let zero: U32x8 = Lanes::splat(0);
        for w in 482..U32_PER_BLOCK
            invariant
                self.stage@.len() == U32_PER_BLOCK,
                forall|k: int| 0 <= k < LAST_WORD ==> #[trigger] self.stage@[k] == stage0[k],
                self.stage@[LAST_WORD as int] == pending,
                forall|k: int| 482 <= k < w ==> #[trigger] self.stage@[k] == zero,
        {
            self.stage[w] = zero;
        }
        proof {
            assert forall|w: int, j: int| 0 <= w < U32_PER_BLOCK && 0 <= j < 8 implies is_word(
                #[trigger] self.stage@[w]@[j],
                side,
                cs[j],
                w,
            ) by {
                if w < 36 {
                    assert(is_word(stage0[w]@[j], side, cs[j], w));
                } else if w >= 482 {
                    lemma_zero_word(side, cs[j], w);
                } else {
                    let x = self.stage@[w]@[j];
                    assert forall|t: int| 0 <= t < 32 implies #[trigger] bit32(x, t) == witness_bit(
                        side,
                        cs[j],
                        32 * w + t,
                    ) by {
                        let i = 32 * w + t;
                        assert(i / 32 == w && i % 32 == t);
                        if i < USEFUL_BITS {
                            assert(witness_bit(side, cs[j], i) == bit32(
                                if i / 32 < USEFUL_BITS as int / 32 {
                                    stage0[i / 32]@[j]
                                } else {
                                    pending@[j]
                                },
                                i % 32,
                            ));
                        } else {
                            assert(!bit32(pending@[j], t));
                            reveal(witness_bit);
                        }
                    }
                }
            }
        }
    }
}

// ---- storing a stage ----

/// Whether the groups `g0..g1` of each of eight blocks in `d` hold the lanes of
/// `stage`, and the others are as in `d0`.
pub open spec fn is_dumped(d0: Seq<u32>, d: Seq<u32>, stage: Seq<U32x8>, g0: int, g1: int) -> bool {
    &&& d.len() == d0.len()
    &&& forall|p: int|
        0 <= p < d.len() ==> #[trigger] d[p] == (if 8 * g0 <= p % 512 < 8 * g1 {
            stage[p % 512]@[p / 512]
        } else {
            d0[p]
        })
}

/// Stores eight words at `at`.
pub(crate) fn store_v8(dst: &mut [u32], at: usize, v: U32x8)
    requires
        at + 8 <= old(dst).len(),
    ensures
        final(dst)@.len() == old(dst)@.len(),
        forall|p: int|
            0 <= p < final(dst)@.len() ==> #[trigger] final(dst)@[p] == (if at <= p < at + 8 {
                v@[p - at]
            } else {
                old(dst)@[p]
            }),
{
    let ghost d0 = dst@;
    for i in 0..8usize
        invariant
            at + 8 <= dst.len(),
            dst@.len() == d0.len(),
            forall|p: int|
                0 <= p < dst@.len() ==> #[trigger] dst@[p] == (if at <= p < at + i {
                    v@[p - at]
                } else {
                    d0[p]
                }),
    {
        dst[at + i] = v.lanes[i];
    }
}

/// Transposes the eight stage words at `w`: row `r` is a run of block `r`.
pub fn tr8_chunk(stage: &[U32x8], w: usize) -> (t: [U32x8; 8])
    requires
        w + 8 <= stage.len(),
    ensures
        forall|r: int, i: int| 0 <= r < 8 && 0 <= i < 8 ==> #[trigger] t@[r]@[i] == stage@[w + i]@[r],
{
    let rows = [
        stage[w],
        stage[w + 1],
        stage[w + 2],
        stage[w + 3],
        stage[w + 4],
        stage[w + 5],
        stage[w + 6],
        stage[w + 7],
    ];
    let t = tr8(rows);
    proof {
        assert forall|r: int, i: int| 0 <= r < 8 && 0 <= i < 8 implies #[trigger] t@[r]@[i] == stage@[w + i]@[r] by {
            assert(t@[r]@[i] == rows@[i]@[r]);
            assert(i == 0 || i == 1 || i == 2 || i == 3 || i == 4 || i == 5 || i == 6 || i == 7);
        }
    }
    t
}

/// [`tr8_chunk`] for the groups at `w` and `w + 8` together: row `r` holds the
/// runs of both.
pub fn tr8z_chunk_pair(stage: &[U32x8], w: usize) -> (t: [U32x16; 8])
    requires
        w + 16 <= stage.len(),
    ensures
        forall|r: int, i: int| 0 <= r < 8 && 0 <= i < 16 ==> #[trigger] t@[r]@[i] == stage@[w + i]@[r],
{
    let z = [
        join8(stage[w], stage[w + 1]),
        join8(stage[w + 2], stage[w + 3]),
        join8(stage[w + 4], stage[w + 5]),
        join8(stage[w + 6], stage[w + 7]),
        join8(stage[w + 8], stage[w + 9]),
        join8(stage[w + 10], stage[w + 11]),
        join8(stage[w + 12], stage[w + 13]),
        join8(stage[w + 14], stage[w + 15]),
    ];
    let t = tr8z(z);
    proof {
        assert forall|r: int, i: int| 0 <= r < 8 && 0 <= i < 16 implies #[trigger] t@[r]@[i] == stage@[w + i]@[r] by {
            assert(t@[r]@[i] == z@[i / 2]@[8 * (i % 2) + r]);
            assert(i == 0 || i == 1 || i == 2 || i == 3 || i == 4 || i == 5 || i == 6 || i == 7 || i == 8 || i == 9
                || i == 10 || i == 11 || i == 12 || i == 13 || i == 14 || i == 15);
        }
    }
    t
}

/// The two groups of [`tr8z_chunk_pair`], from one network or from two.
fn chunk_pair(stage: &[U32x8], w: usize, tr8z_enabled: bool) -> (t: ([U32x8; 8], [U32x8; 8]))
    requires
        w + 16 <= stage.len(),
    ensures
        forall|r: int, i: int| 0 <= r < 8 && 0 <= i < 8 ==> #[trigger] t.0@[r]@[i] == stage@[w + i]@[r],
        forall|r: int, i: int| 0 <= r < 8 && 0 <= i < 8 ==> #[trigger] t.1@[r]@[i] == stage@[w + 8 + i]@[r],
{
    if tr8z_enabled {
        let zt = tr8z_chunk_pair(stage, w);
        let zero: U32x8 = Lanes::splat(0);
        let mut ta = [zero, zero, zero, zero, zero, zero, zero, zero];
        let mut tb = [zero, zero, zero, zero, zero, zero, zero, zero];
        for r in 0..8usize
            invariant
                forall|r: int, i: int| 0 <= r < 8 && 0 <= i < 16 ==> #[trigger] zt@[r]@[i] == stage@[w + i]@[r],
                forall|k: int, i: int| 0 <= k < r && 0 <= i < 8 ==> #[trigger] ta@[k]@[i] == stage@[w + i]@[k],
                forall|k: int, i: int| 0 <= k < r && 0 <= i < 8 ==> #[trigger] tb@[k]@[i] == stage@[w + 8 + i]@[k],
        {
            let (lo, hi) = crate::lanes::split16(zt[r]);
            ta[r] = lo;
            tb[r] = hi;
            proof {
                assert forall|i: int| 0 <= i < 8 implies #[trigger] lo@[i] == stage@[w + i]@[r as int] && hi@[i]
                    == stage@[w + 8 + i]@[r as int] by {
                    assert(zt@[r as int]@[i] == stage@[w + i]@[r as int]);
                    assert(zt@[r as int]@[i + 8] == stage@[w + (i + 8)]@[r as int]);
                    assert(hi@[i] == zt@[r as int]@[i + 8]);
                    assert(w + (i + 8) == w + 8 + i);
                }
                assert forall|k: int, i: int| 0 <= k < r + 1 && 0 <= i < 8 implies #[trigger] tb@[k]@[i] == stage@[w
                    + 8 + i]@[k] by {
                    if k == r {
                        assert(lo@[i] == stage@[w + i]@[r as int]);
                    }
                }
            }
        }
        (ta, tb)
    } else {
        (tr8_chunk(stage, w), tr8_chunk(stage, w + 8))
    }
}

/// Stores the transposed group `g`.
fn store_chunk(dst: &mut [u32], g: usize, t: &[U32x8; 8], Ghost(stage): Ghost<Seq<U32x8>>)
    requires
        old(dst).len() == 4096,
        g < 64,
        forall|r: int, i: int| 0 <= r < 8 && 0 <= i < 8 ==> #[trigger] t@[r]@[i] == stage[8 * g + i]@[r],
    ensures
        is_dumped(old(dst)@, final(dst)@, stage, g as int, g + 1),
{
    let ghost d0 = dst@;
    for r in 0..8usize
        invariant
            dst.len() == 4096,
            d0.len() == 4096,
            g < 64,
            forall|r: int, i: int| 0 <= r < 8 && 0 <= i < 8 ==> #[trigger] t@[r]@[i] == stage[8 * g + i]@[r],
            forall|p: int|
                0 <= p < 4096 ==> #[trigger] dst@[p] == (if 8 * g <= p % 512 < 8 * (g + 1) && p / 512 < r {
                    stage[p % 512]@[p / 512]
                } else {
                    d0[p]
                }),
    {
        let ghost before = dst@;
        store_v8(dst, r * U32_PER_BLOCK + 8 * g, t[r]);
        proof {
            assert forall|p: int| 0 <= p < 4096 implies #[trigger] dst@[p] == (if 8 * g <= p % 512 < 8 * (g + 1) && p
                / 512 < r + 1 {
                stage[p % 512]@[p / 512]
            } else {
                d0[p]
            }) by {
                let at = r * 512 + 8 * g;
                assert(before[p] == before[p]);
                if at <= p < at + 8 {
                    assert(p / 512 == r && p % 512 == p - 512 * r);
                    let i = p - at;
                    assert(t@[r as int]@[i] == stage[8 * g + i]@[r as int]);
                } else {
                    assert(!(p / 512 == r && 8 * g <= p % 512 < 8 * (g + 1)));
                }
            }
        }
    }
}

/// Two dumps of neighbouring ranges are one.
proof fn lemma_dump_append(d0: Seq<u32>, d1: Seq<u32>, d2: Seq<u32>, stage: Seq<U32x8>, g0: int, g: int, g1: int)
    requires
        is_dumped(d0, d1, stage, g0, g),
        is_dumped(d1, d2, stage, g, g1),
        g0 <= g <= g1,
    ensures
        is_dumped(d0, d2, stage, g0, g1),
{
    assert forall|p: int| 0 <= p < d2.len() implies #[trigger] d2[p] == (if 8 * g0 <= p % 512 < 8 * g1 {
        stage[p % 512]@[p / 512]
    } else {
        d0[p]
    }) by {
        assert(d1[p] == d1[p]);
    }
}

/// Stores the groups `g0..g1` of a stage into eight blocks.
pub fn dump_range(stage: &[U32x8], dst: &mut [u32], g0: usize, g1: usize)
    requires
        stage.len() == U32_PER_BLOCK,
        old(dst).len() == 8 * U32_PER_BLOCK,
        g0 <= g1 <= DUMP_CHUNKS,
    ensures
        is_dumped(old(dst)@, final(dst)@, stage@, g0 as int, g1 as int),
{
    let ghost d0 = dst@;
    for g in g0..g1
        invariant
            stage.len() == U32_PER_BLOCK,
            dst.len() == 4096,
            g0 <= g1 <= DUMP_CHUNKS,
            is_dumped(d0, dst@, stage@, g0 as int, g as int),
    {
        let ghost before = dst@;
        let t = tr8_chunk(stage, 8 * g);
        store_chunk(dst, g, &t, Ghost(stage@));
        proof {
            lemma_dump_append(d0, before, dst@, stage@, g0 as int, g as int, g + 1);
        }
    }
}

/// [`dump_range`], two groups at a time: one line of each block in one go.
pub fn dump_range_nt(stage: &[U32x8], dst: &mut [u32], g0: usize, g1: usize, tr8z_enabled: bool)
    requires
        stage.len() == U32_PER_BLOCK,
        old(dst).len() == 8 * U32_PER_BLOCK,
        g0 <= g1 <= DUMP_CHUNKS,
    ensures
        is_dumped(old(dst)@, final(dst)@, stage@, g0 as int, g1 as int),
{
    let ghost d0 = dst@;
    let mut g: usize = g0;
    while g + 2 <= g1
        invariant
            stage.len() == U32_PER_BLOCK,
            dst.len() == 4096,
            g0 <= g <= g1 <= DUMP_CHUNKS,
            is_dumped(d0, dst@, stage@, g0 as int, g as int),
        decreases g1 - g,
    {
        let ghost before = dst@;
        let (ta, tb) = chunk_pair(stage, 8 * g, tr8z_enabled);
        store_chunk(dst, g, &ta, Ghost(stage@));
        let ghost mid = dst@;
        proof {
            assert forall|r: int, i: int| 0 <= r < 8 && 0 <= i < 8 implies #[trigger] tb@[r]@[i] == stage@[8 * (g + 1)
                + i]@[r] by {}
        }
        store_chunk(dst, g + 1, &tb, Ghost(stage@));
        proof {
            lemma_dump_append(d0, before, mid, stage@, g0 as int, g as int, g + 1);
            lemma_dump_append(d0, mid, dst@, stage@, g0 as int, g + 1, g + 2);
        }
        g += 2;
    }
    if g < g1 {
        let ghost before = dst@;
        let t = tr8_chunk(stage, 8 * g);
        store_chunk(dst, g, &t, Ghost(stage@));
        proof {
            lemma_dump_append(d0, before, dst@, stage@, g0 as int, g as int, g + 1);
        }
    }
}

/// The groups of `g0..g1` before `g`: where a dump of that range stands once the
/// groups before `g` have been passed.
pub open spec fn clip(g0: int, g: int, g1: int) -> int {
    if g <= g0 {
        g0
    } else if g <= g1 {
        g
    } else {
        g1
    }
}

/// Stores the groups `g0..g1` of a stage into `dst`, and all of them into `win`.
pub fn dump_range_nt_win(stage: &[U32x8], dst: &mut [u32], win: &mut [u32], g0: usize, g1: usize, tr8z_enabled: bool)
    requires
        stage.len() == U32_PER_BLOCK,
        old(dst).len() == 8 * U32_PER_BLOCK,
        old(win).len() == 8 * U32_PER_BLOCK,
        g0 <= g1 <= DUMP_CHUNKS,
    ensures
        is_dumped(old(dst)@, final(dst)@, stage@, g0 as int, g1 as int),
        is_dumped(old(win)@, final(win)@, stage@, 0, DUMP_CHUNKS as int),
{
    let ghost d0 = dst@;
    let ghost w0 = win@;
    let mut g: usize = 0;
    while g < DUMP_CHUNKS
        invariant
            stage.len() == U32_PER_BLOCK,
            dst.len() == 4096,
            win.len() == 4096,
            g0 <= g1 <= DUMP_CHUNKS,
            g <= DUMP_CHUNKS,
            g % 2 == 0,
            is_dumped(d0, dst@, stage@, g0 as int, clip(g0 as int, g as int, g1 as int)),
            is_dumped(w0, win@, stage@, 0, g as int),
        decreases DUMP_CHUNKS - g,
    {
        let (ta, tb) = chunk_pair(stage, 8 * g, tr8z_enabled);
        proof {
            assert forall|r: int, i: int| 0 <= r < 8 && 0 <= i < 8 implies #[trigger] tb@[r]@[i] == stage@[8 * (g + 1)
                + i]@[r] by {}
        }
        let ghost win_before = win@;
        store_chunk(win, g, &ta, Ghost(stage@));
        let ghost win_mid = win@;
        store_chunk(win, g + 1, &tb, Ghost(stage@));
        proof {
            lemma_dump_append(w0, win_before, win_mid, stage@, 0, g as int, g + 1);
            lemma_dump_append(w0, win_mid, win@, stage@, 0, g + 1, g + 2);
        }
        if g >= g0 && g < g1 {
            let ghost before = dst@;
            store_chunk(dst, g, &ta, Ghost(stage@));
            proof {
                lemma_dump_append(d0, before, dst@, stage@, g0 as int, g as int, g + 1);
            }
        }
        if g + 1 >= g0 && g + 1 < g1 {
            let ghost before = dst@;
            store_chunk(dst, g + 1, &tb, Ghost(stage@));
            proof {
                lemma_dump_append(d0, before, dst@, stage@, g0 as int, g + 1, g + 2);
            }
        }
        g += 2;
    }
}

/// A dump of a full stage stores the words of the blocks.
proof fn lemma_dumped_is_drained(
    d0: Seq<u32>,
    d: Seq<u32>,
    stage: Seq<U32x8>,
    side: Side,
    cs: Seq<Inputs>,
    g0: int,
    g1: int,
)
    requires
        is_dumped(d0, d, stage, g0, g1),
        is_full_stage(stage, side, cs),
        d.len() == 4096,
    ensures
        is_drained(d0, d, side, cs, g0, g1),
{
    assert forall|p: int| 0 <= p < d.len() implies (if 8 * g0 <= p % 512 < 8 * g1 {
        is_word(#[trigger] d[p], side, cs[p / 512], p % 512)
    } else {
        d[p] == d0[p]
    }) by {
        assert(d[p] == d[p]);
        assert(0 <= p / 512 < 8);
        let _ = stage[p % 512]@[p / 512];
    }
}

/// The groups that a drain stores.
pub open spec fn first_group(elide_prefix: bool) -> int {
    if elide_prefix {
        ELIDE_B_PREFIX_CHUNKS as int
    } else {
        0
    }
}

/// See [`first_group`].
pub open spec fn last_group(elide_tail: bool, tail_chunk: int) -> int {
    if elide_tail {
        tail_chunk
    } else {
        DUMP_CHUNKS as int
    }
}

/// Stores a stage without the groups that are left out.
pub fn dump_elide(
    stage: &[U32x8],
    dst: &mut [u32],
    elide_tail: bool,
    elide_prefix: bool,
    tail_chunk: usize,
    nt: bool,
    tr8z_enabled: bool,
)
    requires
        stage.len() == U32_PER_BLOCK,
        old(dst).len() == 8 * U32_PER_BLOCK,
        ELIDE_B_PREFIX_CHUNKS <= tail_chunk <= DUMP_CHUNKS,
    ensures
        is_dumped(
            old(dst)@,
            final(dst)@,
            stage@,
            first_group(elide_prefix),
            last_group(elide_tail, tail_chunk as int),
        ),
{
    let g0: usize = if elide_prefix {
        ELIDE_B_PREFIX_CHUNKS
    } else {
        0
    };
    let g1: usize = if elide_tail {
        tail_chunk
    } else {
        DUMP_CHUNKS
    };
    if nt {
        dump_range_nt(stage, dst, g0, g1, tr8z_enabled)
    } else {
        dump_range(stage, dst, g0, g1)
    }
}

/// [`dump_elide`] with all groups stored into `win` too.
pub fn dump_elide_win(
    stage: &[U32x8],
    dst: &mut [u32],
    win: &mut [u32],
    elide_tail: bool,
    elide_prefix: bool,
    tail_chunk: usize,
    tr8z_enabled: bool,
)
    requires
        stage.len() == U32_PER_BLOCK,
        old(dst).len() == 8 * U32_PER_BLOCK,
        old(win).len() == 8 * U32_PER_BLOCK,
        ELIDE_B_PREFIX_CHUNKS <= tail_chunk <= DUMP_CHUNKS,
    ensures
        is_dumped(
            old(dst)@,
            final(dst)@,
            stage@,
            first_group(elide_prefix),
            last_group(elide_tail, tail_chunk as int),
        ),
        is_dumped(old(win)@, final(win)@, stage@, 0, DUMP_CHUNKS as int),
{
    let g0: usize = if elide_prefix {
        ELIDE_B_PREFIX_CHUNKS
    } else {
        0
    };
    let g1: usize = if elide_tail {
        tail_chunk
    } else {
        DUMP_CHUNKS
    };
    dump_range_nt_win(stage, dst, win, g0, g1, tr8z_enabled)
}

// ---- building the rows ----

/// The inputs behind an array of references.
pub open spec fn lane_inputs(inputs: Seq<&Compression>) -> Seq<Inputs> {
    Seq::new(inputs.len(), |j: int| inputs_of(*inputs[j]))
}

/// Eight message words from `at` on.
fn row8(m: &[u32; 16], at: usize) -> (r: U32x8)
    requires
        at <= 8,
    ensures
        forall|i: int| 0 <= i < 8 ==> #[trigger] r@[i] == m@[at + i],
{
    let r = Lanes {
        lanes: [
            m[at],
            m[at + 1],
            m[at + 2],
            m[at + 3],
            m[at + 4],
            m[at + 5],
            m[at + 6],
            m[at + 7],
        ],
    };
    proof {
        assert forall|i: int| 0 <= i < 8 implies #[trigger] r@[i] == m@[at + i] by {
            assert(i == 0 || i == 1 || i == 2 || i == 3 || i == 4 || i == 5 || i == 6 || i == 7);
        }
    }
    r
}

/// Inputs of the lanes, transposed.
pub struct Prepared<const N: usize> {
    pub cv: [Lanes<N>; 8],
    pub message: [Lanes<N>; 16],
    pub counter_lo: Lanes<N>,
    pub counter_hi: Lanes<N>,
    pub block_len: Lanes<N>,
    pub flags: Lanes<N>,
}

impl<const N: usize> Prepared<N> {
    /// Whether lane `j` holds the inputs of `cs[j]`.
    pub open spec fn holds(&self, cs: Seq<Inputs>) -> bool {
        &&& cs.len() == N
        &&& forall|j: int| 0 <= j < N ==> #[trigger] cs[j].cv.len() == 8
        &&& forall|j: int| 0 <= j < N ==> #[trigger] cs[j].message.len() == 16
        &&& forall|j: int, w: int| 0 <= j < N && 0 <= w < 8 ==> #[trigger] self.cv@[w]@[j] == cs[j].cv[w]
        &&& forall|j: int, w: int| 0 <= j < N && 0 <= w < 16 ==> #[trigger] self.message@[w]@[j] == cs[j].message[w]
        &&& forall|j: int|
            0 <= j < N ==> #[trigger] self.counter_lo@[j] == crate::blake3_core::counter_lo(cs[j].counter)
        &&& forall|j: int|
            0 <= j < N ==> #[trigger] self.counter_hi@[j] == crate::blake3_core::counter_hi(cs[j].counter)
        &&& forall|j: int| 0 <= j < N ==> #[trigger] self.block_len@[j] == cs[j].block_len
        &&& forall|j: int| 0 <= j < N ==> #[trigger] self.flags@[j] == cs[j].flags
    }

    /// The state before the first step.
    pub(crate) fn start(&self, Ghost(cs): Ghost<Seq<Inputs>>) -> (state: [Lanes<N>; 16])
        requires
            self.holds(cs),
        ensures
            lanes_at(state@, self.message@, cs, 0),
    {
        let state = [
            self.cv[0],
            self.cv[1],
            self.cv[2],
            self.cv[3],
            self.cv[4],
            self.cv[5],
            self.cv[6],
            self.cv[7],
            Lanes::splat(BLAKE3_IV[0]),
            Lanes::splat(BLAKE3_IV[1]),
            Lanes::splat(BLAKE3_IV[2]),
            Lanes::splat(BLAKE3_IV[3]),
            self.counter_lo,
            self.counter_hi,
            self.block_len,
            self.flags,
        ];
        proof {
            assert forall|j: int| 0 <= j < N implies #[trigger] lane_of(state@, j) == state_at(cs[j], 0) by {
                assert(lane_of(state@, j) =~= init_state(cs[j].cv, cs[j].counter, cs[j].block_len, cs[j].flags));
            }
            assert forall|j: int| 0 <= j < N implies #[trigger] lane_of(self.message@, j) == cs[j].message by {
                assert(lane_of(self.message@, j) =~= cs[j].message);
            }
        }
        state
    }

    /// Word `16 + k` of the blocks: the chained inputs, one bit up.
    pub(crate) fn chain(&self, k: usize, Ghost(cs): Ghost<Seq<Inputs>>) -> (v: Lanes<N>)
        requires
            self.holds(cs),
            k < 20,
        ensures
            forall|j: int|
                0 <= j < N ==> #[trigger] v@[j] == (if k == 0 {
                    1 | (chain_word(cs[j], 0) << 1)
                } else {
                    (chain_word(cs[j], k - 1) >> 31) | (chain_word(cs[j], k as int) << 1)
                }),
    {
        let cur = self.chained(k, Ghost(cs));
        if k == 0 {
            let one: Lanes<N> = Lanes::splat(1);
            one.or(cur.shl(1))
        } else {
            let prev = self.chained(k - 1, Ghost(cs));
            prev.shr(31).or(cur.shl(1))
        }
    }

    /// Chained input word `k`.
    fn chained(&self, k: usize, Ghost(cs): Ghost<Seq<Inputs>>) -> (v: Lanes<N>)
        requires
            self.holds(cs),
            k < 20,
        ensures
            forall|j: int| 0 <= j < N ==> #[trigger] v@[j] == chain_word(cs[j], k as int),
    {
        if k < 16 {
            self.message[k]
        } else if k == 16 {
            self.counter_lo
        } else if k == 17 {
            self.counter_hi
        } else if k == 18 {
            self.block_len
        } else {
            self.flags
        }
    }
}

/// Transposes the inputs of eight compressions.
pub fn prepare_inputs8(inputs: &[&Compression; 8]) -> (p: Prepared<8>)
    ensures
        p.holds(lane_inputs(inputs@)),
{
    let ghost cs = lane_inputs(inputs@);
    let cv_rows = [
        Lanes { lanes: inputs[0].0 },
        Lanes { lanes: inputs[1].0 },
        Lanes { lanes: inputs[2].0 },
        Lanes { lanes: inputs[3].0 },
        Lanes { lanes: inputs[4].0 },
        Lanes { lanes: inputs[5].0 },
        Lanes { lanes: inputs[6].0 },
        Lanes { lanes: inputs[7].0 },
    ];
    let lo_rows = [
        row8(&inputs[0].1, 0),
        row8(&inputs[1].1, 0),
        row8(&inputs[2].1, 0),
        row8(&inputs[3].1, 0),
        row8(&inputs[4].1, 0),
        row8(&inputs[5].1, 0),
        row8(&inputs[6].1, 0),
        row8(&inputs[7].1, 0),
    ];
    let hi_rows = [
        row8(&inputs[0].1, 8),
        row8(&inputs[1].1, 8),
        row8(&inputs[2].1, 8),
        row8(&inputs[3].1, 8),
        row8(&inputs[4].1, 8),
        row8(&inputs[5].1, 8),
        row8(&inputs[6].1, 8),
        row8(&inputs[7].1, 8),
    ];
    let cv = tr8(cv_rows);
    let m_lo = tr8(lo_rows);
    let m_hi = tr8(hi_rows);
    let zero: U32x8 = Lanes::splat(0);
    let mut message = [
        zero, zero, zero, zero, zero, zero, zero, zero, zero, zero, zero, zero, zero, zero, zero, zero,
    ];
    let mut tlo = [0u32; 8];
    let mut thi = [0u32; 8];
    let mut len = [0u32; 8];
    let mut flags = [0u32; 8];
    for j in 0..8usize
        invariant
            forall|k: int| 0 <= k < j ==> #[trigger] message@[k] == m_lo@[k],
            forall|k: int| 8 <= k < 8 + j ==> #[trigger] message@[k] == m_hi@[k - 8],
            forall|k: int| 0 <= k < j ==> #[trigger] tlo@[k] == crate::blake3_core::counter_lo(inputs@[k].2),
            forall|k: int| 0 <= k < j ==> #[trigger] thi@[k] == crate::blake3_core::counter_hi(inputs@[k].2),
            forall|k: int| 0 <= k < j ==> #[trigger] len@[k] == inputs@[k].3,
            forall|k: int| 0 <= k < j ==> #[trigger] flags@[k] == inputs@[k].4,
    {
        message[j] = m_lo[j];
        message[8 + j] = m_hi[j];
        tlo[j] = inputs[j].2 as u32;
        thi[j] = (inputs[j].2 >> 32) as u32;
        len[j] = inputs[j].3;
        flags[j] = inputs[j].4;
    }
    let p = Prepared {
        cv,
        message,
        counter_lo: Lanes { lanes: tlo },
        counter_hi: Lanes { lanes: thi },
        block_len: Lanes { lanes: len },
        flags: Lanes { lanes: flags },
    };
    proof {
        assert forall|j: int, w: int| 0 <= j < 8 && 0 <= w < 8 implies #[trigger] p.cv@[w]@[j] == cs[j].cv[w] by {
            assert(cv@[w]@[j] == cv_rows@[j]@[w]);
            assert(j == 0 || j == 1 || j == 2 || j == 3 || j == 4 || j == 5 || j == 6 || j == 7);
        }
        assert forall|j: int, w: int| 0 <= j < 8 && 0 <= w < 16 implies #[trigger] p.message@[w]@[j] == cs[j].message[w] by {
            assert(j == 0 || j == 1 || j == 2 || j == 3 || j == 4 || j == 5 || j == 6 || j == 7);
            if w < 8 {
                assert(m_lo@[w]@[j] == lo_rows@[j]@[w]);
                assert(lo_rows@[j]@[w] == inputs@[j].1@[0 + w]);
            } else {
                assert(m_hi@[w - 8]@[j] == hi_rows@[j]@[w - 8]);
                assert(hi_rows@[j]@[w - 8] == inputs@[j].1@[8 + (w - 8)]);
            }
        }
    }
    p
}

/// Whether the words `from..to` of a stage are those of the blocks.
spec fn words_ok(stage: Seq<U32x8>, side: Side, cs: Seq<Inputs>, from: int, to: int) -> bool {
    forall|w: int, j: int| from <= w < to && 0 <= j < 8 ==> is_word(#[trigger] stage[w]@[j], side, cs[j], w)
}

/// The writers of the three sides, up to the first record. The words of the new
/// chaining value are still missing on `z` and `a`.
fn open_streams(p: &Prepared<8>, Ghost(cs): Ghost<Seq<Inputs>>) -> (r: (W8, W8, W8))
    requires
        p.holds(cs),
    ensures
        r.0.stage@.len() == U32_PER_BLOCK,
        r.1.stage@.len() == U32_PER_BLOCK,
        r.2.stage@.len() == U32_PER_BLOCK,
        words_ok(r.0.stage@, Side::Z, cs, 0, 8),
        words_ok(r.0.stage@, Side::Z, cs, 16, 36),
        words_ok(r.1.stage@, Side::A, cs, 0, 8),
        words_ok(r.1.stage@, Side::A, cs, 16, 36),
        words_ok(r.2.stage@, Side::B, cs, 0, 36),
        streamed(r.0.stage@, r.0.pending, Side::Z, cs, GS_BASE as int),
        streamed(r.1.stage@, r.1.pending, Side::A, cs, GS_BASE as int),
        streamed(r.2.stage@, r.2.pending, Side::B, cs, GS_BASE as int),
{
    let pending_bit = p.flags.shr(31);
    let one: U32x8 = Lanes::splat(1);
    let maxv: U32x8 = Lanes::splat(u32::MAX);
    let mut wz = W8::at(pending_bit);
    let mut wa = W8::at(pending_bit);
    let mut wb = W8::at(one);
    for w in 0..8usize
        invariant
            wz.stage@.len() == U32_PER_BLOCK,
            wa.stage@.len() == U32_PER_BLOCK,
            wz.pending == pending_bit,
            wa.pending == pending_bit,
            p.holds(cs),
            words_ok(wz.stage@, Side::Z, cs, 0, w as int),
            words_ok(wa.stage@, Side::A, cs, 0, w as int),
    {
        wz.stage[w] = p.cv[w];
        wa.stage[w] = p.cv[w];
        proof {
            assert forall|j: int| 0 <= j < 8 implies is_word(#[trigger] p.cv@[w as int]@[j], Side::Z, cs[j], w as int)
                && is_word(p.cv@[w as int]@[j], Side::A, cs[j], w as int) by {
                lemma_head_word(Side::Z, cs[j], w as int, p.cv@[w as int]@[j]);
                lemma_head_word(Side::A, cs[j], w as int, p.cv@[w as int]@[j]);
            }
        }
    }
    for w in 0..36usize
        invariant
            wb.stage@.len() == U32_PER_BLOCK,
            wb.pending == one,
            forall|j: int| 0 <= j < 8 ==> #[trigger] maxv@[j] == u32::MAX,
            words_ok(wb.stage@, Side::B, cs, 0, w as int),
    {
        wb.stage[w] = maxv;
        proof {
            assert forall|j: int| 0 <= j < 8 implies is_word(#[trigger] maxv@[j], Side::B, cs[j], w as int) by {
                lemma_head_word(Side::B, cs[j], w as int, maxv@[j]);
            }
        }
    }
    for k in 0..20usize
        invariant
            wz.stage@.len() == U32_PER_BLOCK,
            wa.stage@.len() == U32_PER_BLOCK,
            wz.pending == pending_bit,
            wa.pending == pending_bit,
            p.holds(cs),
            words_ok(wz.stage@, Side::Z, cs, 0, 8),
            words_ok(wa.stage@, Side::A, cs, 0, 8),
            words_ok(wz.stage@, Side::Z, cs, 16, 16 + k),
            words_ok(wa.stage@, Side::A, cs, 16, 16 + k),
    {
        let v = p.chain(k, Ghost(cs));
        wz.stage[16 + k] = v;
        wa.stage[16 + k] = v;
        proof {
            assert forall|j: int| 0 <= j < 8 implies is_word(#[trigger] v@[j], Side::Z, cs[j], 16 + k) && is_word(
                v@[j],
                Side::A,
                cs[j],
                16 + k,
            ) by {
                lemma_head_word(Side::Z, cs[j], 16 + k, v@[j]);
                lemma_head_word(Side::A, cs[j], 16 + k, v@[j]);
            }
        }
    }
    proof {
        assert forall|j: int, i: int| 0 <= j < 8 && 1152 <= i < 1153 implies #[trigger] witness_bit(Side::B, cs[j], i)
            == bit32(one@[j], i % 32) by {
            reveal(witness_bit);
            lemma_bit_shifts(0, 0, 0, 0);
            assert(one@[j] == 1);
        }
        assert forall|j: int, i: int| 0 <= j < 8 && 1152 <= i < 1153 implies #[trigger] witness_bit(Side::Z, cs[j], i)
            == bit32(pending_bit@[j], i % 32) by {
            reveal(witness_bit);
            lemma_bit_shifts(p.flags@[j], 0, 0, 0);
            assert(pending_bit@[j] == p.flags@[j] >> 31);
        }
        assert forall|j: int, i: int| 0 <= j < 8 && 1152 <= i < 1153 implies #[trigger] witness_bit(Side::A, cs[j], i)
            == bit32(pending_bit@[j], i % 32) by {
            reveal(witness_bit);
            lemma_bit_shifts(p.flags@[j], 0, 0, 0);
            assert(pending_bit@[j] == p.flags@[j] >> 31);
        }
    }
    (wz, wa, wb)
}

/// The fields on the side `z`: the AND of the other two for an addition, the
/// word itself for a copy.
fn z_fields(
    fa: &[U32x8; 8],
    fb: &[U32x8; 8],
    n: usize,
    Ghost(s): Ghost<Seq<U32x8>>,
    Ghost(m): Ghost<Seq<U32x8>>,
) -> (fz: [U32x8; 8])
    requires
        are_fields(fa@, Side::A, s, m, n as int),
        are_fields(fb@, Side::B, s, m, n as int),
    ensures
        are_fields(fz@, Side::Z, s, m, n as int),
{
    let fz = [
        fa[0].and(fb[0]),
        fa[1].and(fb[1]),
        fa[2].and(fb[2]),
        fa[3].and(fb[3]),
        fa[4].and(fb[4]),
        fa[5].and(fb[5]),
        fa[6],
        fa[7],
    ];
    proof {
        assert forall|f: int, j: int| 0 <= f < 8 && 0 <= j < 8 implies #[trigger] fz@[f]@[j] == step_field(
            Side::Z,
            lane_of(s, j),
            lane_of(m, j),
            n as int,
            f,
        ) by {
            assert(fa@[f]@[j] == step_field(Side::A, lane_of(s, j), lane_of(m, j), n as int, f));
            assert(fb@[f]@[j] == step_field(Side::B, lane_of(s, j), lane_of(m, j), n as int, f));
            assert(f == 0 || f == 1 || f == 2 || f == 3 || f == 4 || f == 5 || f == 6 || f == 7);
            assert(f < 6 ==> fz@[f]@[j] == fa@[f]@[j] & fb@[f]@[j]);
            reveal(step_field);
        }
    }
    fz
}

/// The full stages of the three sides.
pub fn stage_octa(inputs: &[&Compression; 8]) -> (r: (Vec<U32x8>, Vec<U32x8>, Vec<U32x8>))
    ensures
        is_full_stage(r.0@, Side::Z, lane_inputs(inputs@)),
        is_full_stage(r.1@, Side::A, lane_inputs(inputs@)),
        is_full_stage(r.2@, Side::B, lane_inputs(inputs@)),
{
    let ghost cs = lane_inputs(inputs@);
    let p = prepare_inputs8(inputs);
    let mut state = p.start(Ghost(cs));
    let (mut wz, mut wa, mut wb) = open_streams(&p, Ghost(cs));
    let maxv: U32x8 = Lanes::splat(u32::MAX);
    for n in 0..56usize
        invariant
            lanes_at(state@, p.message@, cs, n as int),
            wz.stage@.len() == U32_PER_BLOCK,
            wa.stage@.len() == U32_PER_BLOCK,
            wb.stage@.len() == U32_PER_BLOCK,
            words_ok(wz.stage@, Side::Z, cs, 0, 8),
            words_ok(wz.stage@, Side::Z, cs, 16, 36),
            words_ok(wa.stage@, Side::A, cs, 0, 8),
            words_ok(wa.stage@, Side::A, cs, 16, 36),
            words_ok(wb.stage@, Side::B, cs, 0, 36),
            streamed(wz.stage@, wz.pending, Side::Z, cs, GS_BASE + G_STRIDE * n),
            streamed(wa.stage@, wa.pending, Side::A, cs, GS_BASE + G_STRIDE * n),
            streamed(wb.stage@, wb.pending, Side::B, cs, GS_BASE + G_STRIDE * n),
    {
        let ghost before = state@;
        let (fa, fb) = step_fields(&mut state, &p.message, n);
        let fz = z_fields(&fa, &fb, n, Ghost(before), Ghost(p.message@));
        proof {
            assert forall|j: int| 0 <= j < 8 implies #[trigger] lane_of(state@, j) == state_at(cs[j], n + 1) by {
                assert(lane_of(before, j) == state_at(cs[j], n as int));
                assert(lane_of(p.message@, j) == cs[j].message);
                assert((n + 1) as nat - 1 == n as nat);
            }
        }
        wz.push_record(n, &fz, Ghost(Side::Z), Ghost(cs));
        wa.push_record(n, &fa, Ghost(Side::A), Ghost(cs));
        wb.push_record(n, &fb, Ghost(Side::B), Ghost(cs));
    }
    for w in 0..8usize
        invariant
            p.holds(cs),
            lanes_at(state@, p.message@, cs, 56),
            forall|j: int| 0 <= j < 8 ==> #[trigger] maxv@[j] == u32::MAX,
            wz.stage@.len() == U32_PER_BLOCK,
            wa.stage@.len() == U32_PER_BLOCK,
            wb.stage@.len() == U32_PER_BLOCK,
            words_ok(wz.stage@, Side::Z, cs, 0, 8),
            words_ok(wz.stage@, Side::Z, cs, 16, 36),
            words_ok(wa.stage@, Side::A, cs, 0, 8),
            words_ok(wa.stage@, Side::A, cs, 16, 36),
            words_ok(wb.stage@, Side::B, cs, 0, 36),
            streamed(wz.stage@, wz.pending, Side::Z, cs, OUT_HI_BASE + 32 * w),
            streamed(wa.stage@, wa.pending, Side::A, cs, OUT_HI_BASE + 32 * w),
            streamed(wb.stage@, wb.pending, Side::B, cs, OUT_HI_BASE + 32 * w),
            w > 0 ==> high_clear(wz.pending),
            w > 0 ==> high_clear(wa.pending),
            w > 0 ==> high_clear(wb.pending),
    {
        let hv = state[w + 8].xor(p.cv[w]);
        proof {
            assert forall|j: int| 0 <= j < 8 implies #[trigger] hv@[j] == state_at(cs[j], 56)[w + 8]
                ^ cs[j].cv[w as int] by {
                assert(lane_of(state@, j) == state_at(cs[j], 56));
                assert(lane_of(state@, j)[w + 8] == state@[w + 8]@[j]);
                assert(p.cv@[w as int]@[j] == cs[j].cv[w as int]);
            }
        }
        wz.push_out_hi(w, hv, Ghost(Side::Z), Ghost(cs));
        wa.push_out_hi(w, hv, Ghost(Side::A), Ghost(cs));
        wb.push_out_hi(w, maxv, Ghost(Side::B), Ghost(cs));
    }
    for w in 0..8usize
        invariant
            lanes_at(state@, p.message@, cs, 56),
            wz.stage@.len() == U32_PER_BLOCK,
            wa.stage@.len() == U32_PER_BLOCK,
            words_ok(wz.stage@, Side::Z, cs, 0, 8 + w),
            words_ok(wz.stage@, Side::Z, cs, 16, 36),
            words_ok(wa.stage@, Side::A, cs, 0, 8 + w),
            words_ok(wa.stage@, Side::A, cs, 16, 36),
            streamed(wz.stage@, wz.pending, Side::Z, cs, USEFUL_BITS as int),
            streamed(wa.stage@, wa.pending, Side::A, cs, USEFUL_BITS as int),
            high_clear(wz.pending),
            high_clear(wa.pending),
    {
        let ghost z0 = wz.stage@;
        let ghost a0 = wa.stage@;
        let lo = state[w].xor(state[w + 8]);
        wz.stage[8 + w] = lo;
        wa.stage[8 + w] = lo;
        proof {
            assert forall|j: int| 0 <= j < 8 implies is_word(#[trigger] lo@[j], Side::Z, cs[j], 8 + w) && is_word(
                lo@[j],
                Side::A,
                cs[j],
                8 + w,
            ) by {
                assert(lane_of(state@, j) == state_at(cs[j], 56));
                assert(lane_of(state@, j)[w + 8] == state@[w + 8]@[j]);
                assert(lane_of(state@, j)[w as int] == state@[w as int]@[j]);
                lemma_head_word(Side::Z, cs[j], 8 + w, lo@[j]);
                lemma_head_word(Side::A, cs[j], 8 + w, lo@[j]);
            }
            assert forall|j: int, i: int| 0 <= j < 8 && 1152 <= i < USEFUL_BITS implies #[trigger] witness_bit(
                Side::Z,
                cs[j],
                i,
            ) == bit32(
                if i / 32 < USEFUL_BITS as int / 32 {
                    wz.stage@[i / 32]@[j]
                } else {
                    wz.pending@[j]
                },
                i % 32,
            ) by {
                assert(wz.stage@[i / 32] == z0[i / 32]);
            }
            assert forall|j: int, i: int| 0 <= j < 8 && 1152 <= i < USEFUL_BITS implies #[trigger] witness_bit(
                Side::A,
                cs[j],
                i,
            ) == bit32(
                if i / 32 < USEFUL_BITS as int / 32 {
                    wa.stage@[i / 32]@[j]
                } else {
                    wa.pending@[j]
                },
                i % 32,
            ) by {
                assert(wa.stage@[i / 32] == a0[i / 32]);
            }
        }
    }
    wz.finish(Ghost(Side::Z), Ghost(cs));
    wa.finish(Ghost(Side::A), Ghost(cs));
    wb.finish(Ghost(Side::B), Ghost(cs));
    (wz.stage, wa.stage, wb.stage)
}

/// Builds the rows of eight compressions into eight consecutive blocks of each
/// side. `elide` leaves out, for `z`, `a` and `b` in turn, the groups that hold the
/// same words in every block. With `fused` set, `win_a` and `win_b` take complete
/// copies of the blocks of `a` and `b`; otherwise they are left alone.
pub fn build_octa_witness_ab_stream_elide(
    inputs: [&Compression; 8],
    z: &mut [u32],
    a: &mut [u32],
    b: &mut [u32],
    fused: bool,
    win_a: &mut [u32],
    win_b: &mut [u32],
    elide: [bool; 3],
    z_nt: bool,
    tr8z_enabled: bool,
)
    requires
        old(z).len() == 8 * U32_PER_BLOCK,
        old(a).len() == 8 * U32_PER_BLOCK,
        old(b).len() == 8 * U32_PER_BLOCK,
        fused ==> old(win_a).len() == 8 * U32_PER_BLOCK && old(win_b).len() == 8 * U32_PER_BLOCK,
    ensures
        is_drained(
            old(z)@,
            final(z)@,
            Side::Z,
            lane_inputs(inputs@),
            0,
            last_group(elide@[0], ELIDE_ZERO_CHUNK as int),
        ),
        is_drained(
            old(a)@,
            final(a)@,
            Side::A,
            lane_inputs(inputs@),
            0,
            last_group(elide@[1], ELIDE_ZERO_CHUNK as int),
        ),
        is_drained(
            old(b)@,
            final(b)@,
            Side::B,
            lane_inputs(inputs@),
            first_group(elide@[2]),
            last_group(
                elide@[2],
                if fused {
                    ELIDE_B_TAIL_CHUNK_WIN as int
                } else {
                    ELIDE_B_TAIL_CHUNK as int
                },
            ),
        ),
        fused ==> is_drained(old(win_a)@, final(win_a)@, Side::A, lane_inputs(inputs@), 0, DUMP_CHUNKS as int),
        fused ==> is_drained(old(win_b)@, final(win_b)@, Side::B, lane_inputs(inputs@), 0, DUMP_CHUNKS as int),
        !fused ==> final(win_a)@ == old(win_a)@ && final(win_b)@ == old(win_b)@,
{
    let ghost cs = lane_inputs(inputs@);
    let ghost z0 = z@;
    let ghost a0 = a@;
    let ghost b0 = b@;
    let ghost wa0 = win_a@;
    let ghost wb0 = win_b@;
    let (zs, ast, bs) = stage_octa(&inputs);
    dump_elide(&zs, z, elide[0], false, ELIDE_ZERO_CHUNK, z_nt, tr8z_enabled);
    proof {
        lemma_dumped_is_drained(z0, z@, zs@, Side::Z, cs, 0, last_group(elide@[0], ELIDE_ZERO_CHUNK as int));
    }
    if fused {
        dump_elide_win(&ast, a, win_a, elide[1], false, ELIDE_ZERO_CHUNK, tr8z_enabled);
        dump_elide_win(&bs, b, win_b, elide[2], elide[2], ELIDE_B_TAIL_CHUNK_WIN, tr8z_enabled);
        proof {
            lemma_dumped_is_drained(wa0, win_a@, ast@, Side::A, cs, 0, 64);
            lemma_dumped_is_drained(wb0, win_b@, bs@, Side::B, cs, 0, 64);
            lemma_dumped_is_drained(
                b0,
                b@,
                bs@,
                Side::B,
                cs,
                first_group(elide@[2]),
                last_group(elide@[2], ELIDE_B_TAIL_CHUNK_WIN as int),
            );
        }
    } else {
        dump_elide(&ast, a, elide[1], false, ELIDE_ZERO_CHUNK, false, tr8z_enabled);
        dump_elide(&bs, b, elide[2], elide[2], ELIDE_B_TAIL_CHUNK, false, tr8z_enabled);
        proof {
            lemma_dumped_is_drained(
                b0,
                b@,
                bs@,
                Side::B,
                cs,
                first_group(elide@[2]),
                last_group(elide@[2], ELIDE_B_TAIL_CHUNK as int),
            );
        }
    }
    proof {
        lemma_dumped_is_drained(a0, a@, ast@, Side::A, cs, 0, last_group(elide@[1], ELIDE_ZERO_CHUNK as int));
    }
}

} // verus!
