//! Witness rows of sixteen compressions in lockstep.
//!
//! The rows of `a` and `b` pass through rings of [`RING_WORDS`] words, each split
//! into halves of eight lanes. Whenever a ring is full its words are transposed
//! into the blocks; `z` is the AND of the two and is made there. The words of the
//! chaining values come last.

use super::blake3_witgen8::{first_group, lane_inputs, last_group, tr8_chunk, Prepared};
use super::{
    bit32, field_pos, is_drained, is_word, lanes_at, law_z_is_a_and_b, lemma_bit_ops, lemma_bit_shifts,
    lemma_field_bit, lemma_head_word, lemma_out_hi_bit, lemma_zero_word, next_bits, state_at, step_field,
    step_fields, witness_bit, Compression, Inputs, Side, DUMP_CHUNKS, ELIDE_B_PREFIX_CHUNKS, ELIDE_B_TAIL_CHUNK_WIN,
    ELIDE_ZERO_CHUNK, GS_BASE, G_STRIDE, LAST_WORD, OUT_HI_BASE, U32_PER_BLOCK, USEFUL_BITS,
};
use crate::lanes::{lane_of, split16, Lanes, U32x16, U32x8};
use crate::seed_pipe::generator::{
    add64, block_state, draw, generated, law_state_has_closed_form, lemma_wrapped_product, mix, mod64, mul64,
    rng_state, GOLDEN,
};
use crate::bits::lemma_word_facts;
use vstd::prelude::*;

verus! {

/// Words of a ring.
pub const RING_WORDS: usize = 64;

/// The inputs of sixteen compressions: given, or blocks `base..base + 16` of the
/// sequence that the generator makes from `init`.
pub enum HexaInputs<'a> {
    Blocks([&'a Compression; 16]),
    Closed { init: u64, base: usize },
}

/// The inputs of the sixteen lanes.
pub open spec fn hexa_inputs(inputs: HexaInputs) -> Seq<Inputs> {
    match inputs {
        HexaInputs::Blocks(blocks) => lane_inputs(blocks@),
        HexaInputs::Closed { init, base } => Seq::new(16, |j: int| generated(init, base + j)),
    }
}

impl<'a> HexaInputs<'a> {
    /// Generated inputs.
    pub fn closed(init: u64, base: usize) -> (r: HexaInputs<'a>)
        ensures
            hexa_inputs(r) == Seq::new(16, |j: int| generated(init, base + j)),
    {
        HexaInputs::Closed { init, base }
    }
}

/// The next draw in every lane.
fn next_generator_draw16(
    states: &mut [u64; 16],
    Ghost(init): Ghost<u64>,
    Ghost(base): Ghost<int>,
    Ghost(d): Ghost<int>,
) -> (v: U32x16)
    requires
        base >= 0,
        d >= 0,
        forall|j: int| 0 <= j < 16 ==> #[trigger] old(states)@[j] == rng_state(init, (25 * (base + j) + d) as nat),
    ensures
        forall|j: int|
            0 <= j < 16 ==> #[trigger] final(states)@[j] == rng_state(init, (25 * (base + j) + (d + 1)) as nat),
        forall|j: int| 0 <= j < 16 ==> #[trigger] v@[j] == draw(init, 25 * (base + j) + d),
{
    let ghost s0 = states@;
    let mut v = [0u32; 16];
    for j in 0..16usize
        invariant
            base >= 0,
            d >= 0,
            s0.len() == 16,
            forall|k: int| 0 <= k < 16 ==> #[trigger] s0[k] == rng_state(init, (25 * (base + k) + d) as nat),
            forall|k: int| j <= k < 16 ==> #[trigger] states@[k] == s0[k],
            forall|k: int|
                0 <= k < j ==> #[trigger] states@[k] == rng_state(init, (25 * (base + k) + (d + 1)) as nat),
            forall|k: int| 0 <= k < j ==> #[trigger] v@[k] == draw(init, 25 * (base + k) + d),
    {
        let s = states[j].wrapping_add(GOLDEN);
        proof {
            assert(states@[j as int] == s0[j as int]);
            let n = 25 * (base + j) + d;
            assert((n + 1) as nat - 1 == n as nat);
            assert(s == rng_state(init, (n + 1) as nat));
        }
        states[j] = s;
        v[j] = mix(s);
    }
    Lanes { lanes: v }
}

/// The inputs of sixteen generated blocks, drawn lane by lane.
pub fn prepare_closed_inputs16(init: u64, base: usize) -> (p: Prepared<16>)
    ensures
        p.holds(Seq::new(16, |j: int| generated(init, base + j))),
{
    let ghost cs = Seq::new(16, |j: int| generated(init, base + j));
    let stride = mul64(GOLDEN, 25);
    let first = block_state(init, base);
    let mut states = [0u64; 16];
    for j in 0..16usize
        invariant
            stride == mod64(GOLDEN * 25),
            first == rng_state(init, (25 * base) as nat),
            forall|k: int| 0 <= k < j ==> #[trigger] states@[k] == rng_state(init, (25 * (base + k) + 0) as nat),
    {
        let step = mul64(stride, j as u64);
        let s = add64(first, step);
        proof {
            lemma_lane_state(init, base as int, j as int);
        }
        states[j] = s;
    }
    let zero: U32x16 = Lanes::splat(0);
    let mut cv = [zero, zero, zero, zero, zero, zero, zero, zero];
    for w in 0..8usize
        invariant
            forall|j: int|
                0 <= j < 16 ==> #[trigger] states@[j] == rng_state(init, (25 * (base + j) + w) as nat),
            forall|k: int, j: int|
                0 <= k < w && 0 <= j < 16 ==> #[trigger] cv@[k]@[j] == draw(init, 25 * (base + j) + k),
    {
        let v = next_generator_draw16(&mut states, Ghost(init), Ghost(base as int), Ghost(w as int));
        cv[w] = v;
    }
    let mut message = [
        zero, zero, zero, zero, zero, zero, zero, zero, zero, zero, zero, zero, zero, zero, zero, zero,
    ];
    for w in 0..16usize
        invariant
            forall|j: int|
                0 <= j < 16 ==> #[trigger] states@[j] == rng_state(init, (25 * (base + j) + (8 + w)) as nat),
            forall|k: int, j: int|
                0 <= k < w && 0 <= j < 16 ==> #[trigger] message@[k]@[j] == draw(init, 25 * (base + j) + (8 + k)),
    {
        let v = next_generator_draw16(&mut states, Ghost(init), Ghost(base as int), Ghost(8 + w as int));
        message[w] = v;
    }
    let counter_lo = next_generator_draw16(&mut states, Ghost(init), Ghost(base as int), Ghost(24int));
    let p = Prepared {
        cv,
        message,
        counter_lo,
        counter_hi: Lanes::splat(0),
        block_len: Lanes::splat(64),
        flags: Lanes::splat(11),
    };
    proof {
        assert forall|j: int, w: int| 0 <= j < 16 && 0 <= w < 8 implies #[trigger] p.cv@[w]@[j] == cs[j].cv[w] by {}
        assert forall|j: int, w: int| 0 <= j < 16 && 0 <= w < 16 implies #[trigger] p.message@[w]@[j]
            == cs[j].message[w] by {
            assert(25 * (base + j) + (8 + w) == 25 * (base + j) + 8 + w);
        }
        assert forall|j: int| 0 <= j < 16 implies #[trigger] p.counter_lo@[j] == crate::blake3_core::counter_lo(
            cs[j].counter,
        ) by {
            let d = draw(init, 25 * (base + j) + 24);
            assert((d as u64) as u32 == d);
        }
        assert forall|j: int| 0 <= j < 16 implies #[trigger] p.counter_hi@[j] == crate::blake3_core::counter_hi(
            cs[j].counter,
        ) by {
            let d = draw(init, 25 * (base + j) + 24);
            lemma_word_facts(0, 0, d, 0, 0, 0);
        }
    }
    p
}

/// The state of lane `j`: the state of the first lane plus `j` strides.
proof fn lemma_lane_state(init: u64, base: int, j: int)
    requires
        0 <= base,
        0 <= j < 16,
    ensures
        mod64(rng_state(init, (25 * base) as nat) + mod64(mod64(GOLDEN * 25) * j)) == rng_state(
            init,
            (25 * (base + j) + 0) as nat,
        ),
{
    let s = rng_state(init, (25 * base) as nat);
    law_state_has_closed_form(init, (25 * base) as nat);
    law_state_has_closed_form(init, (25 * (base + j)) as nat);
    lemma_wrapped_product(s as int, GOLDEN * 25, j);
    let x = init + (25 * base) * GOLDEN;
    let y = (GOLDEN * 25) * j;
    assert(mod64(mod64(x) + y) == mod64(x + y)) by {
        reveal(mod64);
        vstd::arithmetic::div_mod::lemma_add_mod_noop_right(y, x, 0x1_0000_0000_0000_0000);
    }
    assert(x + y == init + (25 * (base + j)) * GOLDEN) by (nonlinear_arith)
        requires
            x == init + (25 * base) * GOLDEN,
            y == (GOLDEN * 25) * j,
    ;
}

/// The inputs of sixteen given compressions.
pub fn prepare_block_inputs16(inputs: &[&Compression; 16]) -> (p: Prepared<16>)
    ensures
        p.holds(lane_inputs(inputs@)),
{
    let ghost cs = lane_inputs(inputs@);
    let zero: U32x16 = Lanes::splat(0);
    let mut cv = [zero, zero, zero, zero, zero, zero, zero, zero];
    let mut message = [
        zero, zero, zero, zero, zero, zero, zero, zero, zero, zero, zero, zero, zero, zero, zero, zero,
    ];
    for w in 0..8usize
        invariant
            forall|k: int, j: int| 0 <= k < w && 0 <= j < 16 ==> #[trigger] cv@[k]@[j] == inputs@[j].0@[k],
    {
        let mut lanes = [0u32; 16];
        for j in 0..16usize
            invariant
                w < 8,
                forall|k: int| 0 <= k < j ==> #[trigger] lanes@[k] == inputs@[k].0@[w as int],
        {
            lanes[j] = inputs[j].0[w];
        }
        cv[w] = Lanes { lanes };
    }
    for w in 0..16usize
        invariant
            forall|k: int, j: int| 0 <= k < w && 0 <= j < 16 ==> #[trigger] message@[k]@[j] == inputs@[j].1@[k],
    {
        let mut lanes = [0u32; 16];
        for j in 0..16usize
            invariant
                w < 16,
                forall|k: int| 0 <= k < j ==> #[trigger] lanes@[k] == inputs@[k].1@[w as int],
        {
            lanes[j] = inputs[j].1[w];
        }
        message[w] = Lanes { lanes };
    }
    let mut tlo = [0u32; 16];
    let mut thi = [0u32; 16];
    let mut len = [0u32; 16];
    let mut flags = [0u32; 16];
    for j in 0..16usize
        invariant
            forall|k: int| 0 <= k < j ==> #[trigger] tlo@[k] == crate::blake3_core::counter_lo(inputs@[k].2),
            forall|k: int| 0 <= k < j ==> #[trigger] thi@[k] == crate::blake3_core::counter_hi(inputs@[k].2),
            forall|k: int| 0 <= k < j ==> #[trigger] len@[k] == inputs@[k].3,
            forall|k: int| 0 <= k < j ==> #[trigger] flags@[k] == inputs@[k].4,
    {
        tlo[j] = inputs[j].2 as u32;
        thi[j] = (inputs[j].2 >> 32) as u32;
        len[j] = inputs[j].3;
        flags[j] = inputs[j].4;
    }
    Prepared {
        cv,
        message,
        counter_lo: Lanes { lanes: tlo },
        counter_hi: Lanes { lanes: thi },
        block_len: Lanes { lanes: len },
        flags: Lanes { lanes: flags },
    }
}

// ---- the packed-word writer ----

/// Whether `pending` holds the bits of the incomplete word before `pos` in its
/// high end.
spec fn pending_ok(pending: U32x16, side: Side, cs: Seq<Inputs>, pos: int) -> bool {
    forall|j: int, i: int|
        0 <= j < 16 && 32 * (pos / 32) <= i < pos ==> #[trigger] witness_bit(side, cs[j], i) == bit32(
            pending@[j],
            32 - (pos - i),
        )
}

/// Whether `v` is word `w` in every lane.
pub open spec fn is_word16(v: U32x16, side: Side, cs: Seq<Inputs>, w: int) -> bool {
    forall|j: int| 0 <= j < 16 ==> is_word(#[trigger] v@[j], side, cs[j], w)
}

/// Sixteen packed-word writers side by side. `pending` holds the bits of the
/// incomplete word in its high end.
pub struct W16 {
    pub pending: U32x16,
}

impl W16 {
    /// Appends the low `width` bits of `v` at bit `pos`, and returns the word that
    /// this completes.
    fn push(&mut self, pos: usize, width: usize, v: U32x16, Ghost(side): Ghost<Side>, Ghost(cs): Ghost<Seq<Inputs>>) -> (
    out: Option<U32x16>)
        requires
            1153 <= pos,
            pos + width <= USEFUL_BITS,
            width == 31 || width == 32,
            pending_ok(old(self).pending, side, cs, pos as int),
            next_bits(v, side, cs, pos as int, width as int),
        ensures
            pending_ok(final(self).pending, side, cs, pos + width),
            out is None <==> pos % 32 == 0 && width == 31,
            out matches Some(x) ==> is_word16(x, side, cs, pos as int / 32),
    {
        let used: usize = pos % 32;
        let ghost p0 = self.pending;
        if used == 0 {
            if width == 32 {
                self.pending = Lanes::splat(0);
                proof {
                    assert forall|j: int| 0 <= j < 16 implies is_word(#[trigger] v@[j], side, cs[j], pos as int / 32) by {
                        assert forall|t: int| 0 <= t < 32 implies #[trigger] bit32(v@[j], t) == witness_bit(
                            side,
                            cs[j],
                            32 * (pos as int / 32) + t,
                        ) by {}
                    }
                }
                Some(v)
            } else {
                self.pending = v.shl(1);
                proof {
                    assert forall|j: int, i: int| 0 <= j < 16 && 32 * ((pos + 31) / 32) <= i < pos + 31 implies
                        #[trigger] witness_bit(side, cs[j], i) == bit32(self.pending@[j], 32 - (pos + 31 - i)) by {
                        let t = i - pos;
                        lemma_bit_shifts(0, v@[j], 0, (t + 1) as u32);
                        assert(bit32(v@[j], t) == witness_bit(side, cs[j], pos + t));
                    }
                }
                None
            }
        } else {
            let out = v.shl(used as u32).or(self.pending.shr((32 - used) as u32));
            self.pending = if width == 31 {
                v.shl(1)
            } else {
                v
            };
            proof {
                assert forall|j: int| 0 <= j < 16 implies is_word(#[trigger] out@[j], side, cs[j], pos as int / 32) by {
                    assert(out@[j] == (v@[j] << (used as u32)) | (p0@[j] >> ((32 - used) as u32)));
                    assert forall|t: int| 0 <= t < 32 implies #[trigger] bit32(out@[j], t) == witness_bit(
                        side,
                        cs[j],
                        32 * (pos as int / 32) + t,
                    ) by {
                        lemma_bit_shifts(p0@[j], v@[j], used as u32, t as u32);
                        let i = 32 * (pos as int / 32) + t;
                        if t < used {
                            assert(witness_bit(side, cs[j], i) == bit32(p0@[j], 32 - (pos - i)));
                        } else {
                            assert(bit32(v@[j], t - used) == witness_bit(side, cs[j], pos + (t - used)));
                        }
                    }
                }
                assert forall|j: int, i: int| 0 <= j < 16 && 32 * ((pos + width) / 32) <= i < pos + width implies
                    #[trigger] witness_bit(side, cs[j], i) == bit32(self.pending@[j], 32 - (pos + width - i)) by {
                    let t = i - pos;
                    assert((pos + width) / 32 == pos as int / 32 + 1);
                    let q = 32 - (pos + width - i);
                    lemma_bit_shifts(0, v@[j], 0, q as u32);
                    assert(bit32(v@[j], t) == witness_bit(side, cs[j], pos + t));
                    if width == 31 {
                        assert(self.pending@[j] == v@[j] << 1);
                        assert(q == t + 1);
                    } else {
                        assert(q == t);
                    }
                }
            }
            Some(out)
        }
    }

    /// The last, incomplete word.
    fn finish(&self, Ghost(side): Ghost<Side>, Ghost(cs): Ghost<Seq<Inputs>>) -> (out: U32x16)
        requires
            pending_ok(self.pending, side, cs, USEFUL_BITS as int),
        ensures
            is_word16(out, side, cs, LAST_WORD as int),
    {
        let out = self.pending.shr(15);
        proof {
            assert forall|j: int| 0 <= j < 16 implies is_word(#[trigger] out@[j], side, cs[j], 481) by {
                assert forall|t: int| 0 <= t < 32 implies #[trigger] bit32(out@[j], t) == witness_bit(
                    side,
                    cs[j],
                    32 * 481 + t,
                ) by {
                    lemma_bit_shifts(0, self.pending@[j], 17, t as u32);
                    let i = 32 * 481 + t;
                    if t < 17 {
                        assert(witness_bit(side, cs[j], i) == bit32(self.pending@[j], 32 - (USEFUL_BITS - i)));
                    } else {
                        reveal(witness_bit);
                    }
                }
            }
        }
        out
    }
}

// ---- rings and drains ----

/// Whether the words `w_from..w_to` of each of sixteen blocks in `d` are those of
/// `cs` where they lie in the groups `g0..g1`, and all others are as in `d0`.
pub open spec fn is_part(
    d0: Seq<u32>,
    d: Seq<u32>,
    side: Side,
    cs: Seq<Inputs>,
    w_from: int,
    w_to: int,
    g0: int,
    g1: int,
) -> bool {
    &&& d.len() == d0.len()
    &&& forall|p: int|
        0 <= p < d.len() ==> if w_from <= p % 512 < w_to && 8 * g0 <= p % 512 < 8 * g1 {
            is_word(#[trigger] d[p], side, cs[p / 512], p % 512)
        } else {
            d[p] == d0[p]
        }
}

/// Neighbouring parts join.
proof fn lemma_part_append(
    d0: Seq<u32>,
    d1: Seq<u32>,
    d2: Seq<u32>,
    side: Side,
    cs: Seq<Inputs>,
    w_from: int,
    w: int,
    w_to: int,
    g0: int,
    g1: int,
)
    requires
        is_part(d0, d1, side, cs, w_from, w, g0, g1),
        is_part(d1, d2, side, cs, w, w_to, g0, g1),
        w_from <= w <= w_to,
    ensures
        is_part(d0, d2, side, cs, w_from, w_to, g0, g1),
{
    assert forall|p: int| 0 <= p < d2.len() implies (if w_from <= p % 512 < w_to && 8 * g0 <= p % 512 < 8 * g1 {
        is_word(#[trigger] d2[p], side, cs[p / 512], p % 512)
    } else {
        d2[p] == d0[p]
    }) by {
        assert(d1[p] == d1[p]);
    }
}

/// The two halves of a ring.
pub struct Ring {
    pub lo: Vec<U32x8>,
    pub hi: Vec<U32x8>,
}

impl Ring {
    /// Whether both halves have their size.
    pub open spec fn wf(&self) -> bool {
        self.lo@.len() == RING_WORDS && self.hi@.len() == RING_WORDS
    }

    /// Lane `j` of slot `k`.
    pub open spec fn lane(&self, k: int, j: int) -> u32 {
        if j < 8 {
            self.lo@[k]@[j]
        } else {
            self.hi@[k]@[j - 8]
        }
    }

    /// Whether the slots of the words `from..to` hold them.
    pub open spec fn holds(&self, side: Side, cs: Seq<Inputs>, from: int, to: int) -> bool {
        forall|w: int, j: int|
            from <= w < to && 0 <= j < 16 ==> #[trigger] is_word(self.lane(w % 64, j), side, cs[j], w)
    }

    fn new() -> (r: Ring)
        ensures
            r.wf(),
    {
        let zero: U32x8 = Lanes::splat(0);
        let mut lo: Vec<U32x8> = Vec::new();
        let mut hi: Vec<U32x8> = Vec::new();
        for i in 0..RING_WORDS
            invariant
                lo@.len() == i,
                hi@.len() == i,
        {
            lo.push(zero);
            hi.push(zero);
        }
        Ring { lo, hi }
    }

    /// Stores word `w`. `from` is the first word that is still needed.
    fn put(&mut self, w: usize, v: U32x16, Ghost(side): Ghost<Side>, Ghost(cs): Ghost<Seq<Inputs>>, Ghost(from): Ghost<int>)
        requires
            old(self).wf(),
            old(self).holds(side, cs, from, w as int),
            0 <= from <= w < from + 64,
            is_word16(v, side, cs, w as int),
        ensures
            final(self).wf(),
            final(self).holds(side, cs, from, w + 1),
    {
        let (lo, hi) = split16(v);
        let k: usize = w % RING_WORDS;
        let ghost s0 = *self;
        self.lo[k] = lo;
        self.hi[k] = hi;
        proof {
            assert forall|u: int, j: int| from <= u < w + 1 && 0 <= j < 16 implies #[trigger] is_word(
                self.lane(u % 64, j),
                side,
                cs[j],
                u,
            ) by {
                if u == w {
                    if j < 8 {
                        assert(lo@[j] == v@[j]);
                    } else {
                        assert(hi@[j - 8] == v@[j - 8 + 8]);
                    }
                    assert(self.lane(u % 64, j) == v@[j]);
                    assert(is_word(v@[j], side, cs[j], w as int));
                } else {
                    assert(u % 64 != w % 64);
                    assert(is_word(s0.lane(u % 64, j), side, cs[j], u));
                    assert(self.lane(u % 64, j) == s0.lane(u % 64, j));
                }
            }
        }
    }

    /// The rows of group `g` in the sixteen blocks.
    fn rows(&self, g: usize, Ghost(side): Ghost<Side>, Ghost(cs): Ghost<Seq<Inputs>>) -> (t: ([U32x8; 8], [U32x8; 8]))
        requires
            self.wf(),
            self.holds(side, cs, 8 * g, 8 * g + 8),
            g < DUMP_CHUNKS,
        ensures
            are_rows(t.0@, side, cs, 0, g as int),
            are_rows(t.1@, side, cs, 8, g as int),
    {
        let k: usize = (8 * g) % RING_WORDS;
        let lo = tr8_chunk(&self.lo, k);
        let hi = tr8_chunk(&self.hi, k);
        proof {
            assert forall|r: int, i: int| 0 <= r < 8 && 0 <= i < 8 implies is_word(
                #[trigger] lo@[r]@[i],
                side,
                cs[0 + r],
                8 * g + i,
            ) by {
                assert(lo@[r]@[i] == self.lo@[k + i]@[r]);
                assert((8 * g + i) % 64 == k + i);
                assert(is_word(self.lane((8 * g + i) % 64, r), side, cs[r], 8 * g + i));
            }
            assert forall|r: int, i: int| 0 <= r < 8 && 0 <= i < 8 implies is_word(
                #[trigger] hi@[r]@[i],
                side,
                cs[8 + r],
                8 * g + i,
            ) by {
                assert(hi@[r]@[i] == self.hi@[k + i]@[r]);
                assert((8 * g + i) % 64 == k + i);
                assert(is_word(self.lane((8 * g + i) % 64, 8 + r), side, cs[8 + r], 8 * g + i));
            }
        }
        (lo, hi)
    }
}

/// Whether `t` holds group `g` of the blocks `first..first + 8`.
pub open spec fn are_rows(t: Seq<U32x8>, side: Side, cs: Seq<Inputs>, first: int, g: int) -> bool {
    forall|r: int, i: int|
        0 <= r < 8 && 0 <= i < 8 ==> is_word(#[trigger] t[r]@[i], side, cs[first + r], 8 * g + i)
}

/// The AND of two groups of rows.
fn and_rows(ta: &[U32x8; 8], tb: &[U32x8; 8], Ghost(cs): Ghost<Seq<Inputs>>, Ghost(first): Ghost<int>, Ghost(g): Ghost<int>) -> (
tz: [U32x8; 8])
    requires
        are_rows(ta@, Side::A, cs, first, g),
        are_rows(tb@, Side::B, cs, first, g),
        0 <= g < 64,
    ensures
        are_rows(tz@, Side::Z, cs, first, g),
{
    let tz = [
        ta[0].and(tb[0]),
        ta[1].and(tb[1]),
        ta[2].and(tb[2]),
        ta[3].and(tb[3]),
        ta[4].and(tb[4]),
        ta[5].and(tb[5]),
        ta[6].and(tb[6]),
        ta[7].and(tb[7]),
    ];
    proof {
        assert forall|r: int, i: int| 0 <= r < 8 && 0 <= i < 8 implies is_word(
            #[trigger] tz@[r]@[i],
            Side::Z,
            cs[first + r],
            8 * g + i,
        ) by {
            assert(r == 0 || r == 1 || r == 2 || r == 3 || r == 4 || r == 5 || r == 6 || r == 7);
            let x = ta@[r]@[i];
            let y = tb@[r]@[i];
            assert(tz@[r]@[i] == x & y);
            assert(is_word(x, Side::A, cs[first + r], 8 * g + i));
            assert(is_word(y, Side::B, cs[first + r], 8 * g + i));
            let w = 8 * g + i;
            assert forall|t: int| 0 <= t < 32 implies #[trigger] bit32(x & y, t) == witness_bit(
                Side::Z,
                cs[first + r],
                32 * w + t,
            ) by {
                lemma_bit_ops(x, y, t as u32);
                law_z_is_a_and_b(cs[first + r], 32 * w + t);
                assert(bit32(x, t) == witness_bit(Side::A, cs[first + r], 32 * w + t));
                assert(bit32(y, t) == witness_bit(Side::B, cs[first + r], 32 * w + t));
            }
        }
    }
    tz
}

/// Stores group `g` of the sixteen blocks, where it is not left out.
fn store_rows(
    dst: &mut [u32],
    g: usize,
    lo: &[U32x8; 8],
    hi: &[U32x8; 8],
    g0: usize,
    g1: usize,
    Ghost(side): Ghost<Side>,
    Ghost(cs): Ghost<Seq<Inputs>>,
)
    requires
        old(dst).len() == 16 * U32_PER_BLOCK,
        g < DUMP_CHUNKS,
        are_rows(lo@, side, cs, 0, g as int),
        are_rows(hi@, side, cs, 8, g as int),
    ensures
        is_part(old(dst)@, final(dst)@, side, cs, 8 * g as int, 8 * g + 8, g0 as int, g1 as int),
{
    let ghost d0 = dst@;
    if g0 <= g && g < g1 {
        for r in 0..16usize
            invariant
                dst.len() == 8192,
                d0.len() == 8192,
                g < 64,
                are_rows(lo@, side, cs, 0, g as int),
                are_rows(hi@, side, cs, 8, g as int),
                forall|p: int|
                    0 <= p < 8192 ==> if 8 * g <= p % 512 < 8 * g + 8 && p / 512 < r {
                        is_word(#[trigger] dst@[p], side, cs[p / 512], p % 512)
                    } else {
                        dst@[p] == d0[p]
                    },
        {
            let ghost before = dst@;
            let row = if r < 8 {
                lo[r]
            } else {
                hi[r - 8]
            };
            let at: usize = r * U32_PER_BLOCK + 8 * g;
            super::blake3_witgen8::store_v8(dst, at, row);
            proof {
                assert forall|p: int| 0 <= p < 8192 implies (if 8 * g <= p % 512 < 8 * g + 8 && p / 512 < r + 1 {
                    is_word(#[trigger] dst@[p], side, cs[p / 512], p % 512)
                } else {
                    dst@[p] == d0[p]
                }) by {
                    assert(before[p] == before[p]);
                    if at <= p < at + 8 {
                        assert(p / 512 == r && p % 512 == p - 512 * r);
                        let i = p - at;
                        if r < 8 {
                            assert(is_word(lo@[r as int]@[i], side, cs[0 + r as int], 8 * g + i));
                        } else {
                            assert(is_word(hi@[r - 8]@[i], side, cs[8 + (r - 8)], 8 * g + i));
                        }
                    } else {
                        assert(!(p / 512 == r && 8 * g <= p % 512 < 8 * g + 8));
                    }
                }
            }
        }
    }
}

/// The groups of each side that are stored.
struct Ranges {
    zero_z: usize,
    zero_a: usize,
    b0: usize,
    b1: usize,
}

impl Ranges {
    /// Whether these are the ranges for `elide`.
    spec fn of(&self, elide: Seq<bool>) -> bool {
        &&& self.zero_z == last_group(elide[0], ELIDE_ZERO_CHUNK as int)
        &&& self.zero_a == last_group(elide[1], ELIDE_ZERO_CHUNK as int)
        &&& self.b0 == first_group(elide[2])
        &&& self.b1 == last_group(elide[2], ELIDE_B_TAIL_CHUNK_WIN as int)
    }

    fn new(elide: [bool; 3]) -> (r: Ranges)
        ensures
            r.of(elide@),
    {
        Ranges {
            zero_z: if elide[0] {
                ELIDE_ZERO_CHUNK
            } else {
                DUMP_CHUNKS
            },
            zero_a: if elide[1] {
                ELIDE_ZERO_CHUNK
            } else {
                DUMP_CHUNKS
            },
            b0: if elide[2] {
                ELIDE_B_PREFIX_CHUNKS
            } else {
                0
            },
            b1: if elide[2] {
                ELIDE_B_TAIL_CHUNK_WIN
            } else {
                DUMP_CHUNKS
            },
        }
    }
}

/// The destinations with the words `w_from..w_to` stored.
spec fn parts(
    ranges: Ranges,
    cs: Seq<Inputs>,
    z0: Seq<u32>,
    z: Seq<u32>,
    a0: Seq<u32>,
    a: Seq<u32>,
    b0: Seq<u32>,
    b: Seq<u32>,
    w_from: int,
    w_to: int,
) -> bool {
    &&& is_part(z0, z, Side::Z, cs, w_from, w_to, 0, ranges.zero_z as int)
    &&& is_part(a0, a, Side::A, cs, w_from, w_to, 0, ranges.zero_a as int)
    &&& is_part(b0, b, Side::B, cs, w_from, w_to, ranges.b0 as int, ranges.b1 as int)
}

/// Stores the groups `g_from..g_to` out of the rings.
fn drain_range(
    ra: &Ring,
    rb: &Ring,
    z: &mut [u32],
    a: &mut [u32],
    b: &mut [u32],
    g_from: usize,
    g_to: usize,
    ranges: &Ranges,
    Ghost(cs): Ghost<Seq<Inputs>>,
)
    requires
        ra.wf(),
        rb.wf(),
        g_from <= g_to <= DUMP_CHUNKS,
        ra.holds(Side::A, cs, 8 * g_from as int, 8 * g_to as int),
        rb.holds(Side::B, cs, 8 * g_from as int, 8 * g_to as int),
        old(z).len() == 16 * U32_PER_BLOCK,
        old(a).len() == 16 * U32_PER_BLOCK,
        old(b).len() == 16 * U32_PER_BLOCK,
    ensures
        parts(
            *ranges,
            cs,
            old(z)@,
            final(z)@,
            old(a)@,
            final(a)@,
            old(b)@,
            final(b)@,
            8 * g_from as int,
            8 * g_to as int,
        ),
{
    let ghost z0 = z@;
    let ghost a0 = a@;
    let ghost b0 = b@;
    for g in g_from..g_to
        invariant
            ra.wf(),
            rb.wf(),
            g_from <= g_to <= DUMP_CHUNKS,
            ra.holds(Side::A, cs, 8 * g_from as int, 8 * g_to as int),
            rb.holds(Side::B, cs, 8 * g_from as int, 8 * g_to as int),
            z.len() == 16 * U32_PER_BLOCK,
            a.len() == 16 * U32_PER_BLOCK,
            b.len() == 16 * U32_PER_BLOCK,
            parts(*ranges, cs, z0, z@, a0, a@, b0, b@, 8 * g_from as int, 8 * g as int),
    {
        let ghost z1 = z@;
        let ghost a1 = a@;
        let ghost b1 = b@;
        assert(ra.holds(Side::A, cs, 8 * g as int, 8 * g + 8));
        assert(rb.holds(Side::B, cs, 8 * g as int, 8 * g + 8));
        let (ta_lo, ta_hi) = ra.rows(g, Ghost(Side::A), Ghost(cs));
        let (tb_lo, tb_hi) = rb.rows(g, Ghost(Side::B), Ghost(cs));
        let tz_lo = and_rows(&ta_lo, &tb_lo, Ghost(cs), Ghost(0int), Ghost(g as int));
        let tz_hi = and_rows(&ta_hi, &tb_hi, Ghost(cs), Ghost(8int), Ghost(g as int));
        store_rows(z, g, &tz_lo, &tz_hi, 0, ranges.zero_z, Ghost(Side::Z), Ghost(cs));
        store_rows(a, g, &ta_lo, &ta_hi, 0, ranges.zero_a, Ghost(Side::A), Ghost(cs));
        store_rows(b, g, &tb_lo, &tb_hi, ranges.b0, ranges.b1, Ghost(Side::B), Ghost(cs));
        proof {
            let f = 8 * g_from as int;
            let m = 8 * g as int;
            let t = 8 * g + 8;
            lemma_part_append(z0, z1, z@, Side::Z, cs, f, m, t, 0, ranges.zero_z as int);
            lemma_part_append(a0, a1, a@, Side::A, cs, f, m, t, 0, ranges.zero_a as int);
            lemma_part_append(b0, b1, b@, Side::B, cs, f, m, t, ranges.b0 as int, ranges.b1 as int);
        }
    }
}

/// The first word that has not been stored once the words before `w` have been
/// made: a ring is stored whenever it is full.
pub open spec fn kept_from(w: int) -> int {
    if w < 64 {
        16
    } else {
        64 * (w / 64)
    }
}

/// Words of both sides on their way to the blocks.
struct Hexa {
    ra: Ring,
    rb: Ring,
    wa: W16,
    wb: W16,
}

impl Hexa {
    /// Whether the rows before `pos` have been stored or stand in the rings and
    /// the pending words.
    spec fn at(
        &self,
        ranges: Ranges,
        cs: Seq<Inputs>,
        z0: Seq<u32>,
        z: Seq<u32>,
        a0: Seq<u32>,
        a: Seq<u32>,
        b0: Seq<u32>,
        b: Seq<u32>,
        pos: int,
    ) -> bool {
        &&& self.ra.wf()
        &&& self.rb.wf()
        &&& self.ra.holds(Side::A, cs, kept_from(pos / 32), pos / 32)
        &&& self.rb.holds(Side::B, cs, kept_from(pos / 32), pos / 32)
        &&& pending_ok(self.wa.pending, Side::A, cs, pos)
        &&& pending_ok(self.wb.pending, Side::B, cs, pos)
        &&& z0.len() == 8192 && a0.len() == 8192 && b0.len() == 8192
        &&& parts(ranges, cs, z0, z, a0, a, b0, b, 16, kept_from(pos / 32))
    }

    /// Stores a complete word of each side, and the rings if they are full.
    fn write_word(
        &mut self,
        w: usize,
        va: U32x16,
        vb: U32x16,
        z: &mut [u32],
        a: &mut [u32],
        b: &mut [u32],
        ranges: &Ranges,
        Ghost(cs): Ghost<Seq<Inputs>>,
        Ghost(z0): Ghost<Seq<u32>>,
        Ghost(a0): Ghost<Seq<u32>>,
        Ghost(b0): Ghost<Seq<u32>>,
    )
        requires
            old(self).ra.wf(),
            old(self).rb.wf(),
            16 <= w < U32_PER_BLOCK,
            old(self).ra.holds(Side::A, cs, kept_from(w as int), w as int),
            old(self).rb.holds(Side::B, cs, kept_from(w as int), w as int),
            is_word16(va, Side::A, cs, w as int),
            is_word16(vb, Side::B, cs, w as int),
            z0.len() == 8192 && a0.len() == 8192 && b0.len() == 8192,
            parts(*ranges, cs, z0, old(z)@, a0, old(a)@, b0, old(b)@, 16, kept_from(w as int)),
        ensures
            final(self).ra.wf(),
            final(self).rb.wf(),
            final(self).wa == old(self).wa,
            final(self).wb == old(self).wb,
            final(self).ra.holds(Side::A, cs, kept_from(w + 1), w + 1),
            final(self).rb.holds(Side::B, cs, kept_from(w + 1), w + 1),
            parts(*ranges, cs, z0, final(z)@, a0, final(a)@, b0, final(b)@, 16, kept_from(w + 1)),
    {
        let ghost from = kept_from(w as int);
        self.ra.put(w, va, Ghost(Side::A), Ghost(cs), Ghost(from));
        self.rb.put(w, vb, Ghost(Side::B), Ghost(cs), Ghost(from));
        if w % RING_WORDS == RING_WORDS - 1 {
            let g_from: usize = if w + 1 == RING_WORDS {
                2
            } else {
                (w + 1 - RING_WORDS) / 8
            };
            let ghost z1 = z@;
            let ghost a1 = a@;
            let ghost b1 = b@;
            assert(8 * g_from == from);
            assert(8 * ((w + 1) as int / 8) == w + 1);
            drain_range(&self.ra, &self.rb, z, a, b, g_from, (w + 1) / 8, ranges, Ghost(cs));
            proof {
                lemma_part_append(z0, z1, z@, Side::Z, cs, 16, from, w + 1, 0, ranges.zero_z as int);
                lemma_part_append(a0, a1, a@, Side::A, cs, 16, from, w + 1, 0, ranges.zero_a as int);
                lemma_part_append(b0, b1, b@, Side::B, cs, 16, from, w + 1, ranges.b0 as int, ranges.b1 as int);
                assert(kept_from(w + 1) == w + 1);
            }
        } else {
            assert(kept_from(w + 1) == from);
        }
    }

    /// Appends the low `width` bits of `va` and `vb` at bit `pos`.
    fn push(
        &mut self,
        pos: usize,
        width: usize,
        va: U32x16,
        vb: U32x16,
        z: &mut [u32],
        a: &mut [u32],
        b: &mut [u32],
        ranges: &Ranges,
        Ghost(cs): Ghost<Seq<Inputs>>,
        Ghost(z0): Ghost<Seq<u32>>,
        Ghost(a0): Ghost<Seq<u32>>,
        Ghost(b0): Ghost<Seq<u32>>,
    )
        requires
            1153 <= pos,
            pos + width <= USEFUL_BITS,
            width == 31 || width == 32,
            old(self).at(*ranges, cs, z0, old(z)@, a0, old(a)@, b0, old(b)@, pos as int),
            next_bits(va, Side::A, cs, pos as int, width as int),
            next_bits(vb, Side::B, cs, pos as int, width as int),
        ensures
            final(self).at(*ranges, cs, z0, final(z)@, a0, final(a)@, b0, final(b)@, pos + width),
    {
        let out_a = self.wa.push(pos, width, va, Ghost(Side::A), Ghost(cs));
        let out_b = self.wb.push(pos, width, vb, Ghost(Side::B), Ghost(cs));
        match (out_a, out_b) {
            (Some(xa), Some(xb)) => {
                assert((pos + width) / 32 == pos as int / 32 + 1);
                self.write_word(pos / 32, xa, xb, z, a, b, ranges, Ghost(cs), Ghost(z0), Ghost(a0), Ghost(b0));
            },
            _ => {
                assert((pos + width) / 32 == pos as int / 32);
            },
        }
    }
}

/// The rings and writers at the first record.
fn open_hexa(p: &Prepared<16>, Ghost(cs): Ghost<Seq<Inputs>>) -> (h: Hexa)
    requires
        p.holds(cs),
    ensures
        h.ra.wf(),
        h.rb.wf(),
        h.ra.holds(Side::A, cs, 16, 36),
        h.rb.holds(Side::B, cs, 16, 36),
        pending_ok(h.wa.pending, Side::A, cs, GS_BASE as int),
        pending_ok(h.wb.pending, Side::B, cs, GS_BASE as int),
{
    let mut ra = Ring::new();
    let mut rb = Ring::new();
    let maxv: U32x16 = Lanes::splat(u32::MAX);
    let one: U32x16 = Lanes::splat(1);
    for k in 0..20usize
        invariant
            p.holds(cs),
            ra.wf(),
            rb.wf(),
            forall|j: int| 0 <= j < 16 ==> #[trigger] maxv@[j] == u32::MAX,
            ra.holds(Side::A, cs, 16, 16 + k),
            rb.holds(Side::B, cs, 16, 16 + k),
    {
        let v = p.chain(k, Ghost(cs));
        proof {
            assert forall|j: int| 0 <= j < 16 implies is_word(#[trigger] v@[j], Side::A, cs[j], 16 + k) by {
                lemma_head_word(Side::A, cs[j], 16 + k, v@[j]);
            }
            assert forall|j: int| 0 <= j < 16 implies is_word(#[trigger] maxv@[j], Side::B, cs[j], 16 + k) by {
                lemma_head_word(Side::B, cs[j], 16 + k, maxv@[j]);
            }
        }
        ra.put(16 + k, v, Ghost(Side::A), Ghost(cs), Ghost(16int));
        rb.put(16 + k, maxv, Ghost(Side::B), Ghost(cs), Ghost(16int));
    }
    let pa = p.flags.shr(31).shl(31);
    let pb = one.shl(31);
    proof {
        assert forall|j: int, i: int| 0 <= j < 16 && 32 * (GS_BASE as int / 32) <= i < GS_BASE implies
            #[trigger] witness_bit(Side::A, cs[j], i) == bit32(pa@[j], 32 - (GS_BASE - i)) by {
            reveal(witness_bit);
            lemma_bit_shifts(p.flags@[j], 0, 0, 31);
            assert(pa@[j] == (p.flags@[j] >> 31) << 31);
        }
        assert forall|j: int, i: int| 0 <= j < 16 && 32 * (GS_BASE as int / 32) <= i < GS_BASE implies
            #[trigger] witness_bit(Side::B, cs[j], i) == bit32(pb@[j], 32 - (GS_BASE - i)) by {
            reveal(witness_bit);
            lemma_bit_shifts(0, 0, 0, 31);
            assert(pb@[j] == 1u32 << 31);
        }
    }
    Hexa { ra, rb, wa: W16 { pending: pa }, wb: W16 { pending: pb } }
}

/// The rows from the records to the end of the useful bits.
#[verifier::rlimit(40)]
fn hexa_records(
    h: &mut Hexa,
    state: &mut [U32x16; 16],
    p: &Prepared<16>,
    z: &mut [u32],
    a: &mut [u32],
    b: &mut [u32],
    ranges: &Ranges,
    Ghost(cs): Ghost<Seq<Inputs>>,
    Ghost(z0): Ghost<Seq<u32>>,
    Ghost(a0): Ghost<Seq<u32>>,
    Ghost(b0): Ghost<Seq<u32>>,
)
    requires
        p.holds(cs),
        lanes_at(old(state)@, p.message@, cs, 0),
        old(h).at(*ranges, cs, z0, old(z)@, a0, old(a)@, b0, old(b)@, GS_BASE as int),
    ensures
        lanes_at(final(state)@, p.message@, cs, 56),
        final(h).at(*ranges, cs, z0, final(z)@, a0, final(a)@, b0, final(b)@, USEFUL_BITS as int),
{
    for n in 0..56usize
        invariant
            lanes_at(state@, p.message@, cs, n as int),
            h.at(*ranges, cs, z0, z@, a0, a@, b0, b@, GS_BASE + G_STRIDE * n),
    {
        let ghost before = state@;
        let (fa, fb) = step_fields(state, &p.message, n);
        proof {
            assert forall|j: int| 0 <= j < 16 implies #[trigger] lane_of(state@, j) == state_at(cs[j], n + 1) by {
                assert(lane_of(before, j) == state_at(cs[j], n as int));
                assert(lane_of(p.message@, j) == cs[j].message);
                assert((n + 1) as nat - 1 == n as nat);
            }
            assert forall|f: int, j: int| 0 <= f < 8 && 0 <= j < 16 implies #[trigger] fa@[f]@[j] == step_field(
                Side::A,
                state_at(cs[j], n as int),
                cs[j].message,
                n as int,
                f,
            ) by {
                assert(lane_of(before, j) == state_at(cs[j], n as int));
                assert(lane_of(p.message@, j) == cs[j].message);
            }
            assert forall|f: int, j: int| 0 <= f < 8 && 0 <= j < 16 implies #[trigger] fb@[f]@[j] == step_field(
                Side::B,
                state_at(cs[j], n as int),
                cs[j].message,
                n as int,
                f,
            ) by {
                assert(lane_of(before, j) == state_at(cs[j], n as int));
                assert(lane_of(p.message@, j) == cs[j].message);
            }
        }
        hexa_record(h, n, &fa, &fb, z, a, b, ranges, Ghost(cs), Ghost(z0), Ghost(a0), Ghost(b0));
    }
    let maxv: U32x16 = Lanes::splat(u32::MAX);
    for w in 0..8usize
        invariant
            p.holds(cs),
            lanes_at(state@, p.message@, cs, 56),
            forall|j: int| 0 <= j < 16 ==> #[trigger] maxv@[j] == u32::MAX,
            h.at(*ranges, cs, z0, z@, a0, a@, b0, b@, OUT_HI_BASE + 32 * w),
    {
        let hv = state[w + 8].xor(p.cv[w]);
        let pos: usize = OUT_HI_BASE + 32 * w;
        proof {
            assert forall|j: int, t: int| 0 <= j < 16 && 0 <= t < 32 implies #[trigger] bit32(hv@[j], t) == witness_bit(
                Side::A,
                cs[j],
                pos + t,
            ) by {
                lemma_out_hi_bit(Side::A, cs[j], w as int, t);
                assert(lane_of(state@, j) == state_at(cs[j], 56));
                assert(lane_of(state@, j)[w + 8] == state@[w + 8]@[j]);
                assert(p.cv@[w as int]@[j] == cs[j].cv[w as int]);
                assert(hv@[j] == state@[w + 8]@[j] ^ p.cv@[w as int]@[j]);
            }
            assert forall|j: int, t: int| 0 <= j < 16 && 0 <= t < 32 implies #[trigger] bit32(maxv@[j], t)
                == witness_bit(Side::B, cs[j], pos + t) by {
                lemma_out_hi_bit(Side::B, cs[j], w as int, t);
                lemma_bit_ops(0, 0, t as u32);
                assert(maxv@[j] == u32::MAX);
            }
        }
        h.push(pos, 32, hv, maxv, z, a, b, ranges, Ghost(cs), Ghost(z0), Ghost(a0), Ghost(b0));
    }
}

/// The fields of record `n`.
fn hexa_record(
    h: &mut Hexa,
    n: usize,
    fa: &[U32x16; 8],
    fb: &[U32x16; 8],
    z: &mut [u32],
    a: &mut [u32],
    b: &mut [u32],
    ranges: &Ranges,
    Ghost(cs): Ghost<Seq<Inputs>>,
    Ghost(z0): Ghost<Seq<u32>>,
    Ghost(a0): Ghost<Seq<u32>>,
    Ghost(b0): Ghost<Seq<u32>>,
)
    requires
        n < 56,
        old(h).at(*ranges, cs, z0, old(z)@, a0, old(a)@, b0, old(b)@, GS_BASE + G_STRIDE * n),
        forall|f: int, j: int|
            0 <= f < 8 && 0 <= j < 16 ==> #[trigger] fa@[f]@[j] == step_field(
                Side::A,
                state_at(cs[j], n as int),
                cs[j].message,
                n as int,
                f,
            ),
        forall|f: int, j: int|
            0 <= f < 8 && 0 <= j < 16 ==> #[trigger] fb@[f]@[j] == step_field(
                Side::B,
                state_at(cs[j], n as int),
                cs[j].message,
                n as int,
                f,
            ),
    ensures
        final(h).at(*ranges, cs, z0, final(z)@, a0, final(a)@, b0, final(b)@, GS_BASE + G_STRIDE * (n + 1)),
{
    let base: usize = GS_BASE + G_STRIDE * n;
    for f in 0..8usize
        invariant
            n < 56,
            base == GS_BASE + G_STRIDE * n,
            h.at(*ranges, cs, z0, z@, a0, a@, b0, b@, base + field_pos(f as int)),
            forall|f: int, j: int|
                0 <= f < 8 && 0 <= j < 16 ==> #[trigger] fa@[f]@[j] == step_field(
                    Side::A,
                    state_at(cs[j], n as int),
                    cs[j].message,
                    n as int,
                    f,
                ),
            forall|f: int, j: int|
                0 <= f < 8 && 0 <= j < 16 ==> #[trigger] fb@[f]@[j] == step_field(
                    Side::B,
                    state_at(cs[j], n as int),
                    cs[j].message,
                    n as int,
                    f,
                ),
    {
        let va = fa[f];
        let vb = fb[f];
        let (off, width): (usize, usize) = if f < 6 {
            (31 * f, 31)
        } else {
            (186 + 32 * (f - 6), 32)
        };
        proof {
            assert forall|j: int, t: int| 0 <= j < 16 && 0 <= t < width implies #[trigger] bit32(va@[j], t)
                == witness_bit(Side::A, cs[j], (base + off) + t) by {
                lemma_field_bit(Side::A, cs[j], n as int, f as int, t);
                assert(fa@[f as int]@[j] == va@[j]);
            }
            assert forall|j: int, t: int| 0 <= j < 16 && 0 <= t < width implies #[trigger] bit32(vb@[j], t)
                == witness_bit(Side::B, cs[j], (base + off) + t) by {
                lemma_field_bit(Side::B, cs[j], n as int, f as int, t);
                assert(fb@[f as int]@[j] == vb@[j]);
            }
        }
        h.push(base + off, width, va, vb, z, a, b, ranges, Ghost(cs), Ghost(z0), Ghost(a0), Ghost(b0));
    }
}

/// The zero tail.
fn hexa_tail(
    h: &mut Hexa,
    z: &mut [u32],
    a: &mut [u32],
    b: &mut [u32],
    ranges: &Ranges,
    Ghost(cs): Ghost<Seq<Inputs>>,
    Ghost(z0): Ghost<Seq<u32>>,
    Ghost(a0): Ghost<Seq<u32>>,
    Ghost(b0): Ghost<Seq<u32>>,
)
    requires
        old(h).at(*ranges, cs, z0, old(z)@, a0, old(a)@, b0, old(b)@, USEFUL_BITS as int),
    ensures
        final(h).ra.wf(),
        final(h).rb.wf(),
        parts(*ranges, cs, z0, final(z)@, a0, final(a)@, b0, final(b)@, 16, 512),
{
    let last_a = h.wa.finish(Ghost(Side::A), Ghost(cs));
    let last_b = h.wb.finish(Ghost(Side::B), Ghost(cs));
    h.write_word(LAST_WORD, last_a, last_b, z, a, b, ranges, Ghost(cs), Ghost(z0), Ghost(a0), Ghost(b0));
    let zero: U32x16 = Lanes::splat(0);
    for w in 482..U32_PER_BLOCK
        invariant
            forall|j: int| 0 <= j < 16 ==> #[trigger] zero@[j] == 0,
            h.ra.wf(),
            h.rb.wf(),
            h.ra.holds(Side::A, cs, kept_from(w as int), w as int),
            h.rb.holds(Side::B, cs, kept_from(w as int), w as int),
            z0.len() == 8192 && a0.len() == 8192 && b0.len() == 8192,
            parts(*ranges, cs, z0, z@, a0, a@, b0, b@, 16, kept_from(w as int)),
    {
        proof {
            assert forall|j: int| 0 <= j < 16 implies is_word(#[trigger] zero@[j], Side::A, cs[j], w as int) by {
                lemma_zero_word(Side::A, cs[j], w as int);
            }
            assert forall|j: int| 0 <= j < 16 implies is_word(#[trigger] zero@[j], Side::B, cs[j], w as int) by {
                lemma_zero_word(Side::B, cs[j], w as int);
            }
        }
        h.write_word(w, zero, zero, z, a, b, ranges, Ghost(cs), Ghost(z0), Ghost(a0), Ghost(b0));
    }
}

/// The words of the old and the new chaining values, which come last.
fn hexa_head(
    h: &mut Hexa,
    state: &[U32x16; 16],
    p: &Prepared<16>,
    z: &mut [u32],
    a: &mut [u32],
    b: &mut [u32],
    ranges: &Ranges,
    Ghost(cs): Ghost<Seq<Inputs>>,
)
    requires
        old(h).ra.wf(),
        old(h).rb.wf(),
        p.holds(cs),
        lanes_at(state@, p.message@, cs, 56),
        old(z).len() == 16 * U32_PER_BLOCK,
        old(a).len() == 16 * U32_PER_BLOCK,
        old(b).len() == 16 * U32_PER_BLOCK,
    ensures
        parts(*ranges, cs, old(z)@, final(z)@, old(a)@, final(a)@, old(b)@, final(b)@, 0, 16),
{
    let maxv: U32x16 = Lanes::splat(u32::MAX);
    for w in 0..16usize
        invariant
            h.ra.wf(),
            h.rb.wf(),
            p.holds(cs),
            lanes_at(state@, p.message@, cs, 56),
            forall|j: int| 0 <= j < 16 ==> #[trigger] maxv@[j] == u32::MAX,
            h.ra.holds(Side::A, cs, 0, w as int),
            h.rb.holds(Side::B, cs, 0, w as int),
    {
        let v = if w < 8 {
            p.cv[w]
        } else {
            state[w - 8].xor(state[w])
        };
        proof {
            assert forall|j: int| 0 <= j < 16 implies is_word(#[trigger] v@[j], Side::A, cs[j], w as int) by {
                assert(lane_of(state@, j) == state_at(cs[j], 56));
                assert(lane_of(state@, j)[w as int] == state@[w as int]@[j]);
                if w < 8 {
                    assert(p.cv@[w as int]@[j] == cs[j].cv[w as int]);
                } else {
                    assert(lane_of(state@, j)[w - 8] == state@[w - 8]@[j]);
                    assert(v@[j] == state@[w - 8]@[j] ^ state@[w as int]@[j]);
                }
                lemma_head_word(Side::A, cs[j], w as int, v@[j]);
            }
            assert forall|j: int| 0 <= j < 16 implies is_word(#[trigger] maxv@[j], Side::B, cs[j], w as int) by {
                lemma_head_word(Side::B, cs[j], w as int, maxv@[j]);
            }
        }
        h.ra.put(w, v, Ghost(Side::A), Ghost(cs), Ghost(0int));
        h.rb.put(w, maxv, Ghost(Side::B), Ghost(cs), Ghost(0int));
    }
    drain_range(&h.ra, &h.rb, z, a, b, 0, 2, ranges, Ghost(cs));
}

/// Parts that cover a block complete it.
proof fn lemma_parts_cover(d0: Seq<u32>, d1: Seq<u32>, d2: Seq<u32>, side: Side, cs: Seq<Inputs>, g0: int, g1: int)
    requires
        is_part(d0, d1, side, cs, 16, 512, g0, g1),
        is_part(d1, d2, side, cs, 0, 16, g0, g1),
    ensures
        is_drained(d0, d2, side, cs, g0, g1),
{
    assert forall|p: int| 0 <= p < d2.len() implies (if 8 * g0 <= p % 512 < 8 * g1 {
        is_word(#[trigger] d2[p], side, cs[p / 512], p % 512)
    } else {
        d2[p] == d0[p]
    }) by {
        assert(d1[p] == d1[p]);
    }
}

/// Builds the rows of sixteen compressions into sixteen consecutive blocks of each
/// side. `elide` leaves out, for `z`, `a` and `b` in turn, the groups that hold the
/// same words in every block.
pub fn build_hexa_witness_ab_stream_elide(
    inputs: HexaInputs,
    z: &mut [u32],
    a: &mut [u32],
    b: &mut [u32],
    elide: [bool; 3],
)
    requires
        old(z).len() == 16 * U32_PER_BLOCK,
        old(a).len() == 16 * U32_PER_BLOCK,
        old(b).len() == 16 * U32_PER_BLOCK,
    ensures
        is_drained(
            old(z)@,
            final(z)@,
            Side::Z,
            hexa_inputs(inputs),
            0,
            last_group(elide@[0], ELIDE_ZERO_CHUNK as int),
        ),
        is_drained(
            old(a)@,
            final(a)@,
            Side::A,
            hexa_inputs(inputs),
            0,
            last_group(elide@[1], ELIDE_ZERO_CHUNK as int),
        ),
        is_drained(
            old(b)@,
            final(b)@,
            Side::B,
            hexa_inputs(inputs),
            first_group(elide@[2]),
            last_group(elide@[2], ELIDE_B_TAIL_CHUNK_WIN as int),
        ),
{
    let ghost cs = hexa_inputs(inputs);
    let ghost z0 = z@;
    let ghost a0 = a@;
    let ghost b0 = b@;
    let p = match inputs {
        HexaInputs::Blocks(blocks) => prepare_block_inputs16(&blocks),
        HexaInputs::Closed { init, base } => prepare_closed_inputs16(init, base),
    };
    let ranges = Ranges::new(elide);
    let mut state = p.start(Ghost(cs));
    let mut h = open_hexa(&p, Ghost(cs));
    assert(kept_from(36) == 16);
    hexa_records(&mut h, &mut state, &p, z, a, b, &ranges, Ghost(cs), Ghost(z0), Ghost(a0), Ghost(b0));
    hexa_tail(&mut h, z, a, b, &ranges, Ghost(cs), Ghost(z0), Ghost(a0), Ghost(b0));
    let ghost z1 = z@;
    let ghost a1 = a@;
    let ghost b1 = b@;
    hexa_head(&mut h, &state, &p, z, a, b, &ranges, Ghost(cs));
    proof {
        lemma_parts_cover(z0, z1, z@, Side::Z, cs, 0, ranges.zero_z as int);
        lemma_parts_cover(a0, a1, a@, Side::A, cs, 0, ranges.zero_a as int);
        lemma_parts_cover(b0, b1, b@, Side::B, cs, ranges.b0 as int, ranges.b1 as int);
    }
}

} // verus!
