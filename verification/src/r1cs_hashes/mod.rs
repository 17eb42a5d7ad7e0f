//! Packed witness rows of the BLAKE3 compression.
//!
//! A compression fills one block of [`K`] bits on each of three sides, `z`, `a`
//! and `b`. From the low end a block holds the chaining value, the new chaining
//! value, a one, the chained inputs (message, counter, length and flags), one
//! record for each of the 56 G steps, the upper output half and zeros. A record
//! holds 31 bits for each of the six additions of its step, then the new second
//! and fourth word. For an addition, `a` and `b` hold the two operands, each
//! XORed with the carries into its positions, and `z` their AND. Where a row
//! only copies a word, `b` holds ones.

pub mod blake3_witgen16;
pub mod blake3_witgen8;
pub mod laws;
pub mod rows;

use crate::blake3_core::{g_a, g_at, g_b, g_c, g_d, init_state, rotr, sched, steps, wadd};
use crate::lanes::{lane_of, merge_bits, Lanes};
use vstd::prelude::*;

verus! {

/// Chaining value, message, counter, block length and flags of one compression.
pub type Compression = ([u32; 8], [u32; 16], u64, u32, u32);

/// The inputs of a compression.
#[verifier::ext_equal]
pub struct Inputs {
    pub cv: Seq<u32>,
    pub message: Seq<u32>,
    pub counter: u64,
    pub block_len: u32,
    pub flags: u32,
}

/// The inputs that `c` holds.
pub open spec fn inputs_of(c: Compression) -> Inputs {
    Inputs { cv: c.0@, message: c.1@, counter: c.2, block_len: c.3, flags: c.4 }
}

/// Bits of a block.
pub const K: usize = 16384;

/// Bits of a word.
pub const WORD_BITS: usize = 32;

/// Rows of one addition.
pub const CARRY_BITS_PER_ADD: usize = 31;

/// Additions of one G step.
pub const ADDS_PER_G: usize = 6;

/// The first bit of the records.
pub const GS_BASE: usize = 1153;

/// Bits of one record.
pub const G_STRIDE: usize = 250;

/// The first bit of the upper output half.
pub const OUT_HI_BASE: usize = 15153;

/// Bits before the zero padding.
pub const USEFUL_BITS: usize = 15409;

/// Words of a block.
pub const U32_PER_BLOCK: usize = 512;

/// Groups of eight words of a block.
pub const DUMP_CHUNKS: usize = 64;

/// The last word that holds a useful bit.
pub const LAST_WORD: usize = 481;

/// The first group left out when `z` or `a` already holds its zero tail.
pub const ELIDE_ZERO_CHUNK: usize = 62;

/// The first group left out when `b` already holds its constant tail.
pub const ELIDE_B_TAIL_CHUNK: usize = 59;

/// [`ELIDE_B_TAIL_CHUNK`] where groups are stored in pairs.
pub const ELIDE_B_TAIL_CHUNK_WIN: usize = 60;

/// Leading groups left out when `b` already holds its constant prefix.
pub const ELIDE_B_PREFIX_CHUNKS: usize = 4;

/// One side of the rows.
#[derive(Clone, Copy, Debug, PartialEq, Eq)]
pub enum Side {
    Z,
    A,
    B,
}

/// Bit `t` of `x`.
pub open spec fn bit32(x: u32, t: int) -> bool {
    (x >> (t as u32)) & 1 == 1
}

/// The carries into each position of the sum of `x` and `y`.
pub open spec fn carry_in(x: u32, y: u32) -> u32 {
    wadd(x, y) ^ x ^ y
}

/// The words of the addition `x + y` on a side.
pub open spec fn add_field(side: Side, x: u32, y: u32) -> u32 {
    match side {
        Side::A => x ^ carry_in(x, y),
        Side::B => y ^ carry_in(x, y),
        Side::Z => (x ^ carry_in(x, y)) & (y ^ carry_in(x, y)),
    }
}

/// The operands of the six additions of step `n` from state `s`.
pub open spec fn additions(s: Seq<u32>, m: Seq<u32>, n: int) -> Seq<(u32, u32)> {
    let r = n / 8;
    let g = n % 8;
    let x = m[sched(r, 2 * g)];
    let y = m[sched(r, 2 * g + 1)];
    let sa = s[g_a(g)];
    let sb = s[g_b(g)];
    let sc = s[g_c(g)];
    let sd = s[g_d(g)];
    let t0 = wadd(sa, sb);
    let a1 = wadd(t0, x);
    let d1 = rotr(sd ^ a1, 16);
    let c1 = wadd(sc, d1);
    let b1 = rotr(sb ^ c1, 12);
    let t1 = wadd(a1, b1);
    let a2 = wadd(t1, y);
    let d2 = rotr(d1 ^ a2, 8);
    seq![(sa, sb), (t0, x), (sc, d1), (a1, b1), (t1, y), (c1, d2)]
}

/// Field `f` of the record of step `n` from state `s`.
#[verifier::opaque]
pub open spec fn step_field(side: Side, s: Seq<u32>, m: Seq<u32>, n: int, f: int) -> u32 {
    if f < 6 {
        add_field(side, additions(s, m, n)[f].0, additions(s, m, n)[f].1)
    } else if side == Side::B {
        u32::MAX
    } else if f == 6 {
        g_at(s, m, n)[g_b(n % 8)]
    } else {
        g_at(s, m, n)[g_d(n % 8)]
    }
}

/// The first bit of field `f` within a record.
pub open spec fn field_pos(f: int) -> int {
    if f < 6 {
        31 * f
    } else {
        186 + 32 * (f - 6)
    }
}

/// The bits of field `f`.
pub open spec fn field_width(f: int) -> int {
    if f < 6 {
        31
    } else {
        32
    }
}

/// The field of a record to which its bit `off` belongs.
pub open spec fn field_of(off: int) -> int {
    if off < 186 {
        off / 31
    } else {
        6 + (off - 186) / 32
    }
}

/// The state before step `n`.
pub open spec fn state_at(c: Inputs, n: int) -> Seq<u32> {
    steps(init_state(c.cv, c.counter, c.block_len, c.flags), c.message, 0, n as nat)
}

/// Chained input word `k`: the message, the counter, the length and the flags.
pub open spec fn chain_word(c: Inputs, k: int) -> u32 {
    if k < 16 {
        c.message[k]
    } else {
        init_state(c.cv, c.counter, c.block_len, c.flags)[k - 4]
    }
}

/// Bit `i` of the block of `c` on a side.
#[verifier::opaque]
pub open spec fn witness_bit(side: Side, c: Inputs, i: int) -> bool {
    if i < GS_BASE {
        if i == 512 || side == Side::B {
            true
        } else if i < 256 {
            bit32(c.cv[i / 32], i % 32)
        } else if i < 512 {
            bit32(state_at(c, 56)[i / 32 - 8] ^ state_at(c, 56)[i / 32], i % 32)
        } else {
            bit32(chain_word(c, (i - 513) / 32), (i - 513) % 32)
        }
    } else if i < OUT_HI_BASE {
        let n = (i - GS_BASE) / 250;
        let off = (i - GS_BASE) % 250;
        let f = field_of(off);
        bit32(step_field(side, state_at(c, n), c.message, n, f), off - field_pos(f))
    } else if i < USEFUL_BITS {
        let w = (i - OUT_HI_BASE) / 32;
        side == Side::B || bit32(state_at(c, 56)[w + 8] ^ c.cv[w], (i - OUT_HI_BASE) % 32)
    } else {
        false
    }
}

/// Whether `x` is word `w` of the block of `c` on a side.
pub open spec fn is_word(x: u32, side: Side, c: Inputs, w: int) -> bool {
    forall|t: int| 0 <= t < 32 ==> #[trigger] bit32(x, t) == witness_bit(side, c, 32 * w + t)
}

/// Bits of the bitwise operations.
pub proof fn lemma_bit_ops(x: u32, y: u32, t: u32)
    requires
        t < 32,
    ensures
        bit32(x & y, t as int) == (bit32(x, t as int) && bit32(y, t as int)),
        bit32(x | y, t as int) == (bit32(x, t as int) || bit32(y, t as int)),
        bit32(0, t as int) == false,
        bit32(u32::MAX, t as int) == true,
{
    assert((((x & y) >> t) & 1 == 1) == ((x >> t) & 1 == 1 && (y >> t) & 1 == 1) && (((x | y) >> t) & 1 == 1) == ((x
        >> t) & 1 == 1 || (y >> t) & 1 == 1) && (0u32 >> t) & 1 != 1 && (0xffff_ffffu32 >> t) & 1 == 1)
        by (bit_vector)
        requires
            t < 32,
    ;
}

/// Bits of shifted and merged words.
pub proof fn lemma_bit_shifts(p: u32, v: u32, u: u32, t: u32)
    requires
        u < 32,
        t < 32,
    ensures
        bit32(merge_bits(p, v, u), t as int) == (if t < u {
            bit32(p, t as int)
        } else {
            bit32(v, t - u)
        }),
        u > 0 ==> bit32(v >> ((32 - u) as u32), t as int) == (t < u && bit32(v, t + 32 - u)),
        u > 0 ==> bit32((v << u) | (p >> ((32 - u) as u32)), t as int) == (if t < u {
            bit32(p, t + 32 - u)
        } else {
            bit32(v, t - u)
        }),
        bit32(v << 1, t as int) == (t > 0 && bit32(v, t - 1)),
        bit32((p >> 31) | (v << 1), t as int) == (if t == 0 {
            bit32(p, 31)
        } else {
            bit32(v, t - 1)
        }),
        bit32(1 | (v << 1), t as int) == (t == 0 || bit32(v, t - 1)),
        bit32((p >> 31) << 31, t as int) == (t == 31 && bit32(p, 31)),
        bit32(p >> 31, t as int) == (t == 0 && bit32(p, 31)),
        bit32(1, t as int) == (t == 0),
        bit32(1u32 << 31, t as int) == (t == 31),
{
    let k = (32 - u) as u32;
    let lo = if t >= u {
        (t - u) as u32
    } else {
        0
    };
    let hi = if t < u {
        (t + 32 - u) as u32
    } else {
        0
    };
    let t1 = if t > 0 {
        (t - 1) as u32
    } else {
        0
    };
    let mask = ((1u64 << (u as u64)) - 1) as u32;
    assert(((((v << u) | (p & (((1u64 << (u as u64)) - 1) as u32))) >> t) & 1 == 1) == (if t < u {
        (p >> t) & 1 == 1
    } else {
        (v >> lo) & 1 == 1
    }) && (u > 0 ==> (((v >> k) >> t) & 1 == 1) == (t < u && (v >> hi) & 1 == 1)) && (u > 0 ==> ((((v << u) | (p
        >> k)) >> t) & 1 == 1) == (if t < u {
        (p >> hi) & 1 == 1
    } else {
        (v >> lo) & 1 == 1
    })) && (((v << 1) >> t) & 1 == 1) == (t > 0 && (v >> t1) & 1 == 1) && ((((p >> 31) | (v << 1)) >> t) & 1 == 1)
        == (if t == 0 {
        (p >> 31) & 1 == 1
    } else {
        (v >> t1) & 1 == 1
    }) && (((1 | (v << 1)) >> t) & 1 == 1) == (t == 0 || (v >> t1) & 1 == 1) && ((((p >> 31) << 31) >> t) & 1 == 1)
        == (t == 31 && (p >> 31) & 1 == 1) && (((p >> 31) >> t) & 1 == 1) == (t == 0 && (p >> 31) & 1 == 1) && ((1u32
        >> t) & 1 == 1) == (t == 0) && (((1u32 << 31) >> t) & 1 == 1) == (t == 31)) by (bit_vector)
        requires
            u < 32,
            t < 32,
            k == 32 - u,
            t >= u ==> lo == t - u,
            t < u ==> hi == t + 32 - u,
            t > 0 ==> t1 == t - 1,
    ;
}

/// On every row, the bit of `z` is the AND of those of `a` and `b`.
pub proof fn law_z_is_a_and_b(c: Inputs, i: int)
    requires
        0 <= i < K,
    ensures
        witness_bit(Side::Z, c, i) == (witness_bit(Side::A, c, i) && witness_bit(Side::B, c, i)),
{
    reveal(witness_bit);
    if GS_BASE <= i < OUT_HI_BASE {
        let n = (i - GS_BASE) / 250;
        let off = (i - GS_BASE) % 250;
        let f = field_of(off);
        let t = off - field_pos(f);
        assert(0 <= t < 32);
        reveal(step_field);
        let s = state_at(c, n);
        if f < 6 {
            let x = additions(s, c.message, n)[f].0;
            let y = additions(s, c.message, n)[f].1;
            lemma_bit_ops(add_field(Side::A, x, y), add_field(Side::B, x, y), t as u32);
        } else {
            lemma_bit_ops(0, 0, t as u32);
        }
    }
}

/// The rows of an addition pin its carries down: the AND of the rows, XORed with
/// the carry into a position, is the carry out of it, which enters the next one.
pub proof fn law_carry_chain(x: u32, y: u32)
    ensures
        (add_field(Side::Z, x, y) ^ carry_in(x, y)) << 1 == carry_in(x, y),
{
    let s = wadd(x, y);
    assert(((((x ^ (s ^ x ^ y)) & (y ^ (s ^ x ^ y))) ^ (s ^ x ^ y)) << 1) == s ^ x ^ y) by (bit_vector)
        requires
            s == (if x + y < 0x1_0000_0000 {
                x + y
            } else {
                x + y - 0x1_0000_0000
            }),
    ;
}

/// The operands of an addition XORed with the carries are the sum XORed with the
/// other operand.
pub proof fn lemma_sides_from_sum(x: u32, y: u32)
    ensures
        wadd(x, y) ^ y == add_field(Side::A, x, y),
        wadd(x, y) ^ x == add_field(Side::B, x, y),
{
    let s = wadd(x, y);
    assert(s ^ y == x ^ (s ^ x ^ y) && s ^ x == y ^ (s ^ x ^ y)) by (bit_vector);
}

/// The sum of two vectors and the words of their addition on the sides `a` and `b`.
pub fn add_carry_parts<const N: usize>(x: Lanes<N>, y: Lanes<N>) -> (r: (Lanes<N>, Lanes<N>, Lanes<N>))
    ensures
        forall|j: int| 0 <= j < N ==> #[trigger] r.0@[j] == wadd(x@[j], y@[j]),
        forall|j: int| 0 <= j < N ==> #[trigger] r.1@[j] == add_field(Side::A, x@[j], y@[j]),
        forall|j: int| 0 <= j < N ==> #[trigger] r.2@[j] == add_field(Side::B, x@[j], y@[j]),
{
    let sum = x.wrapping_add(y);
    let left = sum.xor(y);
    let right = sum.xor(x);
    proof {
        assert forall|j: int| 0 <= j < N implies #[trigger] left@[j] == add_field(Side::A, x@[j], y@[j]) by {
            lemma_sides_from_sum(x@[j], y@[j]);
        }
        assert forall|j: int| 0 <= j < N implies #[trigger] right@[j] == add_field(Side::B, x@[j], y@[j]) by {
            lemma_sides_from_sum(x@[j], y@[j]);
        }
    }
    (sum, left, right)
}

/// Whether `fields` are the fields of step `n` from `state` in every lane.
pub open spec fn are_fields<const N: usize>(
    fields: Seq<Lanes<N>>,
    side: Side,
    state: Seq<Lanes<N>>,
    m: Seq<Lanes<N>>,
    n: int,
) -> bool {
    &&& fields.len() == 8
    &&& forall|f: int, j: int|
        0 <= f < 8 && 0 <= j < N ==> #[trigger] fields[f]@[j] == step_field(
            side,
            lane_of(state, j),
            lane_of(m, j),
            n,
            f,
        )
}

/// The four state words of step `g` of a round.
pub fn step_words(g: usize) -> (r: (usize, usize, usize, usize))
    requires
        g < 8,
    ensures
        r.0 == g_a(g as int),
        r.1 == g_b(g as int),
        r.2 == g_c(g as int),
        r.3 == g_d(g as int),
        r.0 < 4,
        4 <= r.1 < 8,
        8 <= r.2 < 12,
        12 <= r.3 < 16,
{
    if g < 4 {
        (g, 4 + g, 8 + g, 12 + g)
    } else {
        (g % 4, 4 + (g + 1) % 4, 8 + (g + 2) % 4, 12 + (g + 3) % 4)
    }
}

/// Step `n` in every lane: the new state, and the fields of its record on the
/// sides `a` and `b`.
pub fn step_fields<const N: usize>(state: &mut [Lanes<N>; 16], m: &[Lanes<N>; 16], n: usize) -> (r: (
    [Lanes<N>; 8],
    [Lanes<N>; 8],
))
    requires
        n < 56,
    ensures
        forall|j: int|
            0 <= j < N ==> #[trigger] lane_of(final(state)@, j) == g_at(lane_of(old(state)@, j), lane_of(m@, j), n as int),
        are_fields(r.0@, Side::A, old(state)@, m@, n as int),
        are_fields(r.1@, Side::B, old(state)@, m@, n as int),
{
    let ghost s = state@;
    let round: usize = n / 8;
    let g: usize = n % 8;
    let (ia, ib, ic, id) = step_words(g);
    proof {
        crate::blake3_core::lemma_sched_bounds(round as int, 2 * g as int);
        crate::blake3_core::lemma_sched_bounds(round as int, 2 * g as int + 1);
    }
    let row: [usize; 16] = crate::blake3_core::BLAKE3_MSG_SCHEDULE[round];
    let x = m[row[2 * g]];
    let y = m[row[2 * g + 1]];
    let sa = state[ia];
    let sb = state[ib];
    let sc = state[ic];
    let sd = state[id];
    let (t0, l0, r0) = add_carry_parts(sa, sb);
    let (a1, l1, r1) = add_carry_parts(t0, x);
    let d1 = sd.xor_rotr(a1, 16);
    let (c1, l2, r2) = add_carry_parts(sc, d1);
    let b1 = sb.xor_rotr(c1, 12);
    let (t1, l3, r3) = add_carry_parts(a1, b1);
    let (a2, l4, r4) = add_carry_parts(t1, y);
    let d2 = d1.xor_rotr(a2, 8);
    let (c2, l5, r5) = add_carry_parts(c1, d2);
    let bn = b1.xor_rotr(c2, 7);
    let ones: Lanes<N> = Lanes::splat(u32::MAX);
    state[ia] = a2;
    state[ib] = bn;
    state[ic] = c2;
    state[id] = d2;
    let fa = [l0, l1, l2, l3, l4, l5, bn, d2];
    let fb = [r0, r1, r2, r3, r4, r5, ones, ones];
    proof {
        assert forall|j: int| 0 <= j < N implies #[trigger] lane_of(state@, j) == g_at(
            lane_of(s, j),
            lane_of(m@, j),
            n as int,
        ) && lane_step_ok(fa@, fb@, s, m@, n as int, j) by {
            reveal(step_field);
            assert(t0@[j] == wadd(sa@[j], sb@[j]));
            assert(a1@[j] == wadd(t0@[j], x@[j]));
            assert(d1@[j] == rotr(sd@[j] ^ a1@[j], 16));
            assert(c1@[j] == wadd(sc@[j], d1@[j]));
            assert(b1@[j] == rotr(sb@[j] ^ c1@[j], 12));
            assert(t1@[j] == wadd(a1@[j], b1@[j]));
            assert(a2@[j] == wadd(t1@[j], y@[j]));
            assert(d2@[j] == rotr(d1@[j] ^ a2@[j], 8));
            assert(c2@[j] == wadd(c1@[j], d2@[j]));
            assert(bn@[j] == rotr(b1@[j] ^ c2@[j], 7));
            assert(lane_of(state@, j) =~= g_at(lane_of(s, j), lane_of(m@, j), n as int));
            let ops = additions(lane_of(s, j), lane_of(m@, j), n as int);
            assert(ops[0] == (sa@[j], sb@[j]));
            assert(ops[1] == (t0@[j], x@[j]));
            assert(ops[2] == (sc@[j], d1@[j]));
            assert(ops[3] == (a1@[j], b1@[j]));
            assert(ops[4] == (t1@[j], y@[j]));
            assert(ops[5] == (c1@[j], d2@[j]));
            assert(l0@[j] == add_field(Side::A, sa@[j], sb@[j]) && r0@[j] == add_field(Side::B, sa@[j], sb@[j]));
            assert(l1@[j] == add_field(Side::A, t0@[j], x@[j]) && r1@[j] == add_field(Side::B, t0@[j], x@[j]));
            assert(l2@[j] == add_field(Side::A, sc@[j], d1@[j]) && r2@[j] == add_field(Side::B, sc@[j], d1@[j]));
            assert(l3@[j] == add_field(Side::A, a1@[j], b1@[j]) && r3@[j] == add_field(Side::B, a1@[j], b1@[j]));
            assert(l4@[j] == add_field(Side::A, t1@[j], y@[j]) && r4@[j] == add_field(Side::B, t1@[j], y@[j]));
            assert(l5@[j] == add_field(Side::A, c1@[j], d2@[j]) && r5@[j] == add_field(Side::B, c1@[j], d2@[j]));
            assert(ones@[j] == u32::MAX);
            assert(g_at(lane_of(s, j), lane_of(m@, j), n as int)[ib as int] == bn@[j]);
            assert(g_at(lane_of(s, j), lane_of(m@, j), n as int)[id as int] == d2@[j]);
            assert forall|f: int| 0 <= f < 8 implies #[trigger] fa@[f]@[j] == step_field(
                Side::A,
                lane_of(s, j),
                lane_of(m@, j),
                n as int,
                f,
            ) && fb@[f]@[j] == step_field(Side::B, lane_of(s, j), lane_of(m@, j), n as int, f) by {
                assert(f == 0 || f == 1 || f == 2 || f == 3 || f == 4 || f == 5 || f == 6 || f == 7);
            }
        }
        assert forall|f: int, j: int| 0 <= f < 8 && 0 <= j < N implies #[trigger] fa@[f]@[j] == step_field(
            Side::A,
            lane_of(s, j),
            lane_of(m@, j),
            n as int,
            f,
        ) by {
            assert(lane_of(state@, j) == g_at(lane_of(s, j), lane_of(m@, j), n as int));
        }
        assert forall|f: int, j: int| 0 <= f < 8 && 0 <= j < N implies #[trigger] fb@[f]@[j] == step_field(
            Side::B,
            lane_of(s, j),
            lane_of(m@, j),
            n as int,
            f,
        ) by {
            assert(lane_of(state@, j) == g_at(lane_of(s, j), lane_of(m@, j), n as int));
            assert(fa@[f]@[j] == step_field(Side::A, lane_of(s, j), lane_of(m@, j), n as int, f));
        }
    }
    (fa, fb)
}

/// Whether the bits before `pos` of the streams stand in `stage` and, for the
/// last, incomplete word, in the low bits of `pending`. The streams start at the
/// bit before the records.
pub open spec fn streamed<const N: usize>(
    stage: Seq<Lanes<N>>,
    pending: Lanes<N>,
    side: Side,
    cs: Seq<Inputs>,
    pos: int,
) -> bool {
    forall|j: int, i: int|
        0 <= j < N && 1152 <= i < pos ==> #[trigger] witness_bit(side, cs[j], i) == bit32(
            if i / 32 < pos / 32 {
                stage[i / 32]@[j]
            } else {
                pending@[j]
            },
            i % 32,
        )
}

/// Whether `v` holds the next `width` bits of the streams.
pub open spec fn next_bits<const N: usize>(v: Lanes<N>, side: Side, cs: Seq<Inputs>, pos: int, width: int) -> bool {
    forall|j: int, t: int|
        0 <= j < N && 0 <= t < width ==> #[trigger] bit32(v@[j], t) == witness_bit(side, cs[j], pos + t)
}

/// Whether the lanes of `cs` have reached the state before step `n`.
pub open spec fn lanes_at<const N: usize>(state: Seq<Lanes<N>>, m: Seq<Lanes<N>>, cs: Seq<Inputs>, n: int) -> bool {
    &&& cs.len() == N
    &&& forall|j: int| 0 <= j < N ==> #[trigger] lane_of(state, j) == state_at(cs[j], n)
    &&& forall|j: int| 0 <= j < N ==> #[trigger] lane_of(m, j) == cs[j].message
}

/// Whether every word of `stage` is the word of its lane's block.
pub open spec fn is_full_stage<const N: usize>(stage: Seq<Lanes<N>>, side: Side, cs: Seq<Inputs>) -> bool {
    &&& stage.len() == U32_PER_BLOCK
    &&& forall|w: int, j: int|
        0 <= w < U32_PER_BLOCK && 0 <= j < N ==> is_word(#[trigger] stage[w]@[j], side, cs[j], w)
}

/// Whether the groups `g0..g1` of each block in `d` are those of `cs` and the
/// others are as in `d0`.
pub open spec fn is_drained(d0: Seq<u32>, d: Seq<u32>, side: Side, cs: Seq<Inputs>, g0: int, g1: int) -> bool {
    &&& d.len() == d0.len()
    &&& forall|p: int|
        0 <= p < d.len() ==> if 8 * g0 <= p % 512 < 8 * g1 {
            is_word(#[trigger] d[p], side, cs[p / 512], p % 512)
        } else {
            d[p] == d0[p]
        }
}

/// The bits of field `f` of record `n`.
pub proof fn lemma_field_bit(side: Side, c: Inputs, n: int, f: int, t: int)
    requires
        0 <= n < 56,
        0 <= f < 8,
        0 <= t < field_width(f),
    ensures
        witness_bit(side, c, GS_BASE + 250 * n + field_pos(f) + t) == bit32(
            step_field(side, state_at(c, n), c.message, n, f),
            t,
        ),
{
    reveal(witness_bit);
    let off = field_pos(f) + t;
    assert(0 <= off < 250);
    let i = GS_BASE + 250 * n + off;
    assert((i - GS_BASE) / 250 == n && (i - GS_BASE) % 250 == off);
    assert(f == 0 || f == 1 || f == 2 || f == 3 || f == 4 || f == 5 || f == 6 || f == 7);
    assert(field_of(off) == f);
}

/// The words before the records on the sides `z` and `a`.
pub proof fn lemma_head_word(side: Side, c: Inputs, w: int, x: u32)
    requires
        0 <= w < 36,
        side == Side::B ==> x == u32::MAX,
        side != Side::B && w < 8 ==> x == c.cv[w],
        side != Side::B && 8 <= w < 16 ==> x == state_at(c, 56)[w - 8] ^ state_at(c, 56)[w],
        side != Side::B && w == 16 ==> x == 1 | (chain_word(c, 0) << 1),
        side != Side::B && 16 < w ==> x == (chain_word(c, w - 17) >> 31) | (chain_word(c, w - 16) << 1),
    ensures
        is_word(x, side, c, w),
{
    assert forall|t: int| 0 <= t < 32 implies #[trigger] bit32(x, t) == witness_bit(side, c, 32 * w + t) by {
        reveal(witness_bit);
        let i = 32 * w + t;
        assert(i / 32 == w && i % 32 == t);
        lemma_bit_ops(x, x, t as u32);
        if w == 16 {
            lemma_bit_shifts(0, chain_word(c, 0), 0, t as u32);
        } else if w > 16 {
            lemma_bit_shifts(chain_word(c, w - 17), chain_word(c, w - 16), 0, t as u32);
        }
    }
}

/// The bits of the upper output half.
pub proof fn lemma_out_hi_bit(side: Side, c: Inputs, w: int, t: int)
    requires
        0 <= w < 8,
        0 <= t < 32,
    ensures
        witness_bit(side, c, OUT_HI_BASE + 32 * w + t) == (side == Side::B || bit32(
            state_at(c, 56)[w + 8] ^ c.cv[w],
            t,
        )),
{
    reveal(witness_bit);
    assert((32 * w + t) / 32 == w && (32 * w + t) % 32 == t);
}

/// Past the useful bits a block is zero.
pub proof fn lemma_zero_word(side: Side, c: Inputs, w: int)
    requires
        482 <= w < 512,
    ensures
        is_word(0, side, c, w),
{
    assert forall|t: int| 0 <= t < 32 implies #[trigger] bit32(0, t) == witness_bit(side, c, 32 * w + t) by {
        reveal(witness_bit);
        lemma_bit_ops(0, 0, t as u32);
    }
}

/// The groups that elision leaves out hold the same words for every
/// compression, so a buffer that holds any block's words there keeps them.
pub proof fn law_elided_words_are_constant(c0: Inputs, c: Inputs, side: Side, x: u32, w: int)
    requires
        0 <= w < U32_PER_BLOCK,
        side != Side::B ==> w >= 8 * ELIDE_ZERO_CHUNK,
        side == Side::B ==> w < 8 * ELIDE_B_PREFIX_CHUNKS || w >= 8 * ELIDE_B_TAIL_CHUNK,
        is_word(x, side, c0, w),
    ensures
        is_word(x, side, c, w),
{
    assert forall|t: int| 0 <= t < 32 implies #[trigger] bit32(x, t) == witness_bit(side, c, 32 * w + t) by {
        assert(bit32(x, t) == witness_bit(side, c0, 32 * w + t));
        reveal(witness_bit);
        let i = 32 * w + t;
        if GS_BASE <= i < OUT_HI_BASE {
            reveal(step_field);
            let off = (i - GS_BASE) % 250;
            assert((i - GS_BASE) / 250 == 55);
            assert(off >= 186);
            lemma_bit_ops(0, 0, (off - field_pos(field_of(off))) as u32);
        }
    }
}

/// A buffer that held the words of any compressions in the groups that were left
/// out holds whole blocks after the others have been stored.
pub proof fn law_elision_keeps_blocks_whole(
    d0: Seq<u32>,
    d: Seq<u32>,
    side: Side,
    cs0: Seq<Inputs>,
    cs: Seq<Inputs>,
    g0: int,
    g1: int,
)
    requires
        is_drained(d0, d, side, cs, g0, g1),
        is_drained(d0, d0, side, cs0, 0, 64),
        side != Side::B ==> g0 == 0 && ELIDE_ZERO_CHUNK <= g1 <= 64,
        side == Side::B ==> 0 <= g0 <= ELIDE_B_PREFIX_CHUNKS && ELIDE_B_TAIL_CHUNK <= g1 <= 64,
    ensures
        is_drained(d0, d, side, cs, 0, 64),
{
    assert forall|p: int| 0 <= p < d.len() implies is_word(#[trigger] d[p], side, cs[p / 512], p % 512) by {
        if !(8 * g0 <= p % 512 < 8 * g1) {
            assert(d[p] == d0[p]);
            assert(is_word(d0[p], side, cs0[p / 512], p % 512));
            law_elided_words_are_constant(cs0[p / 512], cs[p / 512], side, d[p], p % 512);
        }
    }
}

/// The inputs of a compression determine every word of its block.
pub proof fn law_word_is_determined(x: u32, y: u32, side: Side, c: Inputs, w: int)
    requires
        is_word(x, side, c, w),
        is_word(y, side, c, w),
    ensures
        x == y,
{
    assert forall|t: int| 0 <= t < 32 implies bit32(x, t) == #[trigger] bit32(y, t) by {
        assert(bit32(x, t) == witness_bit(side, c, 32 * w + t));
    }
    lemma_same_bits(x, y);
}

/// Words with the same bits are the same.
pub proof fn lemma_same_bits(x: u32, y: u32)
    requires
        forall|t: int| 0 <= t < 32 ==> bit32(x, t) == #[trigger] bit32(y, t),
    ensures
        x == y,
{
    assert forall|t: u32| t < 32 implies #[trigger] ((x >> t) & 1) == (y >> t) & 1 by {
        assert(bit32(x, t as int) == bit32(y, t as int));
        crate::bits::lemma_word_facts(0, 0, x, t, 0, 0);
        crate::bits::lemma_word_facts(0, 0, y, t, 0, 0);
    }
    assert(x == y) by (bit_vector)
        requires
            (x >> 0) & 1 == (y >> 0) & 1,
            (x >> 1) & 1 == (y >> 1) & 1,
            (x >> 2) & 1 == (y >> 2) & 1,
            (x >> 3) & 1 == (y >> 3) & 1,
            (x >> 4) & 1 == (y >> 4) & 1,
            (x >> 5) & 1 == (y >> 5) & 1,
            (x >> 6) & 1 == (y >> 6) & 1,
            (x >> 7) & 1 == (y >> 7) & 1,
            (x >> 8) & 1 == (y >> 8) & 1,
            (x >> 9) & 1 == (y >> 9) & 1,
            (x >> 10) & 1 == (y >> 10) & 1,
            (x >> 11) & 1 == (y >> 11) & 1,
            (x >> 12) & 1 == (y >> 12) & 1,
            (x >> 13) & 1 == (y >> 13) & 1,
            (x >> 14) & 1 == (y >> 14) & 1,
            (x >> 15) & 1 == (y >> 15) & 1,
            (x >> 16) & 1 == (y >> 16) & 1,
            (x >> 17) & 1 == (y >> 17) & 1,
            (x >> 18) & 1 == (y >> 18) & 1,
            (x >> 19) & 1 == (y >> 19) & 1,
            (x >> 20) & 1 == (y >> 20) & 1,
            (x >> 21) & 1 == (y >> 21) & 1,
            (x >> 22) & 1 == (y >> 22) & 1,
            (x >> 23) & 1 == (y >> 23) & 1,
            (x >> 24) & 1 == (y >> 24) & 1,
            (x >> 25) & 1 == (y >> 25) & 1,
            (x >> 26) & 1 == (y >> 26) & 1,
            (x >> 27) & 1 == (y >> 27) & 1,
            (x >> 28) & 1 == (y >> 28) & 1,
            (x >> 29) & 1 == (y >> 29) & 1,
            (x >> 30) & 1 == (y >> 30) & 1,
            (x >> 31) & 1 == (y >> 31) & 1,
    ;
}

/// However many compressions are built together, and at whichever place among
/// them, a compression gets the same rows.
pub proof fn law_rows_do_not_depend_on_company(
    d0: Seq<u32>,
    d: Seq<u32>,
    cs: Seq<Inputs>,
    p: int,
    e0: Seq<u32>,
    e: Seq<u32>,
    ct: Seq<Inputs>,
    q: int,
    side: Side,
)
    requires
        is_drained(d0, d, side, cs, 0, DUMP_CHUNKS as int),
        is_drained(e0, e, side, ct, 0, DUMP_CHUNKS as int),
        0 <= p < d.len(),
        0 <= q < e.len(),
        p % 512 == q % 512,
        cs[p / 512] == ct[q / 512],
    ensures
        d[p] == e[q],
{
    assert(is_word(d[p], side, cs[p / 512], p % 512));
    assert(is_word(e[q], side, ct[q / 512], q % 512));
    law_word_is_determined(d[p], e[q], side, cs[p / 512], p % 512);
}

/// The fields of one lane.
spec fn lane_step_ok<const N: usize>(
    fa: Seq<Lanes<N>>,
    fb: Seq<Lanes<N>>,
    s: Seq<Lanes<N>>,
    m: Seq<Lanes<N>>,
    n: int,
    j: int,
) -> bool {
    forall|f: int|
        0 <= f < 8 ==> #[trigger] fa[f]@[j] == step_field(Side::A, lane_of(s, j), lane_of(m, j), n, f) && fb[f]@[j]
            == step_field(Side::B, lane_of(s, j), lane_of(m, j), n, f)
}

} // verus!
