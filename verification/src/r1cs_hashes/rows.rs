//! What the rows say about a compression.
//!
//! Read as words, the rows of a block hold the inputs, for each G step the carries of
//! its six additions and two of its new words, and the outputs. From these alone the
//! state can be followed step by step: the carries turn every sum into an XOR. This
//! module states the relations between the words, shows that the rows of every
//! compression satisfy them, and that rows which satisfy them hold the outputs of the
//! compression of the inputs that they hold.

use super::{
    add_field, additions, bit32, carry_in, chain_word, field_pos, field_width, law_carry_chain, law_z_is_a_and_b,
    lemma_bit_ops, lemma_field_bit, lemma_out_hi_bit, lemma_same_bits, state_at, step_field, witness_bit, Inputs, Side,
};
use crate::blake3_core::laws::law_start_state_holds_the_inputs;
use crate::blake3_core::{
    compress_full, g_a, g_at, g_b, g_c, g_d, init_state, lemma_sched_bounds, rotr, sched, steps, wadd,
};
use vstd::prelude::*;

verus! {

/// Whether the `width` low bits of `x` are the bits from `pos` on, and its other bits
/// are zero.
pub open spec fn has_bits(x: u32, bits: spec_fn(int) -> bool, pos: int, width: int) -> bool {
    forall|t: int| 0 <= t < 32 ==> (#[trigger] bit32(x, t) == (t < width && bits(pos + t)))
}

/// The word whose `width` low bits are the bits from `pos` on.
pub open spec fn word_at(bits: spec_fn(int) -> bool, pos: int, width: int) -> u32 {
    choose|x: u32| has_bits(x, bits, pos, width)
}

proof fn lemma_word_at(bits: spec_fn(int) -> bool, pos: int, width: int, x: u32)
    requires
        forall|t: int| 0 <= t < 32 ==> (#[trigger] bit32(x, t) == (t < width && bits(pos + t))),
    ensures
        word_at(bits, pos, width) == x,
{
    let y = word_at(bits, pos, width);
    assert(has_bits(x, bits, pos, width));
    assert(has_bits(y, bits, pos, width));
    assert forall|t: int| 0 <= t < 32 implies bit32(y, t) == #[trigger] bit32(x, t) by {
        assert(bit32(y, t) == (t < width && bits(pos + t)));
    }
    lemma_same_bits(y, x);
}

/// The carries into the positions of a sum, from the carry rows: bit `t` is the XOR of
/// the bits of `z` below `t`.
pub open spec fn carries(z: u32) -> u32 {
    let p = z << 1;
    let p = p ^ (p << 1);
    let p = p ^ (p << 2);
    let p = p ^ (p << 4);
    let p = p ^ (p << 8);
    p ^ (p << 16)
}

proof fn lemma_one_prefix(z: u32, c: u32, p: u32)
    by (bit_vector)
    requires
        (z ^ c) << 1 == c,
        ((z & 0x7fff_ffffu32) ^ p) << 1 == p,
    ensures
        p == c,
{
}

proof fn lemma_prefix_down(z: u32)
    by (bit_vector)
    ensures
        (z ^ carries(z)) << 1 == carries(z),
{
}

proof fn lemma_adder(x: u32, y: u32, s: u32, p: u32)
    by (bit_vector)
    requires
        s == (if x + y < 0x1_0000_0000 {
            x + y
        } else {
            x + y - 0x1_0000_0000
        }),
        ((((x ^ p) & 0x7fff_ffffu32) & ((y ^ p) & 0x7fff_ffffu32)) ^ p) << 1 == p,
    ensures
        x ^ y ^ p == s,
{
}

proof fn lemma_carries_from_sum(x: u32, y: u32)
    ensures
        carries(add_field(Side::Z, x, y) & 0x7fff_ffff) == carry_in(x, y),
        x ^ y ^ carry_in(x, y) == wadd(x, y),
{
    law_carry_chain(x, y);
    let z = add_field(Side::Z, x, y);
    lemma_prefix_down(z & 0x7fff_ffff);
    lemma_one_prefix(z, carry_in(x, y), carries(z & 0x7fff_ffff));
    let s = wadd(x, y);
    assert(x ^ y ^ (s ^ x ^ y) == s) by (bit_vector);
}

proof fn lemma_sum_from_carries(x: u32, y: u32, z: u32)
    requires
        z == ((x ^ carries(z)) & 0x7fff_ffff) & ((y ^ carries(z)) & 0x7fff_ffff),
    ensures
        x ^ y ^ carries(z) == wadd(x, y),
{
    lemma_prefix_down(z);
    lemma_adder(x, y, wadd(x, y), carries(z));
}

proof fn lemma_low_bits(t: u32)
    by (bit_vector)
    requires
        t < 32,
    ensures
        ((0x7fff_ffffu32 >> t) & 1 == 1) == (t < 31),
{
}

/// The first bit of the record of step `n`.
pub open spec fn record(n: int) -> int {
    1153 + 250 * n
}

/// Word `w` of the chaining value as the rows hold it.
pub open spec fn cv_word(bits: spec_fn(int) -> bool, w: int) -> u32 {
    word_at(bits, 32 * w, 32)
}

/// Word `w` of the new chaining value as the rows hold it.
pub open spec fn out_word(bits: spec_fn(int) -> bool, w: int) -> u32 {
    word_at(bits, 256 + 32 * w, 32)
}

/// Input word `k` as the rows hold it: the message, then the counter in two words, the
/// length and the flags.
pub open spec fn message_word(bits: spec_fn(int) -> bool, k: int) -> u32 {
    word_at(bits, 513 + 32 * k, 32)
}

/// Word `w` of the upper half of the output as the rows hold it.
pub open spec fn upper_word(bits: spec_fn(int) -> bool, w: int) -> u32 {
    word_at(bits, 15153 + 32 * w, 32)
}

/// The thirty-one rows of addition `f` of step `n`.
pub open spec fn addition_word(bits: spec_fn(int) -> bool, n: int, f: int) -> u32 {
    word_at(bits, record(n) + 31 * f, 31)
}

/// The carries of addition `f` of step `n`.
pub open spec fn carries_of(z: spec_fn(int) -> bool, n: int, f: int) -> u32 {
    carries(addition_word(z, n, f))
}

/// The operands of the six additions of step `n`, and the new words `a`, `b`, `c`, `d`,
/// read off the rows: sums by their carries, the new `b` and `d` from their own rows.
pub open spec fn reading(z: spec_fn(int) -> bool, s: Seq<u32>, n: int) -> (Seq<(u32, u32)>, Seq<u32>) {
    let g = n % 8;
    let x = message_word(z, sched(n / 8, 2 * g));
    let y = message_word(z, sched(n / 8, 2 * g + 1));
    let sa = s[g_a(g)];
    let sb = s[g_b(g)];
    let sc = s[g_c(g)];
    let sd = s[g_d(g)];
    let t0 = sa ^ sb ^ carries_of(z, n, 0);
    let a1 = t0 ^ x ^ carries_of(z, n, 1);
    let d1 = rotr(sd ^ a1, 16);
    let c1 = sc ^ d1 ^ carries_of(z, n, 2);
    let b1 = rotr(sb ^ c1, 12);
    let t1 = a1 ^ b1 ^ carries_of(z, n, 3);
    let a2 = t1 ^ y ^ carries_of(z, n, 4);
    let b2 = word_at(z, record(n) + 186, 32);
    let d2 = word_at(z, record(n) + 218, 32);
    let c2 = c1 ^ d2 ^ carries_of(z, n, 5);
    (seq![(sa, sb), (t0, x), (sc, d1), (a1, b1), (t1, y), (c1, d2)], seq![a2, b2, c2, d2])
}

/// The state before step `n` as the rows tell it.
pub open spec fn told_state(z: spec_fn(int) -> bool, n: nat) -> Seq<u32>
    decreases n,
{
    if n == 0 {
        seq![
            cv_word(z, 0),
            cv_word(z, 1),
            cv_word(z, 2),
            cv_word(z, 3),
            cv_word(z, 4),
            cv_word(z, 5),
            cv_word(z, 6),
            cv_word(z, 7),
            0x6A09E667u32,
            0xBB67AE85,
            0x3C6EF372,
            0xA54FF53A,
            message_word(z, 16),
            message_word(z, 17),
            message_word(z, 18),
            message_word(z, 19),
        ]
    } else {
        let s = told_state(z, (n - 1) as nat);
        let g = (n - 1) % 8;
        let w = reading(z, s, n - 1).1;
        s.update(g_a(g), w[0]).update(g_b(g), w[1]).update(g_c(g), w[2]).update(g_d(g), w[3])
    }
}

/// The relations of step `n`. The two words that the record copies are the new `b` and
/// `d` of the step: `b` is the middle `b` XORed with the new `c` and rotated by seven,
/// `d` the middle `d` XORed with the new `a` and rotated by eight. On the sides `a` and
/// `b` the additions hold their operands, XORed with the carries.
pub open spec fn step_holds(
    z: spec_fn(int) -> bool,
    a: spec_fn(int) -> bool,
    b: spec_fn(int) -> bool,
    n: int,
) -> bool {
    let (ops, new) = reading(z, told_state(z, n as nat), n);
    let d1 = ops[2].1;
    let b1 = ops[3].1;
    &&& new[1] == rotr(b1 ^ new[2], 7)
    &&& new[3] == rotr(d1 ^ new[0], 8)
    &&& forall|f: int|
        0 <= f < 6 ==> #[trigger] addition_word(a, n, f) == (ops[f].0 ^ carries_of(z, n, f)) & 0x7fff_ffff
    &&& forall|f: int|
        0 <= f < 6 ==> #[trigger] addition_word(b, n, f) == (ops[f].1 ^ carries_of(z, n, f)) & 0x7fff_ffff
    &&& forall|i: int| record(n) + 186 <= i < record(n) + 250 ==> #[trigger] b(i)
}

/// The relations of a whole block.
pub open spec fn rows_hold(z: spec_fn(int) -> bool, a: spec_fn(int) -> bool, b: spec_fn(int) -> bool) -> bool {
    &&& forall|i: int| 0 <= i < 16384 ==> #[trigger] z(i) == (a(i) && b(i))
    &&& forall|i: int| 0 <= i < 1153 || 15153 <= i < 15409 ==> #[trigger] b(i)
    &&& z(512)
    &&& forall|n: int| 0 <= n < 56 ==> #[trigger] step_holds(z, a, b, n)
    &&& forall|w: int|
        0 <= w < 8 ==> #[trigger] out_word(z, w) == told_state(z, 56)[w] ^ told_state(z, 56)[w + 8]
    &&& forall|w: int|
        0 <= w < 8 ==> #[trigger] upper_word(z, w) == told_state(z, 56)[w + 8] ^ cv_word(z, w)
    &&& forall|i: int| 15409 <= i < 16384 ==> !(#[trigger] a(i)) && !b(i)
}

/// The bits of a compression on a side.
pub open spec fn row(side: Side, c: Inputs) -> spec_fn(int) -> bool {
    |i: int| witness_bit(side, c, i)
}

// ---- the rows of a compression ----

proof fn lemma_record_word(side: Side, c: Inputs, n: int, f: int)
    requires
        0 <= n < 56,
        0 <= f < 8,
    ensures
        word_at(row(side, c), record(n) + field_pos(f), field_width(f)) == (if f < 6 {
            step_field(side, state_at(c, n), c.message, n, f) & 0x7fff_ffff
        } else {
            step_field(side, state_at(c, n), c.message, n, f)
        }),
{
    let v = step_field(side, state_at(c, n), c.message, n, f);
    let x = if f < 6 {
        v & 0x7fff_ffff
    } else {
        v
    };
    let pos = record(n) + field_pos(f);
    let bits = row(side, c);
    assert forall|t: int| 0 <= t < 32 implies (#[trigger] bit32(x, t) == (t < field_width(f) && bits(pos + t))) by {
        lemma_bit_ops(v, 0x7fff_ffff, t as u32);
        lemma_low_bits(t as u32);
        if t < field_width(f) {
            lemma_field_bit(side, c, n, f, t);
            assert(1153 + 250 * n + field_pos(f) + t == pos + t);
        }
    }
    lemma_word_at(bits, pos, field_width(f), x);
}

proof fn lemma_head_words(c: Inputs)
    ensures
        forall|w: int| 0 <= w < 8 ==> #[trigger] cv_word(row(Side::Z, c), w) == c.cv[w],
        forall|k: int| 0 <= k < 20 ==> #[trigger] message_word(row(Side::Z, c), k) == chain_word(c, k),
        forall|w: int|
            0 <= w < 8 ==> #[trigger] out_word(row(Side::Z, c), w) == state_at(c, 56)[w] ^ state_at(
                c,
                56,
            )[w + 8],
        forall|w: int|
            0 <= w < 8 ==> #[trigger] upper_word(row(Side::Z, c), w) == state_at(c, 56)[w + 8] ^ c.cv[w],
{
    let z = row(Side::Z, c);
    assert forall|w: int| 0 <= w < 8 implies #[trigger] cv_word(z, w) == c.cv[w] by {
        assert forall|t: int| 0 <= t < 32 implies (#[trigger] bit32(c.cv[w], t) == (t < 32 && z(32 * w + t))) by {
            reveal(witness_bit);
            assert((32 * w + t) / 32 == w && (32 * w + t) % 32 == t);
        }
        lemma_word_at(z, 32 * w, 32, c.cv[w]);
    }
    assert forall|k: int| 0 <= k < 20 implies #[trigger] message_word(z, k) == chain_word(c, k) by {
        let x = chain_word(c, k);
        assert forall|t: int| 0 <= t < 32 implies (#[trigger] bit32(x, t) == (t < 32 && z(513 + 32 * k + t))) by {
            reveal(witness_bit);
            assert((513 + 32 * k + t - 513) / 32 == k && (513 + 32 * k + t - 513) % 32 == t);
        }
        lemma_word_at(z, 513 + 32 * k, 32, x);
    }
    assert forall|w: int| 0 <= w < 8 implies #[trigger] out_word(z, w) == state_at(c, 56)[w] ^ state_at(
        c,
        56,
    )[w + 8] by {
        let x = state_at(c, 56)[w] ^ state_at(c, 56)[w + 8];
        assert forall|t: int| 0 <= t < 32 implies (#[trigger] bit32(x, t) == (t < 32 && z(256 + 32 * w + t))) by {
            reveal(witness_bit);
            assert((256 + 32 * w + t) / 32 == w + 8 && (256 + 32 * w + t) % 32 == t);
        }
        lemma_word_at(z, 256 + 32 * w, 32, x);
    }
    assert forall|w: int| 0 <= w < 8 implies #[trigger] upper_word(z, w) == state_at(c, 56)[w + 8]
        ^ c.cv[w] by {
        let x = state_at(c, 56)[w + 8] ^ c.cv[w];
        assert forall|t: int| 0 <= t < 32 implies (#[trigger] bit32(x, t) == (t < 32 && z(15153 + 32 * w + t))) by {
            lemma_out_hi_bit(Side::Z, c, w, t);
        }
        lemma_word_at(z, 15153 + 32 * w, 32, x);
    }
}

/// One addition of a record.
proof fn lemma_addition(c: Inputs, n: int, f: int)
    requires
        0 <= n < 56,
        0 <= f < 6,
    ensures
        ({
            let (x, y) = additions(state_at(c, n), c.message, n)[f];
            let q = carries_of(row(Side::Z, c), n, f);
            &&& x ^ y ^ q == wadd(x, y)
            &&& addition_word(row(Side::A, c), n, f) == (x ^ q) & 0x7fff_ffff
            &&& addition_word(row(Side::B, c), n, f) == (y ^ q) & 0x7fff_ffff
        }),
{
    let s = state_at(c, n);
    let (x, y) = additions(s, c.message, n)[f];
    reveal(step_field);
    lemma_record_word(Side::Z, c, n, f);
    lemma_record_word(Side::A, c, n, f);
    lemma_record_word(Side::B, c, n, f);
    assert(field_pos(f) == 31 * f);
    lemma_carries_from_sum(x, y);
}

proof fn lemma_told_step(c: Inputs, n: int)
    requires
        c.cv.len() == 8,
        c.message.len() == 16,
        0 <= n < 56,
        told_state(row(Side::Z, c), n as nat) == state_at(c, n),
    ensures
        step_holds(row(Side::Z, c), row(Side::A, c), row(Side::B, c), n),
        told_state(row(Side::Z, c), (n + 1) as nat) == state_at(c, n + 1),
{
    let z = row(Side::Z, c);
    let a = row(Side::A, c);
    let b = row(Side::B, c);
    let s = state_at(c, n);
    let g = n % 8;
    lemma_head_words(c);
    lemma_sched_bounds(n / 8, 2 * g);
    lemma_sched_bounds(n / 8, 2 * g + 1);
    assert(message_word(z, sched(n / 8, 2 * g)) == c.message[sched(n / 8, 2 * g)]);
    assert(message_word(z, sched(n / 8, 2 * g + 1)) == c.message[sched(n / 8, 2 * g + 1)]);
    lemma_addition(c, n, 0);
    lemma_addition(c, n, 1);
    lemma_addition(c, n, 2);
    lemma_addition(c, n, 3);
    lemma_addition(c, n, 4);
    lemma_addition(c, n, 5);
    lemma_record_word(Side::Z, c, n, 6);
    lemma_record_word(Side::Z, c, n, 7);
    reveal(step_field);
    let adds = additions(s, c.message, n);
    let (ops, new) = reading(z, s, n);
    assert(ops[0] == adds[0]);
    assert(ops[1] == adds[1]);
    assert(ops[2] == adds[2]);
    assert(ops[3] == adds[3]);
    assert(ops[4] == adds[4]);
    assert(s.len() == 16) by {
        lemma_state_len(c, n as nat);
    }
    let t = g_at(s, c.message, n);
    assert(new[1] == t[g_b(g)]);
    assert(new[3] == t[g_d(g)]);
    assert(new[0] == t[g_a(g)]);
    assert(ops[5] == adds[5]);
    assert(new[2] == t[g_c(g)]);
    assert forall|f: int| 0 <= f < 6 implies #[trigger] addition_word(a, n, f) == (ops[f].0 ^ carries_of(
        z,
        n,
        f,
    )) & 0x7fff_ffff by {
        lemma_addition(c, n, f);
        assert(f == 0 || f == 1 || f == 2 || f == 3 || f == 4 || f == 5);
    }
    assert forall|f: int| 0 <= f < 6 implies #[trigger] addition_word(b, n, f) == (ops[f].1 ^ carries_of(
        z,
        n,
        f,
    )) & 0x7fff_ffff by {
        lemma_addition(c, n, f);
        assert(f == 0 || f == 1 || f == 2 || f == 3 || f == 4 || f == 5);
    }
    assert forall|i: int| record(n) + 186 <= i < record(n) + 250 implies #[trigger] b(i) by {
        let off = i - record(n);
        let f = 6 + (off - 186) / 32;
        let t = (off - 186) % 32;
        lemma_field_bit(Side::B, c, n, f, t);
        lemma_bit_ops(0, 0, t as u32);
        assert(1153 + 250 * n + field_pos(f) + t == i);
    }
    assert(state_at(c, n + 1) == t);
    assert(told_state(z, (n + 1) as nat) =~= t);
}

proof fn lemma_state_len(c: Inputs, n: nat)
    ensures
        state_at(c, n as int).len() == 16,
    decreases n,
{
    if n > 0 {
        lemma_state_len(c, (n - 1) as nat);
    }
}

proof fn lemma_told_states(c: Inputs, n: nat)
    requires
        c.cv.len() == 8,
        c.message.len() == 16,
        n <= 56,
    ensures
        told_state(row(Side::Z, c), n) == state_at(c, n as int),
    decreases n,
{
    let z = row(Side::Z, c);
    if n == 0 {
        lemma_head_words(c);
        law_start_state_holds_the_inputs(c.cv, c.counter, c.block_len, c.flags);
        let s = state_at(c, 0);
        assert(cv_word(z, 0) == c.cv[0]);
        assert(cv_word(z, 1) == c.cv[1]);
        assert(cv_word(z, 2) == c.cv[2]);
        assert(cv_word(z, 3) == c.cv[3]);
        assert(cv_word(z, 4) == c.cv[4]);
        assert(cv_word(z, 5) == c.cv[5]);
        assert(cv_word(z, 6) == c.cv[6]);
        assert(cv_word(z, 7) == c.cv[7]);
        assert(message_word(z, 16) == chain_word(c, 16));
        assert(message_word(z, 17) == chain_word(c, 17));
        assert(message_word(z, 18) == chain_word(c, 18));
        assert(message_word(z, 19) == chain_word(c, 19));
        assert(told_state(z, 0) =~= s);
    } else {
        lemma_told_states(c, (n - 1) as nat);
        lemma_told_step(c, n - 1);
    }
}

/// The rows of every compression satisfy the relations and hold its inputs: the
/// chaining value, the message, the counter, the length and the flags.
pub proof fn law_rows_hold_of_every_compression(c: Inputs)
    requires
        c.cv.len() == 8,
        c.message.len() == 16,
    ensures
        rows_hold(row(Side::Z, c), row(Side::A, c), row(Side::B, c)),
        forall|w: int| 0 <= w < 8 ==> #[trigger] cv_word(row(Side::Z, c), w) == c.cv[w],
        forall|k: int| 0 <= k < 16 ==> #[trigger] message_word(row(Side::Z, c), k) == c.message[k],
        message_word(row(Side::Z, c), 16) + 0x1_0000_0000 * message_word(row(Side::Z, c), 17) == c.counter,
        message_word(row(Side::Z, c), 18) == c.block_len,
        message_word(row(Side::Z, c), 19) == c.flags,
{
    let z = row(Side::Z, c);
    let a = row(Side::A, c);
    let b = row(Side::B, c);
    assert forall|i: int| 0 <= i < 16384 implies #[trigger] z(i) == (a(i) && b(i)) by {
        law_z_is_a_and_b(c, i);
    }
    assert forall|n: int| 0 <= n < 56 implies #[trigger] step_holds(z, a, b, n) by {
        lemma_told_states(c, n as nat);
        lemma_told_step(c, n);
    }
    lemma_told_states(c, 56);
    lemma_head_words(c);
    law_start_state_holds_the_inputs(c.cv, c.counter, c.block_len, c.flags);
    assert(message_word(z, 16) == chain_word(c, 16));
    assert(message_word(z, 17) == chain_word(c, 17));
    assert(message_word(z, 18) == chain_word(c, 18));
    assert(message_word(z, 19) == chain_word(c, 19));
    assert forall|i: int| 0 <= i < 1153 || 15153 <= i < 15409 implies #[trigger] b(i) by {
        reveal(witness_bit);
    }
    assert(z(512)) by {
        reveal(witness_bit);
    }
    assert forall|i: int| 15409 <= i < 16384 implies !(#[trigger] a(i)) && !b(i) by {
        reveal(witness_bit);
    }
}

// ---- rows that satisfy the relations ----

proof fn lemma_added(z: spec_fn(int) -> bool, a: spec_fn(int) -> bool, b: spec_fn(int) -> bool, n: int, f: int)
    requires
        rows_hold(z, a, b),
        0 <= n < 56,
        0 <= f < 6,
    ensures
        ({
            let (x, y) = reading(z, told_state(z, n as nat), n).0[f];
            x ^ y ^ carries_of(z, n, f) == wadd(x, y)
        }),
{
    let (x, y) = reading(z, told_state(z, n as nat), n).0[f];
    let pos = record(n) + 31 * f;
    let q = carries_of(z, n, f);
    assert(step_holds(z, a, b, n));
    let wa = addition_word(a, n, f);
    let wb = addition_word(b, n, f);
    assert(wa == (x ^ q) & 0x7fff_ffff);
    assert(wb == (y ^ q) & 0x7fff_ffff);
    lemma_word_exists(a, pos, 31);
    lemma_word_exists(b, pos, 31);
    let x31 = wa & wb;
    assert forall|t: int| 0 <= t < 32 implies (#[trigger] bit32(x31, t) == (t < 31 && z(pos + t))) by {
        lemma_bit_ops(wa, wb, t as u32);
        assert(bit32(wa, t) == (t < 31 && a(pos + t)));
        assert(bit32(wb, t) == (t < 31 && b(pos + t)));
        assert(z(pos + t) == (a(pos + t) && b(pos + t)));
    }
    lemma_word_at(z, pos, 31, x31);
    lemma_sum_from_carries(x, y, x31);
}

/// There is a word with any given bits.
proof fn lemma_word_exists(bits: spec_fn(int) -> bool, pos: int, width: int)
    requires
        width <= 32,
    ensures
        has_bits(word_at(bits, pos, width), bits, pos, width),
{
    lemma_build_word(bits, pos, width);
}

proof fn lemma_build_word(bits: spec_fn(int) -> bool, pos: int, n: int)
    requires
        n <= 32,
    ensures
        exists|x: u32| has_bits(x, bits, pos, n),
    decreases n,
{
    if n <= 0 {
        assert forall|t: int| 0 <= t < 32 implies (#[trigger] bit32(0, t) == (t < n && bits(pos + t))) by {
            lemma_bit_ops(0, 0, t as u32);
        }
        assert(has_bits(0, bits, pos, n));
    } else {
        let m = n - 1;
        lemma_build_word(bits, pos, m);
        let x = choose|x: u32| has_bits(x, bits, pos, m);
        let y = if bits(pos + m) {
            x | (1u32 << (m as u32))
        } else {
            x
        };
        assert forall|t: int| 0 <= t < 32 implies (#[trigger] bit32(y, t) == (t < n && bits(pos + t))) by {
            lemma_set_bit(x, m as u32, t as u32);
            assert(bit32(x, t) == (t < m && bits(pos + t)));
        }
        assert(has_bits(y, bits, pos, n));
    }
}

proof fn lemma_set_bit(x: u32, m: u32, t: u32)
    by (bit_vector)
    requires
        m < 32,
        t < 32,
    ensures
        (((x | (1u32 << m)) >> t) & 1 == 1) == (t == m || (x >> t) & 1 == 1),
{
}

/// Rows that satisfy the relations follow the compression of their inputs.
proof fn lemma_followed(
    z: spec_fn(int) -> bool,
    a: spec_fn(int) -> bool,
    b: spec_fn(int) -> bool,
    m: Seq<u32>,
    n: nat,
)
    requires
        rows_hold(z, a, b),
        forall|k: int| 0 <= k < 16 ==> m[k] == #[trigger] message_word(z, k),
        n <= 56,
    ensures
        told_state(z, n).len() == 16,
        told_state(z, n) == steps(told_state(z, 0), m, 0, n),
    decreases n,
{
    if n > 0 {
        let p = (n - 1) as nat;
        lemma_followed(z, a, b, m, p);
        let s = told_state(z, p);
        let i = p as int;
        let g = i % 8;
        lemma_sched_bounds(i / 8, 2 * g);
        lemma_sched_bounds(i / 8, 2 * g + 1);
        assert(step_holds(z, a, b, i));
        lemma_added(z, a, b, i, 0);
        lemma_added(z, a, b, i, 1);
        lemma_added(z, a, b, i, 2);
        lemma_added(z, a, b, i, 3);
        lemma_added(z, a, b, i, 4);
        lemma_added(z, a, b, i, 5);
        assert(m[sched(i / 8, 2 * g)] == message_word(z, sched(i / 8, 2 * g)));
        assert(m[sched(i / 8, 2 * g + 1)] == message_word(z, sched(i / 8, 2 * g + 1)));
        assert(told_state(z, n) =~= g_at(s, m, i));
    }
}

/// Rows that satisfy the relations hold the outputs of the compression of the inputs
/// that they hold: the new chaining value and the upper half of the output. So the
/// rows leave no freedom but the inputs.
pub proof fn law_rows_pin_the_outputs(
    z: spec_fn(int) -> bool,
    a: spec_fn(int) -> bool,
    b: spec_fn(int) -> bool,
    c: Inputs,
    w: int,
)
    requires
        rows_hold(z, a, b),
        c.cv.len() == 8,
        c.message.len() == 16,
        forall|i: int| 0 <= i < 8 ==> c.cv[i] == #[trigger] cv_word(z, i),
        forall|k: int| 0 <= k < 16 ==> c.message[k] == #[trigger] message_word(z, k),
        c.counter == message_word(z, 16) + 0x1_0000_0000 * message_word(z, 17),
        c.block_len == message_word(z, 18),
        c.flags == message_word(z, 19),
        0 <= w < 8,
    ensures
        out_word(z, w) == compress_full(c.cv, c.message, c.counter, c.block_len, c.flags)[w],
        upper_word(z, w) == compress_full(c.cv, c.message, c.counter, c.block_len, c.flags)[w + 8],
{
    let s = init_state(c.cv, c.counter, c.block_len, c.flags);
    law_start_state_holds_the_inputs(c.cv, c.counter, c.block_len, c.flags);
    assert(c.cv[0] == cv_word(z, 0));
    assert(c.cv[1] == cv_word(z, 1));
    assert(c.cv[2] == cv_word(z, 2));
    assert(c.cv[3] == cv_word(z, 3));
    assert(c.cv[4] == cv_word(z, 4));
    assert(c.cv[5] == cv_word(z, 5));
    assert(c.cv[6] == cv_word(z, 6));
    assert(c.cv[7] == cv_word(z, 7));
    assert forall|i: int| 0 <= i < 8 implies s[i] == c.cv[i] by {
        assert(s.subrange(0, 8)[i] == c.cv[i]);
    }
    assert(told_state(z, 0) =~= s);
    lemma_followed(z, a, b, c.message, 56);
    assert(cv_word(z, w) == c.cv[w]);
    assert(out_word(z, w) == told_state(z, 56)[w] ^ told_state(z, 56)[w + 8]);
    assert(upper_word(z, w) == told_state(z, 56)[w + 8] ^ cv_word(z, w));
}

} // verus!
