//! What the compression function does, without reference to how it is computed.

use super::{
    block_words, compress_cv, compress_full, final_state, g_a, g_at, g_b, g_c, g_d, g_step, init_state, le_byte32,
    le_u32, rotr, sched, steps, wadd,
};
use crate::bits::lemma_word_facts;
use vstd::prelude::*;

verus! {

proof fn lemma_rotation_bits(x: u32, n: u32, t: u32)
    by (bit_vector)
    requires
        0 < n < 32,
        t < 32,
    ensures
        (((x >> n) | (x << ((32 - n) as u32))) >> t) & 1 == (if t + n < 32 {
            (x >> ((t + n) as u32)) & 1
        } else {
            (x >> ((t + n - 32) as u32)) & 1
        }),
        (((x >> n) | (x << ((32 - n) as u32))) >> ((32 - n) as u32)) | (((x >> n) | (x << ((32 - n) as u32))) << n)
            == x,
{
}

proof fn lemma_split_bits(c: u64, x: u32, b0: u8, b1: u8, b2: u8, b3: u8)
    by (bit_vector)
    ensures
        (c as u32) as u64 + (((c >> 32u64) as u32) as u64) * 0x1_0000_0000 == c,
        ((x >> 0u32) as u8 as u32) | (((x >> 8u32) as u8 as u32) << 8) | (((x >> 16u32) as u8 as u32) << 16) | (((x
            >> 24u32) as u8 as u32) << 24) == x,
        (((b0 as u32) | ((b1 as u32) << 8) | ((b2 as u32) << 16) | ((b3 as u32) << 24)) >> 0u32) as u8 == b0,
        (((b0 as u32) | ((b1 as u32) << 8) | ((b2 as u32) << 16) | ((b3 as u32) << 24)) >> 8u32) as u8 == b1,
        (((b0 as u32) | ((b1 as u32) << 8) | ((b2 as u32) << 16) | ((b3 as u32) << 24)) >> 16u32) as u8 == b2,
        (((b0 as u32) | ((b1 as u32) << 8) | ((b2 as u32) << 16) | ((b3 as u32) << 24)) >> 24u32) as u8 == b3,
        ((b0 as u32) | ((b1 as u32) << 8) | ((b2 as u32) << 16) | ((b3 as u32) << 24)) == b0 as u32 + 256 * b1 as u32
            + 65536 * b2 as u32 + 16777216 * b3 as u32,
{
}

/// Sums wrap at 2^32.
pub proof fn law_sum_is_modulo(x: u32, y: u32)
    ensures
        wadd(x, y) as int == (x + y) % 0x1_0000_0000,
{
}

/// A rotation by `n` brings bit `t + n`, taken modulo 32, to bit `t`, and one by
/// `32 - n` brings it back.
pub proof fn law_rotation_moves_bits(x: u32, n: u32, t: u32)
    requires
        0 < n < 32,
        t < 32,
    ensures
        (rotr(x, n) >> t) & 1 == (x >> (((t + n) % 32) as u32)) & 1,
        rotr(rotr(x, n), (32 - n) as u32) == x,
{
    lemma_rotation_bits(x, n, t);
}

/// Words and bytes, the lowest byte first: a word is the number that its bytes write.
pub proof fn law_word_is_its_bytes(x: u32, b0: u8, b1: u8, b2: u8, b3: u8)
    ensures
        le_u32(b0, b1, b2, b3) == b0 + 256 * b1 + 65536 * b2 + 16777216 * b3,
        le_u32(le_byte32(x, 0), le_byte32(x, 1), le_byte32(x, 2), le_byte32(x, 3)) == x,
        le_byte32(le_u32(b0, b1, b2, b3), 0) == b0,
        le_byte32(le_u32(b0, b1, b2, b3), 1) == b1,
        le_byte32(le_u32(b0, b1, b2, b3), 2) == b2,
        le_byte32(le_u32(b0, b1, b2, b3), 3) == b3,
{
    lemma_split_bits(0, x, b0, b1, b2, b3);
}

/// Word `i` of a block is the number that its bytes `4 i..4 i + 4` write.
pub proof fn law_block_words_are_its_bytes(block: Seq<u8>, i: int)
    requires
        0 <= i < 16,
    ensures
        block_words(block).len() == 16,
        block_words(block)[i] == block[4 * i] + 256 * block[4 * i + 1] + 65536 * block[4 * i + 2] + 16777216 * block[4
            * i + 3],
{
    law_word_is_its_bytes(0, block[4 * i], block[4 * i + 1], block[4 * i + 2], block[4 * i + 3]);
}

/// A G step can be undone from its result: going backwards from the new words, with
/// the message words taken off again, gives the old ones, and no other word has
/// changed.
pub proof fn law_step_can_be_undone(s: Seq<u32>, a: int, b: int, c: int, d: int, x: u32, y: u32)
    requires
        s.len() == 16,
        0 <= a < 16,
        0 <= b < 16,
        0 <= c < 16,
        0 <= d < 16,
        a != b,
        a != c,
        a != d,
        b != c,
        b != d,
        c != d,
    ensures
        ({
            let t = g_step(s, a, b, c, d, x, y);
            let b1 = rotr(t[b], 25) ^ t[c];
            let c1 = t[c].wrapping_sub(t[d]);
            let d1 = rotr(t[d], 24) ^ t[a];
            let a1 = t[a].wrapping_sub(y).wrapping_sub(b1);
            let b0 = rotr(b1, 20) ^ c1;
            &&& t.len() == 16
            &&& s[b] == b0
            &&& s[c] == c1.wrapping_sub(d1)
            &&& s[d] == rotr(d1, 16) ^ a1
            &&& s[a] == a1.wrapping_sub(x).wrapping_sub(b0)
            &&& forall|i: int| 0 <= i < 16 && i != a && i != b && i != c && i != d ==> #[trigger] t[i] == s[i]
        }),
{
    let a1 = wadd(wadd(s[a], s[b]), x);
    let d1 = rotr(s[d] ^ a1, 16);
    let c1 = wadd(s[c], d1);
    let b1 = rotr(s[b] ^ c1, 12);
    let a2 = wadd(wadd(a1, b1), y);
    let d2 = rotr(d1 ^ a2, 8);
    let c2 = wadd(c1, d2);
    let b2 = rotr(b1 ^ c2, 7);
    let t = g_step(s, a, b, c, d, x, y);
    assert(t[a] == a2 && t[b] == b2 && t[c] == c2 && t[d] == d2);
    law_rotation_moves_bits(b1 ^ c2, 7, 0);
    law_rotation_moves_bits(d1 ^ a2, 8, 0);
    law_rotation_moves_bits(s[b] ^ c1, 12, 0);
    law_rotation_moves_bits(s[d] ^ a1, 16, 0);
    lemma_word_facts(0, 0, b1, c2, 0, 0);
    lemma_word_facts(0, 0, d1, a2, 0, 0);
    lemma_word_facts(0, 0, s[b], c1, 0, 0);
    lemma_word_facts(0, 0, s[d], a1, 0, 0);
}

/// A round mixes the four columns of the state and then its four diagonals.
pub proof fn law_round_takes_columns_then_diagonals(i: int)
    requires
        0 <= i < 4,
    ensures
        g_a(i) == i && g_b(i) == i + 4 && g_c(i) == i + 8 && g_d(i) == i + 12,
        g_a(i + 4) == i,
        g_b(i + 4) == (if i < 3 {
            i + 5
        } else {
            4
        }),
        g_c(i + 4) == (if i < 2 {
            i + 10
        } else {
            i + 6
        }),
        g_d(i + 4) == (if i < 1 {
            15
        } else {
            i + 11
        }),
{
}

/// The first round takes the message words in order, and each later round takes them
/// in the order of the one before, permuted once more.
pub proof fn law_schedule_permutes(r: int, i: int)
    requires
        0 <= r < 7,
        0 <= i < 16,
    ensures
        sched(0, i) == i,
        r < 6 ==> sched(r + 1, i) == sched(
            r,
            seq![2int, 6, 3, 10, 7, 0, 4, 13, 1, 11, 12, 5, 9, 14, 15, 8][i],
        ),
{
    assert(r == 0 || r == 1 || r == 2 || r == 3 || r == 4 || r == 5 || r == 6);
    assert(i == 0 || i == 1 || i == 2 || i == 3 || i == 4 || i == 5 || i == 6 || i == 7 || i == 8 || i == 9 || i
        == 10 || i == 11 || i == 12 || i == 13 || i == 14 || i == 15);
}

/// A compression starts from the chaining value, half of the initial value, the two
/// halves of the counter, the length and the flags.
pub proof fn law_start_state_holds_the_inputs(cv: Seq<u32>, counter: u64, block_len: u32, flags: u32)
    requires
        cv.len() == 8,
    ensures
        ({
            let s = init_state(cv, counter, block_len, flags);
            &&& s.len() == 16
            &&& s.subrange(0, 8) == cv
            &&& s[8] == 0x6A09E667 && s[9] == 0xBB67AE85 && s[10] == 0x3C6EF372 && s[11] == 0xA54FF53A
            &&& s[12] + 0x1_0000_0000 * s[13] == counter
            &&& s[14] == block_len && s[15] == flags
        }),
{
    lemma_split_bits(counter, 0, 0, 0, 0, 0);
    assert(init_state(cv, counter, block_len, flags).subrange(0, 8) =~= cv);
}

/// A compression is fifty-six steps, one after another: step `k` belongs to round `k / 8`
/// and takes the message words of its place in that round, wherever the run of steps began;
/// and a run can be cut anywhere.
pub proof fn law_steps_follow_each_other(s: Seq<u32>, m: Seq<u32>, from: int, n: nat)
    requires
        0 <= from,
        from + n < 56,
    ensures
        steps(s, m, from, 0) == s,
        ({
            let t = steps(s, m, from, n);
            let r = (from + n) / 8;
            let g = (from + n) % 8;
            steps(s, m, from, n + 1) == g_step(
                t,
                g_a(g),
                g_b(g),
                g_c(g),
                g_d(g),
                m[sched(r, 2 * g)],
                m[sched(r, 2 * g + 1)],
            )
        }),
        steps(steps(s, m, 0, from as nat), m, from, n) == steps(s, m, 0, (from + n) as nat),
{
    assert(steps(s, m, from, n + 1) == g_at(steps(s, m, from, n), m, from + n));
    lemma_runs_join(s, m, from as nat, n);
}

proof fn lemma_runs_join(s: Seq<u32>, m: Seq<u32>, from: nat, n: nat)
    ensures
        steps(steps(s, m, 0, from), m, from as int, n) == steps(s, m, 0, from + n),
    decreases n,
{
    if n > 0 {
        lemma_runs_join(s, m, from, (n - 1) as nat);
        assert(steps(s, m, 0, from + n) == g_at(steps(s, m, 0, (from + n - 1) as nat), m, from + n - 1));
    }
}

/// The sixteen output words reveal the final state: their second half gives its
/// second half when the chaining value is taken off, and their first half is the
/// XOR of the two, which is also the new chaining value.
pub proof fn law_output_reveals_final_state(
    cv: Seq<u32>,
    m: Seq<u32>,
    counter: u64,
    block_len: u32,
    flags: u32,
    i: int,
)
    requires
        0 <= i < 8,
    ensures
        ({
            let out = compress_full(cv, m, counter, block_len, flags);
            let s = steps(init_state(cv, counter, block_len, flags), m, 0, 56);
            &&& out.len() == 16
            &&& compress_cv(cv, m, counter, block_len, flags).len() == 8
            &&& compress_cv(cv, m, counter, block_len, flags)[i] == out[i]
            &&& s[i + 8] == out[i + 8] ^ cv[i]
            &&& s[i] == out[i] ^ s[i + 8]
        }),
{
    let s = final_state(cv, m, counter, block_len, flags);
    lemma_word_facts(0, 0, s[i + 8], cv[i], 0, 0);
    lemma_word_facts(0, 0, s[i], s[i + 8], 0, 0);
}

} // verus!
