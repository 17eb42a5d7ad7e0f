//! The BLAKE3 compression function.
//!
//! The state is sixteen words. One G step mixes four of them with two message
//! words; eight G steps make a round, and seven rounds a compression. The steps
//! are numbered throughout, so that step `n` belongs to round `n / 8`.

pub mod laws;

use vstd::prelude::*;

verus! {

/// The initial chaining value.
pub const BLAKE3_IV: [u32; 8] = [
    0x6A09E667, 0xBB67AE85, 0x3C6EF372, 0xA54FF53A, 0x510E527F, 0x9B05688C, 0x1F83D9AB, 0x5BE0CD19,
];

/// The message words of each round, in the order in which its steps take them.
pub const BLAKE3_MSG_SCHEDULE: [[usize; 16]; 7] = [
    [0, 1, 2, 3, 4, 5, 6, 7, 8, 9, 10, 11, 12, 13, 14, 15],
    [2, 6, 3, 10, 7, 0, 4, 13, 1, 11, 12, 5, 9, 14, 15, 8],
    [3, 4, 10, 12, 13, 2, 7, 14, 6, 5, 9, 0, 11, 15, 8, 1],
    [10, 7, 12, 9, 14, 3, 13, 15, 4, 0, 11, 2, 5, 8, 1, 6],
    [12, 13, 9, 11, 15, 10, 14, 8, 7, 2, 5, 3, 0, 1, 6, 4],
    [9, 14, 11, 5, 8, 12, 15, 1, 13, 3, 0, 10, 2, 6, 4, 7],
    [11, 15, 5, 0, 1, 9, 8, 6, 14, 10, 2, 12, 3, 4, 7, 13],
];

/// Sum modulo 2^32.
pub open spec fn wadd(x: u32, y: u32) -> u32 {
    x.wrapping_add(y)
}

/// Rotation to the right by `n` bits, `0 < n < 32`.
pub open spec fn rotr(x: u32, n: u32) -> u32 {
    (x >> n) | (x << ((32 - n) as u32))
}

/// One G step on the words `a`, `b`, `c`, `d` with the message words `x` and `y`.
pub open spec fn g_step(s: Seq<u32>, a: int, b: int, c: int, d: int, x: u32, y: u32) -> Seq<u32> {
    let a1 = wadd(wadd(s[a], s[b]), x);
    let d1 = rotr(s[d] ^ a1, 16);
    let c1 = wadd(s[c], d1);
    let b1 = rotr(s[b] ^ c1, 12);
    let a2 = wadd(wadd(a1, b1), y);
    let d2 = rotr(d1 ^ a2, 8);
    let c2 = wadd(c1, d2);
    let b2 = rotr(b1 ^ c2, 7);
    s.update(a, a2).update(b, b2).update(c, c2).update(d, d2)
}

/// The first word of step `g` of a round: the columns, then the diagonals.
pub open spec fn g_a(g: int) -> int {
    g % 4
}

/// The second word of step `g` of a round.
pub open spec fn g_b(g: int) -> int {
    if g < 4 {
        4 + g
    } else {
        4 + (g + 1) % 4
    }
}

/// The third word of step `g` of a round.
pub open spec fn g_c(g: int) -> int {
    if g < 4 {
        8 + g
    } else {
        8 + (g + 2) % 4
    }
}

/// The fourth word of step `g` of a round.
pub open spec fn g_d(g: int) -> int {
    if g < 4 {
        12 + g
    } else {
        12 + (g + 3) % 4
    }
}

/// The index of message word `i` of round `r`.
pub open spec fn sched(r: int, i: int) -> int {
    BLAKE3_MSG_SCHEDULE@[r]@[i] as int
}

/// Step `n` of a compression.
pub open spec fn g_at(s: Seq<u32>, m: Seq<u32>, n: int) -> Seq<u32> {
    let r = n / 8;
    let g = n % 8;
    g_step(s, g_a(g), g_b(g), g_c(g), g_d(g), m[sched(r, 2 * g)], m[sched(r, 2 * g + 1)])
}

/// The steps `from..from + n`.
pub open spec fn steps(s: Seq<u32>, m: Seq<u32>, from: int, n: nat) -> Seq<u32>
    decreases n,
{
    if n == 0 {
        s
    } else {
        g_at(steps(s, m, from, (n - 1) as nat), m, from + n - 1)
    }
}

/// The low word of a counter.
pub open spec fn counter_lo(counter: u64) -> u32 {
    counter as u32
}

/// The high word of a counter.
pub open spec fn counter_hi(counter: u64) -> u32 {
    (counter >> 32) as u32
}

/// The state that a compression starts from.
pub open spec fn init_state(cv: Seq<u32>, counter: u64, block_len: u32, flags: u32) -> Seq<u32> {
    seq![
        cv[0],
        cv[1],
        cv[2],
        cv[3],
        cv[4],
        cv[5],
        cv[6],
        cv[7],
        BLAKE3_IV@[0],
        BLAKE3_IV@[1],
        BLAKE3_IV@[2],
        BLAKE3_IV@[3],
        counter_lo(counter),
        counter_hi(counter),
        block_len,
        flags,
    ]
}

/// The state after the seven rounds.
pub open spec fn final_state(cv: Seq<u32>, m: Seq<u32>, counter: u64, block_len: u32, flags: u32) -> Seq<u32> {
    steps(init_state(cv, counter, block_len, flags), m, 0, 56)
}

/// The new chaining value: the halves of the final state, XORed.
pub open spec fn compress_cv(cv: Seq<u32>, m: Seq<u32>, counter: u64, block_len: u32, flags: u32) -> Seq<u32> {
    let s = final_state(cv, m, counter, block_len, flags);
    Seq::new(8, |i: int| s[i] ^ s[i + 8])
}

/// The full sixteen-word output: the new chaining value, then the high half of
/// the final state XORed with the old chaining value.
pub open spec fn compress_full(cv: Seq<u32>, m: Seq<u32>, counter: u64, block_len: u32, flags: u32) -> Seq<u32> {
    let s = final_state(cv, m, counter, block_len, flags);
    Seq::new(
        16,
        |i: int|
            if i < 8 {
                s[i] ^ s[i + 8]
            } else {
                s[i] ^ cv[i - 8]
            },
    )
}

/// The word whose bytes are `b0..b3`, the lowest first.
pub open spec fn le_u32(b0: u8, b1: u8, b2: u8, b3: u8) -> u32 {
    (b0 as u32) | ((b1 as u32) << 8) | ((b2 as u32) << 16) | ((b3 as u32) << 24)
}

/// Byte `k` of `x`, the lowest first.
pub open spec fn le_byte32(x: u32, k: int) -> u8 {
    (x >> ((8 * k) as u32)) as u8
}

/// The sixteen message words of a block.
pub open spec fn block_words(block: Seq<u8>) -> Seq<u32> {
    Seq::new(
        16,
        |i: int| le_u32(block[4 * i], block[4 * i + 1], block[4 * i + 2], block[4 * i + 3]),
    )
}

/// Steps compose.
pub proof fn lemma_steps_compose(s: Seq<u32>, m: Seq<u32>, from: int, n: nat, k: nat)
    ensures
        steps(s, m, from, n + k) == steps(steps(s, m, from, n), m, from + n, k),
    decreases k,
{
    if k > 0 {
        lemma_steps_compose(s, m, from, n, (k - 1) as nat);
        assert((n + k - 1) as nat == n + (k - 1) as nat);
    }
}

/// Every entry of the schedule names one of the sixteen message words.
pub proof fn lemma_sched_bounds(r: int, i: int)
    requires
        0 <= r < 7,
        0 <= i < 16,
    ensures
        0 <= sched(r, i) < 16,
{
    assert(r == 0 || r == 1 || r == 2 || r == 3 || r == 4 || r == 5 || r == 6);
    assert(i == 0 || i == 1 || i == 2 || i == 3 || i == 4 || i == 5 || i == 6 || i == 7 || i == 8 || i == 9 || i
        == 10 || i == 11 || i == 12 || i == 13 || i == 14 || i == 15);
}

/// Rotation to the right by `N` bits.
pub fn rorx32<const N: u32>(x: u32) -> (r: u32)
    requires
        0 < N < 32,
    ensures
        r == rotr(x, N),
{
    (x >> N) | (x << (32 - N))
}

/// One G step.
pub fn g_portable(state: &mut [u32; 16], a: usize, b: usize, c: usize, d: usize, x: u32, y: u32)
    requires
        a < 16,
        b < 16,
        c < 16,
        d < 16,
        a != b,
        a != c,
        a != d,
        b != c,
        b != d,
        c != d,
    ensures
        final(state)@ == g_step(old(state)@, a as int, b as int, c as int, d as int, x, y),
{
    let ghost s = state@;
    state[a] = state[a].wrapping_add(state[b]).wrapping_add(x);
    state[d] = rorx32::<16>(state[d] ^ state[a]);
    state[c] = state[c].wrapping_add(state[d]);
    state[b] = rorx32::<12>(state[b] ^ state[c]);
    state[a] = state[a].wrapping_add(state[b]).wrapping_add(y);
    state[d] = rorx32::<8>(state[d] ^ state[a]);
    state[c] = state[c].wrapping_add(state[d]);
    state[b] = rorx32::<7>(state[b] ^ state[c]);
    assert(state@ =~= g_step(s, a as int, b as int, c as int, d as int, x, y));
}

/// One round.
pub fn round_portable(state: &mut [u32; 16], m: &[u32; 16], r: usize)
    requires
        r < 7,
    ensures
        final(state)@ == steps(old(state)@, m@, 8 * r as int, 8),
{
    let ghost s0 = state@;
    let sc: [usize; 16] = BLAKE3_MSG_SCHEDULE[r];
    proof {
        assert forall|i: int| 0 <= i < 16 implies #[trigger] sc@[i] < 16 && sc@[i] == sched(r as int, i) by {
            lemma_sched_bounds(r as int, i);
        }
        lemma_round_steps(s0, m@, r as int);
    }
    g_portable(state, 0, 4, 8, 12, m[sc[0]], m[sc[1]]);
    g_portable(state, 1, 5, 9, 13, m[sc[2]], m[sc[3]]);
    g_portable(state, 2, 6, 10, 14, m[sc[4]], m[sc[5]]);
    g_portable(state, 3, 7, 11, 15, m[sc[6]], m[sc[7]]);
    g_portable(state, 0, 5, 10, 15, m[sc[8]], m[sc[9]]);
    g_portable(state, 1, 6, 11, 12, m[sc[10]], m[sc[11]]);
    g_portable(state, 2, 7, 8, 13, m[sc[12]], m[sc[13]]);
    g_portable(state, 3, 4, 9, 14, m[sc[14]], m[sc[15]]);
}

/// A round, written out.
pub open spec fn round_of(s: Seq<u32>, m: Seq<u32>, r: int) -> Seq<u32> {
    let s = g_step(s, 0, 4, 8, 12, m[sched(r, 0)], m[sched(r, 1)]);
    let s = g_step(s, 1, 5, 9, 13, m[sched(r, 2)], m[sched(r, 3)]);
    let s = g_step(s, 2, 6, 10, 14, m[sched(r, 4)], m[sched(r, 5)]);
    let s = g_step(s, 3, 7, 11, 15, m[sched(r, 6)], m[sched(r, 7)]);
    let s = g_step(s, 0, 5, 10, 15, m[sched(r, 8)], m[sched(r, 9)]);
    let s = g_step(s, 1, 6, 11, 12, m[sched(r, 10)], m[sched(r, 11)]);
    let s = g_step(s, 2, 7, 8, 13, m[sched(r, 12)], m[sched(r, 13)]);
    g_step(s, 3, 4, 9, 14, m[sched(r, 14)], m[sched(r, 15)])
}

/// Eight numbered steps are a round.
pub proof fn lemma_round_steps(s: Seq<u32>, m: Seq<u32>, r: int)
    requires
        0 <= r,
    ensures
        steps(s, m, 8 * r, 8) == round_of(s, m, r),
{
    let s1 = g_at(s, m, 8 * r);
    let s2 = g_at(s1, m, 8 * r + 1);
    let s3 = g_at(s2, m, 8 * r + 2);
    let s4 = g_at(s3, m, 8 * r + 3);
    let s5 = g_at(s4, m, 8 * r + 4);
    let s6 = g_at(s5, m, 8 * r + 5);
    let s7 = g_at(s6, m, 8 * r + 6);
    reveal_with_fuel(steps, 9);
    assert(steps(s, m, 8 * r, 8) == g_at(s7, m, 8 * r + 7));
    assert((8 * r) / 8 == r && (8 * r) % 8 == 0);
    assert((8 * r + 1) / 8 == r && (8 * r + 1) % 8 == 1);
    assert((8 * r + 2) / 8 == r && (8 * r + 2) % 8 == 2);
    assert((8 * r + 3) / 8 == r && (8 * r + 3) % 8 == 3);
    assert((8 * r + 4) / 8 == r && (8 * r + 4) % 8 == 4);
    assert((8 * r + 5) / 8 == r && (8 * r + 5) % 8 == 5);
    assert((8 * r + 6) / 8 == r && (8 * r + 6) % 8 == 6);
    assert((8 * r + 7) / 8 == r && (8 * r + 7) % 8 == 7);
}

/// A 64-byte block as sixteen little-endian words.
pub fn block_to_words(block: &[u8; 64]) -> (w: [u32; 16])
    ensures
        w@ == block_words(block@),
{
    let mut w = [0u32; 16];
    for i in 0..16usize
        invariant
            forall|j: int| 0 <= j < i ==> #[trigger] w@[j] == block_words(block@)[j],
    {
        w[i] = (block[4 * i] as u32) | ((block[4 * i + 1] as u32) << 8) | ((block[4 * i + 2] as u32) << 16) | ((
        block[4 * i + 3] as u32) << 24);
    }
    assert(w@ =~= block_words(block@));
    w
}

/// The state that a compression starts from.
pub fn start_state(cv: &[u32; 8], counter: u64, block_len: u32, flags: u32) -> (s: [u32; 16])
    ensures
        s@ == init_state(cv@, counter, block_len, flags),
{
    let s = [
        cv[0],
        cv[1],
        cv[2],
        cv[3],
        cv[4],
        cv[5],
        cv[6],
        cv[7],
        BLAKE3_IV[0],
        BLAKE3_IV[1],
        BLAKE3_IV[2],
        BLAKE3_IV[3],
        counter as u32,
        (counter >> 32) as u32,
        block_len,
        flags,
    ];
    assert(s@ =~= init_state(cv@, counter, block_len, flags));
    s
}

/// The seven rounds.
pub fn seven_rounds(state: &mut [u32; 16], m: &[u32; 16])
    ensures
        final(state)@ == steps(old(state)@, m@, 0, 56),
{
    let ghost s0 = state@;
    for r in 0..7usize
        invariant
            state@ == steps(s0, m@, 0, (8 * r) as nat),
    {
        round_portable(state, m, r);
        proof {
            lemma_steps_compose(s0, m@, 0, (8 * r) as nat, 8);
            assert((8 * r) as nat + 8 == (8 * (r + 1)) as nat);
        }
    }
}

/// Compresses one block into the chaining value.
pub fn compress_in_place_portable(cv: &mut [u32; 8], block: &[u8; 64], block_len: u8, counter: u64, flags: u8)
    ensures
        final(cv)@ == compress_cv(old(cv)@, block_words(block@), counter, block_len as u32, flags as u32),
{
    let ghost cv0 = cv@;
    let m = block_to_words(block);
    let mut state = start_state(cv, counter, block_len as u32, flags as u32);
    seven_rounds(&mut state, &m);
    for i in 0..8usize
        invariant
            forall|j: int| 0 <= j < i ==> #[trigger] cv@[j] == state@[j] ^ state@[j + 8],
    {
        cv[i] = state[i] ^ state[i + 8];
    }
    assert(cv@ =~= compress_cv(cv0, block_words(block@), counter, block_len as u32, flags as u32));
}

/// [`compress_in_place_portable`] with every step of a round in line.
pub fn compress_in_place_bmi2(cv: &mut [u32; 8], block: &[u8; 64], block_len: u8, counter: u64, flags: u8)
    ensures
        final(cv)@ == compress_cv(old(cv)@, block_words(block@), counter, block_len as u32, flags as u32),
{
    let ghost cv0 = cv@;
    let m = block_to_words(block);
    let mut state = start_state(cv, counter, block_len as u32, flags as u32);
    let ghost s0 = state@;
    for r in 0..7usize
        invariant
            state@ == steps(s0, m@, 0, (8 * r) as nat),
    {
        let sc: [usize; 16] = BLAKE3_MSG_SCHEDULE[r];
        let ghost before = state@;
        proof {
            assert forall|i: int| 0 <= i < 16 implies #[trigger] sc@[i] < 16 && sc@[i] == sched(r as int, i) by {
                lemma_sched_bounds(r as int, i);
            }
            lemma_round_steps(before, m@, r as int);
            lemma_steps_compose(s0, m@, 0, (8 * r) as nat, 8);
            assert((8 * r) as nat + 8 == (8 * (r + 1)) as nat);
        }
        g_portable(&mut state, 0, 4, 8, 12, m[sc[0]], m[sc[1]]);
        g_portable(&mut state, 1, 5, 9, 13, m[sc[2]], m[sc[3]]);
        g_portable(&mut state, 2, 6, 10, 14, m[sc[4]], m[sc[5]]);
        g_portable(&mut state, 3, 7, 11, 15, m[sc[6]], m[sc[7]]);
        g_portable(&mut state, 0, 5, 10, 15, m[sc[8]], m[sc[9]]);
        g_portable(&mut state, 1, 6, 11, 12, m[sc[10]], m[sc[11]]);
        g_portable(&mut state, 2, 7, 8, 13, m[sc[12]], m[sc[13]]);
        g_portable(&mut state, 3, 4, 9, 14, m[sc[14]], m[sc[15]]);
    }
    for i in 0..8usize
        invariant
            forall|j: int| 0 <= j < i ==> #[trigger] cv@[j] == state@[j] ^ state@[j + 8],
    {
        cv[i] = state[i] ^ state[i + 8];
    }
    assert(cv@ =~= compress_cv(cv0, block_words(block@), counter, block_len as u32, flags as u32));
}

/// Compresses one block into the chaining value; `bmi2` selects the in-line form.
pub fn compress_inner(cv: &mut [u32; 8], block: &[u8; 64], block_len: u8, counter: u64, flags: u8, bmi2: bool)
    ensures
        final(cv)@ == compress_cv(old(cv)@, block_words(block@), counter, block_len as u32, flags as u32),
{
    if bmi2 {
        compress_in_place_bmi2(cv, block, block_len, counter, flags);
    } else {
        compress_in_place_portable(cv, block, block_len, counter, flags);
    }
}

/// The full sixteen-word output of a compression.
pub fn blake3_compress(cv: &[u32; 8], m: &[u32; 16], counter: u64, block_len: u32, flags: u32) -> (out: [u32; 16])
    ensures
        out@ == compress_full(cv@, m@, counter, block_len, flags),
{
    let mut state = start_state(cv, counter, block_len, flags);
    seven_rounds(&mut state, m);
    let mut out = [0u32; 16];
    for i in 0..8usize
        invariant
            forall|j: int| 0 <= j < i ==> #[trigger] out@[j] == state@[j] ^ state@[j + 8],
            forall|j: int| 8 <= j < 8 + i ==> #[trigger] out@[j] == state@[j] ^ cv@[j - 8],
    {
        out[i] = state[i] ^ state[i + 8];
        out[i + 8] = state[i + 8] ^ cv[i];
    }
    assert(out@ =~= compress_full(cv@, m@, counter, block_len, flags));
    out
}

} // verus!
