//! Vectors of 32-bit words, processed lane by lane, and their transposes.

use crate::blake3_core::{g_step, rotr, sched, steps, wadd, BLAKE3_MSG_SCHEDULE};
use vstd::prelude::*;

verus! {

/// `N` words side by side.
#[derive(Clone, Copy, Debug)]
pub struct Lanes<const N: usize> {
    pub lanes: [u32; N],
}

/// Eight words side by side.
pub type U32x8 = Lanes<8>;

/// Sixteen words side by side.
pub type U32x16 = Lanes<16>;

impl<const N: usize> View for Lanes<N> {
    type V = Seq<u32>;

    open spec fn view(&self) -> Seq<u32> {
        self.lanes@
    }
}

/// Lane `j` of a sequence of vectors.
pub open spec fn lane_of<const N: usize>(s: Seq<Lanes<N>>, j: int) -> Seq<u32> {
    Seq::new(s.len(), |i: int| s[i]@[j])
}

/// `b` moved up by `n` bits, with the low `n` bits of `a` below it.
pub open spec fn merge_bits(a: u32, b: u32, n: u32) -> u32 {
    (b << n) | (a & (((1u64 << (n as u64)) - 1) as u32))
}

impl<const N: usize> Lanes<N> {
    /// One word in every lane.
    pub fn splat(x: u32) -> (r: Lanes<N>)
        ensures
            forall|j: int| 0 <= j < N ==> #[trigger] r@[j] == x,
    {
        Lanes { lanes: vstd::array::array_fill_for_copy_types::<u32, N>(x) }
    }

    /// Lane-wise XOR.
    pub fn xor(self, o: Lanes<N>) -> (r: Lanes<N>)
        ensures
            forall|j: int| 0 <= j < N ==> #[trigger] r@[j] == self@[j] ^ o@[j],
    {
        let mut r: [u32; N] = self.lanes;
        for i in 0..N
            invariant
                forall|j: int| 0 <= j < i ==> #[trigger] r@[j] == self@[j] ^ o@[j],
                forall|j: int| i <= j < N ==> #[trigger] r@[j] == self@[j],
        {
            r[i] = self.lanes[i] ^ o.lanes[i];
        }
        Lanes { lanes: r }
    }

    /// Lane-wise AND.
    pub fn and(self, o: Lanes<N>) -> (r: Lanes<N>)
        ensures
            forall|j: int| 0 <= j < N ==> #[trigger] r@[j] == self@[j] & o@[j],
    {
        let mut r: [u32; N] = self.lanes;
        for i in 0..N
            invariant
                forall|j: int| 0 <= j < i ==> #[trigger] r@[j] == self@[j] & o@[j],
        {
            r[i] = self.lanes[i] & o.lanes[i];
        }
        Lanes { lanes: r }
    }

    /// Lane-wise OR.
    pub fn or(self, o: Lanes<N>) -> (r: Lanes<N>)
        ensures
            forall|j: int| 0 <= j < N ==> #[trigger] r@[j] == self@[j] | o@[j],
    {
        let mut r: [u32; N] = self.lanes;
        for i in 0..N
            invariant
                forall|j: int| 0 <= j < i ==> #[trigger] r@[j] == self@[j] | o@[j],
        {
            r[i] = self.lanes[i] | o.lanes[i];
        }
        Lanes { lanes: r }
    }

    /// Lane-wise sum modulo 2^32.
    pub fn wrapping_add(self, o: Lanes<N>) -> (r: Lanes<N>)
        ensures
            forall|j: int| 0 <= j < N ==> #[trigger] r@[j] == wadd(self@[j], o@[j]),
    {
        let mut r: [u32; N] = self.lanes;
        for i in 0..N
            invariant
                forall|j: int| 0 <= j < i ==> #[trigger] r@[j] == wadd(self@[j], o@[j]),
        {
            r[i] = self.lanes[i].wrapping_add(o.lanes[i]);
        }
        Lanes { lanes: r }
    }

    /// Lane-wise shift to the right.
    pub fn shr(self, n: u32) -> (r: Lanes<N>)
        requires
            n < 32,
        ensures
            forall|j: int| 0 <= j < N ==> #[trigger] r@[j] == self@[j] >> n,
    {
        let mut r: [u32; N] = self.lanes;
        for i in 0..N
            invariant
                n < 32,
                forall|j: int| 0 <= j < i ==> #[trigger] r@[j] == self@[j] >> n,
        {
            r[i] = self.lanes[i] >> n;
        }
        Lanes { lanes: r }
    }

    /// Lane-wise shift to the left.
    pub fn shl(self, n: u32) -> (r: Lanes<N>)
        requires
            n < 32,
        ensures
            forall|j: int| 0 <= j < N ==> #[trigger] r@[j] == self@[j] << n,
    {
        let mut r: [u32; N] = self.lanes;
        for i in 0..N
            invariant
                n < 32,
                forall|j: int| 0 <= j < i ==> #[trigger] r@[j] == self@[j] << n,
        {
            r[i] = self.lanes[i] << n;
        }
        Lanes { lanes: r }
    }

    /// Lane-wise rotation to the right.
    pub fn rotr(self, n: u32) -> (r: Lanes<N>)
        requires
            0 < n < 32,
        ensures
            forall|j: int| 0 <= j < N ==> #[trigger] r@[j] == rotr(self@[j], n),
    {
        let mut r: [u32; N] = self.lanes;
        for i in 0..N
            invariant
                0 < n < 32,
                forall|j: int| 0 <= j < i ==> #[trigger] r@[j] == rotr(self@[j], n),
        {
            r[i] = (self.lanes[i] >> n) | (self.lanes[i] << (32 - n));
        }
        Lanes { lanes: r }
    }

    /// Lane-wise `(self ^ o)` rotated to the right.
    pub fn xor_rotr(self, o: Lanes<N>, n: u32) -> (r: Lanes<N>)
        requires
            0 < n < 32,
        ensures
            forall|j: int| 0 <= j < N ==> #[trigger] r@[j] == rotr(self@[j] ^ o@[j], n),
    {
        self.xor(o).rotr(n)
    }

    /// Lane-wise `b` above the low `n` bits of `self`.
    pub fn vsli(self, b: Lanes<N>, n: u32) -> (r: Lanes<N>)
        requires
            n < 32,
        ensures
            forall|j: int| 0 <= j < N ==> #[trigger] r@[j] == merge_bits(self@[j], b@[j], n),
    {
        proof {
            assert(1u64 << (n as u64) >= 1 && 1u64 << (n as u64) <= 0x8000_0000) by (bit_vector)
                requires
                    n < 32,
            ;
        }
        let mask: u32 = ((1u64 << (n as u64)) - 1) as u32;
        let mut r: [u32; N] = self.lanes;
        for i in 0..N
            invariant
                n < 32,
                mask == ((1u64 << (n as u64)) - 1) as u32,
                forall|j: int| 0 <= j < i ==> #[trigger] r@[j] == merge_bits(self@[j], b@[j], n),
        {
            r[i] = (b.lanes[i] << n) | (self.lanes[i] & mask);
        }
        Lanes { lanes: r }
    }
}

/// One G step in every lane.
pub fn g_lanes<const N: usize>(
    state: &mut [Lanes<N>; 16],
    a: usize,
    b: usize,
    c: usize,
    d: usize,
    x: Lanes<N>,
    y: Lanes<N>,
)
    requires
        a < 16,
        b < 16,
        c < 16,
        d < 16,
        a != b,
        a != c,
        a != d,
        b != c,
        b != d,
        c != d,
    ensures
        forall|j: int|
            0 <= j < N ==> #[trigger] lane_of(final(state)@, j) == g_step(
                lane_of(old(state)@, j),
                a as int,
                b as int,
                c as int,
                d as int,
                x@[j],
                y@[j],
            ),
{
    let ghost s = state@;
    let sa = state[a];
    let sb = state[b];
    let sc = state[c];
    let sd = state[d];
    let t0 = sa.wrapping_add(sb);
    let a1 = t0.wrapping_add(x);
    let d1 = sd.xor_rotr(a1, 16);
    let c1 = sc.wrapping_add(d1);
    let b1 = sb.xor_rotr(c1, 12);
    let t1 = a1.wrapping_add(b1);
    let a2 = t1.wrapping_add(y);
    let d2 = d1.xor_rotr(a2, 8);
    let c2 = c1.wrapping_add(d2);
    let b2 = b1.xor_rotr(c2, 7);
    state[a] = a2;
    state[b] = b2;
    state[c] = c2;
    state[d] = d2;
    proof {
        assert forall|j: int| 0 <= j < N implies #[trigger] lane_of(state@, j) == g_step(
            lane_of(s, j),
            a as int,
            b as int,
            c as int,
            d as int,
            x@[j],
            y@[j],
        ) by {
            assert(t0@[j] == wadd(sa@[j], sb@[j]));
            assert(a1@[j] == wadd(t0@[j], x@[j]));
            assert(d1@[j] == rotr(sd@[j] ^ a1@[j], 16));
            assert(c1@[j] == wadd(sc@[j], d1@[j]));
            assert(b1@[j] == rotr(sb@[j] ^ c1@[j], 12));
            assert(t1@[j] == wadd(a1@[j], b1@[j]));
            assert(a2@[j] == wadd(t1@[j], y@[j]));
            assert(d2@[j] == rotr(d1@[j] ^ a2@[j], 8));
            assert(c2@[j] == wadd(c1@[j], d2@[j]));
            assert(b2@[j] == rotr(b1@[j] ^ c2@[j], 7));
            assert(lane_of(state@, j) =~= g_step(
                lane_of(s, j),
                a as int,
                b as int,
                c as int,
                d as int,
                x@[j],
                y@[j],
            ));
        }
    }
}

/// One round in every lane.
pub fn round_lanes<const N: usize>(state: &mut [Lanes<N>; 16], m: &[Lanes<N>; 16], r: usize)
    requires
        r < 7,
    ensures
        forall|j: int|
            0 <= j < N ==> #[trigger] lane_of(final(state)@, j) == steps(
                lane_of(old(state)@, j),
                lane_of(m@, j),
                8 * r as int,
                8,
            ),
{
    let ghost s0 = state@;
    let sc: [usize; 16] = BLAKE3_MSG_SCHEDULE[r];
    proof {
        assert forall|i: int| 0 <= i < 16 implies #[trigger] sc@[i] < 16 && sc@[i] == sched(r as int, i) by {
            crate::blake3_core::lemma_sched_bounds(r as int, i);
        }
    }
    g_lanes(state, 0, 4, 8, 12, m[sc[0]], m[sc[1]]);
    let ghost s1 = state@;
    g_lanes(state, 1, 5, 9, 13, m[sc[2]], m[sc[3]]);
    let ghost s2 = state@;
    g_lanes(state, 2, 6, 10, 14, m[sc[4]], m[sc[5]]);
    let ghost s3 = state@;
    g_lanes(state, 3, 7, 11, 15, m[sc[6]], m[sc[7]]);
    let ghost s4 = state@;
    g_lanes(state, 0, 5, 10, 15, m[sc[8]], m[sc[9]]);
    let ghost s5 = state@;
    g_lanes(state, 1, 6, 11, 12, m[sc[10]], m[sc[11]]);
    let ghost s6 = state@;
    g_lanes(state, 2, 7, 8, 13, m[sc[12]], m[sc[13]]);
    let ghost s7 = state@;
    g_lanes(state, 3, 4, 9, 14, m[sc[14]], m[sc[15]]);
    proof {
        assert forall|j: int| 0 <= j < N implies #[trigger] lane_of(state@, j) == steps(
            lane_of(s0, j),
            lane_of(m@, j),
            8 * r as int,
            8,
        ) by {
            let mj = lane_of(m@, j);
            crate::blake3_core::lemma_round_steps(lane_of(s0, j), mj, r as int);
            assert(lane_of(s1, j) == lane_of(s1, j));
            assert(lane_of(s2, j) == lane_of(s2, j));
            assert(lane_of(s3, j) == lane_of(s3, j));
            assert(lane_of(s4, j) == lane_of(s4, j));
            assert(lane_of(s5, j) == lane_of(s5, j));
            assert(lane_of(s6, j) == lane_of(s6, j));
            assert(lane_of(s7, j) == lane_of(s7, j));
        }
    }
}

/// The seven rounds in every lane.
pub fn seven_rounds_lanes<const N: usize>(state: &mut [Lanes<N>; 16], m: &[Lanes<N>; 16])
    ensures
        forall|j: int|
            0 <= j < N ==> #[trigger] lane_of(final(state)@, j) == steps(
                lane_of(old(state)@, j),
                lane_of(m@, j),
                0,
                56,
            ),
{
    let ghost s0 = state@;
    for r in 0..7usize
        invariant
            forall|j: int|
                0 <= j < N ==> #[trigger] lane_of(state@, j) == steps(
                    lane_of(s0, j),
                    lane_of(m@, j),
                    0,
                    (8 * r) as nat,
                ),
    {
        let ghost before = state@;
        round_lanes(state, m, r);
        proof {
            assert forall|j: int| 0 <= j < N implies #[trigger] lane_of(state@, j) == steps(
                lane_of(s0, j),
                lane_of(m@, j),
                0,
                (8 * (r + 1)) as nat,
            ) by {
                assert(lane_of(before, j) == steps(lane_of(s0, j), lane_of(m@, j), 0, (8 * r) as nat));
                crate::blake3_core::lemma_steps_compose(
                    lane_of(s0, j),
                    lane_of(m@, j),
                    0,
                    (8 * r) as nat,
                    8,
                );
                assert((8 * r) as nat + 8 == (8 * (r + 1)) as nat);
            }
        }
    }
}

// ---- transposes ----

/// Whether lane `i` of `out[j]` is lane `j` of `rows[i]`.
pub open spec fn is_transpose8(rows: Seq<U32x8>, out: Seq<U32x8>) -> bool {
    forall|j: int, i: int| 0 <= j < 8 && 0 <= i < 8 ==> #[trigger] out[j]@[i] == rows[i]@[j]
}

/// The low words of both vectors, interleaved within each half.
fn unpacklo32(a: U32x8, b: U32x8) -> (r: U32x8)
    ensures
        r@ == seq![a@[0], b@[0], a@[1], b@[1], a@[4], b@[4], a@[5], b@[5]],
{
    let r = Lanes {
        lanes: [
            a.lanes[0],
            b.lanes[0],
            a.lanes[1],
            b.lanes[1],
            a.lanes[4],
            b.lanes[4],
            a.lanes[5],
            b.lanes[5],
        ],
    };
    assert(r@ =~= seq![a@[0], b@[0], a@[1], b@[1], a@[4], b@[4], a@[5], b@[5]]);
    r
}

/// The high words of both vectors, interleaved within each half.
fn unpackhi32(a: U32x8, b: U32x8) -> (r: U32x8)
    ensures
        r@ == seq![a@[2], b@[2], a@[3], b@[3], a@[6], b@[6], a@[7], b@[7]],
{
    let r = Lanes {
        lanes: [
            a.lanes[2],
            b.lanes[2],
            a.lanes[3],
            b.lanes[3],
            a.lanes[6],
            b.lanes[6],
            a.lanes[7],
            b.lanes[7],
        ],
    };
    assert(r@ =~= seq![a@[2], b@[2], a@[3], b@[3], a@[6], b@[6], a@[7], b@[7]]);
    r
}

/// The low word pairs of both vectors within each half.
fn unpacklo64(a: U32x8, b: U32x8) -> (r: U32x8)
    ensures
        r@ == seq![a@[0], a@[1], b@[0], b@[1], a@[4], a@[5], b@[4], b@[5]],
{
    let r = Lanes {
        lanes: [
            a.lanes[0],
            a.lanes[1],
            b.lanes[0],
            b.lanes[1],
            a.lanes[4],
            a.lanes[5],
            b.lanes[4],
            b.lanes[5],
        ],
    };
    assert(r@ =~= seq![a@[0], a@[1], b@[0], b@[1], a@[4], a@[5], b@[4], b@[5]]);
    r
}

/// The high word pairs of both vectors within each half.
fn unpackhi64(a: U32x8, b: U32x8) -> (r: U32x8)
    ensures
        r@ == seq![a@[2], a@[3], b@[2], b@[3], a@[6], a@[7], b@[6], b@[7]],
{
    let r = Lanes {
        lanes: [
            a.lanes[2],
            a.lanes[3],
            b.lanes[2],
            b.lanes[3],
            a.lanes[6],
            a.lanes[7],
            b.lanes[6],
            b.lanes[7],
        ],
    };
    assert(r@ =~= seq![a@[2], a@[3], b@[2], b@[3], a@[6], a@[7], b@[6], b@[7]]);
    r
}

/// The low halves of both vectors.
fn low_halves(a: U32x8, b: U32x8) -> (r: U32x8)
    ensures
        r@ == seq![a@[0], a@[1], a@[2], a@[3], b@[0], b@[1], b@[2], b@[3]],
{
    let r = Lanes {
        lanes: [
            a.lanes[0],
            a.lanes[1],
            a.lanes[2],
            a.lanes[3],
            b.lanes[0],
            b.lanes[1],
            b.lanes[2],
            b.lanes[3],
        ],
    };
    assert(r@ =~= seq![a@[0], a@[1], a@[2], a@[3], b@[0], b@[1], b@[2], b@[3]]);
    r
}

/// The high halves of both vectors.
fn high_halves(a: U32x8, b: U32x8) -> (r: U32x8)
    ensures
        r@ == seq![a@[4], a@[5], a@[6], a@[7], b@[4], b@[5], b@[6], b@[7]],
{
    let r = Lanes {
        lanes: [
            a.lanes[4],
            a.lanes[5],
            a.lanes[6],
            a.lanes[7],
            b.lanes[4],
            b.lanes[5],
            b.lanes[6],
            b.lanes[7],
        ],
    };
    assert(r@ =~= seq![a@[4], a@[5], a@[6], a@[7], b@[4], b@[5], b@[6], b@[7]]);
    r
}

/// The 8 x 8 transpose: words interleaved, then pairs, then halves.
pub fn tr8(v: [U32x8; 8]) -> (r: [U32x8; 8])
    ensures
        is_transpose8(v@, r@),
{
    let t0 = unpacklo32(v[0], v[1]);
    let t1 = unpackhi32(v[0], v[1]);
    let t2 = unpacklo32(v[2], v[3]);
    let t3 = unpackhi32(v[2], v[3]);
    let t4 = unpacklo32(v[4], v[5]);
    let t5 = unpackhi32(v[4], v[5]);
    let t6 = unpacklo32(v[6], v[7]);
    let t7 = unpackhi32(v[6], v[7]);
    let u0 = unpacklo64(t0, t2);
    let u1 = unpackhi64(t0, t2);
    let u2 = unpacklo64(t1, t3);
    let u3 = unpackhi64(t1, t3);
    let u4 = unpacklo64(t4, t6);
    let u5 = unpackhi64(t4, t6);
    let u6 = unpacklo64(t5, t7);
    let u7 = unpackhi64(t5, t7);
    let r = [
        low_halves(u0, u4),
        low_halves(u1, u5),
        low_halves(u2, u6),
        low_halves(u3, u7),
        high_halves(u0, u4),
        high_halves(u1, u5),
        high_halves(u2, u6),
        high_halves(u3, u7),
    ];
    proof {
        assert forall|j: int, i: int| 0 <= j < 8 && 0 <= i < 8 implies #[trigger] r@[j]@[i] == v@[i]@[j] by {
            assert(i == 0 || i == 1 || i == 2 || i == 3 || i == 4 || i == 5 || i == 6 || i == 7);
            assert(j == 0 || j == 1 || j == 2 || j == 3 || j == 4 || j == 5 || j == 6 || j == 7);
        }
    }
    r
}

// ---- transposes of pairs of chunks ----

/// Word gather tables of the two permutation stages of [`tr8z`].
pub const TR8Z_IDX1_LO: [usize; 16] = [0, 8, 16, 24, 1, 9, 17, 25, 2, 10, 18, 26, 3, 11, 19, 27];

/// See [`TR8Z_IDX1_LO`].
pub const TR8Z_IDX1_HI: [usize; 16] = [4, 12, 20, 28, 5, 13, 21, 29, 6, 14, 22, 30, 7, 15, 23, 31];

/// See [`TR8Z_IDX1_LO`].
pub const TR8Z_IDX2_LO: [usize; 16] = [0, 1, 2, 3, 16, 17, 18, 19, 4, 5, 6, 7, 20, 21, 22, 23];

/// See [`TR8Z_IDX1_LO`].
pub const TR8Z_IDX2_HI: [usize; 16] = [8, 9, 10, 11, 24, 25, 26, 27, 12, 13, 14, 15, 28, 29, 30, 31];

/// Quarters `[a.0, a.1, b.0, b.1]`.
pub const TR8Z_SHUF_LO: u32 = 0x44;

/// Quarters `[a.2, a.3, b.2, b.3]`.
pub const TR8Z_SHUF_HI: u32 = 0xEE;

/// Word permutation of two vectors: lane `i` of the result is lane `idx[i]` of
/// `a`, or lane `idx[i] - 16` of `b` from sixteen on.
pub fn permt2d(a: U32x16, idx: &[usize; 16], b: U32x16) -> (r: U32x16)
    requires
        forall|i: int| 0 <= i < 16 ==> #[trigger] idx@[i] < 32,
    ensures
        forall|i: int|
            0 <= i < 16 ==> #[trigger] r@[i] == (if idx@[i] < 16 {
                a@[idx@[i] as int]
            } else {
                b@[idx@[i] - 16]
            }),
{
    let mut r: [u32; 16] = a.lanes;
    for i in 0..16usize
        invariant
            forall|i: int| 0 <= i < 16 ==> #[trigger] idx@[i] < 32,
            forall|j: int|
                0 <= j < i ==> #[trigger] r@[j] == (if idx@[j] < 16 {
                    a@[idx@[j] as int]
                } else {
                    b@[idx@[j] - 16]
                }),
    {
        assert(idx@[i as int] < 32);
        r[i] = if idx[i] < 16 {
            a.lanes[idx[i]]
        } else {
            b.lanes[idx[i] - 16]
        };
    }
    Lanes { lanes: r }
}

/// The quarters of `a` and `b` that the four two-bit fields of `imm` select: two
/// from `a`, then two from `b`.
pub fn shuffle_quarters(a: U32x16, b: U32x16, imm: u32) -> (r: U32x16)
    ensures
        forall|i: int|
            0 <= i < 16 ==> #[trigger] r@[i] == (if i < 8 {
                a@[4 * (imm as int / (if i < 4 { 1int } else { 4int }) % 4) + i % 4]
            } else {
                b@[4 * (imm as int / (if i < 12 { 16int } else { 64int }) % 4) + i % 4]
            }),
{
    let q0: usize = (imm % 4) as usize;
    let q1: usize = ((imm / 4) % 4) as usize;
    let q2: usize = ((imm / 16) % 4) as usize;
    let q3: usize = ((imm / 64) % 4) as usize;
    let mut r: [u32; 16] = a.lanes;
    for k in 0..4usize
        invariant
            q0 == imm as int % 4,
            q1 == imm as int / 4 % 4,
            q2 == imm as int / 16 % 4,
            q3 == imm as int / 64 % 4,
            forall|j: int| 0 <= j < k ==> #[trigger] r@[j] == a@[4 * q0 + j],
            forall|j: int| 4 <= j < 4 + k ==> #[trigger] r@[j] == a@[4 * q1 + (j - 4)],
            forall|j: int| 8 <= j < 8 + k ==> #[trigger] r@[j] == b@[4 * q2 + (j - 8)],
            forall|j: int| 12 <= j < 12 + k ==> #[trigger] r@[j] == b@[4 * q3 + (j - 12)],
    {
        r[k] = a.lanes[4 * q0 + k];
        r[4 + k] = a.lanes[4 * q1 + k];
        r[8 + k] = b.lanes[4 * q2 + k];
        r[12 + k] = b.lanes[4 * q3 + k];
    }
    Lanes { lanes: r }
}

/// Two vectors of eight as one of sixteen.
pub fn join8(lo: U32x8, hi: U32x8) -> (r: U32x16)
    ensures
        forall|i: int| 0 <= i < 16 ==> #[trigger] r@[i] == (if i < 8 { lo@[i] } else { hi@[i - 8] }),
{
    let mut r: [u32; 16] = [0; 16];
    for i in 0..8usize
        invariant
            forall|j: int| 0 <= j < i ==> #[trigger] r@[j] == lo@[j],
            forall|j: int| 8 <= j < 8 + i ==> #[trigger] r@[j] == hi@[j - 8],
    {
        r[i] = lo.lanes[i];
        r[8 + i] = hi.lanes[i];
    }
    Lanes { lanes: r }
}

/// The two halves of a vector of sixteen.
pub fn split16(v: U32x16) -> (r: (U32x8, U32x8))
    ensures
        forall|i: int| 0 <= i < 8 ==> #[trigger] r.0@[i] == v@[i],
        forall|i: int| 0 <= i < 8 ==> #[trigger] r.1@[i] == v@[i + 8],
{
    let mut lo: [u32; 8] = [0; 8];
    let mut hi: [u32; 8] = [0; 8];
    for i in 0..8usize
        invariant
            forall|j: int| 0 <= j < i ==> #[trigger] lo@[j] == v@[j],
            forall|j: int| 0 <= j < i ==> #[trigger] hi@[j] == v@[j + 8],
    {
        lo[i] = v.lanes[i];
        hi[i] = v.lanes[i + 8];
    }
    (Lanes { lanes: lo }, Lanes { lanes: hi })
}

/// Transposes two chunks of eight vectors in one network: lane `d` of `out[c]`
/// is lane `c` of vector `d` of the pair. `z[k]` holds vectors `2 k` and `2 k + 1`.
pub fn tr8z(z: [U32x16; 8]) -> (out: [U32x16; 8])
    ensures
        forall|c: int, d: int|
            0 <= c < 8 && 0 <= d < 16 ==> #[trigger] out@[c]@[d] == z@[d / 2]@[8 * (d % 2) + c],
{
    let i1l = TR8Z_IDX1_LO;
    let i1h = TR8Z_IDX1_HI;
    let i2l = TR8Z_IDX2_LO;
    let i2h = TR8Z_IDX2_HI;
    let p0 = permt2d(z[0], &i1l, z[1]);
    let q0 = permt2d(z[0], &i1h, z[1]);
    let p1 = permt2d(z[2], &i1l, z[3]);
    let q1 = permt2d(z[2], &i1h, z[3]);
    let p2 = permt2d(z[4], &i1l, z[5]);
    let q2 = permt2d(z[4], &i1h, z[5]);
    let p3 = permt2d(z[6], &i1l, z[7]);
    let q3 = permt2d(z[6], &i1h, z[7]);
    let s0 = permt2d(p0, &i2l, p1);
    let s1 = permt2d(p0, &i2h, p1);
    let s2 = permt2d(q0, &i2l, q1);
    let s3 = permt2d(q0, &i2h, q1);
    let s4 = permt2d(p2, &i2l, p3);
    let s5 = permt2d(p2, &i2h, p3);
    let s6 = permt2d(q2, &i2l, q3);
    let s7 = permt2d(q2, &i2h, q3);
    let out = [
        shuffle_quarters(s0, s4, TR8Z_SHUF_LO),
        shuffle_quarters(s0, s4, TR8Z_SHUF_HI),
        shuffle_quarters(s1, s5, TR8Z_SHUF_LO),
        shuffle_quarters(s1, s5, TR8Z_SHUF_HI),
        shuffle_quarters(s2, s6, TR8Z_SHUF_LO),
        shuffle_quarters(s2, s6, TR8Z_SHUF_HI),
        shuffle_quarters(s3, s7, TR8Z_SHUF_LO),
        shuffle_quarters(s3, s7, TR8Z_SHUF_HI),
    ];
    proof {
        assert forall|c: int, d: int| 0 <= c < 8 && 0 <= d < 16 implies #[trigger] out@[c]@[d] == z@[d / 2]@[8 * (d
            % 2) + c] by {
            assert(c == 0 || c == 1 || c == 2 || c == 3 || c == 4 || c == 5 || c == 6 || c == 7);
            assert(d == 0 || d == 1 || d == 2 || d == 3 || d == 4 || d == 5 || d == 6 || d == 7 || d == 8 || d == 9
                || d == 10 || d == 11 || d == 12 || d == 13 || d == 14 || d == 15);
        }
    }
    out
}

/// Transposing twice gives the rows back.
pub proof fn law_transpose_twice_gives_the_rows(rows: Seq<U32x8>, out: Seq<U32x8>, back: Seq<U32x8>, i: int, j: int)
    requires
        is_transpose8(rows, out),
        is_transpose8(out, back),
        0 <= i < 8,
        0 <= j < 8,
    ensures
        out[j]@[i] == rows[i]@[j],
        back[i]@[j] == rows[i]@[j],
{
    assert(out[j]@[i] == rows[i]@[j]);
}

} // verus!
