//! A 64-byte vector and the shuffles, bit-matrix products and byte products on it.

use crate::bits::{
    bit, bit8, is_lane_transpose, le_byte, le_u64, lemma_le_byte_bit, lemma_le_round_trip, swap_bytes,
    swap_bytes_spec, transpose_8x8_bits, transpose_swaps,
};
use crate::field::gf2_8::{gf8_mul, gf8_select, F8};
use crate::bits::lemma_word_facts;
use vstd::prelude::*;

verus! {

/// Sixty-four bytes, seen as eight groups of eight.
#[derive(Clone, Copy, Debug, PartialEq, Eq)]
pub struct Bytes64(pub [u8; 64]);

impl View for Bytes64 {
    type V = Seq<u8>;

    open spec fn view(&self) -> Seq<u8> {
        self.0@
    }
}

/// Group `q` of eight bytes.
pub open spec fn group(v: Seq<u8>, q: int) -> Seq<u8> {
    v.subrange(8 * q, 8 * q + 8)
}

/// Group `q` as a word, its lowest byte first.
pub open spec fn qword_of(v: Seq<u8>, q: int) -> u64 {
    le_u64(
        v[8 * q],
        v[8 * q + 1],
        v[8 * q + 2],
        v[8 * q + 3],
        v[8 * q + 4],
        v[8 * q + 5],
        v[8 * q + 6],
        v[8 * q + 7],
    )
}

/// The XOR of all bits of `v`, as the lowest bit of a byte.
pub open spec fn parity8(v: u8) -> u8 {
    (v ^ (v >> 1) ^ (v >> 2) ^ (v >> 3) ^ (v >> 4) ^ (v >> 5) ^ (v >> 6) ^ (v >> 7)) & 1
}

/// The row of the bit matrix `mat` that gives output bit `i`: byte `7 - i`.
pub open spec fn mat_row(mat: u64, i: u64) -> u8 {
    (mat >> ((8 * (7 - i)) as u64)) as u8
}

/// The product of the 8 x 8 bit matrix `mat` and the bit vector `x`: output bit
/// `i` is the parity of row `i` masked by `x`.
#[verifier::opaque]
pub open spec fn affine_byte(mat: u64, x: u8) -> u8 {
    parity8(mat_row(mat, 0) & x) | (parity8(mat_row(mat, 1) & x) << 1) | (parity8(mat_row(mat, 2) & x) << 2) | (
    parity8(mat_row(mat, 3) & x) << 3) | (parity8(mat_row(mat, 4) & x) << 4) | (parity8(mat_row(mat, 5) & x)
        << 5) | (parity8(mat_row(mat, 6) & x) << 6) | (parity8(mat_row(mat, 7) & x) << 7)
}

fn parity8_exec(v: u8) -> (r: u8)
    ensures
        r == parity8(v),
{
    (v ^ (v >> 1) ^ (v >> 2) ^ (v >> 3) ^ (v >> 4) ^ (v >> 5) ^ (v >> 6) ^ (v >> 7)) & 1
}

fn affine_byte_exec(mat: u64, x: u8) -> (r: u8)
    ensures
        r == affine_byte(mat, x),
{
    proof {
        reveal(affine_byte);
    }
    parity8_exec((mat >> 56) as u8 & x) | (parity8_exec((mat >> 48) as u8 & x) << 1) | (parity8_exec(
        (mat >> 40) as u8 & x,
    ) << 2) | (parity8_exec((mat >> 32) as u8 & x) << 3) | (parity8_exec((mat >> 24) as u8 & x) << 4) | (
    parity8_exec((mat >> 16) as u8 & x) << 5) | (parity8_exec((mat >> 8) as u8 & x) << 6) | (parity8_exec(
        (mat >> 0) as u8 & x,
    ) << 7)
}

/// Which group an index of a two-vector permutation selects.
pub open spec fn select_group(s: int, a: Seq<u8>, b: Seq<u8>) -> Seq<u8> {
    if s < 8 {
        group(a, s)
    } else {
        group(b, s - 8)
    }
}

impl Bytes64 {
    /// All bytes zero.
    pub fn zero() -> (r: Bytes64)
        ensures
            forall|i: int| 0 <= i < 64 ==> #[trigger] r@[i] == 0,
    {
        Bytes64([0u8; 64])
    }

    /// The bytes `src[at..at + 64]`.
    pub fn load(src: &[u8], at: usize) -> (r: Bytes64)
        requires
            at + 64 <= src.len(),
        ensures
            forall|i: int| 0 <= i < 64 ==> #[trigger] r@[i] == src@[at + i],
    {
        let mut v = [0u8; 64];
        for i in 0..64usize
            invariant
                at + 64 <= src.len(),
                forall|j: int| 0 <= j < i ==> #[trigger] v@[j] == src@[at + j],
        {
            v[i] = src[at + i];
        }
        Bytes64(v)
    }

    /// Writes the bytes to `dst[at..at + 64]`.
    pub fn store(self, dst: &mut [u8], at: usize)
        requires
            at + 64 <= old(dst).len(),
        ensures
            final(dst).len() == old(dst).len(),
            forall|i: int|
                0 <= i < old(dst).len() ==> #[trigger] final(dst)@[i] == (if at <= i < at + 64 {
                    self@[i - at]
                } else {
                    old(dst)@[i]
                }),
    {
        let ghost before = dst@;
        for i in 0..64usize
            invariant
                at + 64 <= before.len(),
                dst.len() == before.len(),
                forall|j: int|
                    0 <= j < before.len() ==> #[trigger] dst@[j] == (if at <= j < at + i {
                        self@[j - at]
                    } else {
                        before[j]
                    }),
        {
            dst[at + i] = self.0[i];
        }
    }

    /// Group `i` as a word.
    pub fn qword(&self, i: usize) -> (r: u64)
        requires
            i < 8,
        ensures
            r == qword_of(self@, i as int),
    {
        (self.0[8 * i] as u64) | ((self.0[8 * i + 1] as u64) << 8) | ((self.0[8 * i + 2] as u64) << 16) | ((self.0[8
            * i + 3] as u64) << 24) | ((self.0[8 * i + 4] as u64) << 32) | ((self.0[8 * i + 5] as u64) << 40) | ((
        self.0[8 * i + 6] as u64) << 48) | ((self.0[8 * i + 7] as u64) << 56)
    }

    /// The vector whose group `i` is the word `q[i]`.
    pub fn from_qwords(q: [u64; 8]) -> (r: Bytes64)
        ensures
            forall|i: int| 0 <= i < 64 ==> #[trigger] r@[i] == le_byte(q@[i / 8], i % 8),
            forall|i: int| 0 <= i < 8 ==> #[trigger] qword_of(r@, i) == q@[i],
    {
        let mut v = [0u8; 64];
        for i in 0..64usize
            invariant
                forall|j: int| 0 <= j < i ==> #[trigger] v@[j] == le_byte(q@[j / 8], j % 8),
        {
            v[i] = (q[i / 8] >> ((8 * (i % 8)) as u64)) as u8;
        }
        let r = Bytes64(v);
        proof {
            assert forall|i: int| 0 <= i < 8 implies #[trigger] qword_of(r@, i) == q@[i] by {
                lemma_le_round_trip(q@[i]);
                assert(r@[8 * i] == le_byte(q@[i], 0));
                assert(r@[8 * i + 1] == le_byte(q@[i], 1));
                assert(r@[8 * i + 2] == le_byte(q@[i], 2));
                assert(r@[8 * i + 3] == le_byte(q@[i], 3));
                assert(r@[8 * i + 4] == le_byte(q@[i], 4));
                assert(r@[8 * i + 5] == le_byte(q@[i], 5));
                assert(r@[8 * i + 6] == le_byte(q@[i], 6));
                assert(r@[8 * i + 7] == le_byte(q@[i], 7));
            }
        }
        r
    }

    /// Byte-wise XOR.
    pub fn xor(self, o: Bytes64) -> (r: Bytes64)
        ensures
            forall|i: int| 0 <= i < 64 ==> #[trigger] r@[i] == self@[i] ^ o@[i],
    {
        let mut v = [0u8; 64];
        for i in 0..64usize
            invariant
                forall|j: int| 0 <= j < i ==> #[trigger] v@[j] == self@[j] ^ o@[j],
        {
            v[i] = self.0[i] ^ o.0[i];
        }
        Bytes64(v)
    }

    /// Byte-wise XOR of three vectors.
    pub fn xor3(self, b: Bytes64, c: Bytes64) -> (r: Bytes64)
        ensures
            forall|i: int| 0 <= i < 64 ==> #[trigger] r@[i] == self@[i] ^ b@[i] ^ c@[i],
    {
        let mut v = [0u8; 64];
        for i in 0..64usize
            invariant
                forall|j: int| 0 <= j < i ==> #[trigger] v@[j] == self@[j] ^ b@[j] ^ c@[j],
        {
            v[i] = self.0[i] ^ b.0[i] ^ c.0[i];
        }
        Bytes64(v)
    }

    /// Byte permutation: byte `i` of the result is byte `idx[i] mod 64`.
    pub fn permb(self, idx: &[u8; 64]) -> (r: Bytes64)
        ensures
            forall|i: int| 0 <= i < 64 ==> #[trigger] r@[i] == self@[idx@[i] as int % 64],
    {
        let mut v = [0u8; 64];
        for i in 0..64usize
            invariant
                forall|j: int| 0 <= j < i ==> #[trigger] v@[j] == self@[idx@[j] as int % 64],
        {
            v[i] = self.0[(idx[i] % 64) as usize];
        }
        Bytes64(v)
    }

    /// Group permutation of two vectors: group `i` of the result is group
    /// `idx[i]` of `self`, or group `idx[i] - 8` of `o` from eight on.
    pub fn permt2q(self, idx: &[usize; 8], o: Bytes64) -> (r: Bytes64)
        requires
            forall|i: int| 0 <= i < 8 ==> #[trigger] idx@[i] < 16,
        ensures
            forall|i: int| 0 <= i < 8 ==> #[trigger] group(r@, i) == select_group(idx@[i] as int, self@, o@),
    {
        let mut v = [0u8; 64];
        for i in 0..64usize
            invariant
                forall|i: int| 0 <= i < 8 ==> #[trigger] idx@[i] < 16,
                forall|j: int|
                    0 <= j < i ==> #[trigger] v@[j] == (if idx@[j / 8] < 8 {
                        self@[8 * idx@[j / 8] + j % 8]
                    } else {
                        o@[8 * (idx@[j / 8] - 8) + j % 8]
                    }),
        {
            let s: usize = idx[i / 8];
            assert(idx@[i as int / 8] < 16);
            v[i] = if s < 8 {
                self.0[8 * s + i % 8]
            } else {
                o.0[8 * (s - 8) + i % 8]
            };
        }
        let r = Bytes64(v);
        proof {
            assert forall|i: int| 0 <= i < 8 implies #[trigger] group(r@, i) == select_group(
                idx@[i] as int,
                self@,
                o@,
            ) by {
                assert(idx@[i] < 16);
                let want = select_group(idx@[i] as int, self@, o@);
                assert forall|k: int| 0 <= k < 8 implies group(r@, i)[k] == want[k] by {
                    assert((8 * i + k) / 8 == i && (8 * i + k) % 8 == k);
                    assert(r@[8 * i + k] == v@[8 * i + k]);
                }
                assert(group(r@, i) =~= want);
            }
        }
        r
    }

    /// The even groups of both vectors, interleaved.
    pub fn unpacklo64(self, o: Bytes64) -> (r: Bytes64)
        ensures
            forall|i: int|
                0 <= i < 8 ==> #[trigger] group(r@, i) == (if i % 2 == 0 {
                    group(self@, i)
                } else {
                    group(o@, i - 1)
                }),
    {
        let r = self.permt2q(&[0, 8, 2, 10, 4, 12, 6, 14], o);
        proof {
            assert forall|i: int| 0 <= i < 8 implies #[trigger] group(r@, i) == (if i % 2 == 0 {
                group(self@, i)
            } else {
                group(o@, i - 1)
            }) by {
                assert(i == 0 || i == 1 || i == 2 || i == 3 || i == 4 || i == 5 || i == 6 || i == 7);
            }
        }
        r
    }

    /// The odd groups of both vectors, interleaved.
    pub fn unpackhi64(self, o: Bytes64) -> (r: Bytes64)
        ensures
            forall|i: int|
                0 <= i < 8 ==> #[trigger] group(r@, i) == (if i % 2 == 0 {
                    group(self@, i + 1)
                } else {
                    group(o@, i)
                }),
    {
        let r = self.permt2q(&[1, 9, 3, 11, 5, 13, 7, 15], o);
        proof {
            assert forall|i: int| 0 <= i < 8 implies #[trigger] group(r@, i) == (if i % 2 == 0 {
                group(self@, i + 1)
            } else {
                group(o@, i)
            }) by {
                assert(i == 0 || i == 1 || i == 2 || i == 3 || i == 4 || i == 5 || i == 6 || i == 7);
            }
        }
        r
    }

    /// One word in every group.
    pub fn mat_broadcast(mat: u64) -> (r: Bytes64)
        ensures
            forall|i: int| 0 <= i < 8 ==> #[trigger] qword_of(r@, i) == mat,
    {
        Bytes64::from_qwords([mat, mat, mat, mat, mat, mat, mat, mat])
    }

    /// Bit-matrix product: every byte is multiplied by the matrix in its group of `mats`.
    pub fn affine_v(self, mats: Bytes64) -> (r: Bytes64)
        ensures
            forall|i: int|
                0 <= i < 64 ==> #[trigger] r@[i] == affine_byte(qword_of(mats@, i / 8), self@[i]),
    {
        let mut v = [0u8; 64];
        for i in 0..64usize
            invariant
                forall|j: int|
                    0 <= j < i ==> #[trigger] v@[j] == affine_byte(qword_of(mats@, j / 8), self@[j]),
        {
            v[i] = affine_byte_exec(mats.qword(i / 8), self.0[i]);
        }
        Bytes64(v)
    }

    /// Bit-matrix product by one matrix.
    pub fn affine(self, mat: u64) -> (r: Bytes64)
        ensures
            forall|i: int| 0 <= i < 64 ==> #[trigger] r@[i] == affine_byte(mat, self@[i]),
    {
        let m = Bytes64::mat_broadcast(mat);
        let r = self.affine_v(m);
        proof {
            assert forall|i: int| 0 <= i < 64 implies #[trigger] r@[i] == affine_byte(mat, self@[i]) by {
                assert(qword_of(m@, i / 8) == mat);
            }
        }
        r
    }

    /// Byte-wise product in GF(2^8).
    pub fn mulb(self, o: Bytes64) -> (r: Bytes64)
        ensures
            forall|i: int| 0 <= i < 64 ==> #[trigger] r@[i] == gf8_mul(self@[i], o@[i]),
    {
        let mut v = [0u8; 64];
        for i in 0..64usize
            invariant
                forall|j: int| 0 <= j < i ==> #[trigger] v@[j] == gf8_mul(self@[j], o@[j]),
        {
            v[i] = F8(self.0[i]).mul(F8(o.0[i])).0;
        }
        Bytes64(v)
    }

    /// The 8 x 8 byte transpose: byte `8 j + q` of the result is byte `8 q + j`.
    pub fn byte_transpose(self) -> (r: Bytes64)
        ensures
            forall|i: int| 0 <= i < 64 ==> #[trigger] r@[i] == self@[8 * (i % 8) + i / 8],
    {
        let mut idx = [0u8; 64];
        for i in 0..64usize
            invariant
                forall|j: int| 0 <= j < i ==> #[trigger] idx@[j] == 8 * (j % 8) + j / 8,
        {
            idx[i] = (8 * (i % 8) + i / 8) as u8;
        }
        self.permb(&idx)
    }
}

/// Whether group `i` of `r[j]` is group `j` of `t[i]`, for all sixty-four groups.
pub open spec fn groups_transposed(t: Seq<Bytes64>, r: Seq<Bytes64>) -> bool {
    forall|j: int, i: int|
        0 <= j < 8 && 0 <= i < 8 ==> #[trigger] group(r[j]@, i) == group(t[i]@, j)
}

/// Group `i` of result `j` is group `j` of argument `i`: two interleaves, then
/// two rounds of group permutations.
pub fn qword_transpose(t: [Bytes64; 8]) -> (r: [Bytes64; 8])
    ensures
        groups_transposed(t@, r@),
{
    let s2_lo: [usize; 8] = [0, 1, 8, 9, 2, 3, 10, 11];
    let s2_hi: [usize; 8] = [4, 5, 12, 13, 6, 7, 14, 15];
    let s3_lo: [usize; 8] = [0, 1, 2, 3, 8, 9, 10, 11];
    let s3_hi: [usize; 8] = [4, 5, 6, 7, 12, 13, 14, 15];
    let e01 = t[0].unpacklo64(t[1]);
    let o01 = t[0].unpackhi64(t[1]);
    let e23 = t[2].unpacklo64(t[3]);
    let o23 = t[2].unpackhi64(t[3]);
    let e45 = t[4].unpacklo64(t[5]);
    let o45 = t[4].unpackhi64(t[5]);
    let e67 = t[6].unpacklo64(t[7]);
    let o67 = t[6].unpackhi64(t[7]);
    let h02_a = e01.permt2q(&s2_lo, e23);
    let h46_a = e01.permt2q(&s2_hi, e23);
    let h13_a = o01.permt2q(&s2_lo, o23);
    let h57_a = o01.permt2q(&s2_hi, o23);
    let h02_b = e45.permt2q(&s2_lo, e67);
    let h46_b = e45.permt2q(&s2_hi, e67);
    let h13_b = o45.permt2q(&s2_lo, o67);
    let h57_b = o45.permt2q(&s2_hi, o67);
    let r = [
        h02_a.permt2q(&s3_lo, h02_b),
        h13_a.permt2q(&s3_lo, h13_b),
        h02_a.permt2q(&s3_hi, h02_b),
        h13_a.permt2q(&s3_hi, h13_b),
        h46_a.permt2q(&s3_lo, h46_b),
        h57_a.permt2q(&s3_lo, h57_b),
        h46_a.permt2q(&s3_hi, h46_b),
        h57_a.permt2q(&s3_hi, h57_b),
    ];
    proof {
        assert forall|j: int, i: int| 0 <= j < 8 && 0 <= i < 8 implies #[trigger] group(r@[j]@, i) == group(
            t@[i]@,
            j,
        ) by {
            assert(i == 0 || i == 1 || i == 2 || i == 3 || i == 4 || i == 5 || i == 6 || i == 7);
            assert(j == 0 || j == 1 || j == 2 || j == 3 || j == 4 || j == 5 || j == 6 || j == 7);
        }
    }
    r
}

/// A transposed network, byte by byte.
pub proof fn lemma_groups_transposed(t: Seq<Bytes64>, r: Seq<Bytes64>, j: int, b: int)
    requires
        groups_transposed(t, r),
        0 <= j < 8,
        0 <= b < 64,
    ensures
        r[j]@[b] == t[b / 8]@[8 * j + b % 8],
{
    let i = b / 8;
    assert(group(r[j]@, i) == group(t[i]@, j));
    assert(group(r[j]@, i)[b % 8] == r[j]@[b]);
    assert(group(t[i]@, j)[b % 8] == t[i]@[8 * j + b % 8]);
}

proof fn lemma_word_bytes_bits(b0: u8, b1: u8, b2: u8, b3: u8, b4: u8, b5: u8, b6: u8, b7: u8)
    by (bit_vector)
    ensures
        ({
            let w = (b0 as u64) | ((b1 as u64) << 8) | ((b2 as u64) << 16) | ((b3 as u64) << 24) | ((b4 as u64)
                << 32) | ((b5 as u64) << 40) | ((b6 as u64) << 48) | ((b7 as u64) << 56);
            &&& (w >> 0) as u8 == b0
            &&& (w >> 8) as u8 == b1
            &&& (w >> 16) as u8 == b2
            &&& (w >> 24) as u8 == b3
            &&& (w >> 32) as u8 == b4
            &&& (w >> 40) as u8 == b5
            &&& (w >> 48) as u8 == b6
            &&& (w >> 56) as u8 == b7
            &&& w as u8 == b0
        }),
{
}

/// A word put together from bytes has those bytes.
pub proof fn lemma_word_bytes(b0: u8, b1: u8, b2: u8, b3: u8, b4: u8, b5: u8, b6: u8, b7: u8)
    ensures
        ({
            let w = le_u64(b0, b1, b2, b3, b4, b5, b6, b7);
            &&& le_byte(w, 0) == b0
            &&& le_byte(w, 1) == b1
            &&& le_byte(w, 2) == b2
            &&& le_byte(w, 3) == b3
            &&& le_byte(w, 4) == b4
            &&& le_byte(w, 5) == b5
            &&& le_byte(w, 6) == b6
            &&& le_byte(w, 7) == b7
        }),
{
    lemma_word_bytes_bits(b0, b1, b2, b3, b4, b5, b6, b7);
}

/// Byte `k` of word `q` is byte `8 q + k` of the vector.
pub proof fn lemma_qword_byte(v: Seq<u8>, q: int, k: int)
    requires
        0 <= k < 8,
    ensures
        le_byte(qword_of(v, q), k) == v[8 * q + k],
{
    lemma_word_bytes(
        v[8 * q],
        v[8 * q + 1],
        v[8 * q + 2],
        v[8 * q + 3],
        v[8 * q + 4],
        v[8 * q + 5],
        v[8 * q + 6],
        v[8 * q + 7],
    );
    assert(k == 0 || k == 1 || k == 2 || k == 3 || k == 4 || k == 5 || k == 6 || k == 7);
}

/// The group transpose undoes itself.
pub proof fn law_group_transpose_is_involution(t: Seq<Bytes64>, r: Seq<Bytes64>)
    requires
        groups_transposed(t, r),
    ensures
        groups_transposed(r, t),
{
    assert forall|j: int, i: int| 0 <= j < 8 && 0 <= i < 8 implies #[trigger] group(t[j]@, i) == group(r[i]@, j) by {
        assert(group(r[i]@, j) == group(t[j]@, i));
    }
}

// ---- sums of eight ----

/// The XOR of eight bytes.
pub open spec fn xor8_bytes(x0: u8, x1: u8, x2: u8, x3: u8, x4: u8, x5: u8, x6: u8, x7: u8) -> u8 {
    x0 ^ x1 ^ x2 ^ x3 ^ x4 ^ x5 ^ x6 ^ x7
}

/// The XOR of eight bytes in any of the orders that the kernels use.
pub proof fn lemma_xor8_orders(x0: u8, x1: u8, x2: u8, x3: u8, x4: u8, x5: u8, x6: u8, x7: u8)
    by (bit_vector)
    ensures
        (x3 ^ x4 ^ x5) ^ (x6 ^ x7 ^ (x0 ^ x1 ^ x2)) == x0 ^ x1 ^ x2 ^ x3 ^ x4 ^ x5 ^ x6 ^ x7,
        ((x0 ^ x1) ^ (x4 ^ x5)) ^ ((x2 ^ x3) ^ (x6 ^ x7)) == x0 ^ x1 ^ x2 ^ x3 ^ x4 ^ x5 ^ x6 ^ x7,
        x1 ^ x0 ^ x3 ^ x2 ^ x5 ^ x4 ^ x7 ^ x6 == x0 ^ x1 ^ x2 ^ x3 ^ x4 ^ x5 ^ x6 ^ x7,
        x2 ^ x3 ^ x0 ^ x1 ^ x6 ^ x7 ^ x4 ^ x5 == x0 ^ x1 ^ x2 ^ x3 ^ x4 ^ x5 ^ x6 ^ x7,
        x3 ^ x2 ^ x1 ^ x0 ^ x7 ^ x6 ^ x5 ^ x4 == x0 ^ x1 ^ x2 ^ x3 ^ x4 ^ x5 ^ x6 ^ x7,
        x4 ^ x5 ^ x6 ^ x7 ^ x0 ^ x1 ^ x2 ^ x3 == x0 ^ x1 ^ x2 ^ x3 ^ x4 ^ x5 ^ x6 ^ x7,
        x5 ^ x4 ^ x7 ^ x6 ^ x1 ^ x0 ^ x3 ^ x2 == x0 ^ x1 ^ x2 ^ x3 ^ x4 ^ x5 ^ x6 ^ x7,
        x6 ^ x7 ^ x4 ^ x5 ^ x2 ^ x3 ^ x0 ^ x1 == x0 ^ x1 ^ x2 ^ x3 ^ x4 ^ x5 ^ x6 ^ x7,
        x7 ^ x6 ^ x5 ^ x4 ^ x3 ^ x2 ^ x1 ^ x0 == x0 ^ x1 ^ x2 ^ x3 ^ x4 ^ x5 ^ x6 ^ x7,
{
}

/// Byte-wise XOR of eight vectors, as a tree of three-way XORs.
pub fn xor8(t: &[Bytes64; 8]) -> (r: Bytes64)
    ensures
        forall|i: int|
            0 <= i < 64 ==> #[trigger] r@[i] == xor8_bytes(
                t@[0]@[i],
                t@[1]@[i],
                t@[2]@[i],
                t@[3]@[i],
                t@[4]@[i],
                t@[5]@[i],
                t@[6]@[i],
                t@[7]@[i],
            ),
{
    let v1 = t[0].xor3(t[1], t[2]);
    let v2 = t[3].xor3(t[4], t[5]);
    let v3 = t[6].xor3(t[7], v1);
    let r = v2.xor(v3);
    proof {
        assert forall|i: int| 0 <= i < 64 implies #[trigger] r@[i] == xor8_bytes(
            t@[0]@[i],
            t@[1]@[i],
            t@[2]@[i],
            t@[3]@[i],
            t@[4]@[i],
            t@[5]@[i],
            t@[6]@[i],
            t@[7]@[i],
        ) by {
            assert(v1@[i] == t@[0]@[i] ^ t@[1]@[i] ^ t@[2]@[i]);
            assert(v2@[i] == t@[3]@[i] ^ t@[4]@[i] ^ t@[5]@[i]);
            assert(v3@[i] == t@[6]@[i] ^ t@[7]@[i] ^ v1@[i]);
            lemma_xor8_orders(
                t@[0]@[i],
                t@[1]@[i],
                t@[2]@[i],
                t@[3]@[i],
                t@[4]@[i],
                t@[5]@[i],
                t@[6]@[i],
                t@[7]@[i],
            );
        }
    }
    r
}

// ---- matrices from their columns ----

/// The sum of the bytes `t` of `col` over the set bits `t` of `x`.
#[verifier::opaque]
pub open spec fn compose_word(col: u64, x: u8) -> u8 {
    gf8_select(col as u8, x) ^ gf8_select((col >> 8) as u8, x >> 1) ^ gf8_select((col >> 16) as u8, x >> 2)
        ^ gf8_select((col >> 24) as u8, x >> 3) ^ gf8_select((col >> 32) as u8, x >> 4) ^ gf8_select(
        (col >> 40) as u8,
        x >> 5,
    ) ^ gf8_select((col >> 48) as u8, x >> 6) ^ gf8_select((col >> 56) as u8, x >> 7)
}

/// The bit matrix whose column `t` is byte `t` of `col`.
pub open spec fn columns_matrix(col: u64) -> u64 {
    swap_bytes_spec(transpose_swaps(col))
}

/// The matrix product is the sum of the selected columns.
pub proof fn law_matrix_sums_columns(col: u64, x: u8)
    ensures
        affine_byte(columns_matrix(col), x) == compose_word(col, x),
{
    reveal(affine_byte);
    reveal(compose_word);
    assert(affine_byte(columns_matrix(col), x) == compose_word(col, x)) by (bit_vector);
}

/// The bit matrix whose column `t` is byte `t` of `col`.
pub fn matrix_from_columns(col: u64) -> (mat: u64)
    ensures
        mat == columns_matrix(col),
{
    swap_bytes(transpose_8x8_bits(col))
}

/// A sum of columns is additive in the byte that selects them.
pub proof fn lemma_compose_bits(col: u64, x: u8, y: u8, t: u8)
    by (bit_vector)
    ensures
        compose_word(col, x ^ y) == compose_word(col, x) ^ compose_word(col, y),
        t < 8 ==> compose_word(col, 1u8 << t) == (col >> ((8 * t) as u64)) as u8,
{
}

/// The product with a matrix is additive, and takes the unit byte of bit `t` to column `t`.
pub proof fn law_matrix_is_linear(col: u64, x: u8, y: u8, t: u8)
    requires
        t < 8,
    ensures
        affine_byte(columns_matrix(col), x ^ y) == affine_byte(columns_matrix(col), x) ^ affine_byte(
            columns_matrix(col),
            y,
        ),
        affine_byte(columns_matrix(col), 1u8 << t) == (col >> ((8 * t) as u64)) as u8,
{
    law_matrix_sums_columns(col, x);
    law_matrix_sums_columns(col, y);
    law_matrix_sums_columns(col, x ^ y);
    law_matrix_sums_columns(col, 1u8 << t);
    lemma_compose_bits(col, x, y, t);
}

/// The groups of two vectors are numbered through, and a group as a word has its bytes in
/// order, the lowest first.
pub proof fn law_groups_are_numbered_through(a: Seq<u8>, b: Seq<u8>, s: int, k: int)
    requires
        a.len() == 64,
        b.len() == 64,
        0 <= s < 16,
        0 <= k < 8,
    ensures
        select_group(s, a, b).len() == 8,
        select_group(s, a, b)[k] == (a + b)[8 * s + k],
        s < 8 ==> le_byte(qword_of(a, s), k) == a[8 * s + k],
{
    if s < 8 {
        lemma_qword_byte(a, s, k);
    }
}

// ---- the lane transpose by one bit-matrix product ----

proof fn lemma_affine_unit_bits(mat: u64, t: u8, i: u8)
    by (bit_vector)
    requires
        t < 8,
        i < 8,
    ensures
        ({
            let x = 1u8 << t;
            let p0 = (mat >> 56) as u8 & x;
            let p1 = (mat >> 48) as u8 & x;
            let p2 = (mat >> 40) as u8 & x;
            let p3 = (mat >> 32) as u8 & x;
            let p4 = (mat >> 24) as u8 & x;
            let p5 = (mat >> 16) as u8 & x;
            let p6 = (mat >> 8) as u8 & x;
            let p7 = (mat >> 0) as u8 & x;
            let q0 = (p0 ^ (p0 >> 1) ^ (p0 >> 2) ^ (p0 >> 3) ^ (p0 >> 4) ^ (p0 >> 5) ^ (p0 >> 6) ^ (p0 >> 7)) & 1;
            let q1 = (p1 ^ (p1 >> 1) ^ (p1 >> 2) ^ (p1 >> 3) ^ (p1 >> 4) ^ (p1 >> 5) ^ (p1 >> 6) ^ (p1 >> 7)) & 1;
            let q2 = (p2 ^ (p2 >> 1) ^ (p2 >> 2) ^ (p2 >> 3) ^ (p2 >> 4) ^ (p2 >> 5) ^ (p2 >> 6) ^ (p2 >> 7)) & 1;
            let q3 = (p3 ^ (p3 >> 1) ^ (p3 >> 2) ^ (p3 >> 3) ^ (p3 >> 4) ^ (p3 >> 5) ^ (p3 >> 6) ^ (p3 >> 7)) & 1;
            let q4 = (p4 ^ (p4 >> 1) ^ (p4 >> 2) ^ (p4 >> 3) ^ (p4 >> 4) ^ (p4 >> 5) ^ (p4 >> 6) ^ (p4 >> 7)) & 1;
            let q5 = (p5 ^ (p5 >> 1) ^ (p5 >> 2) ^ (p5 >> 3) ^ (p5 >> 4) ^ (p5 >> 5) ^ (p5 >> 6) ^ (p5 >> 7)) & 1;
            let q6 = (p6 ^ (p6 >> 1) ^ (p6 >> 2) ^ (p6 >> 3) ^ (p6 >> 4) ^ (p6 >> 5) ^ (p6 >> 6) ^ (p6 >> 7)) & 1;
            let q7 = (p7 ^ (p7 >> 1) ^ (p7 >> 2) ^ (p7 >> 3) ^ (p7 >> 4) ^ (p7 >> 5) ^ (p7 >> 6) ^ (p7 >> 7)) & 1;
            let y = q0 | (q1 << 1) | (q2 << 2) | (q3 << 3) | (q4 << 4) | (q5 << 5) | (q6 << 6) | (q7 << 7);
            (y >> i) & 1 == ((mat >> ((8 * (7 - i) + t) as u64)) & 1) as u8
        }),
        (mat >> ((8 * (7 - i) + t) as u64)) & 1 <= 1,
{
}

proof fn lemma_le_u64_bit_bits(
    b0: u8,
    b1: u8,
    b2: u8,
    b3: u8,
    b4: u8,
    b5: u8,
    b6: u8,
    b7: u8,
    t: u8,
)
    by (bit_vector)
    requires
        t < 8,
    ensures
        ({
            let w = (b0 as u64) | ((b1 as u64) << 8) | ((b2 as u64) << 16) | ((b3 as u64) << 24) | ((b4 as u64)
                << 32) | ((b5 as u64) << 40) | ((b6 as u64) << 48) | ((b7 as u64) << 56);
            &&& ((w >> ((0 + t) as u64)) & 1) as u8 == (b0 >> t) & 1
            &&& ((w >> ((8 + t) as u64)) & 1) as u8 == (b1 >> t) & 1
            &&& ((w >> ((16 + t) as u64)) & 1) as u8 == (b2 >> t) & 1
            &&& ((w >> ((24 + t) as u64)) & 1) as u8 == (b3 >> t) & 1
            &&& ((w >> ((32 + t) as u64)) & 1) as u8 == (b4 >> t) & 1
            &&& ((w >> ((40 + t) as u64)) & 1) as u8 == (b5 >> t) & 1
            &&& ((w >> ((48 + t) as u64)) & 1) as u8 == (b6 >> t) & 1
            &&& ((w >> ((56 + t) as u64)) & 1) as u8 == (b7 >> t) & 1
        }),
{
}

/// Bit `t` of byte `8 q + j` is bit `8 j + t` of word `q`.
pub proof fn lemma_qword_bit(v: Seq<u8>, q: int, j: int, t: int)
    requires
        0 <= j < 8,
        0 <= t < 8,
    ensures
        bit(qword_of(v, q), 8 * j + t) == bit8(v[8 * q + j], t),
{
    let w = qword_of(v, q);
    lemma_le_u64_bit_bits(
        v[8 * q],
        v[8 * q + 1],
        v[8 * q + 2],
        v[8 * q + 3],
        v[8 * q + 4],
        v[8 * q + 5],
        v[8 * q + 6],
        v[8 * q + 7],
        t as u8,
    );
    assert(j == 0 || j == 1 || j == 2 || j == 3 || j == 4 || j == 5 || j == 6 || j == 7);
    lemma_le_byte_bit(w, j, t);
    lemma_word_facts(w, (8 * j + t) as u64, 0, 0, 0, 0);
}

/// The lanes' bytes as eight bit matrices: row `r` of matrix `c` is byte `c` of lane `r`.
fn lane_matrices(lanes: &[u64; 8]) -> (mats: Bytes64)
    ensures
        forall|i: int| 0 <= i < 64 ==> #[trigger] mats@[i] == le_byte(lanes@[7 - i % 8], i / 8),
{
    let x = Bytes64::from_qwords(*lanes);
    let mut idx = [0u8; 64];
    for i in 0..64usize
        invariant
            forall|j: int| 0 <= j < i ==> #[trigger] idx@[j] == 8 * (7 - j % 8) + j / 8,
    {
        idx[i] = (8 * (7 - i % 8) + i / 8) as u8;
    }
    let mats = x.permb(&idx);
    proof {
        assert forall|i: int| 0 <= i < 64 implies #[trigger] mats@[i] == le_byte(lanes@[7 - i % 8], i / 8) by {
            let s = 8 * (7 - i % 8) + i / 8;
            assert(idx@[i] == s);
            assert(s / 8 == 7 - i % 8 && s % 8 == i / 8);
            assert(x@[s] == le_byte(lanes@[s / 8], s % 8));
        }
    }
    mats
}

/// Byte `i` is the unit vector `i mod 8`.
fn unit_bytes() -> (r: Bytes64)
    ensures
        forall|i: int| 0 <= i < 64 ==> #[trigger] r@[i] == 1u8 << ((i % 8) as u8),
{
    let mut unit = [0u8; 64];
    for i in 0..64usize
        invariant
            forall|j: int| 0 <= j < i ==> #[trigger] unit@[j] == 1u8 << ((j % 8) as u8),
    {
        unit[i] = 1u8 << ((i % 8) as u8);
    }
    Bytes64(unit)
}

proof fn lemma_lane_transpose_at(lanes: Seq<u64>, mats: Seq<u8>, y: u8, b: int, r: int)
    requires
        0 <= b < 64,
        0 <= r < 8,
        mats[8 * (b / 8) + (7 - r)] == le_byte(lanes[r], b / 8),
        y == affine_byte(qword_of(mats, b / 8), 1u8 << ((b % 8) as u8)),
    ensures
        bit8(y, r) == bit(lanes[r], b),
{
    let c = b / 8;
    let t = b % 8;
    let m = qword_of(mats, c);
    reveal(affine_byte);
    lemma_affine_unit_bits(m, t as u8, r as u8);
    lemma_word_facts(m, 0, 0, 0, 0, 0);
    assert(bit8(y, r) == bit(m, 8 * (7 - r) + t));
    lemma_qword_bit(mats, c, 7 - r, t);
    lemma_le_byte_bit(lanes[r], c, t);
}

/// Bit-transposes eight lanes by one byte permutation and one bit-matrix product
/// of the unit bytes.
pub fn transpose_8_u64s_to_64_bytes_gfni(lanes: &[u64; 8], out: &mut [u8])
    requires
        old(out).len() == 64,
    ensures
        final(out).len() == 64,
        is_lane_transpose(lanes@, final(out)@),
{
    let mats = lane_matrices(lanes);
    let units = unit_bytes();
    let y = units.affine_v(mats);
    y.store(out, 0);
    proof {
        assert forall|b: int, r: int| 0 <= b < 64 && 0 <= r < 8 implies #[trigger] bit8(out@[b], r) == bit(
            lanes@[r],
            b,
        ) by {
            assert(out@[b] == y@[b]);
            assert(units@[b] == 1u8 << ((b % 8) as u8));
            let p = 8 * (b / 8) + (7 - r);
            assert(p / 8 == b / 8 && p % 8 == 7 - r);
            assert(mats@[p] == le_byte(lanes@[7 - p % 8], p / 8));
            lemma_lane_transpose_at(lanes@, mats@, y@[b], b, r);
        }
    }
}

/// Bit-transposes eight lanes: bit `r` of byte `8 c + t` is bit `t` of byte `c`
/// of lane `r`. `wide` selects the form by one bit-matrix product.
pub fn transpose_8_u64s_to_64_bytes(lanes: &[u64; 8], out: &mut [u8], wide: bool)
    requires
        old(out).len() == 64,
    ensures
        final(out).len() == 64,
        is_lane_transpose(lanes@, final(out)@),
{
    if wide {
        transpose_8_u64s_to_64_bytes_gfni(lanes, out);
    } else {
        crate::bits::transpose_8_u64s_to_64_bytes_scalar(lanes, out);
    }
}

} // verus!
