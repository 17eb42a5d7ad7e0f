//! The lookup table of the row extension: one packed row of eight bytes is taken to
//! sixty-four field elements.

use crate::bits::{le_byte, le_u64};
use crate::bytes64::{compose_word, lemma_word_bytes, xor8_bytes};
use crate::field::gf2_8::{gf8_select, F8};
use vstd::prelude::*;

verus! {

/// Packed input bytes per row.
pub const CHUNKS: usize = 8;

/// Output bytes per row.
pub const ELL: usize = 64;

/// `i` with the bits of `8 b` flipped: where the column of chunk `b` for output `i` stands.
pub open spec fn permuted(i: int, b: int) -> int {
    ((i as usize) ^ ((8 * b) as usize)) as int
}

/// The XOR of two three-bit numbers, bit by bit.
pub open spec fn mix3(u: int, w: int) -> int {
    ((u / 4 + w / 4) % 2) * 4 + ((u / 2 + w / 2) % 2) * 2 + (u + w) % 2
}

proof fn lemma_permuted_bits(i: usize, b: usize, u: usize)
    by (bit_vector)
    requires
        i < 64,
        b < 8,
        u < 8,
    ensures
        i ^ ((8 * b) as usize) == 8 * ((i / 8) ^ b) + i % 8,
        (i ^ ((8 * b) as usize)) ^ ((8 * b) as usize) == i,
        u ^ b == (((u / 4 + b / 4) as usize) % 2) * 4 + (((u / 2 + b / 2) as usize) % 2) * 2 + ((u + b) as usize) % 2,
{
}

/// Only the group index of the output moves.
pub proof fn lemma_permuted(i: int, b: int)
    requires
        0 <= i < 64,
        0 <= b < 8,
    ensures
        permuted(i, b) == 8 * mix3(i / 8, b) + i % 8,
        0 <= mix3(i / 8, b) < 8,
        0 <= permuted(i, b) < 64,
        permuted(permuted(i, b), b) == i,
{
    lemma_permuted_bits(i as usize, b as usize, (i / 8) as usize);
}

/// `mix3` is the XOR.
pub proof fn lemma_mix3(u: usize, w: usize)
    requires
        u < 8,
        w < 8,
    ensures
        (u ^ w) as int == mix3(u as int, w as int),
        u ^ w < 8,
{
    lemma_permuted_bits(0, w, u);
}


/// The eight unit images at output `i`, the first in the lowest byte.
pub open spec fn unit_word(data: Seq<u8>, i: int) -> u64 {
    le_u64(
        data[64 * 1 + i],
        data[64 * 2 + i],
        data[64 * 4 + i],
        data[64 * 8 + i],
        data[64 * 16 + i],
        data[64 * 32 + i],
        data[64 * 64 + i],
        data[64 * 128 + i],
    )
}

/// Whether every row is the sum of the unit rows at its set bits.
pub open spec fn is_composed(data: Seq<u8>) -> bool {
    forall|w: int, i: int|
        0 <= w < 256 && 0 <= i < 64 ==> #[trigger] data[64 * w + i] == compose_word(unit_word(data, i), w as u8)
}

/// Output `i` of the row `src[at..at + 8]`: chunk `b` contributes entry `i ^ 8 b` of
/// the table row of its byte.
pub open spec fn applied(data: Seq<u8>, src: Seq<u8>, at: int, i: int) -> u8 {
    xor8_bytes(
        data[64 * src[at] + permuted(i, 0)],
        data[64 * src[at + 1] + permuted(i, 1)],
        data[64 * src[at + 2] + permuted(i, 2)],
        data[64 * src[at + 3] + permuted(i, 3)],
        data[64 * src[at + 4] + permuted(i, 4)],
        data[64 * src[at + 5] + permuted(i, 5)],
        data[64 * src[at + 6] + permuted(i, 6)],
        data[64 * src[at + 7] + permuted(i, 7)],
    )
}

/// The extension table: row `w` holds the image of the byte `w` in the first chunk;
/// the other chunks read it at permuted outputs.
#[derive(Clone, Debug)]
pub struct InvNttTableByteSingleGf8 {
    /// The log of the domain size.
    pub k: usize,
    /// Entries per table row.
    pub ell: usize,
    /// Packed bytes per input row.
    pub n_chunks: usize,
    /// The table rows, one after another.
    pub data: Vec<u8>,
}

fn select(a: u8, bit: u8) -> (r: u8)
    ensures
        r == gf8_select(a, bit),
{
    if bit & 1 == 1 {
        a
    } else {
        0
    }
}

/// The sum of the bytes `t` of `col` over the set bits `t` of `x`.
fn compose(col: u64, x: u8) -> (r: u8)
    ensures
        r == compose_word(col, x),
{
    proof {
        reveal(compose_word);
    }
    select(col as u8, x) ^ select((col >> 8) as u8, x >> 1) ^ select((col >> 16) as u8, x >> 2) ^ select(
        (col >> 24) as u8,
        x >> 3,
    ) ^ select((col >> 32) as u8, x >> 4) ^ select((col >> 40) as u8, x >> 5) ^ select((col >> 48) as u8, x >> 6)
        ^ select((col >> 56) as u8, x >> 7)
}

proof fn lemma_compose_unit_bits(col: u64)
    by (bit_vector)
    ensures
        compose_word(col, 1) == (col >> 0) as u8,
        compose_word(col, 2) == (col >> 8) as u8,
        compose_word(col, 4) == (col >> 16) as u8,
        compose_word(col, 8) == (col >> 24) as u8,
        compose_word(col, 16) == (col >> 32) as u8,
        compose_word(col, 32) == (col >> 40) as u8,
        compose_word(col, 64) == (col >> 48) as u8,
        compose_word(col, 128) == (col >> 56) as u8,
{
}

/// A unit byte selects one byte of the word.
pub proof fn lemma_compose_unit(col: u64)
    ensures
        compose_word(col, 1) == le_byte(col, 0),
        compose_word(col, 2) == le_byte(col, 1),
        compose_word(col, 4) == le_byte(col, 2),
        compose_word(col, 8) == le_byte(col, 3),
        compose_word(col, 16) == le_byte(col, 4),
        compose_word(col, 32) == le_byte(col, 5),
        compose_word(col, 64) == le_byte(col, 6),
        compose_word(col, 128) == le_byte(col, 7),
{
    lemma_compose_unit_bits(col);
}

impl InvNttTableByteSingleGf8 {
    /// Whether the table has the shape of the sixty-four-point domain.
    pub open spec fn is_ranked_shape(&self) -> bool {
        &&& self.k == 6
        &&& self.ell == ELL
        &&& self.n_chunks == CHUNKS
    }

    /// The rows are all there, and each is the sum of the unit rows at its set bits.
    pub open spec fn wf(&self) -> bool {
        &&& self.ell == ELL
        &&& self.n_chunks == CHUNKS
        &&& self.data.len() == 256 * 64
        &&& is_composed(self.data@)
    }

    /// The table whose unit row `1 << t` is `cols[t]`.
    pub fn new(cols: &[[u8; 64]; 8]) -> (r: InvNttTableByteSingleGf8)
        ensures
            r.wf(),
            r.is_ranked_shape(),
            forall|w: int, i: int|
                0 <= w < 256 && 0 <= i < 64 ==> #[trigger] r.data@[64 * w + i] == compose_word(
                    le_u64(
                        cols@[0]@[i],
                        cols@[1]@[i],
                        cols@[2]@[i],
                        cols@[3]@[i],
                        cols@[4]@[i],
                        cols@[5]@[i],
                        cols@[6]@[i],
                        cols@[7]@[i],
                    ),
                    w as u8,
                ),
    {
        let ghost word = |i: int|
            le_u64(
                cols@[0]@[i],
                cols@[1]@[i],
                cols@[2]@[i],
                cols@[3]@[i],
                cols@[4]@[i],
                cols@[5]@[i],
                cols@[6]@[i],
                cols@[7]@[i],
            );
        let mut data: Vec<u8> = Vec::with_capacity(256 * 64);
        for w in 0..256usize
            invariant
                data.len() == 64 * w,
                forall|i: int|
                    word(i) == le_u64(
                        cols@[0]@[i],
                        cols@[1]@[i],
                        cols@[2]@[i],
                        cols@[3]@[i],
                        cols@[4]@[i],
                        cols@[5]@[i],
                        cols@[6]@[i],
                        cols@[7]@[i],
                    ),
                forall|n: int|
                    0 <= n < 64 * w ==> #[trigger] data@[n] == compose_word(word(n % 64), (n / 64) as u8),
        {
            for i in 0..64usize
                invariant
                    w < 256,
                    data.len() == 64 * w + i,
                    forall|i: int|
                        word(i) == le_u64(
                            cols@[0]@[i],
                            cols@[1]@[i],
                            cols@[2]@[i],
                            cols@[3]@[i],
                            cols@[4]@[i],
                            cols@[5]@[i],
                            cols@[6]@[i],
                            cols@[7]@[i],
                        ),
                    forall|n: int|
                        0 <= n < 64 * w + i ==> #[trigger] data@[n] == compose_word(word(n % 64), (n / 64) as u8),
            {
                let col = (cols[0][i] as u64) | ((cols[1][i] as u64) << 8) | ((cols[2][i] as u64) << 16) | ((
                cols[3][i] as u64) << 24) | ((cols[4][i] as u64) << 32) | ((cols[5][i] as u64) << 40) | ((
                cols[6][i] as u64) << 48) | ((cols[7][i] as u64) << 56);
                assert(col == word(i as int));
                assert((64 * w + i) / 64 == w && (64 * w + i) % 64 == i);
                data.push(compose(col, w as u8));
            }
        }
        proof {
            assert forall|w: int, i: int| 0 <= w < 256 && 0 <= i < 64 implies #[trigger] data@[64 * w + i]
                == compose_word(word(i), w as u8) by {
                assert((64 * w + i) / 64 == w && (64 * w + i) % 64 == i);
            }
            assert forall|w: int, i: int| 0 <= w < 256 && 0 <= i < 64 implies #[trigger] data@[64 * w + i]
                == compose_word(unit_word(data@, i), w as u8) by {
                let col = word(i);
                lemma_compose_unit(col);
                lemma_word_bytes(
                    cols@[0]@[i],
                    cols@[1]@[i],
                    cols@[2]@[i],
                    cols@[3]@[i],
                    cols@[4]@[i],
                    cols@[5]@[i],
                    cols@[6]@[i],
                    cols@[7]@[i],
                );
                assert(data@[64 * 1 + i] == cols@[0]@[i]);
                assert(data@[64 * 2 + i] == cols@[1]@[i]);
                assert(data@[64 * 4 + i] == cols@[2]@[i]);
                assert(data@[64 * 8 + i] == cols@[3]@[i]);
                assert(data@[64 * 16 + i] == cols@[4]@[i]);
                assert(data@[64 * 32 + i] == cols@[5]@[i]);
                assert(data@[64 * 64 + i] == cols@[6]@[i]);
                assert(data@[64 * 128 + i] == cols@[7]@[i]);
                assert(unit_word(data@, i) == col);
            }
        }
        InvNttTableByteSingleGf8 { k: 6, ell: ELL, n_chunks: CHUNKS, data }
    }

    /// Extends the packed row `src[at..at + 8]` at output `i`.
    pub fn apply_at(&self, src: &[u8], at: usize, i: usize) -> (r: u8)
        requires
            self.ell == ELL,
            self.data.len() == 256 * 64,
            at + 8 <= src.len(),
            i < 64,
        ensures
            r == applied(self.data@, src@, at as int, i as int),
    {
        proof {
            lemma_permuted(i as int, 0);
            lemma_permuted(i as int, 1);
            lemma_permuted(i as int, 2);
            lemma_permuted(i as int, 3);
            lemma_permuted(i as int, 4);
            lemma_permuted(i as int, 5);
            lemma_permuted(i as int, 6);
            lemma_permuted(i as int, 7);
        }
        let d = &self.data;
        d[64 * src[at] as usize + (i ^ 0)] ^ d[64 * src[at + 1] as usize + (i ^ 8)] ^ d[64 * src[at + 2] as usize + (i
            ^ 16)] ^ d[64 * src[at + 3] as usize + (i ^ 24)] ^ d[64 * src[at + 4] as usize + (i ^ 32)] ^ d[64 * src[at
            + 5] as usize + (i ^ 40)] ^ d[64 * src[at + 6] as usize + (i ^ 48)] ^ d[64 * src[at + 7] as usize + (i
            ^ 56)]
    }

    /// Extends the packed row `src[at..at + 8]` to its sixty-four outputs.
    pub fn apply_row(&self, src: &[u8], at: usize, out: &mut [F8])
        requires
            self.ell == ELL,
            self.data.len() == 256 * 64,
            at + 8 <= src.len(),
            old(out).len() == 64,
        ensures
            final(out).len() == 64,
            forall|i: int| 0 <= i < 64 ==> #[trigger] final(out)@[i].0 == applied(self.data@, src@, at as int, i),
    {
        for i in 0..64usize
            invariant
                self.ell == ELL,
                self.data.len() == 256 * 64,
                at + 8 <= src.len(),
                out.len() == 64,
                forall|j: int| 0 <= j < i ==> #[trigger] out@[j].0 == applied(self.data@, src@, at as int, j),
        {
            out[i] = F8(self.apply_at(src, at, i));
        }
    }

    /// Extends one packed row of eight bytes to its sixty-four outputs.
    pub fn apply(&self, src: &[u8], out: &mut [F8])
        requires
            self.ell == ELL,
            self.data.len() == 256 * 64,
            src.len() == 8,
            old(out).len() == 64,
        ensures
            final(out).len() == 64,
            forall|i: int| 0 <= i < 64 ==> #[trigger] final(out)@[i].0 == applied(self.data@, src@, 0, i),
    {
        self.apply_row(src, 0, out);
    }
}

} // verus!
