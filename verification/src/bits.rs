//! Bit transposes and the interleaved message layout.

use vstd::prelude::*;

verus! {

/// Whether bit `i` of `x` is set.
pub open spec fn bit(x: u64, i: int) -> bool {
    (x >> (i as u64)) & 1 == 1
}

/// Whether bit `i` of the byte `x` is set.
pub open spec fn bit8(x: u8, i: int) -> bool {
    (x >> (i as u8)) & 1 == 1
}

/// Byte `k` of `x`, the lowest first.
pub open spec fn le_byte(x: u64, k: int) -> u8 {
    (x >> ((8 * k) as u64)) as u8
}

/// The word whose bytes are `b0..b7`, the lowest first.
pub open spec fn le_u64(b0: u8, b1: u8, b2: u8, b3: u8, b4: u8, b5: u8, b6: u8, b7: u8) -> u64 {
    (b0 as u64) | ((b1 as u64) << 8) | ((b2 as u64) << 16) | ((b3 as u64) << 24) | ((b4 as u64) << 32) | ((b5
        as u64) << 40) | ((b6 as u64) << 48) | ((b7 as u64) << 56)
}

/// The three swap stages of the 8 x 8 transpose.
pub open spec fn transpose_swaps(x: u64) -> u64 {
    let t = (x ^ (x >> 7)) & 0x00AA_00AA_00AA_00AAu64;
    let x = x ^ t ^ (t << 7);
    let t = (x ^ (x >> 14)) & 0x0000_CCCC_0000_CCCCu64;
    let x = x ^ t ^ (t << 14);
    let t = (x ^ (x >> 28)) & 0x0000_0000_F0F0_F0F0u64;
    x ^ t ^ (t << 28)
}

/// Facts about shifts and masks of single values.
pub proof fn lemma_word_facts(w: u64, i: u64, d: u32, e: u32, f: u8, v: u16)
    by (bit_vector)
    ensures
        w >> 0u64 == w,
        w << 64u64 == 0,
        w >> 64u64 == 0,
        (w >> i) & 1 <= 1,
        (0u64 >> i) & 1 != 1,
        0u64 >> 32u64 == 0,
        ((d as u64) >> 32u64) as u32 == 0,
        (d ^ e) ^ e == d,
        d ^ e == e ^ d,
        (v & 0xff) as u8 == v as u8,
        4u8 & 4u8 == 4u8,
        (f | 4u8) & 4u8 == 4u8,
        (d >> e) & 1 <= 1,
        e < 32 ==> ((d >> e) & 1 == 1 <==> d & (1u32 << e) != 0),
        f & 0xff == f,
        (w ^ i) ^ w == i,
        (((d as u64) << 29) | ((d as u64) >> 35)) == d * 0x2000_0000,
        f >> 0u8 == f,
        f | 0u8 == f,
        0u8 | f == f,
        0u8 & 1 == 0,
        0u8 >> 1 == 0,
        0u8 >> 2 == 0,
        0u8 >> 3 == 0,
        0u8 >> 4 == 0,
        0u8 >> 5 == 0,
        0u8 >> 6 == 0,
        0u8 >> 7 == 0,
{
}

proof fn lemma_transpose_swaps_bits(x: u64, r: u64, c: u64)
    by (bit_vector)
    requires
        r < 8,
        c < 8,
    ensures
        ({
            let t = (x ^ (x >> 7)) & 0x00AA_00AA_00AA_00AAu64;
            let y = x ^ t ^ (t << 7);
            let t = (y ^ (y >> 14)) & 0x0000_CCCC_0000_CCCCu64;
            let z = y ^ t ^ (t << 14);
            let t = (z ^ (z >> 28)) & 0x0000_0000_F0F0_F0F0u64;
            let w = z ^ t ^ (t << 28);
            (w >> ((8 * c + r) as u64)) & 1 == (x >> ((8 * r + c) as u64)) & 1
        }),
{
}

/// The swap stages move bit `8 r + c` to bit `8 c + r`.
pub proof fn lemma_transpose_swaps(x: u64, r: int, c: int)
    requires
        0 <= r < 8,
        0 <= c < 8,
    ensures
        bit(transpose_swaps(x), 8 * c + r) == bit(x, 8 * r + c),
{
    lemma_transpose_swaps_bits(x, r as u64, c as u64);
}

proof fn lemma_transpose_twice(x: u64)
    by (bit_vector)
    ensures
        ({
            let t = (x ^ (x >> 7)) & 0x00AA_00AA_00AA_00AAu64;
            let y = x ^ t ^ (t << 7);
            let t = (y ^ (y >> 14)) & 0x0000_CCCC_0000_CCCCu64;
            let z = y ^ t ^ (t << 14);
            let t = (z ^ (z >> 28)) & 0x0000_0000_F0F0_F0F0u64;
            let w = z ^ t ^ (t << 28);
            let t = (w ^ (w >> 7)) & 0x00AA_00AA_00AA_00AAu64;
            let y = w ^ t ^ (t << 7);
            let t = (y ^ (y >> 14)) & 0x0000_CCCC_0000_CCCCu64;
            let z = y ^ t ^ (t << 14);
            let t = (z ^ (z >> 28)) & 0x0000_0000_F0F0_F0F0u64;
            z ^ t ^ (t << 28) == x
        }),
{
}

/// Transposing twice gives the matrix back.
pub proof fn law_transpose_is_involution(x: u64)
    ensures
        transpose_swaps(transpose_swaps(x)) == x,
{
    lemma_transpose_twice(x);
}

/// The transpose of the 8 x 8 bit matrix whose row `r` is byte `r`.
pub fn transpose_8x8_bits(x: u64) -> (y: u64)
    ensures
        forall|r: int, c: int|
            0 <= r < 8 && 0 <= c < 8 ==> #[trigger] bit(y, 8 * c + r) == bit(x, 8 * r + c),
        y == transpose_swaps(x),
{
    let t = (x ^ (x >> 7)) & 0x00AA_00AA_00AA_00AAu64;
    let a = x ^ t ^ (t << 7);
    let t = (a ^ (a >> 14)) & 0x0000_CCCC_0000_CCCCu64;
    let b = a ^ t ^ (t << 14);
    let t = (b ^ (b >> 28)) & 0x0000_0000_F0F0_F0F0u64;
    let y = b ^ t ^ (t << 28);
    proof {
        assert forall|r: int, c: int| 0 <= r < 8 && 0 <= c < 8 implies #[trigger] bit(y, 8 * c + r) == bit(
            x,
            8 * r + c,
        ) by {
            lemma_transpose_swaps(x, r, c);
        }
    }
    y
}

/// The word with its eight bytes in reverse order.
pub open spec fn swap_bytes_spec(x: u64) -> u64 {
    (x >> 56) | ((x >> 40) & 0xff00) | ((x >> 24) & 0xff_0000) | ((x >> 8) & 0xff00_0000) | ((x << 8)
        & 0xff_0000_0000) | ((x << 24) & 0xff00_0000_0000) | ((x << 40) & 0xff_0000_0000_0000) | (x << 56)
}

/// The word with its eight bytes in reverse order.
pub fn swap_bytes(x: u64) -> (y: u64)
    ensures
        y == swap_bytes_spec(x),
{
    (x >> 56) | ((x >> 40) & 0xff00) | ((x >> 24) & 0xff_0000) | ((x >> 8) & 0xff00_0000) | ((x << 8)
        & 0xff_0000_0000) | ((x << 24) & 0xff00_0000_0000) | ((x << 40) & 0xff_0000_0000_0000) | (x << 56)
}

proof fn lemma_le_round_trip_bits(x: u64, k: u64, r: u64)
    by (bit_vector)
    requires
        k < 8,
        r < 8,
    ensures
        ((x as u8) as u64) | (((x >> 8) as u8 as u64) << 8) | (((x >> 16) as u8 as u64) << 16) | (((x >> 24) as u8
            as u64) << 24) | (((x >> 32) as u8 as u64) << 32) | (((x >> 40) as u8 as u64) << 40) | (((x >> 48)
            as u8 as u64) << 48) | (((x >> 56) as u8 as u64) << 56) == x,
        x >> 0u64 == x,
        (((x >> ((8 * k) as u64)) as u8) >> (r as u8)) & 1 == ((x >> ((8 * k + r) as u64)) & 1) as u8,
        (x >> ((8 * k + r) as u64)) & 1 <= 1,
{
}

/// A word is put together from its bytes.
pub proof fn lemma_le_round_trip(x: u64)
    ensures
        le_u64(
            le_byte(x, 0),
            le_byte(x, 1),
            le_byte(x, 2),
            le_byte(x, 3),
            le_byte(x, 4),
            le_byte(x, 5),
            le_byte(x, 6),
            le_byte(x, 7),
        ) == x,
{
    lemma_le_round_trip_bits(x, 0, 0);
}

/// Bit `r` of byte `k` is bit `8 k + r` of the word.
pub proof fn lemma_le_byte_bit(x: u64, k: int, r: int)
    requires
        0 <= k < 8,
        0 <= r < 8,
    ensures
        bit8(le_byte(x, k), r) == bit(x, 8 * k + r),
{
    lemma_le_round_trip_bits(x, k as u64, r as u64);
}

proof fn lemma_gather_bits(l0: u64, l1: u64, l2: u64, l3: u64, l4: u64, l5: u64, l6: u64, l7: u64, c: u64, t: u64)
    by (bit_vector)
    requires
        c < 8,
        t < 8,
    ensures
        ({
            let s = (8 * c) as u64;
            let p = ((l0 >> s) & 0xFF) | (((l1 >> s) & 0xFF) << 8) | (((l2 >> s) & 0xFF) << 16) | (((l3 >> s)
                & 0xFF) << 24) | (((l4 >> s) & 0xFF) << 32) | (((l5 >> s) & 0xFF) << 40) | (((l6 >> s) & 0xFF)
                << 48) | (((l7 >> s) & 0xFF) << 56);
            let b = (8 * c + t) as u64;
            &&& (p >> t) & 1 == (l0 >> b) & 1
            &&& (p >> ((8 + t) as u64)) & 1 == (l1 >> b) & 1
            &&& (p >> ((16 + t) as u64)) & 1 == (l2 >> b) & 1
            &&& (p >> ((24 + t) as u64)) & 1 == (l3 >> b) & 1
            &&& (p >> ((32 + t) as u64)) & 1 == (l4 >> b) & 1
            &&& (p >> ((40 + t) as u64)) & 1 == (l5 >> b) & 1
            &&& (p >> ((48 + t) as u64)) & 1 == (l6 >> b) & 1
            &&& (p >> ((56 + t) as u64)) & 1 == (l7 >> b) & 1
        }),
{
}

/// Whether `out` is the bit transpose of the eight lanes: bit `r` of byte `b` is
/// bit `b` of lane `r`.
pub open spec fn is_lane_transpose(lanes: Seq<u64>, out: Seq<u8>) -> bool {
    forall|b: int, r: int| 0 <= b < 64 && 0 <= r < 8 ==> #[trigger] bit8(out[b], r) == bit(lanes[r], b)
}

/// Bit-transposes eight lanes, one column of bytes at a time.
pub fn transpose_8_u64s_to_64_bytes_scalar(lanes: &[u64; 8], out: &mut [u8])
    requires
        old(out).len() == 64,
    ensures
        final(out).len() == 64,
        is_lane_transpose(lanes@, final(out)@),
{
    for c in 0..8usize
        invariant
            out.len() == 64,
            forall|b: int, r: int|
                0 <= b < 8 * c && 0 <= r < 8 ==> #[trigger] bit8(out@[b], r) == bit(lanes@[r], b),
    {
        let shift: u64 = (c * 8) as u64;
        let packed: u64 = ((lanes[0] >> shift) & 0xFF) | (((lanes[1] >> shift) & 0xFF) << 8) | (((lanes[2]
            >> shift) & 0xFF) << 16) | (((lanes[3] >> shift) & 0xFF) << 24) | (((lanes[4] >> shift) & 0xFF)
            << 32) | (((lanes[5] >> shift) & 0xFF) << 40) | (((lanes[6] >> shift) & 0xFF) << 48) | (((lanes[7]
            >> shift) & 0xFF) << 56);
        let transposed = transpose_8x8_bits(packed);
        let ghost before = out@;
        for t in 0..8usize
            invariant
                c < 8,
                out.len() == 64,
                before.len() == 64,
                forall|i: int| 0 <= i < 8 * c ==> #[trigger] out@[i] == before[i],
                forall|i: int| 8 * c <= i < 8 * c + t ==> #[trigger] out@[i] == le_byte(transposed, i - 8 * c),
        {
            let byte: u8 = (transposed >> ((8 * t) as u64)) as u8;
            out[8 * c + t] = byte;
        }
        proof {
            assert forall|b: int, r: int| 0 <= b < 8 * (c + 1) && 0 <= r < 8 implies #[trigger] bit8(
                out@[b],
                r,
            ) == bit(lanes@[r], b) by {
                if b < 8 * c {
                    assert(out@[b] == before[b]);
                    assert(bit8(before[b], r) == bit(lanes@[r], b));
                } else {
                    let t = b - 8 * c;
                    lemma_le_byte_bit(transposed, t, r);
                    assert(bit(transposed, 8 * t + r) == bit(packed, 8 * r + t));
                    lemma_gather_bits(
                        lanes@[0],
                        lanes@[1],
                        lanes@[2],
                        lanes@[3],
                        lanes@[4],
                        lanes@[5],
                        lanes@[6],
                        lanes@[7],
                        c as u64,
                        t as u64,
                    );
                    assert(r == 0 || r == 1 || r == 2 || r == 3 || r == 4 || r == 5 || r == 6 || r == 7);
                }
            }
        }
    }
}

/// Bytes of an [`Interleaved8Block`].
pub const INTERLEAVED8_BYTES: usize = 512;

/// Blocks of one batch.
pub const INTERLEAVED8_BATCH: usize = 8;

/// Eight blocks of 64 bytes, byte by byte: byte `b` of block `l` stands at
/// `8 * b + l`.
#[derive(Clone, Copy)]
pub struct Interleaved8Block(pub [u8; 512]);

impl Interleaved8Block {
    /// A buffer that is yet to be filled.
    pub fn uninit() -> (r: Interleaved8Block)
        ensures
            r.0@ == Seq::new(512, |i: int| 0u8),
    {
        let r = Interleaved8Block([0u8; 512]);
        assert(r.0@ =~= Seq::new(512, |i: int| 0u8));
        r
    }

    /// The bytes.
    pub fn as_bytes(&self) -> (r: &[u8])
        ensures
            r@ == self.0@,
    {
        &self.0
    }

    /// The bytes, to be written.
    pub fn as_bytes_mut(&mut self) -> (r: &mut [u8])
        ensures
            r@ == old(self).0@,
            final(r)@ == final(self).0@,
    {
        &mut self.0
    }
}

/// Whether `out` holds the blocks byte by byte.
pub open spec fn is_interleaved(out: Seq<u8>, input: Seq<&[u8; 64]>) -> bool {
    &&& out.len() == INTERLEAVED8_BYTES
    &&& forall|byte: int, lane: int|
        0 <= byte < 64 && 0 <= lane < 8 ==> #[trigger] out[8 * byte + lane] == input[lane]@[byte]
}

/// Fills `out` with the blocks byte by byte.
pub fn interleaved8_block_into(out: &mut Interleaved8Block, input: &[&[u8; 64]; 8])
    ensures
        is_interleaved(final(out).0@, input@),
{
    let mut dst: [u8; 512] = [0; 512];
    for byte in 0..64usize
        invariant
            forall|b: int, l: int| 0 <= b < byte && 0 <= l < 8 ==> #[trigger] dst@[8 * b + l] == input@[l]@[b],
    {
        let row: usize = byte * 8;
        let ghost before = dst@;
        for lane in 0..8usize
            invariant
                byte < 64,
                row == byte * 8,
                before.len() == 512,
                forall|i: int| 0 <= i < row ==> #[trigger] dst@[i] == before[i],
                forall|l: int| 0 <= l < lane ==> #[trigger] dst@[row + l] == input@[l]@[byte as int],
        {
            dst[row + lane] = input[lane][byte];
        }
        proof {
            assert forall|b: int, l: int| 0 <= b < byte + 1 && 0 <= l < 8 implies #[trigger] dst@[8 * b + l]
                == input@[l]@[b] by {
                if b < byte {
                    assert(dst@[8 * b + l] == before[8 * b + l]);
                } else {
                    assert(dst@[row + l] == input@[l]@[byte as int]);
                }
            }
        }
    }
    out.0 = dst;
}

/// The inputs of eight compressions.
#[derive(Clone, Copy)]
pub struct HashMany8Inputs<'a> {
    pub blocks: [&'a [u8; 64]; 8],
    pub chaining_values: [&'a [u32; 8]; 8],
    pub counter: [u64; 8],
    pub block_len: [u32; 8],
    pub flags: [u32; 8],
}

impl<'a> HashMany8Inputs<'a> {
    /// The inputs of eight compressions, lane by lane.
    pub fn new(
        blocks: [&'a [u8; 64]; 8],
        chaining_values: [&'a [u32; 8]; 8],
        counter: [u64; 8],
        block_len: [u32; 8],
        flags: [u32; 8],
    ) -> (r: HashMany8Inputs<'a>)
        ensures
            r.blocks == blocks,
            r.chaining_values == chaining_values,
            r.counter == counter,
            r.block_len == block_len,
            r.flags == flags,
    {
        HashMany8Inputs { blocks, chaining_values, counter, block_len, flags }
    }
}

// ---- bytes and bits of words ----

proof fn lemma_byte_facts(x: u64, k: u64)
    by (bit_vector)
    ensures
        x == ((x >> 0) as u8) + 0x100 * ((x >> 8) as u8) + 0x1_0000 * ((x >> 16) as u8) + 0x100_0000 * ((x >> 24)
            as u8) + 0x1_0000_0000 * ((x >> 32) as u8) + 0x100_0000_0000 * ((x >> 40) as u8) + 0x1_0000_0000_0000 * ((x
            >> 48) as u8) + 0x100_0000_0000_0000 * ((x >> 56) as u8),
        k < 8 ==> (swap_bytes_spec(x) >> ((8 * k) as u64)) as u8 == (x >> ((56 - 8 * k) as u64)) as u8,
{
}

/// A word is the sum of its bytes, each times its power of 256.
pub proof fn law_word_is_the_sum_of_its_bytes(x: u64)
    ensures
        x == le_byte(x, 0) + 0x100 * le_byte(x, 1) + 0x1_0000 * le_byte(x, 2) + 0x100_0000 * le_byte(x, 3)
            + 0x1_0000_0000 * le_byte(x, 4) + 0x100_0000_0000 * le_byte(x, 5) + 0x1_0000_0000_0000 * le_byte(x, 6)
            + 0x100_0000_0000_0000 * le_byte(x, 7),
{
    lemma_byte_facts(x, 0);
}

/// Swapping the bytes puts byte `7 - k` in place of byte `k`.
pub proof fn law_swap_reverses_the_bytes(x: u64, k: int)
    requires
        0 <= k < 8,
    ensures
        le_byte(swap_bytes_spec(x), k) == le_byte(x, 7 - k),
{
    lemma_byte_facts(x, k as u64);
}

/// The 8 x 8 transpose exchanges rows and columns.
pub proof fn law_transpose_exchanges_rows_and_columns(x: u64, r: int, c: int)
    requires
        0 <= r < 8,
        0 <= c < 8,
    ensures
        ((transpose_swaps(x) >> ((8 * c + r) as u64)) & 1 == 1) == ((x >> ((8 * r + c) as u64)) & 1 == 1),
{
    lemma_transpose_swaps(x, r, c);
}

/// The lane transpose gathers bit `b` of all eight lanes in byte `b`, for every one of the
/// sixty-four bits.
pub proof fn law_lane_transpose_gathers_every_bit(lanes: Seq<u64>, out: Seq<u8>, b: int, r: int)
    requires
        is_lane_transpose(lanes, out),
        0 <= b < 64,
        0 <= r < 8,
    ensures
        ((out[b] >> (r as u8)) & 1 == 1) == ((lanes[r] >> (b as u64)) & 1 == 1),
{
    assert(bit8(out[b], r) == bit(lanes[r], b));
}

/// Interleaving puts byte `i / 8` of block `i % 8` at every place `i`.
pub proof fn law_interleaving_places_every_byte(out: Seq<u8>, input: Seq<&[u8; 64]>, i: int)
    requires
        is_interleaved(out, input),
        0 <= i < 512,
    ensures
        out.len() == 512,
        out[i] == input[i % 8]@[i / 8],
{
    assert(i == 8 * (i / 8) + i % 8);
    assert(out[8 * (i / 8) + i % 8] == input[i % 8]@[i / 8]);
}

} // verus!
