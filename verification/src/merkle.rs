//! Sixteen Merkle nodes at a time.
//!
//! The nodes are held as two groups of eight lanes that run through the rounds in
//! lockstep. A leaf is one chunk: its first block carries the start flag, its last
//! block the end flag. A parent is the block of its two children.

use crate::blake3_core::{
    block_words, compress_cv, init_state, le_byte32, le_u32, lemma_steps_compose, steps, BLAKE3_IV,
};
use crate::lanes::{is_transpose8, lane_of, round_lanes, tr8, Lanes, U32x8};
use crate::bits::lemma_word_facts;
use crate::blake3_core::laws::law_word_is_its_bytes;
use vstd::prelude::*;

verus! {

/// Bytes of a block.
pub const BLAKE3_BLOCK_LEN: usize = 64;

/// Flag of the first block of a chunk.
pub const BLAKE3_CHUNK_START: u8 = 1;

/// Flag of the last block of a chunk.
pub const BLAKE3_CHUNK_END: u8 = 2;

/// Flag of a parent node.
pub const BLAKE3_PARENT: u8 = 4;

/// The flags of block `k` of `blocks`.
pub open spec fn block_flags(k: int, blocks: int, flags_start: u8, flags_end: u8) -> u8 {
    (if k == 0 {
        flags_start
    } else {
        0
    }) | (if k == blocks - 1 {
        flags_end
    } else {
        0
    })
}

/// The chaining value after the first `k` of the `blocks` blocks of a chunk.
pub open spec fn chunk_cv(input: Seq<u8>, k: nat, blocks: int, flags_start: u8, flags_end: u8) -> Seq<u32>
    decreases k,
{
    if k == 0 {
        BLAKE3_IV@
    } else {
        compress_cv(
            chunk_cv(input, (k - 1) as nat, blocks, flags_start, flags_end),
            block_words(input.subrange(64 * (k - 1), 64 * k as int)),
            0,
            64,
            block_flags(k - 1, blocks, flags_start, flags_end) as u32,
        )
    }
}

/// The chaining value of the parent whose children are the halves of `block`.
pub open spec fn parent_cv(block: Seq<u8>) -> Seq<u32> {
    compress_cv(BLAKE3_IV@, block_words(block), 0, 64, BLAKE3_PARENT as u32)
}

/// Whether the first 512 bytes of `outs` are the sixteen chaining values, byte by
/// byte, and the rest is as in `outs0`.
pub open spec fn are_outputs(outs0: Seq<u8>, outs: Seq<u8>, cvs: Seq<Seq<u32>>) -> bool {
    &&& outs.len() == outs0.len()
    &&& forall|p: int|
        0 <= p < outs.len() ==> #[trigger] outs[p] == (if p < 512 {
            le_byte32(cvs[p / 32][p % 32 / 4], p % 4)
        } else {
            outs0[p]
        })
}

/// One round over two groups of lanes.
pub fn round_pair(va: &mut [U32x8; 16], vb: &mut [U32x8; 16], ma: &[U32x8; 16], mb: &[U32x8; 16], r: usize)
    requires
        r < 7,
    ensures
        forall|j: int|
            0 <= j < 8 ==> #[trigger] lane_of(final(va)@, j) == steps(
                lane_of(old(va)@, j),
                lane_of(ma@, j),
                8 * r as int,
                8,
            ),
        forall|j: int|
            0 <= j < 8 ==> #[trigger] lane_of(final(vb)@, j) == steps(
                lane_of(old(vb)@, j),
                lane_of(mb@, j),
                8 * r as int,
                8,
            ),
{
    round_lanes(va, ma, r);
    round_lanes(vb, mb, r);
}

/// Transposes eight vectors in place.
pub fn transpose8x8(vecs: &mut [U32x8; 8])
    ensures
        is_transpose8(old(vecs)@, final(vecs)@),
{
    let v = *vecs;
    *vecs = tr8(v);
}

/// The eight little-endian words at `at`.
fn load_words(src: &[u8], at: usize) -> (v: U32x8)
    requires
        at + 32 <= src.len(),
    ensures
        forall|w: int|
            0 <= w < 8 ==> #[trigger] v@[w] == le_u32(
                src@[at + 4 * w],
                src@[at + 4 * w + 1],
                src@[at + 4 * w + 2],
                src@[at + 4 * w + 3],
            ),
{
    let mut lanes = [0u32; 8];
    for w in 0..8usize
        invariant
            at + 32 <= src.len(),
            forall|k: int|
                0 <= k < w ==> #[trigger] lanes@[k] == le_u32(
                    src@[at + 4 * k],
                    src@[at + 4 * k + 1],
                    src@[at + 4 * k + 2],
                    src@[at + 4 * k + 3],
                ),
    {
        let i: usize = at + 4 * w;
        lanes[w] = (src[i] as u32) | ((src[i + 1] as u32) << 8) | ((src[i + 2] as u32) << 16) | ((src[i + 3] as u32)
            << 24);
    }
    Lanes { lanes }
}

/// The message words of the blocks at `offset` of the messages `first..first + 8`.
fn load_group(inputs: &[&[u8]; 16], first: usize, offset: usize) -> (m: [U32x8; 16])
    requires
        first == 0 || first == 8,
        forall|i: int| 0 <= i < 16 ==> offset + 64 <= (#[trigger] inputs@[i]).len(),
    ensures
        forall|j: int|
            0 <= j < 8 ==> #[trigger] lane_of(m@, j) == block_words(
                inputs@[first + j]@.subrange(offset as int, offset + 64),
            ),
{
    let zero: U32x8 = Lanes::splat(0);
    let mut lo = [zero, zero, zero, zero, zero, zero, zero, zero];
    let mut hi = [zero, zero, zero, zero, zero, zero, zero, zero];
    for i in 0..8usize
        invariant
            first == 0 || first == 8,
            forall|i: int| 0 <= i < 16 ==> offset + 64 <= (#[trigger] inputs@[i]).len(),
            forall|k: int, w: int|
                0 <= k < i && 0 <= w < 8 ==> #[trigger] lo@[k]@[w] == block_words(
                    inputs@[first + k]@.subrange(offset as int, offset + 64),
                )[w],
            forall|k: int, w: int|
                0 <= k < i && 0 <= w < 8 ==> #[trigger] hi@[k]@[w] == block_words(
                    inputs@[first + k]@.subrange(offset as int, offset + 64),
                )[w + 8],
    {
        let src = inputs[first + i];
        assert(offset + 64 <= inputs@[first + i].len());
        let a = load_words(src, offset);
        let b = load_words(src, offset + 32);
        lo[i] = a;
        hi[i] = b;
        proof {
            let block = inputs@[first + i]@.subrange(offset as int, offset + 64);
            assert forall|w: int| 0 <= w < 8 implies #[trigger] a@[w] == block_words(block)[w] && b@[w]
                == block_words(block)[w + 8] by {
                assert(block[4 * w] == src@[offset + 4 * w]);
                assert(block[4 * w + 1] == src@[offset + 4 * w + 1]);
                assert(block[4 * w + 2] == src@[offset + 4 * w + 2]);
                assert(block[4 * w + 3] == src@[offset + 4 * w + 3]);
                assert(block[4 * (w + 8)] == src@[offset + 32 + 4 * w]);
                assert(block[4 * (w + 8) + 1] == src@[offset + 32 + 4 * w + 1]);
                assert(block[4 * (w + 8) + 2] == src@[offset + 32 + 4 * w + 2]);
                assert(block[4 * (w + 8) + 3] == src@[offset + 32 + 4 * w + 3]);
            }
            assert forall|k: int, w: int| 0 <= k < i + 1 && 0 <= w < 8 implies #[trigger] hi@[k]@[w] == block_words(
                inputs@[first + k]@.subrange(offset as int, offset + 64),
            )[w + 8] by {
                if k == i {
                    assert(a@[w] == block_words(block)[w]);
                }
            }
        }
    }
    let ghost lo0 = lo@;
    let ghost hi0 = hi@;
    transpose8x8(&mut lo);
    transpose8x8(&mut hi);
    let m = [
        lo[0],
        lo[1],
        lo[2],
        lo[3],
        lo[4],
        lo[5],
        lo[6],
        lo[7],
        hi[0],
        hi[1],
        hi[2],
        hi[3],
        hi[4],
        hi[5],
        hi[6],
        hi[7],
    ];
    proof {
        assert forall|j: int| 0 <= j < 8 implies #[trigger] lane_of(m@, j) == block_words(
            inputs@[first + j]@.subrange(offset as int, offset + 64),
        ) by {
            let words = block_words(inputs@[first + j]@.subrange(offset as int, offset + 64));
            assert forall|w: int| 0 <= w < 16 implies #[trigger] m@[w]@[j] == words[w] by {
                if w < 8 {
                    assert(m@[w] == lo@[w]);
                    assert(lo@[w]@[j] == lo0[j]@[w]);
                } else {
                    assert(m@[w] == hi@[w - 8]);
                    assert(hi@[w - 8]@[j] == hi0[j]@[w - 8]);
                }
            }
            assert(lane_of(m@, j) =~= words);
        }
    }
    m
}

/// The message words of the blocks at `block_offset` of sixteen messages.
pub fn load_and_transpose16(inputs: &[&[u8]; 16], block_offset: usize) -> (m: ([U32x8; 16], [U32x8; 16]))
    requires
        forall|i: int| 0 <= i < 16 ==> block_offset + 64 <= (#[trigger] inputs@[i]).len(),
    ensures
        forall|j: int|
            0 <= j < 8 ==> #[trigger] lane_of(m.0@, j) == block_words(
                inputs@[0 + j]@.subrange(block_offset as int, block_offset + 64),
            ),
        forall|j: int|
            0 <= j < 8 ==> #[trigger] lane_of(m.1@, j) == block_words(
                inputs@[8 + j]@.subrange(block_offset as int, block_offset + 64),
            ),
{
    (load_group(inputs, 0, block_offset), load_group(inputs, 8, block_offset))
}

/// The initial chaining value in every lane.
pub fn broadcast_iv() -> (iv: [U32x8; 8])
    ensures
        forall|w: int, j: int| 0 <= w < 8 && 0 <= j < 8 ==> #[trigger] iv@[w]@[j] == BLAKE3_IV@[w],
{
    [
        Lanes::splat(BLAKE3_IV[0]),
        Lanes::splat(BLAKE3_IV[1]),
        Lanes::splat(BLAKE3_IV[2]),
        Lanes::splat(BLAKE3_IV[3]),
        Lanes::splat(BLAKE3_IV[4]),
        Lanes::splat(BLAKE3_IV[5]),
        Lanes::splat(BLAKE3_IV[6]),
        Lanes::splat(BLAKE3_IV[7]),
    ]
}

/// The state before the rounds of a full block with counter zero.
fn start16(h: &[U32x8; 8], iv: &[U32x8; 8], flags: u8) -> (v: [U32x8; 16])
    requires
        forall|w: int, j: int| 0 <= w < 8 && 0 <= j < 8 ==> #[trigger] iv@[w]@[j] == BLAKE3_IV@[w],
    ensures
        forall|j: int|
            0 <= j < 8 ==> #[trigger] lane_of(v@, j) == init_state(lane_of(h@, j), 0, 64, flags as u32),
{
    let v = [
        h[0],
        h[1],
        h[2],
        h[3],
        h[4],
        h[5],
        h[6],
        h[7],
        iv[0],
        iv[1],
        iv[2],
        iv[3],
        Lanes::splat(0),
        Lanes::splat(0),
        Lanes::splat(64),
        Lanes::splat(flags as u32),
    ];
    proof {
        assert forall|j: int| 0 <= j < 8 implies #[trigger] lane_of(v@, j) == init_state(
            lane_of(h@, j),
            0,
            64,
            flags as u32,
        ) by {
            lemma_word_facts(0, 0, 0, 0, 0, 0);
            assert(0u64 as u32 == 0);
            assert(lane_of(v@, j) =~= init_state(lane_of(h@, j), 0, 64, flags as u32));
        }
    }
    v
}

/// One block into the chaining values of both groups.
fn compress_pair(
    h_a: &mut [U32x8; 8],
    h_b: &mut [U32x8; 8],
    iv: &[U32x8; 8],
    ma: &[U32x8; 16],
    mb: &[U32x8; 16],
    flags: u8,
)
    requires
        forall|w: int, j: int| 0 <= w < 8 && 0 <= j < 8 ==> #[trigger] iv@[w]@[j] == BLAKE3_IV@[w],
    ensures
        forall|j: int|
            0 <= j < 8 ==> #[trigger] lane_of(final(h_a)@, j) == compress_cv(
                lane_of(old(h_a)@, j),
                lane_of(ma@, j),
                0,
                64,
                flags as u32,
            ),
        forall|j: int|
            0 <= j < 8 ==> #[trigger] lane_of(final(h_b)@, j) == compress_cv(
                lane_of(old(h_b)@, j),
                lane_of(mb@, j),
                0,
                64,
                flags as u32,
            ),
{
    let ghost a0 = h_a@;
    let ghost b0 = h_b@;
    let mut va = start16(h_a, iv, flags);
    let mut vb = start16(h_b, iv, flags);
    let ghost sa = va@;
    let ghost sb = vb@;
    for r in 0..7usize
        invariant
            forall|j: int|
                0 <= j < 8 ==> #[trigger] lane_of(va@, j) == steps(
                    lane_of(sa, j),
                    lane_of(ma@, j),
                    0,
                    (8 * r) as nat,
                ),
            forall|j: int|
                0 <= j < 8 ==> #[trigger] lane_of(vb@, j) == steps(
                    lane_of(sb, j),
                    lane_of(mb@, j),
                    0,
                    (8 * r) as nat,
                ),
    {
        let ghost a1 = va@;
        let ghost b1 = vb@;
        round_pair(&mut va, &mut vb, ma, mb, r);
        proof {
            assert((8 * r) as nat + 8 == (8 * (r + 1)) as nat);
            assert forall|j: int| 0 <= j < 8 implies #[trigger] lane_of(va@, j) == steps(
                lane_of(sa, j),
                lane_of(ma@, j),
                0,
                (8 * (r + 1)) as nat,
            ) by {
                assert(lane_of(a1, j) == steps(lane_of(sa, j), lane_of(ma@, j), 0, (8 * r) as nat));
                lemma_steps_compose(lane_of(sa, j), lane_of(ma@, j), 0, (8 * r) as nat, 8);
            }
            assert forall|j: int| 0 <= j < 8 implies #[trigger] lane_of(vb@, j) == steps(
                lane_of(sb, j),
                lane_of(mb@, j),
                0,
                (8 * (r + 1)) as nat,
            ) by {
                assert(lane_of(b1, j) == steps(lane_of(sb, j), lane_of(mb@, j), 0, (8 * r) as nat));
                lemma_steps_compose(lane_of(sb, j), lane_of(mb@, j), 0, (8 * r) as nat, 8);
            }
        }
    }
    for w in 0..8usize
        invariant
            forall|k: int, j: int|
                0 <= k < w && 0 <= j < 8 ==> #[trigger] h_a@[k]@[j] == va@[k]@[j] ^ va@[k + 8]@[j],
            forall|k: int, j: int|
                0 <= k < w && 0 <= j < 8 ==> #[trigger] h_b@[k]@[j] == vb@[k]@[j] ^ vb@[k + 8]@[j],
    {
        h_a[w] = va[w].xor(va[w + 8]);
        h_b[w] = vb[w].xor(vb[w + 8]);
    }
    proof {
        assert forall|j: int| 0 <= j < 8 implies #[trigger] lane_of(h_a@, j) == compress_cv(
            lane_of(a0, j),
            lane_of(ma@, j),
            0,
            64,
            flags as u32,
        ) by {
            let want = compress_cv(lane_of(a0, j), lane_of(ma@, j), 0, 64, flags as u32);
            assert(lane_of(va@, j) == steps(lane_of(sa, j), lane_of(ma@, j), 0, 56));
            assert(lane_of(sa, j) == init_state(lane_of(a0, j), 0, 64, flags as u32));
            assert forall|w: int| 0 <= w < 8 implies #[trigger] h_a@[w]@[j] == want[w] by {
                assert(lane_of(va@, j)[w] == va@[w]@[j]);
                assert(lane_of(va@, j)[w + 8] == va@[w + 8]@[j]);
            }
            assert(lane_of(h_a@, j) =~= want);
        }
        assert forall|j: int| 0 <= j < 8 implies #[trigger] lane_of(h_b@, j) == compress_cv(
            lane_of(b0, j),
            lane_of(mb@, j),
            0,
            64,
            flags as u32,
        ) by {
            let want = compress_cv(lane_of(b0, j), lane_of(mb@, j), 0, 64, flags as u32);
            assert(lane_of(vb@, j) == steps(lane_of(sb, j), lane_of(mb@, j), 0, 56));
            assert(lane_of(sb, j) == init_state(lane_of(b0, j), 0, 64, flags as u32));
            assert forall|w: int| 0 <= w < 8 implies #[trigger] h_b@[w]@[j] == want[w] by {
                assert(lane_of(vb@, j)[w] == vb@[w]@[j]);
                assert(lane_of(vb@, j)[w + 8] == vb@[w + 8]@[j]);
            }
            assert(lane_of(h_b@, j) =~= want);
        }
    }
}

/// Stores the chaining values of one group, byte by byte.
fn store_group(h: &[U32x8; 8], first: usize, outs: &mut [u8])
    requires
        first == 0 || first == 8,
        old(outs).len() >= 512,
    ensures
        final(outs)@.len() == old(outs)@.len(),
        forall|p: int|
            0 <= p < old(outs)@.len() ==> #[trigger] final(outs)@[p] == (if 32 * first <= p < 32 * first + 256 {
                le_byte32(lane_of(h@, p / 32 - first)[p % 32 / 4], p % 4)
            } else {
                old(outs)@[p]
            }),
{
    let ghost o0 = outs@;
    let mut t = *h;
    transpose8x8(&mut t);
    for q in 0..256usize
        invariant
            first == 0 || first == 8,
            outs.len() >= 512,
            outs@.len() == o0.len(),
            is_transpose8(h@, t@),
            forall|p: int|
                0 <= p < o0.len() ==> #[trigger] outs@[p] == (if 32 * first <= p < 32 * first + q {
                    le_byte32(lane_of(h@, p / 32 - first)[p % 32 / 4], p % 4)
                } else {
                    o0[p]
                }),
    {
        let i: usize = q / 32;
        let w: usize = (q % 32) / 4;
        let k: usize = q % 4;
        let p: usize = 32 * first + q;
        let x = t[i].lanes[w];
        proof {
            assert(t@[i as int]@[w as int] == h@[w as int]@[i as int]);
            assert(lane_of(h@, i as int)[w as int] == h@[w as int]@[i as int]);
            assert(p as int / 32 - first == i && p as int % 32 == q % 32 && p as int % 4 == k);
        }
        outs[p] = (x >> ((8 * k) as u32)) as u8;
    }
}

/// Hashes sixteen leaves of `N` bytes into 32 bytes each. Only whole blocks are read.
pub fn hash16_leaves<const N: usize>(inputs: &[&[u8]; 16], flags_start: u8, flags_end: u8, outs: &mut [u8])
    requires
        forall|i: int| 0 <= i < 16 ==> N <= (#[trigger] inputs@[i]).len(),
        old(outs).len() >= 512,
    ensures
        are_outputs(
            old(outs)@,
            final(outs)@,
            Seq::new(
                16,
                |i: int| chunk_cv(inputs@[i]@, (N / 64) as nat, N as int / 64, flags_start, flags_end),
            ),
        ),
{
    let ghost o0 = outs@;
    let blocks: usize = N / BLAKE3_BLOCK_LEN;
    let iv = broadcast_iv();
    let mut h_a = iv;
    let mut h_b = iv;
    proof {
        assert forall|j: int| 0 <= j < 8 implies #[trigger] lane_of(iv@, j) == BLAKE3_IV@ by {
            assert(lane_of(iv@, j) =~= BLAKE3_IV@);
        }
    }
    for block in 0..blocks
        invariant
            blocks == N / 64,
            forall|i: int| 0 <= i < 16 ==> N <= (#[trigger] inputs@[i]).len(),
            forall|w: int, j: int| 0 <= w < 8 && 0 <= j < 8 ==> #[trigger] iv@[w]@[j] == BLAKE3_IV@[w],
            forall|j: int|
                0 <= j < 8 ==> #[trigger] lane_of(h_a@, j) == chunk_cv(
                    inputs@[0 + j]@,
                    block as nat,
                    blocks as int,
                    flags_start,
                    flags_end,
                ),
            forall|j: int|
                0 <= j < 8 ==> #[trigger] lane_of(h_b@, j) == chunk_cv(
                    inputs@[8 + j]@,
                    block as nat,
                    blocks as int,
                    flags_start,
                    flags_end,
                ),
    {
        let first_flag: u8 = if block == 0 {
            flags_start
        } else {
            0
        };
        let last_flag: u8 = if block + 1 == blocks {
            flags_end
        } else {
            0
        };
        let ghost a0 = h_a@;
        let ghost b0 = h_b@;
        proof {
            assert(64 * (block + 1) <= N);
            assert forall|i: int| 0 <= i < 16 implies block * 64 + 64 <= (#[trigger] inputs@[i]).len() by {
                assert(N <= inputs@[i].len());
            }
        }
        assert(N <= inputs@[0].len());
        let (ma, mb) = load_and_transpose16(inputs, block * BLAKE3_BLOCK_LEN);
        compress_pair(&mut h_a, &mut h_b, &iv, &ma, &mb, first_flag | last_flag);
        proof {
            assert forall|j: int| 0 <= j < 8 implies #[trigger] lane_of(h_a@, j) == chunk_cv(
                inputs@[0 + j]@,
                (block + 1) as nat,
                blocks as int,
                flags_start,
                flags_end,
            ) by {
                assert(lane_of(a0, j) == lane_of(a0, j));
                assert(lane_of(ma@, j) == lane_of(ma@, j));
                assert((block + 1) as nat - 1 == block as nat);
            }
            assert forall|j: int| 0 <= j < 8 implies #[trigger] lane_of(h_b@, j) == chunk_cv(
                inputs@[8 + j]@,
                (block + 1) as nat,
                blocks as int,
                flags_start,
                flags_end,
            ) by {
                assert(lane_of(b0, j) == lane_of(b0, j));
                assert(lane_of(mb@, j) == lane_of(mb@, j));
                assert((block + 1) as nat - 1 == block as nat);
            }
        }
    }
    store_group(&h_a, 0, outs);
    let ghost o1 = outs@;
    store_group(&h_b, 8, outs);
    proof {
        let cvs = Seq::new(
            16,
            |i: int| chunk_cv(inputs@[i]@, (N / 64) as nat, N as int / 64, flags_start, flags_end),
        );
        lemma_outputs(o0, o1, outs@, h_a@, h_b@, cvs);
    }
}

/// Two stored groups are the sixteen outputs.
proof fn lemma_outputs(
    o0: Seq<u8>,
    o1: Seq<u8>,
    o2: Seq<u8>,
    h_a: Seq<U32x8>,
    h_b: Seq<U32x8>,
    cvs: Seq<Seq<u32>>,
)
    requires
        o0.len() >= 512,
        o1.len() == o0.len(),
        o2.len() == o0.len(),
        forall|p: int|
            0 <= p < o0.len() ==> #[trigger] o1[p] == (if 0 <= p < 256 {
                le_byte32(lane_of(h_a, p / 32 - 0)[p % 32 / 4], p % 4)
            } else {
                o0[p]
            }),
        forall|p: int|
            0 <= p < o0.len() ==> #[trigger] o2[p] == (if 256 <= p < 512 {
                le_byte32(lane_of(h_b, p / 32 - 8)[p % 32 / 4], p % 4)
            } else {
                o1[p]
            }),
        forall|j: int| 0 <= j < 8 ==> #[trigger] lane_of(h_a, j) == cvs[0 + j],
        forall|j: int| 0 <= j < 8 ==> #[trigger] lane_of(h_b, j) == cvs[8 + j],
    ensures
        are_outputs(o0, o2, cvs),
{
    assert forall|p: int| 0 <= p < o2.len() implies #[trigger] o2[p] == (if p < 512 {
        le_byte32(cvs[p / 32][p % 32 / 4], p % 4)
    } else {
        o0[p]
    }) by {
        assert(o1[p] == o1[p]);
        if p < 256 {
            assert(lane_of(h_a, p / 32) == cvs[0 + p / 32]);
        } else if p < 512 {
            assert(lane_of(h_b, p / 32 - 8) == cvs[8 + (p / 32 - 8)]);
        }
    }
}

/// Hashes sixteen parents, each given as the 64 bytes of its two children, into 32
/// bytes each.
pub fn hash16_parents(inputs: &[&[u8]; 16], outs: &mut [u8])
    requires
        forall|i: int| 0 <= i < 16 ==> 64 <= (#[trigger] inputs@[i]).len(),
        old(outs).len() >= 512,
    ensures
        are_outputs(
            old(outs)@,
            final(outs)@,
            Seq::new(16, |i: int| parent_cv(inputs@[i]@.subrange(0, 64))),
        ),
{
    let ghost o0 = outs@;
    let iv = broadcast_iv();
    let mut h_a = iv;
    let mut h_b = iv;
    proof {
        assert forall|j: int| 0 <= j < 8 implies #[trigger] lane_of(iv@, j) == BLAKE3_IV@ by {
            assert(lane_of(iv@, j) =~= BLAKE3_IV@);
        }
    }
    let (ma, mb) = load_and_transpose16(inputs, 0);
    compress_pair(&mut h_a, &mut h_b, &iv, &ma, &mb, BLAKE3_PARENT);
    store_group(&h_a, 0, outs);
    let ghost o1 = outs@;
    store_group(&h_b, 8, outs);
    proof {
        let cvs = Seq::new(16, |i: int| parent_cv(inputs@[i]@.subrange(0, 64)));
        assert forall|j: int| 0 <= j < 8 implies #[trigger] lane_of(h_a@, j) == cvs[0 + j] by {
            assert(lane_of(iv@, j) == BLAKE3_IV@);
            assert(lane_of(ma@, j) == lane_of(ma@, j));
        }
        assert forall|j: int| 0 <= j < 8 implies #[trigger] lane_of(h_b@, j) == cvs[8 + j] by {
            assert(lane_of(iv@, j) == BLAKE3_IV@);
            assert(lane_of(mb@, j) == lane_of(mb@, j));
        }
        lemma_outputs(o0, o1, outs@, h_a@, h_b@, cvs);
    }
}

/// A leaf is hashed block by block, each compression going on from the chaining value
/// of the one before: the start flag enters the first block and no other, the end flag
/// the last and no other, and the blocks in between have none.
pub proof fn law_leaf_chains_its_blocks(input: Seq<u8>, k: nat, blocks: int, flags_start: u8, flags_end: u8)
    requires
        k < blocks,
    ensures
        chunk_cv(input, 0, blocks, flags_start, flags_end) == seq![
            0x6A09E667u32, 0xBB67AE85, 0x3C6EF372, 0xA54FF53A, 0x510E527F, 0x9B05688C, 0x1F83D9AB, 0x5BE0CD19,
        ],
        chunk_cv(input, k + 1, blocks, flags_start, flags_end) == compress_cv(
            chunk_cv(input, k, blocks, flags_start, flags_end),
            block_words(input.subrange(64 * k as int, (64 * k + 64) as int)),
            0,
            64,
            (if blocks == 1 {
                flags_start | flags_end
            } else if k == 0 {
                flags_start
            } else if k == blocks - 1 {
                flags_end
            } else {
                0
            }) as u32,
        ),
{
    lemma_word_facts(0, 0, 0, 0, flags_start, 0);
    lemma_word_facts(0, 0, 0, 0, flags_end, 0);
    assert(chunk_cv(input, 0, blocks, flags_start, flags_end) =~= seq![
        0x6A09E667u32, 0xBB67AE85, 0x3C6EF372, 0xA54FF53A, 0x510E527F, 0x9B05688C, 0x1F83D9AB, 0x5BE0CD19,
    ]);
    lemma_word_facts(0, 0, 0, 0, 0, 0);
    assert((k + 1 - 1) as nat == k);
    assert(64 * (k + 1 - 1) == 64 * k && 64 * (k + 1) == 64 * k + 64);
}

/// The bytes of a chaining value, as the hashes write them.
pub open spec fn cv_bytes(cv: Seq<u32>) -> Seq<u8> {
    Seq::new(32, |p: int| le_byte32(cv[p / 4], p % 4))
}

/// A parent compresses the chaining values of its children, one after the other, under
/// the initial value and the parent flag: written out as bytes and read back as words
/// they are the message.
pub proof fn law_parent_compresses_its_children(left: Seq<u32>, right: Seq<u32>)
    requires
        left.len() == 8,
        right.len() == 8,
    ensures
        parent_cv(cv_bytes(left) + cv_bytes(right)) == compress_cv(
            seq![
                0x6A09E667u32, 0xBB67AE85, 0x3C6EF372, 0xA54FF53A, 0x510E527F, 0x9B05688C, 0x1F83D9AB, 0x5BE0CD19,
            ],
            left + right,
            0,
            64,
            4,
        ),
{
    let block = cv_bytes(left) + cv_bytes(right);
    assert forall|i: int| 0 <= i < 16 implies #[trigger] block_words(block)[i] == (left + right)[i] by {
        let w = (left + right)[i];
        let q = if i < 8 {
            cv_bytes(left)
        } else {
            cv_bytes(right)
        };
        let o = if i < 8 {
            4 * i
        } else {
            4 * i - 32
        };
        assert(block[4 * i] == q[o] && block[4 * i + 1] == q[o + 1] && block[4 * i + 2] == q[o + 2] && block[4 * i + 3]
            == q[o + 3]);
        assert(q[o] == le_byte32(w, 0) && q[o + 1] == le_byte32(w, 1) && q[o + 2] == le_byte32(w, 2) && q[o + 3]
            == le_byte32(w, 3));
        law_word_is_its_bytes(w, 0, 0, 0, 0);
    }
    assert(block_words(block) =~= left + right);
    assert(BLAKE3_IV@ =~= seq![
        0x6A09E667u32, 0xBB67AE85, 0x3C6EF372, 0xA54FF53A, 0x510E527F, 0x9B05688C, 0x1F83D9AB, 0x5BE0CD19,
    ]);
}

/// Hash `i` stands at the bytes `32 i..32 i + 32` of the outputs, and no byte behind
/// the sixteen hashes has changed.
pub proof fn law_outputs_stand_side_by_side(outs0: Seq<u8>, outs: Seq<u8>, cvs: Seq<Seq<u32>>, i: int)
    requires
        outs0.len() >= 512,
        are_outputs(outs0, outs, cvs),
        0 <= i < 16,
    ensures
        outs.len() == outs0.len(),
        outs.subrange(32 * i, 32 * i + 32) == cv_bytes(cvs[i]),
        outs.subrange(512, outs.len() as int) == outs0.subrange(512, outs.len() as int),
{
    let q = outs.subrange(32 * i, 32 * i + 32);
    assert forall|p: int| 0 <= p < 32 implies #[trigger] q[p] == cv_bytes(cvs[i])[p] by {
        assert(q[p] == outs[32 * i + p]);
        assert((32 * i + p) / 32 == i && (32 * i + p) % 32 == p && (32 * i + p) % 4 == p % 4);
    }
    assert(q =~= cv_bytes(cvs[i]));
    assert(outs.subrange(512, outs.len() as int) =~= outs0.subrange(512, outs.len() as int));
}

} // verus!
