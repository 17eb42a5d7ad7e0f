//! Partial folds of a packed bit matrix.
//!
//! The matrix is stored in stripes of eight rows: byte `s * k + c` holds column `c`
//! of stripe `s`, one row in each bit. A fold adds up, for every column, the weights
//! of the rows whose bit is set. Eight stripes make a tile; tiles are handed to
//! tasks in chunks whose sums are merged at the end.

use crate::bits::{lemma_le_round_trip, lemma_word_facts};
use crate::bytes64::{affine_byte, columns_matrix, law_matrix_sums_columns, matrix_from_columns, Bytes64};
use crate::field::gf2_128::{fadd, fzero, law_fadd_assoc, law_fadd_zero, F128};
use crate::zerocheck::multilinear::row_fold::{
    column_of, f128_byte, f128_byte_exec, f128_select, lemma_f128_byte_add, lemma_select_sum_byte, select_sum,
};
use rayon::iter::{IndexedParallelIterator, ParallelIterator};
use rayon::slice::ParallelSlice;
use vstd::arithmetic::power2::{lemma_pow2_adds, pow2};
use vstd::prelude::*;

verus! {

/// Stripes of a tile.
pub const TILE_T: usize = 8;

/// The weights of the rows of stripe `s`.
pub open spec fn weights(eq: Seq<F128>, s: int) -> Seq<F128> {
    eq.subrange(8 * s, 8 * s + 8)
}

/// The fold of column `c` over the first `n` stripes.
pub open spec fn fold_rows(z: Seq<u8>, eq: Seq<F128>, k: int, c: int, n: nat) -> F128
    decreases n,
{
    if n == 0 {
        fzero()
    } else {
        fadd(
            fold_rows(z, eq, k, c, (n - 1) as nat),
            select_sum(weights(eq, n - 1), z[(n - 1) * k + c]),
        )
    }
}

/// The columns that a kernel with blocks of `width` columns covers.
pub open spec fn covered(useful_bits: int, k: int, width: int) -> int {
    let blocks = (useful_bits + width - 1) / width;
    if blocks * width <= k {
        blocks * width
    } else {
        k
    }
}

/// The fold of every covered column, and zero for the others.
pub open spec fn folded(z: Seq<u8>, eq: Seq<F128>, k: int, n_stripes: nat, cover: int) -> Seq<F128> {
    Seq::new(
        k as nat,
        |c: int|
            if c < cover {
                fold_rows(z, eq, k, c, n_stripes)
            } else {
                fzero()
            },
    )
}

/// Selecting by a zero byte gives zero.
proof fn lemma_select_none(v: Seq<F128>)
    ensures
        select_sum(v, 0) == fzero(),
{
    lemma_word_facts(0, 0, 0, 0, 0, 0);
    law_fadd_zero(fzero());
}

/// A column whose bytes are all zero folds to zero, so columns of padding can be
/// left out.
pub proof fn law_zero_column_folds_to_zero(z: Seq<u8>, eq: Seq<F128>, k: int, c: int, n: nat)
    requires
        forall|s: int| 0 <= s < n ==> #[trigger] z[s * k + c] == 0,
    ensures
        fold_rows(z, eq, k, c, n) == fzero(),
    decreases n,
{
    if n > 0 {
        law_zero_column_folds_to_zero(z, eq, k, c, (n - 1) as nat);
        assert(z[(n - 1) * k + c] == 0);
        lemma_select_none(weights(eq, n - 1));
        law_fadd_zero(fzero());
    }
}

/// Where the columns from `useful_bits` on are zero, how many of them a kernel
/// covers does not matter.
pub proof fn law_padding_does_not_matter(z: Seq<u8>, eq: Seq<F128>, k: int, n: nat, useful_bits: int, c1: int, c2: int)
    requires
        useful_bits <= c1 <= k,
        useful_bits <= c2 <= k,
        forall|s: int, c: int| 0 <= s < n && useful_bits <= c < k ==> #[trigger] z[s * k + c] == 0,
    ensures
        folded(z, eq, k, n, c1) == folded(z, eq, k, n, c2),
{
    assert forall|c: int| 0 <= c < k implies #[trigger] folded(z, eq, k, n, c1)[c] == folded(z, eq, k, n, c2)[c] by {
        if c >= useful_bits {
            assert forall|s: int| 0 <= s < n implies #[trigger] z[s * k + c] == 0 by {}
            law_zero_column_folds_to_zero(z, eq, k, c, n);
        }
    }
    if k >= 0 {
        assert(folded(z, eq, k, n, c1) =~= folded(z, eq, k, n, c2));
    }
}

/// A fold splits between two stripes.
proof fn lemma_fold_split(z: Seq<u8>, eq: Seq<F128>, k: int, c: int, n: nat, m: nat)
    requires
        0 <= c < k,
        (n + m) * k <= z.len(),
        8 * (n + m) <= eq.len(),
    ensures
        fold_rows(z, eq, k, c, n + m) == fadd(
            fold_rows(z, eq, k, c, n),
            fold_rows(
                z.subrange(n * k, z.len() as int),
                eq.subrange(8 * n as int, eq.len() as int),
                k,
                c,
                m,
            ),
        ),
    decreases m,
{
    let z2 = z.subrange(n * k, z.len() as int);
    let eq2 = eq.subrange(8 * n as int, eq.len() as int);
    assert(0 <= n * k <= (n + m) * k) by (nonlinear_arith)
        requires
            0 <= k,
    ;
    if m == 0 {
        law_fadd_zero(fold_rows(z, eq, k, c, n));
    } else {
        assert((n + (m - 1)) * k <= (n + m) * k) by (nonlinear_arith)
            requires
                0 <= k,
                m > 0,
        ;
        lemma_fold_split(z, eq, k, c, n, (m - 1) as nat);
        let s = n + m - 1;
        assert((n + m) as nat - 1 == (n + (m - 1)) as nat);
        assert(weights(eq, s) =~= weights(eq2, m - 1));
        assert(n * k + ((m - 1) * k + c) == s * k + c) by (nonlinear_arith)
            requires
                s == n + m - 1,
        ;
        assert(0 <= (m - 1) * k + c < z2.len()) by (nonlinear_arith)
            requires
                m >= 1,
                0 <= c < k,
                z2.len() == z.len() - n * k,
                (n + m) * k <= z.len(),
        ;
        assert(z2[(m - 1) * k + c] == z[s * k + c]);
        law_fadd_assoc(
            fold_rows(z, eq, k, c, n),
            fold_rows(z2, eq2, k, c, (m - 1) as nat),
            select_sum(weights(eq, s), z[s * k + c]),
        );
    }
}

/// A fold over the first `n` stripes reads no others.
proof fn lemma_fold_prefix(z: Seq<u8>, z2: Seq<u8>, eq: Seq<F128>, eq2: Seq<F128>, k: int, c: int, n: nat)
    requires
        0 <= c < k,
        n * k <= z.len(),
        n * k <= z2.len(),
        8 * n <= eq.len(),
        8 * n <= eq2.len(),
        forall|i: int| 0 <= i < n * k ==> #[trigger] z[i] == z2[i],
        forall|i: int| 0 <= i < 8 * n ==> #[trigger] eq[i] == eq2[i],
    ensures
        fold_rows(z, eq, k, c, n) == fold_rows(z2, eq2, k, c, n),
    decreases n,
{
    if n > 0 {
        assert((n - 1) * k <= n * k) by (nonlinear_arith)
            requires
                0 <= k,
                n > 0,
        ;
        lemma_fold_prefix(z, z2, eq, eq2, k, c, (n - 1) as nat);
        assert(weights(eq, n - 1) =~= weights(eq2, n - 1));
        assert(0 <= (n - 1) * k + c < n * k) by (nonlinear_arith)
            requires
                n >= 1,
                0 <= c < k,
        ;
        assert(z[(n - 1) * k + c] == z2[(n - 1) * k + c]);
    }
}

// ---- byte planes ----

/// The column that byte `p` of the planes belongs to. A block of 64 columns is
/// sixteen planes of 64 bytes.
pub open spec fn plane_col(p: int) -> int {
    64 * (p / 1024) + p % 64
}

/// The byte of its column that byte `p` of the planes holds.
pub open spec fn plane_byte(p: int) -> int {
    p % 1024 / 64
}

/// Whether the planes hold the folds of the covered columns over `n` stripes.
pub open spec fn are_planes(planes: Seq<u8>, z: Seq<u8>, eq: Seq<F128>, k: int, n: nat, n_blocks64: int) -> bool {
    &&& planes.len() == 16 * k
    &&& forall|p: int|
        0 <= p < planes.len() ==> #[trigger] planes[p] == (if p < 1024 * n_blocks64 {
            f128_byte(fold_rows(z, eq, k, plane_col(p), n), plane_byte(p))
        } else {
            0
        })
}

/// Whether `mats` are the matrices of the eight stripes from `base` on.
pub open spec fn are_tile_mats(mats: Seq<u64>, eq: Seq<F128>, base: int) -> bool {
    &&& mats.len() == 128
    &&& forall|t: int, b: int|
        0 <= t < 8 && 0 <= b < 16 ==> mats[16 * t + b] == columns_matrix(#[trigger] column_of(weights(eq, base + t), b))
}

/// The sixteen matrices of one stripe: matrix `b` takes a byte of the stripe to
/// byte `b` of the sum of the weights that it selects.
pub fn fold_mats_from_basis(eq8: &[F128], mats: &mut [u64; 128], at: usize)
    requires
        eq8.len() == 8,
        at + 16 <= 128,
    ensures
        forall|b: int|
            0 <= b < 16 ==> #[trigger] final(mats)@[at + b] == columns_matrix(column_of(eq8@, b)),
        forall|i: int| 0 <= i < 128 && !(at <= i < at + 16) ==> #[trigger] final(mats)@[i] == old(mats)@[i],
{
    let ghost m0 = mats@;
    for b in 0..16usize
        invariant
            eq8.len() == 8,
            at + 16 <= 128,
            forall|j: int| 0 <= j < b ==> #[trigger] mats@[at + j] == columns_matrix(column_of(eq8@, j)),
            forall|i: int| 0 <= i < 128 && !(at <= i < at + 16) ==> #[trigger] mats@[i] == m0[i],
    {
        let col: u64 = (f128_byte_exec(eq8[0], b) as u64) | ((f128_byte_exec(eq8[1], b) as u64) << 8) | ((
        f128_byte_exec(eq8[2], b) as u64) << 16) | ((f128_byte_exec(eq8[3], b) as u64) << 24) | ((f128_byte_exec(
            eq8[4],
            b,
        ) as u64) << 32) | ((f128_byte_exec(eq8[5], b) as u64) << 40) | ((f128_byte_exec(eq8[6], b) as u64) << 48) | ((
        f128_byte_exec(eq8[7], b) as u64) << 56);
        assert(col == column_of(eq8@, b as int));
        mats[at + b] = matrix_from_columns(col);
    }
}

/// The XOR of eight bytes onto another, one after the other.
pub open spec fn xor_onto(x: u8, g: Seq<u8>) -> u8 {
    x ^ g[0] ^ g[1] ^ g[2] ^ g[3] ^ g[4] ^ g[5] ^ g[6] ^ g[7]
}

/// The bytes that a tile adds to byte `p` of the planes.
pub open spec fn tile_terms(tile: Seq<u8>, at: int, k: int, mats: Seq<u64>, p: int) -> Seq<u8> {
    Seq::new(
        8,
        |t: int| affine_byte(mats[16 * t + plane_byte(p)], tile[at + t * k + plane_col(p)]),
    )
}

/// Adds one tile to the planes.
pub fn gfni_fold_tile(
    tile: &[u8],
    at: usize,
    k: usize,
    n_blocks64: usize,
    mats: &[u64; 128],
    planes: &mut Vec<u8>,
)
    requires
        at + 8 * k <= tile.len(),
        64 * n_blocks64 <= k,
        old(planes).len() == 16 * k,
    ensures
        final(planes).len() == old(planes).len(),
        forall|p: int|
            0 <= p < old(planes)@.len() ==> #[trigger] final(planes)@[p] == (if p < 1024 * n_blocks64 {
                xor_onto(old(planes)@[p], tile_terms(tile@, at as int, k as int, mats@, p))
            } else {
                old(planes)@[p]
            }),
{
    let ghost p0 = planes@;
    for block in 0..n_blocks64
        invariant
            at + 8 * k <= tile.len(),
            64 * n_blocks64 <= k,
            p0.len() == 16 * k,
            planes.len() == 16 * k,
            forall|p: int|
                0 <= p < p0.len() ==> #[trigger] planes@[p] == (if p < 1024 * block {
                    xor_onto(p0[p], tile_terms(tile@, at as int, k as int, mats@, p))
                } else {
                    p0[p]
                }),
    {
        let bs: usize = 64 * block;
        let r0 = Bytes64::load(tile, at + bs);
        let r1 = Bytes64::load(tile, at + k + bs);
        let r2 = Bytes64::load(tile, at + 2 * k + bs);
        let r3 = Bytes64::load(tile, at + 3 * k + bs);
        let r4 = Bytes64::load(tile, at + 4 * k + bs);
        let r5 = Bytes64::load(tile, at + 5 * k + bs);
        let r6 = Bytes64::load(tile, at + 6 * k + bs);
        let r7 = Bytes64::load(tile, at + 7 * k + bs);
        for b in 0..16usize
            invariant
                at + 8 * k <= tile.len(),
                64 * n_blocks64 <= k,
                block < n_blocks64,
                bs == 64 * block,
                p0.len() == 16 * k,
                planes.len() == 16 * k,
                forall|i: int| 0 <= i < 64 ==> #[trigger] r0@[i] == tile@[at + bs + i],
                forall|i: int| 0 <= i < 64 ==> #[trigger] r1@[i] == tile@[at + k + bs + i],
                forall|i: int| 0 <= i < 64 ==> #[trigger] r2@[i] == tile@[at + 2 * k + bs + i],
                forall|i: int| 0 <= i < 64 ==> #[trigger] r3@[i] == tile@[at + 3 * k + bs + i],
                forall|i: int| 0 <= i < 64 ==> #[trigger] r4@[i] == tile@[at + 4 * k + bs + i],
                forall|i: int| 0 <= i < 64 ==> #[trigger] r5@[i] == tile@[at + 5 * k + bs + i],
                forall|i: int| 0 <= i < 64 ==> #[trigger] r6@[i] == tile@[at + 6 * k + bs + i],
                forall|i: int| 0 <= i < 64 ==> #[trigger] r7@[i] == tile@[at + 7 * k + bs + i],
                forall|p: int|
                    1024 * block + 64 * b <= p < p0.len() ==> #[trigger] planes@[p] == p0[p],
                forall|p: int|
                    0 <= p < 1024 * block + 64 * b ==> #[trigger] planes@[p] == xor_onto(
                        p0[p],
                        tile_terms(tile@, at as int, k as int, mats@, p),
                    ),
        {
            let q: usize = 1024 * block + 64 * b;
            let x = Bytes64::load(planes, q);
            let g0 = r0.affine(mats[b]);
            let g1 = r1.affine(mats[16 + b]);
            let g2 = r2.affine(mats[32 + b]);
            let g3 = r3.affine(mats[48 + b]);
            let g4 = r4.affine(mats[64 + b]);
            let g5 = r5.affine(mats[80 + b]);
            let g6 = r6.affine(mats[96 + b]);
            let g7 = r7.affine(mats[112 + b]);
            let acc1 = x.xor3(g0, g1);
            let acc2 = acc1.xor3(g2, g3);
            let acc3 = acc2.xor3(g4, g5);
            let acc4 = acc3.xor3(g6, g7);
            acc4.store(planes, q);
            proof {
                assert forall|p: int| q <= p < q + 64 implies #[trigger] planes@[p] == xor_onto(
                    p0[p],
                    tile_terms(tile@, at as int, k as int, mats@, p),
                ) by {
                    let i = p - q;
                    assert(p / 1024 == block && p % 1024 == 64 * b + i && p % 64 == i);
                    assert(plane_col(p) == bs + i);
                    assert(plane_byte(p) == b);
                    assert(planes@[p] == acc4@[i]);
                    assert(x@[i] == p0[p]);
                    assert(acc4@[i] == acc3@[i] ^ g6@[i] ^ g7@[i]);
                    assert(acc3@[i] == acc2@[i] ^ g4@[i] ^ g5@[i]);
                    assert(acc2@[i] == acc1@[i] ^ g2@[i] ^ g3@[i]);
                    assert(acc1@[i] == x@[i] ^ g0@[i] ^ g1@[i]);
                    let g = tile_terms(tile@, at as int, k as int, mats@, p);
                    assert(g[0] == g0@[i]);
                    assert(g[1] == g1@[i]);
                    assert(g[2] == g2@[i]);
                    assert(g[3] == g3@[i]);
                    assert(g[4] == g4@[i]);
                    assert(g[5] == g5@[i]);
                    assert(g[6] == g6@[i]);
                    assert(g[7] == g7@[i]);
                }
            }
        }
    }
}

/// Eight more stripes, byte by byte.
proof fn lemma_tile_step(z: Seq<u8>, eq: Seq<F128>, k: int, c: int, n: nat, b: int, g: Seq<u8>)
    requires
        0 <= b < 16,
        g.len() == 8,
        forall|t: int|
            0 <= t < 8 ==> #[trigger] g[t] == f128_byte(select_sum(weights(eq, n + t), z[(n + t) * k + c]), b),
    ensures
        f128_byte(fold_rows(z, eq, k, c, n + 8), b) == xor_onto(f128_byte(fold_rows(z, eq, k, c, n), b), g),
{
    lemma_stripe_step(z, eq, k, c, n, b, g[0]);
    lemma_stripe_step(z, eq, k, c, n + 1, b, g[1]);
    lemma_stripe_step(z, eq, k, c, n + 2, b, g[2]);
    lemma_stripe_step(z, eq, k, c, n + 3, b, g[3]);
    lemma_stripe_step(z, eq, k, c, n + 4, b, g[4]);
    lemma_stripe_step(z, eq, k, c, n + 5, b, g[5]);
    lemma_stripe_step(z, eq, k, c, n + 6, b, g[6]);
    lemma_stripe_step(z, eq, k, c, n + 7, b, g[7]);
}

/// One more stripe, byte by byte.
proof fn lemma_stripe_step(z: Seq<u8>, eq: Seq<F128>, k: int, c: int, n: nat, b: int, g: u8)
    requires
        0 <= b < 16,
        g == f128_byte(select_sum(weights(eq, n as int), z[n * k + c]), b),
    ensures
        f128_byte(fold_rows(z, eq, k, c, n + 1), b) == f128_byte(fold_rows(z, eq, k, c, n), b) ^ g,
{
    assert((n + 1) as nat - 1 == n);
    lemma_f128_byte_add(fold_rows(z, eq, k, c, n), select_sum(weights(eq, n as int), z[n * k + c]), b);
}

/// The matrices of one tile.
fn tile_mats(eq: &[F128], base: usize) -> (mats: [u64; 128])
    requires
        8 * base + 64 <= eq.len(),
    ensures
        are_tile_mats(mats@, eq@, base as int),
{
    let mut mats = [0u64; 128];
    for t in 0..8usize
        invariant
            8 * base + 64 <= eq.len(),
            forall|i: int|
                0 <= i < 16 * t ==> #[trigger] mats@[i] == columns_matrix(
                    column_of(weights(eq@, base + i / 16), i % 16),
                ),
    {
        let ghost m0 = mats@;
        let e8 = &eq[8 * (base + t)..8 * (base + t) + 8];
        assert(e8@ =~= weights(eq@, base + t));
        fold_mats_from_basis(e8, &mut mats, 16 * t);
        proof {
            assert forall|i: int| 0 <= i < 16 * (t + 1) implies #[trigger] mats@[i] == columns_matrix(
                column_of(weights(eq@, base + i / 16), i % 16),
            ) by {
                if i < 16 * t {
                    assert(mats@[i] == m0[i]);
                } else {
                    assert(i / 16 == t && i % 16 == i - 16 * t);
                    assert(mats@[16 * t + (i - 16 * t)] == columns_matrix(column_of(e8@, i - 16 * t)));
                }
            }
        }
    }
    proof {
        assert forall|t: int, b: int| 0 <= t < 8 && 0 <= b < 16 implies mats@[16 * t + b] == columns_matrix(
            #[trigger] column_of(weights(eq@, base + t), b),
        ) by {
            assert((16 * t + b) / 16 == t && (16 * t + b) % 16 == b);
        }
    }
    mats
}

/// A zeroed vector of bytes.
fn zero_bytes(n: usize) -> (v: Vec<u8>)
    ensures
        v@ == Seq::new(n as nat, |i: int| 0u8),
{
    let mut v: Vec<u8> = Vec::new();
    for i in 0..n
        invariant
            v@.len() == i,
            forall|j: int| 0 <= j < i ==> #[trigger] v@[j] == 0,
    {
        v.push(0);
    }
    assert(v@ =~= Seq::new(n as nat, |i: int| 0u8));
    v
}

/// What a slice of stripes must be for a fold over it.
pub open spec fn chunk_ok(chunk: int, first: int, k: int, eq: int) -> bool {
    &&& k > 0
    &&& 16 * k <= usize::MAX
    &&& chunk % (8 * k) == 0
    &&& 8 * (first + chunk / k) <= eq
}

/// Lengths of a slice of whole tiles.
proof fn lemma_chunk_len(chunk: int, k: int)
    requires
        chunk >= 0,
        k > 0,
        chunk % (8 * k) == 0,
    ensures
        chunk == chunk / (8 * k) * (8 * k),
        chunk / k == 8 * (chunk / (8 * k)),
        chunk == chunk / k * k,
{
    let q = chunk / (8 * k);
    vstd::arithmetic::div_mod::lemma_fundamental_div_mod(chunk, 8 * k);
    assert(chunk == q * (8 * k)) by (nonlinear_arith)
        requires
            chunk == (8 * k) * q + 0,
    ;
    assert(q * (8 * k) == (8 * q) * k) by (nonlinear_arith);
    vstd::arithmetic::div_mod::lemma_div_multiples_vanish(8 * q, k);
    assert(k * (8 * q) == (8 * q) * k) by (nonlinear_arith);
}

/// The planes of a slice of stripes whose first one is stripe `first`.
pub fn fold_chunk_gfni(chunk: &[u8], eq: &[F128], first: usize, k: usize, n_blocks64: usize) -> (planes: Vec<u8>)
    requires
        chunk_ok(chunk.len() as int, first as int, k as int, eq.len() as int),
        64 * n_blocks64 <= k,
    ensures
        are_planes(
            planes@,
            chunk@,
            eq@.subrange(8 * first as int, eq.len() as int),
            k as int,
            (chunk.len() as int / k as int) as nat,
            n_blocks64 as int,
        ),
{
    let ghost eqs = eq@.subrange(8 * first as int, eq.len() as int);
    let mut planes = zero_bytes(16 * k);
    proof {
        lemma_chunk_len(chunk.len() as int, k as int);
        assert forall|p: int| 0 <= p < 16 * k implies #[trigger] planes@[p] == (if p < 1024 * n_blocks64 {
            f128_byte(fold_rows(chunk@, eqs, k as int, plane_col(p), 0), plane_byte(p))
        } else {
            0
        }) by {
            lemma_f128_byte_add(fzero(), fzero(), plane_byte(p));
        }
    }
    assert(8 * k <= 16 * k);
    let n_tiles: usize = chunk.len() / (8 * k);
    for tile in 0..n_tiles
        invariant
            chunk_ok(chunk.len() as int, first as int, k as int, eq.len() as int),
            64 * n_blocks64 <= k,
            eqs == eq@.subrange(8 * first as int, eq.len() as int),
            chunk.len() == n_tiles * (8 * k),
            chunk.len() as int / k as int == 8 * n_tiles,
            are_planes(planes@, chunk@, eqs, k as int, (8 * tile) as nat, n_blocks64 as int),
    {
        proof {
            assert((tile + 1) * (8 * k) <= n_tiles * (8 * k)) by (nonlinear_arith)
                requires
                    tile + 1 <= n_tiles,
            ;
            assert((tile + 1) * (8 * k) == tile * (8 * k) + 8 * k) by (nonlinear_arith);
        }
        let at: usize = tile * (8 * k);
        let mats = tile_mats(eq, first + 8 * tile);
        let ghost p0 = planes@;
        assert(planes.len() == 16 * k);
        gfni_fold_tile(chunk, at, k, n_blocks64, &mats, &mut planes);
        proof {
            let n = (8 * tile) as nat;
            assert forall|p: int| 0 <= p < 16 * k implies #[trigger] planes@[p] == (if p < 1024 * n_blocks64 {
                f128_byte(fold_rows(chunk@, eqs, k as int, plane_col(p), (8 * (tile + 1)) as nat), plane_byte(p))
            } else {
                0
            }) by {
                assert(p0[p] == (if p < 1024 * n_blocks64 {
                    f128_byte(fold_rows(chunk@, eqs, k as int, plane_col(p), n), plane_byte(p))
                } else {
                    0
                }));
                if p < 1024 * n_blocks64 {
                    let g = tile_terms(chunk@, at as int, k as int, mats@, p);
                    let c = plane_col(p);
                    let b = plane_byte(p);
                    assert forall|t: int| 0 <= t < 8 implies #[trigger] g[t] == f128_byte(
                        select_sum(weights(eqs, n + t), chunk@[(n + t) * k + c]),
                        b,
                    ) by {
                        let w = chunk@[(n + t) * k + c];
                        assert(at + t * k + c == (n + t) * k + c) by (nonlinear_arith)
                            requires
                                at == tile * (8 * k),
                                n == 8 * tile,
                        ;
                        assert(weights(eqs, n + t) =~= weights(eq@, first + 8 * tile + t));
                        let v = weights(eqs, n + t);
                        assert(mats@[16 * t + b] == columns_matrix(column_of(v, b)));
                        law_matrix_sums_columns(column_of(v, b), w);
                        lemma_select_sum_byte(v, w, b);
                    }
                    lemma_tile_step(chunk@, eqs, k as int, c, n, b, g);
                    assert((8 * (tile + 1)) as nat == n + 8);
                }
            }
        }
    }
    planes
}

/// [`fold_chunk_gfni`] for chunk `i` of chunks of `stripes` stripes.
pub fn fold_nth_chunk_gfni(
    i: usize,
    chunk: &[u8],
    eq: &[F128],
    stripes: usize,
    k: usize,
    n_blocks64: usize,
) -> (planes: Vec<u8>)
    requires
        i * stripes <= usize::MAX,
        chunk_ok(chunk.len() as int, i * stripes, k as int, eq.len() as int),
        64 * n_blocks64 <= k,
    ensures
        are_planes(
            planes@,
            chunk@,
            eq@.subrange(8 * (i * stripes), eq.len() as int),
            k as int,
            (chunk.len() as int / k as int) as nat,
            n_blocks64 as int,
        ),
{
    fold_chunk_gfni(chunk, eq, i * stripes, k, n_blocks64)
}

/// Chunk `i` of `z` in chunks of `size` bytes.
pub open spec fn nth_chunk(z: Seq<u8>, size: int, i: int) -> Seq<u8> {
    z.subrange(
        i * size,
        if (i + 1) * size <= z.len() {
            (i + 1) * size
        } else {
            z.len() as int
        },
    )
}

/// The geometry of a fold: `n_stripes` stripes of `k` bytes, in chunks of `stripes`
/// stripes.
pub open spec fn geometry_ok(z: int, eq: int, k: int, n_stripes: int, stripes: int) -> bool {
    &&& k > 0
    &&& 16 * k <= usize::MAX
    &&& z == n_stripes * k
    &&& n_stripes % 8 == 0
    &&& stripes % 8 == 0
    &&& 0 < stripes
    &&& n_stripes >= 8
    &&& stripes <= n_stripes
    &&& eq == 8 * n_stripes
}

/// `rayon`'s `par_chunks`, `enumerate`, `map` and `collect`: the planes of every
/// chunk, in the order of the chunks. What is claimed of them is that
/// [`fold_nth_chunk_gfni`] is called once on each chunk, with the chunk's number,
/// and that the results come back in that order.
#[verifier::external_body]
fn par_fold_gfni(
    z: &[u8],
    eq: &[F128],
    n_stripes: usize,
    stripes: usize,
    size: usize,
    k: usize,
    n_blocks64: usize,
) -> (r: Vec<Vec<u8>>)
    requires
        geometry_ok(z.len() as int, eq.len() as int, k as int, n_stripes as int, stripes as int),
        size == stripes * k,
        64 * n_blocks64 <= k,
    ensures
        r@.len() == (n_stripes + stripes - 1) / stripes as int,
        forall|i: int|
            0 <= i < r@.len() ==> are_planes(
                (#[trigger] r@[i])@,
                nth_chunk(z@, size as int, i),
                eq@.subrange(8 * (i * stripes), eq.len() as int),
                k as int,
                (nth_chunk(z@, size as int, i).len() as int / k as int) as nat,
                n_blocks64 as int,
            ),
{
    z.par_chunks(size)
        .enumerate()
        .map(|(i, chunk)| fold_nth_chunk_gfni(i, chunk, eq, stripes, k, n_blocks64))
        .collect()
}

/// The stripes before chunk `i`, all of them once the chunks are used up.
pub open spec fn stripes_before(i: int, stripes: int, n_stripes: int) -> int {
    if i * stripes <= n_stripes {
        i * stripes
    } else {
        n_stripes
    }
}

/// Where a chunk lies and how long it is.
proof fn lemma_chunk(z: Seq<u8>, k: int, n_stripes: int, stripes: int, i: int)
    requires
        k > 0,
        z.len() == n_stripes * k,
        n_stripes % 8 == 0,
        stripes % 8 == 0,
        0 < stripes,
        n_stripes >= 8,
        0 <= i < (n_stripes + stripes - 1) / stripes,
    ensures
        ({
            let n = stripes_before(i, stripes, n_stripes);
            let m = stripes_before(i + 1, stripes, n_stripes) - n;
            let chunk = nth_chunk(z, stripes * k, i);
            &&& n == i * stripes
            &&& 0 < m
            &&& n + m <= n_stripes
            &&& m % 8 == 0
            &&& chunk.len() == m * k
            &&& chunk.len() as int / k == m
            &&& chunk == z.subrange(n * k, (n + m) * k)
        }),
{
    let count = (n_stripes + stripes - 1) / stripes;
    vstd::arithmetic::div_mod::lemma_fundamental_div_mod(n_stripes + stripes - 1, stripes);
    assert(i * stripes < n_stripes) by (nonlinear_arith)
        requires
            n_stripes + stripes - 1 == stripes * count + (n_stripes + stripes - 1) % stripes,
            0 <= (n_stripes + stripes - 1) % stripes,
            i + 1 <= count,
            stripes > 0,
    ;
    assert((i + 1) * stripes == i * stripes + stripes) by (nonlinear_arith);
    assert(0 <= i * stripes) by (nonlinear_arith)
        requires
            0 <= i,
            0 < stripes,
    ;
    let n = i * stripes;
    assert(stripes == 8 * (stripes / 8));
    assert(n == 8 * (i * (stripes / 8))) by (nonlinear_arith)
        requires
            n == i * stripes,
            stripes == 8 * (stripes / 8),
    ;
    let m = stripes_before(i + 1, stripes, n_stripes) - n;
    assert(m == if n + stripes <= n_stripes {
        stripes
    } else {
        n_stripes - n
    });
    assert(i * (stripes * k) == n * k) by (nonlinear_arith)
        requires
            n == i * stripes,
    ;
    assert((i + 1) * (stripes * k) == (n + stripes) * k) by (nonlinear_arith)
        requires
            n == i * stripes,
    ;
    assert(n + stripes <= n_stripes ==> (n + stripes) * k <= n_stripes * k) by (nonlinear_arith)
        requires
            k > 0,
    ;
    assert(n + stripes > n_stripes ==> (n + stripes) * k > n_stripes * k) by (nonlinear_arith)
        requires
            k > 0,
    ;
    assert(0 <= n * k && (n + m) * k - n * k == m * k) by (nonlinear_arith)
        requires
            0 <= n,
            k > 0,
    ;
    assert((n + m) * k <= n_stripes * k) by (nonlinear_arith)
        requires
            n + m <= n_stripes,
            k > 0,
    ;
    assert(n * k <= (n + m) * k) by (nonlinear_arith)
        requires
            0 < m,
            k > 0,
    ;
    vstd::arithmetic::div_mod::lemma_div_multiples_vanish(m, k);
    assert(k * m == m * k) by (nonlinear_arith);
}

/// A chunk of stripes after those before it.
proof fn lemma_fold_chunk(z: Seq<u8>, eq: Seq<F128>, k: int, n_stripes: int, stripes: int, i: int, c: int)
    requires
        k > 0,
        z.len() == n_stripes * k,
        eq.len() == 8 * n_stripes,
        n_stripes % 8 == 0,
        stripes % 8 == 0,
        0 < stripes,
        n_stripes >= 8,
        0 <= i < (n_stripes + stripes - 1) / stripes,
        0 <= c < k,
    ensures
        fold_rows(z, eq, k, c, stripes_before(i + 1, stripes, n_stripes) as nat) == fadd(
            fold_rows(z, eq, k, c, stripes_before(i, stripes, n_stripes) as nat),
            fold_rows(
                nth_chunk(z, stripes * k, i),
                eq.subrange(8 * (i * stripes), eq.len() as int),
                k,
                c,
                (nth_chunk(z, stripes * k, i).len() as int / k) as nat,
            ),
        ),
{
    lemma_chunk(z, k, n_stripes, stripes, i);
    let n = stripes_before(i, stripes, n_stripes);
    let m = stripes_before(i + 1, stripes, n_stripes) - n;
    assert((n + m) * k <= n_stripes * k) by (nonlinear_arith)
        requires
            n + m <= n_stripes,
            k > 0,
    ;
    lemma_fold_split(z, eq, k, c, n as nat, m as nat);
    let rest = z.subrange(n * k, z.len() as int);
    let chunk = nth_chunk(z, stripes * k, i);
    let eqs = eq.subrange(8 * n, eq.len() as int);
    assert((n + m) * k - n * k == m * k) by (nonlinear_arith);
    assert(0 <= n * k) by (nonlinear_arith)
        requires
            0 <= n,
            k > 0,
    ;
    lemma_fold_prefix(rest, chunk, eqs, eqs, k, c, m as nat);
    assert((n as nat + m as nat) == (n + m) as nat);
}

/// XORs the planes `b` onto `a`.
pub fn merge_planes(a: &mut Vec<u8>, b: &Vec<u8>)
    requires
        old(a)@.len() == b@.len(),
    ensures
        final(a)@.len() == old(a)@.len(),
        forall|p: int| 0 <= p < b@.len() ==> #[trigger] final(a)@[p] == old(a)@[p] ^ b@[p],
{
    let ghost a0 = a@;
    let n: usize = a.len();
    for i in 0..n
        invariant
            n == a0.len(),
            a@.len() == a0.len(),
            b@.len() == a0.len(),
            forall|p: int| 0 <= p < i ==> #[trigger] a@[p] == a0[p] ^ b@[p],
            forall|p: int| i <= p < a0.len() ==> #[trigger] a@[p] == a0[p],
    {
        let x = a[i] ^ b[i];
        a[i] = x;
    }
}

/// The merged planes of all chunks.
fn merged_planes(
    parts: &Vec<Vec<u8>>,
    k: usize,
    n_blocks64: usize,
    Ghost(z): Ghost<Seq<u8>>,
    Ghost(eq): Ghost<Seq<F128>>,
    Ghost(n_stripes): Ghost<int>,
    Ghost(stripes): Ghost<int>,
) -> (planes: Vec<u8>)
    requires
        geometry_ok(z.len() as int, eq.len() as int, k as int, n_stripes, stripes),
        64 * n_blocks64 <= k,
        parts@.len() == (n_stripes + stripes - 1) / stripes,
        forall|i: int|
            0 <= i < parts@.len() ==> are_planes(
                (#[trigger] parts@[i])@,
                nth_chunk(z, stripes * k, i),
                eq.subrange(8 * (i * stripes), eq.len() as int),
                k as int,
                (nth_chunk(z, stripes * k, i).len() as int / k as int) as nat,
                n_blocks64 as int,
            ),
    ensures
        are_planes(planes@, z, eq, k as int, n_stripes as nat, n_blocks64 as int),
{
    let mut planes = zero_bytes(16 * k);
    proof {
        assert(0 * stripes == 0);
        assert forall|p: int| 0 <= p < 16 * k implies #[trigger] planes@[p] == (if p < 1024 * n_blocks64 {
            f128_byte(fold_rows(z, eq, k as int, plane_col(p), 0), plane_byte(p))
        } else {
            0
        }) by {
            lemma_f128_byte_add(fzero(), fzero(), plane_byte(p));
        }
    }
    for i in 0..parts.len()
        invariant
            geometry_ok(z.len() as int, eq.len() as int, k as int, n_stripes, stripes),
            64 * n_blocks64 <= k,
            parts@.len() == (n_stripes + stripes - 1) / stripes,
            forall|i: int|
                0 <= i < parts@.len() ==> are_planes(
                    (#[trigger] parts@[i])@,
                    nth_chunk(z, stripes * k, i),
                    eq.subrange(8 * (i * stripes), eq.len() as int),
                    k as int,
                    (nth_chunk(z, stripes * k, i).len() as int / k as int) as nat,
                    n_blocks64 as int,
                ),
            are_planes(
                planes@,
                z,
                eq,
                k as int,
                stripes_before(i as int, stripes, n_stripes) as nat,
                n_blocks64 as int,
            ),
    {
        let ghost p0 = planes@;
        let ghost part = parts@[i as int]@;
        merge_planes(&mut planes, &parts[i]);
        proof {
            assert forall|p: int| 0 <= p < 16 * k implies #[trigger] planes@[p] == (if p < 1024 * n_blocks64 {
                f128_byte(
                    fold_rows(z, eq, k as int, plane_col(p), stripes_before(i + 1, stripes, n_stripes) as nat),
                    plane_byte(p),
                )
            } else {
                0
            }) by {
                assert(planes@[p] == p0[p] ^ part[p]);
                if p < 1024 * n_blocks64 {
                    let c = plane_col(p);
                    let b = plane_byte(p);
                    lemma_fold_chunk(z, eq, k as int, n_stripes, stripes, i as int, c);
                    lemma_f128_byte_add(
                        fold_rows(z, eq, k as int, c, stripes_before(i as int, stripes, n_stripes) as nat),
                        fold_rows(
                            nth_chunk(z, stripes * k, i as int),
                            eq.subrange(8 * (i * stripes), eq.len() as int),
                            k as int,
                            c,
                            (nth_chunk(z, stripes * k, i as int).len() as int / k as int) as nat,
                        ),
                        b,
                    );
                } else {
                    lemma_f128_byte_add(fzero(), fzero(), 0);
                    law_fadd_zero(fzero());
                }
            }
        }
    }
    proof {
        lemma_all_chunks(n_stripes, stripes);
    }
    planes
}

/// The chunks use up all stripes.
proof fn lemma_all_chunks(n_stripes: int, stripes: int)
    requires
        0 < stripes,
        0 <= n_stripes,
    ensures
        stripes_before((n_stripes + stripes - 1) / stripes, stripes, n_stripes) == n_stripes,
{
    let count = (n_stripes + stripes - 1) / stripes;
    vstd::arithmetic::div_mod::lemma_fundamental_div_mod(n_stripes + stripes - 1, stripes);
    assert(count * stripes >= n_stripes) by (nonlinear_arith)
        requires
            n_stripes + stripes - 1 == stripes * count + (n_stripes + stripes - 1) % stripes,
            (n_stripes + stripes - 1) % stripes < stripes,
    ;
}

/// The column whose bytes stand 64 apart from `base` on.
fn column_at(planes: &Vec<u8>, base: usize, Ghost(want): Ghost<F128>) -> (v: F128)
    requires
        base + 960 < planes.len(),
        forall|b: int| 0 <= b < 16 ==> #[trigger] planes@[base + 64 * b] == f128_byte(want, b),
    ensures
        v == want,
{
    let lo: u64 = (planes[base] as u64) | ((planes[base + 64] as u64) << 8) | ((planes[base + 128] as u64) << 16) | ((
    planes[base + 192] as u64) << 24) | ((planes[base + 256] as u64) << 32) | ((planes[base + 320] as u64) << 40) | ((
    planes[base + 384] as u64) << 48) | ((planes[base + 448] as u64) << 56);
    let hi: u64 = (planes[base + 512] as u64) | ((planes[base + 576] as u64) << 8) | ((planes[base + 640] as u64) << 16) | ((
    planes[base + 704] as u64) << 24) | ((planes[base + 768] as u64) << 32) | ((planes[base + 832] as u64) << 40) | ((
    planes[base + 896] as u64) << 48) | ((planes[base + 960] as u64) << 56);
    proof {
        assert(planes@[base + 64 * 0] == f128_byte(want, 0));
        assert(planes@[base + 64 * 1] == f128_byte(want, 1));
        assert(planes@[base + 64 * 2] == f128_byte(want, 2));
        assert(planes@[base + 64 * 3] == f128_byte(want, 3));
        assert(planes@[base + 64 * 4] == f128_byte(want, 4));
        assert(planes@[base + 64 * 5] == f128_byte(want, 5));
        assert(planes@[base + 64 * 6] == f128_byte(want, 6));
        assert(planes@[base + 64 * 7] == f128_byte(want, 7));
        assert(planes@[base + 64 * 8] == f128_byte(want, 8));
        assert(planes@[base + 64 * 9] == f128_byte(want, 9));
        assert(planes@[base + 64 * 10] == f128_byte(want, 10));
        assert(planes@[base + 64 * 11] == f128_byte(want, 11));
        assert(planes@[base + 64 * 12] == f128_byte(want, 12));
        assert(planes@[base + 64 * 13] == f128_byte(want, 13));
        assert(planes@[base + 64 * 14] == f128_byte(want, 14));
        assert(planes@[base + 64 * 15] == f128_byte(want, 15));
        lemma_le_round_trip(want.lo);
        lemma_le_round_trip(want.hi);
    }
    F128 { lo, hi }
}

/// Where byte `b` of column `c` stands in the planes.
proof fn lemma_plane_index(c: int, b: int, k: int, n_blocks64: int)
    requires
        0 <= c < k,
        k % 64 == 0,
        0 <= b < 16,
    ensures
        ({
            let p = 1024 * (c / 64) + c % 64 + 64 * b;
            &&& 0 <= p < 16 * k
            &&& plane_col(p) == c
            &&& plane_byte(p) == b
            &&& (p < 1024 * n_blocks64) == (c < 64 * n_blocks64)
        }),
{
    let p = 1024 * (c / 64) + c % 64 + 64 * b;
    assert(p / 1024 == c / 64 && p % 1024 == 64 * b + c % 64);
    assert(p % 64 == c % 64);
}

/// The columns out of their planes.
fn columns_of_planes(
    planes: &Vec<u8>,
    k: usize,
    n_blocks64: usize,
    Ghost(z): Ghost<Seq<u8>>,
    Ghost(eq): Ghost<Seq<F128>>,
    Ghost(n): Ghost<nat>,
) -> (out: Vec<F128>)
    requires
        k % 64 == 0,
        64 * n_blocks64 <= k,
        16 * k <= usize::MAX,
        are_planes(planes@, z, eq, k as int, n, n_blocks64 as int),
    ensures
        out@ == folded(z, eq, k as int, n, 64 * n_blocks64),
{
    let mut out: Vec<F128> = Vec::new();
    for c in 0..k
        invariant
            k % 64 == 0,
            64 * n_blocks64 <= k,
            16 * k <= usize::MAX,
            are_planes(planes@, z, eq, k as int, n, n_blocks64 as int),
            out@.len() == c,
            forall|j: int| 0 <= j < c ==> #[trigger] out@[j] == folded(z, eq, k as int, n, 64 * n_blocks64)[j],
    {
        let base: usize = 1024 * (c / 64) + c % 64;
        proof {
            lemma_plane_index(c as int, 15, k as int, n_blocks64 as int);
        }
        let ghost want = folded(z, eq, k as int, n, 64 * n_blocks64)[c as int];
        proof {
            assert forall|b: int| 0 <= b < 16 implies #[trigger] planes@[base + 64 * b] == f128_byte(want, b) by {
                let p = base + 64 * b;
                lemma_plane_index(c as int, b, k as int, n_blocks64 as int);
                lemma_f128_byte_add(fzero(), fzero(), b);
                assert(planes@[p] == planes@[p]);
            }
        }
        let v = column_at(planes, base, Ghost(want));
        out.push(v);
    }
    assert(out@ =~= folded(z, eq, k as int, n, 64 * n_blocks64));
    out
}

/// The shape of a fold of a matrix of 2^m bits in 2^k_log columns.
pub open spec fn shape_ok(z: int, eq: int, m: int, k_log: int, useful_bits: int, min_k_log: int) -> bool {
    &&& 0 <= k_log <= m < usize::BITS
    &&& 8 * z == pow2(m as nat)
    &&& eq == pow2((m - k_log) as nat)
    &&& m - k_log >= 6
    &&& k_log >= min_k_log
    &&& useful_bits <= pow2(k_log as nat)
    &&& 16 * pow2(k_log as nat) <= usize::MAX
}

/// Powers of two as shifts.
fn power_of_two(n: usize) -> (r: usize)
    requires
        n < usize::BITS,
    ensures
        r == pow2(n as nat),
        r > 0,
{
    proof {
        vstd::bits::lemma_usize_pow2_no_overflow(n as nat);
        vstd::bits::lemma_usize_shl_is_mul(1, n);
        vstd::arithmetic::power2::lemma_pow2_pos(n as nat);
    }
    1usize << n
}

/// A power of two is a multiple of a smaller one.
proof fn lemma_pow2_multiple(n: nat, s: nat)
    requires
        s <= n,
    ensures
        pow2(n) == pow2(s) * pow2((n - s) as nat),
        s == 3 ==> pow2(n) % 8 == 0,
        s == 6 ==> pow2(n) % 64 == 0,
{
    lemma_pow2_adds(s, (n - s) as nat);
    vstd::arithmetic::power2::lemma2_to64();
    let q = pow2((n - s) as nat);
    if s == 3 {
        assert(pow2(n) == 8 * q) by (nonlinear_arith)
            requires
                pow2(n) == pow2(s) * q,
                pow2(s) == 8,
        ;
    } else if s == 6 {
        assert(pow2(n) == 64 * q) by (nonlinear_arith)
            requires
                pow2(n) == pow2(s) * q,
                pow2(s) == 64,
        ;
    }
}

/// Chunks of tiles: how many stripes a chunk has, for `n_stripes` stripes.
fn stripes_per_chunk(n_stripes: usize) -> (r: usize)
    requires
        n_stripes >= 8,
        n_stripes % 8 == 0,
    ensures
        0 < r <= n_stripes,
        r % 8 == 0,
{
    let n_tiles: usize = n_stripes / 8;
    let tiles: usize = if n_tiles / 256 >= 1 {
        n_tiles / 256
    } else {
        1
    };
    8 * tiles
}

/// Sizes that follow from a shape.
proof fn lemma_shape(z: int, eq: int, m: int, k_log: int, useful_bits: int, min_k_log: int)
    requires
        shape_ok(z, eq, m, k_log, useful_bits, min_k_log),
    ensures
        z == eq / 8 * pow2(k_log as nat),
        eq == 8 * (eq / 8),
        eq / 8 % 8 == 0,
        eq / 8 >= 8,
{
    let k = pow2(k_log as nat) as int;
    lemma_pow2_adds((m - k_log) as nat, k_log as nat);
    lemma_pow2_multiple((m - k_log) as nat, 6);
    vstd::arithmetic::power2::lemma_pow2_pos((m - k_log - 6) as nat);
    vstd::arithmetic::power2::lemma2_to64();
    assert(8 * z == eq * k);
    assert(z == eq / 8 * k) by (nonlinear_arith)
        requires
            8 * z == eq * k,
            eq == 8 * (eq / 8),
    ;
}

/// The partial fold, sixty-four columns of eight stripes at a time, by bit-matrix
/// products.
pub fn partial_fold_packed_z_x86_gfni_padded(
    z_packed: &[u8],
    m: usize,
    k_log: usize,
    useful_bits: usize,
    eq_outer: &[F128],
) -> (out: Vec<F128>)
    requires
        shape_ok(z_packed.len() as int, eq_outer.len() as int, m as int, k_log as int, useful_bits as int, 6),
    ensures
        out@ == folded(
            z_packed@,
            eq_outer@,
            pow2(k_log as nat) as int,
            (eq_outer.len() as int / 8) as nat,
            covered(useful_bits as int, pow2(k_log as nat) as int, 64),
        ),
        forall|c: int|
            0 <= c < useful_bits ==> #[trigger] out@[c] == column_sum(
                z_packed@,
                eq_outer@,
                pow2(k_log as nat) as int,
                c,
                eq_outer@.len(),
            ),
{
    let k = power_of_two(k_log);
    proof {
        lemma_shape(z_packed.len() as int, eq_outer.len() as int, m as int, k_log as int, useful_bits as int, 6);
        lemma_pow2_multiple(k_log as nat, 6);
    }
    let n_stripes: usize = eq_outer.len() / 8;
    let wanted: usize = useful_bits / 64 + if useful_bits % 64 != 0 {
        1
    } else {
        0
    };
    let n_blocks64: usize = if wanted < k / 64 {
        wanted
    } else {
        k / 64
    };
    let stripes = stripes_per_chunk(n_stripes);
    proof {
        assert(stripes * k <= n_stripes * k) by (nonlinear_arith)
            requires
                stripes <= n_stripes,
                k > 0,
        ;
    }
    let size: usize = stripes * k;
    let parts = par_fold_gfni(z_packed, eq_outer, n_stripes, stripes, size, k, n_blocks64);
    let planes = merged_planes(
        &parts,
        k,
        n_blocks64,
        Ghost(z_packed@),
        Ghost(eq_outer@),
        Ghost(n_stripes as int),
        Ghost(stripes as int),
    );
    let out = columns_of_planes(
        &planes,
        k,
        n_blocks64,
        Ghost(z_packed@),
        Ghost(eq_outer@),
        Ghost(n_stripes as nat),
    );
    assert(covered(useful_bits as int, k as int, 64) == 64 * n_blocks64);
    proof {
        assert forall|c: int| 0 <= c < useful_bits implies #[trigger] out@[c] == column_sum(
            z_packed@,
            eq_outer@,
            k as int,
            c,
            eq_outer@.len(),
        ) by {
            law_every_useful_column_is_folded(z_packed@, eq_outer@, k as int, useful_bits as int, 64, c);
        }
    }
    out
}

// ---- sum tables ----

/// Bits of an index with a new top bit.
proof fn lemma_index_bits(u: u8, w: u8, j: u8)
    by (bit_vector)
    requires
        j < 8,
        u < (1u8 << j),
        w == u + (1u8 << j),
    ensures
        j != 0 ==> (w & 1 == u & 1),
        j != 1 ==> ((w >> 1) & 1 == (u >> 1) & 1),
        j != 2 ==> ((w >> 2) & 1 == (u >> 2) & 1),
        j != 3 ==> ((w >> 3) & 1 == (u >> 3) & 1),
        j != 4 ==> ((w >> 4) & 1 == (u >> 4) & 1),
        j != 5 ==> ((w >> 5) & 1 == (u >> 5) & 1),
        j != 6 ==> ((w >> 6) & 1 == (u >> 6) & 1),
        j != 7 ==> ((w >> 7) & 1 == (u >> 7) & 1),
        (w >> j) & 1 == 1,
        (u >> j) & 1 == 0,
        w >> 0 == w,
        u >> 0 == u,
{
}

/// The eight unit bytes.
proof fn lemma_unit_bytes()
    by (bit_vector)
    ensures
        (1u8 << 0) == 1,
        (1u8 << 1) == 2,
        (1u8 << 2) == 4,
        (1u8 << 3) == 8,
        (1u8 << 4) == 16,
        (1u8 << 5) == 32,
        (1u8 << 6) == 64,
        (1u8 << 7) == 128,
{
}

/// One more term of a sum of eight, at any place.
proof fn lemma_xor_term(a: u64, b: u64, c: u64, d: u64, e: u64, f: u64, g: u64, v: u64)
    by (bit_vector)
    ensures
        v ^ a ^ b ^ c ^ d ^ e ^ f ^ g == (0 ^ a ^ b ^ c ^ d ^ e ^ f ^ g) ^ v,
        a ^ v ^ b ^ c ^ d ^ e ^ f ^ g == (a ^ 0 ^ b ^ c ^ d ^ e ^ f ^ g) ^ v,
        a ^ b ^ v ^ c ^ d ^ e ^ f ^ g == (a ^ b ^ 0 ^ c ^ d ^ e ^ f ^ g) ^ v,
        a ^ b ^ c ^ v ^ d ^ e ^ f ^ g == (a ^ b ^ c ^ 0 ^ d ^ e ^ f ^ g) ^ v,
        a ^ b ^ c ^ d ^ v ^ e ^ f ^ g == (a ^ b ^ c ^ d ^ 0 ^ e ^ f ^ g) ^ v,
        a ^ b ^ c ^ d ^ e ^ v ^ f ^ g == (a ^ b ^ c ^ d ^ e ^ 0 ^ f ^ g) ^ v,
        a ^ b ^ c ^ d ^ e ^ f ^ v ^ g == (a ^ b ^ c ^ d ^ e ^ f ^ 0 ^ g) ^ v,
        a ^ b ^ c ^ d ^ e ^ f ^ g ^ v == (a ^ b ^ c ^ d ^ e ^ f ^ g ^ 0) ^ v,
{
}

/// Setting bit `j` of the index adds element `j`.
proof fn lemma_select_bit(v: Seq<F128>, u: u8, w: u8, j: u8)
    requires
        j < 8,
        u < (1u8 << j),
        w == u + (1u8 << j),
    ensures
        select_sum(v, w) == fadd(select_sum(v, u), v[j as int]),
{
    lemma_index_bits(u, w, j);
    let s0 = f128_select(v[0], w);
    let s1 = f128_select(v[1], w >> 1);
    let s2 = f128_select(v[2], w >> 2);
    let s3 = f128_select(v[3], w >> 3);
    let s4 = f128_select(v[4], w >> 4);
    let s5 = f128_select(v[5], w >> 5);
    let s6 = f128_select(v[6], w >> 6);
    let s7 = f128_select(v[7], w >> 7);
    let x = v[j as int];
    if j == 0 {
        lemma_xor_term(s1.lo, s2.lo, s3.lo, s4.lo, s5.lo, s6.lo, s7.lo, x.lo);
        lemma_xor_term(s1.hi, s2.hi, s3.hi, s4.hi, s5.hi, s6.hi, s7.hi, x.hi);
    } else if j == 1 {
        lemma_xor_term(s0.lo, s2.lo, s3.lo, s4.lo, s5.lo, s6.lo, s7.lo, x.lo);
        lemma_xor_term(s0.hi, s2.hi, s3.hi, s4.hi, s5.hi, s6.hi, s7.hi, x.hi);
    } else if j == 2 {
        lemma_xor_term(s0.lo, s1.lo, s3.lo, s4.lo, s5.lo, s6.lo, s7.lo, x.lo);
        lemma_xor_term(s0.hi, s1.hi, s3.hi, s4.hi, s5.hi, s6.hi, s7.hi, x.hi);
    } else if j == 3 {
        lemma_xor_term(s0.lo, s1.lo, s2.lo, s4.lo, s5.lo, s6.lo, s7.lo, x.lo);
        lemma_xor_term(s0.hi, s1.hi, s2.hi, s4.hi, s5.hi, s6.hi, s7.hi, x.hi);
    } else if j == 4 {
        lemma_xor_term(s0.lo, s1.lo, s2.lo, s3.lo, s5.lo, s6.lo, s7.lo, x.lo);
        lemma_xor_term(s0.hi, s1.hi, s2.hi, s3.hi, s5.hi, s6.hi, s7.hi, x.hi);
    } else if j == 5 {
        lemma_xor_term(s0.lo, s1.lo, s2.lo, s3.lo, s4.lo, s6.lo, s7.lo, x.lo);
        lemma_xor_term(s0.hi, s1.hi, s2.hi, s3.hi, s4.hi, s6.hi, s7.hi, x.hi);
    } else if j == 6 {
        lemma_xor_term(s0.lo, s1.lo, s2.lo, s3.lo, s4.lo, s5.lo, s7.lo, x.lo);
        lemma_xor_term(s0.hi, s1.hi, s2.hi, s3.hi, s4.hi, s5.hi, s7.hi, x.hi);
    } else {
        lemma_xor_term(s0.lo, s1.lo, s2.lo, s3.lo, s4.lo, s5.lo, s6.lo, x.lo);
        lemma_xor_term(s0.hi, s1.hi, s2.hi, s3.hi, s4.hi, s5.hi, s6.hi, x.hi);
    }
}

/// Fills the sum table of eight weights at `at`: entry `w` is the sum of the weights
/// that the bits of `w` select.
pub fn build_sum_table(eq8: &[F128], tables: &mut Vec<F128>, at: usize)
    requires
        eq8.len() == 8,
        at + 256 <= old(tables).len(),
    ensures
        final(tables).len() == old(tables).len(),
        forall|w: u8| #[trigger] final(tables)@[at + w] == select_sum(eq8@, w),
        forall|i: int|
            0 <= i < old(tables).len() && !(at <= i < at + 256) ==> #[trigger] final(tables)@[i] == old(tables)@[i],
{
    let ghost t0 = tables@;
    proof {
        lemma_select_none(eq8@);
    }
    tables[at] = F128::zero();
    let mut size: usize = 1;
    for j in 0..8usize
        invariant
            eq8.len() == 8,
            at + 256 <= tables.len(),
            tables.len() == t0.len(),
            j == 0 ==> size == 1,
            j == 1 ==> size == 2,
            j == 2 ==> size == 4,
            j == 3 ==> size == 8,
            j == 4 ==> size == 16,
            j == 5 ==> size == 32,
            j == 6 ==> size == 64,
            j == 7 ==> size == 128,
            j == 8 ==> size == 256,
            forall|w: u8| w < size ==> #[trigger] tables@[at + w] == select_sum(eq8@, w),
            forall|i: int| 0 <= i < t0.len() && !(at <= i < at + 256) ==> #[trigger] tables@[i] == t0[i],
    {
        let x = eq8[j];
        for i in 0..size
            invariant
                eq8.len() == 8,
                x == eq8@[j as int],
                j < 8,
                size <= 128,
                j == 0 ==> size == 1,
                j == 1 ==> size == 2,
                j == 2 ==> size == 4,
                j == 3 ==> size == 8,
                j == 4 ==> size == 16,
                j == 5 ==> size == 32,
                j == 6 ==> size == 64,
                j == 7 ==> size == 128,
                at + 256 <= tables.len(),
                tables.len() == t0.len(),
                forall|w: u8| w < size + i ==> #[trigger] tables@[at + w] == select_sum(eq8@, w),
                forall|i: int| 0 <= i < t0.len() && !(at <= i < at + 256) ==> #[trigger] tables@[i] == t0[i],
        {
            proof {
                lemma_unit_bytes();
                lemma_select_bit(eq8@, i as u8, (size + i) as u8, j as u8);
                assert(tables@[at + i as u8] == select_sum(eq8@, i as u8));
            }
            let y = tables[at + i] + x;
            tables[at + size + i] = y;
            proof {
                assert forall|w: u8| w < size + (i + 1) implies #[trigger] tables@[at + w] == select_sum(eq8@, w) by {
                    if w == size + i {
                        assert(w == (size + i) as u8);
                    }
                }
            }
        }
        size = size * 2;
    }
}

/// Whether `tables` holds the sum tables of the eight stripes from `base` on.
spec fn are_tables(tables: Seq<F128>, eq: Seq<F128>, base: int) -> bool {
    &&& tables.len() == 2048
    &&& forall|t: int, w: u8| 0 <= t < 8 ==> tables[256 * t + w] == #[trigger] select_sum(weights(eq, base + t), w)
}

/// The sum of eight elements onto another, one after the other.
pub open spec fn add_onto(x: F128, g: Seq<F128>) -> F128 {
    fadd(
        fadd(fadd(fadd(fadd(fadd(fadd(fadd(x, g[0]), g[1]), g[2]), g[3]), g[4]), g[5]), g[6]),
        g[7],
    )
}

/// The table entries that a tile adds to column `c`.
pub open spec fn tile_entries(tile: Seq<u8>, at: int, k: int, tables: Seq<F128>, c: int) -> Seq<F128> {
    Seq::new(8, |t: int| tables[256 * t + tile[at + t * k + c]])
}

/// Adds one tile to the eight columns from `bs` on.
pub fn process_block_x86(tile: &[u8], at: usize, k: usize, bs: usize, tables: &Vec<F128>, out: &mut Vec<F128>)
    requires
        at + 8 * k <= tile.len(),
        bs + 8 <= k,
        tables@.len() == 2048,
        old(out).len() == k,
    ensures
        final(out).len() == k,
        forall|c: int|
            0 <= c < k ==> #[trigger] final(out)@[c] == (if bs <= c < bs + 8 {
                add_onto(old(out)@[c], tile_entries(tile@, at as int, k as int, tables@, c))
            } else {
                old(out)@[c]
            }),
{
    let ghost o0 = out@;
    for i in 0..8usize
        invariant
            at + 8 * k <= tile.len(),
            bs + 8 <= k,
            tables@.len() == 2048,
            out.len() == k,
            o0.len() == k,
            forall|c: int|
                0 <= c < k ==> #[trigger] out@[c] == (if bs <= c < bs + i {
                    add_onto(o0[c], tile_entries(tile@, at as int, k as int, tables@, c))
                } else {
                    o0[c]
                }),
    {
        let c: usize = bs + i;
        let a0 = out[c] + tables[tile[at + c] as usize];
        let a1 = a0 + tables[256 + tile[at + k + c] as usize];
        let a2 = a1 + tables[512 + tile[at + 2 * k + c] as usize];
        let a3 = a2 + tables[768 + tile[at + 3 * k + c] as usize];
        let a4 = a3 + tables[1024 + tile[at + 4 * k + c] as usize];
        let a5 = a4 + tables[1280 + tile[at + 5 * k + c] as usize];
        let a6 = a5 + tables[1536 + tile[at + 6 * k + c] as usize];
        let a7 = a6 + tables[1792 + tile[at + 7 * k + c] as usize];
        proof {
            let g = tile_entries(tile@, at as int, k as int, tables@, c as int);
            assert(g[0] == tables@[tile@[at + c] as int]);
            assert(g[1] == tables@[256 + tile@[at + k + c]]);
            assert(g[2] == tables@[512 + tile@[at + 2 * k + c]]);
            assert(g[3] == tables@[768 + tile@[at + 3 * k + c]]);
            assert(g[4] == tables@[1024 + tile@[at + 4 * k + c]]);
            assert(g[5] == tables@[1280 + tile@[at + 5 * k + c]]);
            assert(g[6] == tables@[1536 + tile@[at + 6 * k + c]]);
            assert(g[7] == tables@[1792 + tile@[at + 7 * k + c]]);
            assert(out@[c as int] == o0[c as int]);
        }
        out[c] = a7;
    }
}

/// Eight more stripes.
proof fn lemma_tile_entries(z: Seq<u8>, eq: Seq<F128>, k: int, c: int, n: nat, g: Seq<F128>)
    requires
        g.len() == 8,
        forall|t: int| 0 <= t < 8 ==> #[trigger] g[t] == select_sum(weights(eq, n + t), z[(n + t) * k + c]),
    ensures
        fold_rows(z, eq, k, c, n + 8) == add_onto(fold_rows(z, eq, k, c, n), g),
{
    lemma_entry_step(z, eq, k, c, n, g[0]);
    lemma_entry_step(z, eq, k, c, n + 1, g[1]);
    lemma_entry_step(z, eq, k, c, n + 2, g[2]);
    lemma_entry_step(z, eq, k, c, n + 3, g[3]);
    lemma_entry_step(z, eq, k, c, n + 4, g[4]);
    lemma_entry_step(z, eq, k, c, n + 5, g[5]);
    lemma_entry_step(z, eq, k, c, n + 6, g[6]);
    lemma_entry_step(z, eq, k, c, n + 7, g[7]);
}

/// One more stripe.
proof fn lemma_entry_step(z: Seq<u8>, eq: Seq<F128>, k: int, c: int, n: nat, g: F128)
    requires
        g == select_sum(weights(eq, n as int), z[n * k + c]),
    ensures
        fold_rows(z, eq, k, c, n + 1) == fadd(fold_rows(z, eq, k, c, n), g),
{
    assert((n + 1) as nat - 1 == n);
}

/// A vector of zeros.
fn zero_elements(n: usize) -> (v: Vec<F128>)
    ensures
        v@ == Seq::new(n as nat, |i: int| fzero()),
{
    let mut v: Vec<F128> = Vec::new();
    for i in 0..n
        invariant
            v@.len() == i,
            forall|j: int| 0 <= j < i ==> #[trigger] v@[j] == fzero(),
    {
        v.push(F128::zero());
    }
    assert(v@ =~= Seq::new(n as nat, |i: int| fzero()));
    v
}

/// The sum tables of one tile.
fn tile_tables(eq: &[F128], base: usize, tables: &mut Vec<F128>)
    requires
        8 * base + 64 <= eq.len(),
        old(tables).len() == 2048,
    ensures
        are_tables(final(tables)@, eq@, base as int),
{
    for t in 0..8usize
        invariant
            8 * base + 64 <= eq.len(),
            tables.len() == 2048,
            forall|s: int, w: u8|
                0 <= s < t ==> tables@[256 * s + w] == #[trigger] select_sum(weights(eq@, base + s), w),
    {
        let ghost t0 = tables@;
        let e8 = &eq[8 * (base + t)..8 * (base + t) + 8];
        assert(e8@ =~= weights(eq@, base + t));
        build_sum_table(e8, tables, 256 * t);
        proof {
            assert forall|s: int, w: u8| 0 <= s < t + 1 implies tables@[256 * s + w] == #[trigger] select_sum(
                weights(eq@, base + s),
                w,
            ) by {
                if s < t {
                    assert(tables@[256 * s + w] == t0[256 * s + w]);
                } else {
                    assert(tables@[256 * t + w] == select_sum(e8@, w));
                }
            }
        }
    }
}

/// The folds of a slice of stripes whose first one is stripe `first`.
pub fn fold_chunk_tiled(chunk: &[u8], eq: &[F128], first: usize, k: usize, n_blocks: usize) -> (out: Vec<F128>)
    requires
        chunk_ok(chunk.len() as int, first as int, k as int, eq.len() as int),
        8 * n_blocks <= k,
    ensures
        out@ == folded(
            chunk@,
            eq@.subrange(8 * first as int, eq.len() as int),
            k as int,
            (chunk.len() as int / k as int) as nat,
            8 * n_blocks,
        ),
{
    let ghost eqs = eq@.subrange(8 * first as int, eq.len() as int);
    let mut out = zero_elements(k);
    let mut tables = zero_elements(2048);
    proof {
        lemma_chunk_len(chunk.len() as int, k as int);
        assert(out@ =~= folded(chunk@, eqs, k as int, 0, 8 * n_blocks));
    }
    assert(8 * k <= 16 * k);
    let n_tiles: usize = chunk.len() / (8 * k);
    for tile in 0..n_tiles
        invariant
            chunk_ok(chunk.len() as int, first as int, k as int, eq.len() as int),
            8 * n_blocks <= k,
            eqs == eq@.subrange(8 * first as int, eq.len() as int),
            chunk.len() == n_tiles * (8 * k),
            chunk.len() as int / k as int == 8 * n_tiles,
            tables.len() == 2048,
            out@ == folded(chunk@, eqs, k as int, (8 * tile) as nat, 8 * n_blocks),
    {
        proof {
            assert((tile + 1) * (8 * k) <= n_tiles * (8 * k)) by (nonlinear_arith)
                requires
                    tile + 1 <= n_tiles,
            ;
            assert((tile + 1) * (8 * k) == tile * (8 * k) + 8 * k) by (nonlinear_arith);
        }
        let at: usize = tile * (8 * k);
        tile_tables(eq, first + 8 * tile, &mut tables);
        let ghost o0 = out@;
        for b in 0..n_blocks
            invariant
                at + 8 * k <= chunk.len(),
                8 * n_blocks <= k,
                tables@.len() == 2048,
                out.len() == k,
                o0.len() == k,
                forall|c: int|
                    0 <= c < k ==> #[trigger] out@[c] == (if c < 8 * b {
                        add_onto(o0[c], tile_entries(chunk@, at as int, k as int, tables@, c))
                    } else {
                        o0[c]
                    }),
        {
            let ghost o1 = out@;
            process_block_x86(chunk, at, k, 8 * b, &tables, &mut out);
            proof {
                assert forall|c: int| 0 <= c < k implies #[trigger] out@[c] == (if c < 8 * (b + 1) {
                    add_onto(o0[c], tile_entries(chunk@, at as int, k as int, tables@, c))
                } else {
                    o0[c]
                }) by {
                    assert(o1[c] == (if c < 8 * b {
                        add_onto(o0[c], tile_entries(chunk@, at as int, k as int, tables@, c))
                    } else {
                        o0[c]
                    }));
                }
            }
        }
        proof {
            let n = (8 * tile) as nat;
            let want = folded(chunk@, eqs, k as int, (8 * (tile + 1)) as nat, 8 * n_blocks);
            assert forall|c: int| 0 <= c < k implies #[trigger] out@[c] == want[c] by {
                assert(o0[c] == folded(chunk@, eqs, k as int, n, 8 * n_blocks)[c]);
                if c < 8 * n_blocks {
                    let g = tile_entries(chunk@, at as int, k as int, tables@, c);
                    assert forall|t: int| 0 <= t < 8 implies #[trigger] g[t] == select_sum(
                        weights(eqs, n + t),
                        chunk@[(n + t) * k + c],
                    ) by {
                        let w = chunk@[(n + t) * k + c];
                        assert(at + t * k + c == (n + t) * k + c) by (nonlinear_arith)
                            requires
                                at == tile * (8 * k),
                                n == 8 * tile,
                        ;
                        assert(weights(eqs, n + t) =~= weights(eq@, first + 8 * tile + t));
                        assert(tables@[256 * t + w] == select_sum(weights(eq@, first + 8 * tile + t), w));
                    }
                    lemma_tile_entries(chunk@, eqs, k as int, c, n, g);
                    assert((8 * (tile + 1)) as nat == n + 8);
                }
            }
            assert(out@ =~= want);
        }
    }
    out
}

/// [`fold_chunk_tiled`] for chunk `i` of chunks of `stripes` stripes.
pub fn fold_nth_chunk_tiled(
    i: usize,
    chunk: &[u8],
    eq: &[F128],
    stripes: usize,
    k: usize,
    n_blocks: usize,
) -> (out: Vec<F128>)
    requires
        i * stripes <= usize::MAX,
        chunk_ok(chunk.len() as int, i * stripes, k as int, eq.len() as int),
        8 * n_blocks <= k,
    ensures
        out@ == folded(
            chunk@,
            eq@.subrange(8 * (i * stripes), eq.len() as int),
            k as int,
            (chunk.len() as int / k as int) as nat,
            8 * n_blocks,
        ),
{
    fold_chunk_tiled(chunk, eq, i * stripes, k, n_blocks)
}

/// `rayon`'s `par_chunks`, `enumerate`, `map` and `collect`: the folds of every
/// chunk, in the order of the chunks. What is claimed of them is that
/// [`fold_nth_chunk_tiled`] is called once on each chunk, with the chunk's number,
/// and that the results come back in that order.
#[verifier::external_body]
fn par_fold_tiled(
    z: &[u8],
    eq: &[F128],
    n_stripes: usize,
    stripes: usize,
    size: usize,
    k: usize,
    n_blocks: usize,
) -> (r: Vec<Vec<F128>>)
    requires
        geometry_ok(z.len() as int, eq.len() as int, k as int, n_stripes as int, stripes as int),
        size == stripes * k,
        8 * n_blocks <= k,
    ensures
        r@.len() == (n_stripes + stripes - 1) / stripes as int,
        forall|i: int|
            0 <= i < r@.len() ==> (#[trigger] r@[i])@ == folded(
                nth_chunk(z@, size as int, i),
                eq@.subrange(8 * (i * stripes), eq.len() as int),
                k as int,
                (nth_chunk(z@, size as int, i).len() as int / k as int) as nat,
                8 * n_blocks,
            ),
{
    z.par_chunks(size)
        .enumerate()
        .map(|(i, chunk)| fold_nth_chunk_tiled(i, chunk, eq, stripes, k, n_blocks))
        .collect()
}

/// Adds the elements of `b` to those of `a`.
pub fn merge_elements(a: &mut Vec<F128>, b: &Vec<F128>)
    requires
        old(a)@.len() == b@.len(),
    ensures
        final(a)@.len() == old(a)@.len(),
        forall|p: int| 0 <= p < b@.len() ==> #[trigger] final(a)@[p] == fadd(old(a)@[p], b@[p]),
{
    let ghost a0 = a@;
    let n: usize = a.len();
    for i in 0..n
        invariant
            n == a0.len(),
            a@.len() == a0.len(),
            b@.len() == a0.len(),
            forall|p: int| 0 <= p < i ==> #[trigger] a@[p] == fadd(a0[p], b@[p]),
            forall|p: int| i <= p < a0.len() ==> #[trigger] a@[p] == a0[p],
    {
        let x = a[i] + b[i];
        a[i] = x;
    }
}

/// The partial fold, eight columns of eight stripes at a time, by sum tables.
pub fn partial_fold_packed_z_x86_tiled_padded(
    z_packed: &[u8],
    m: usize,
    k_log: usize,
    useful_bits: usize,
    eq_outer: &[F128],
) -> (out: Vec<F128>)
    requires
        shape_ok(z_packed.len() as int, eq_outer.len() as int, m as int, k_log as int, useful_bits as int, 3),
    ensures
        out@ == folded(
            z_packed@,
            eq_outer@,
            pow2(k_log as nat) as int,
            (eq_outer.len() as int / 8) as nat,
            covered(useful_bits as int, pow2(k_log as nat) as int, 8),
        ),
        forall|c: int|
            0 <= c < useful_bits ==> #[trigger] out@[c] == column_sum(
                z_packed@,
                eq_outer@,
                pow2(k_log as nat) as int,
                c,
                eq_outer@.len(),
            ),
{
    let k = power_of_two(k_log);
    proof {
        lemma_shape(z_packed.len() as int, eq_outer.len() as int, m as int, k_log as int, useful_bits as int, 3);
        lemma_pow2_multiple(k_log as nat, 3);
    }
    let n_stripes: usize = eq_outer.len() / 8;
    let wanted: usize = useful_bits / 8 + if useful_bits % 8 != 0 {
        1
    } else {
        0
    };
    let n_blocks: usize = if wanted < k / 8 {
        wanted
    } else {
        k / 8
    };
    let stripes = stripes_per_chunk(n_stripes);
    proof {
        assert(stripes * k <= n_stripes * k) by (nonlinear_arith)
            requires
                stripes <= n_stripes,
                k > 0,
        ;
    }
    let size: usize = stripes * k;
    let parts = par_fold_tiled(z_packed, eq_outer, n_stripes, stripes, size, k, n_blocks);
    let mut out = zero_elements(k);
    let ghost cover = 8 * n_blocks as int;
    proof {
        assert(0 * stripes == 0);
        assert(out@ =~= folded(z_packed@, eq_outer@, k as int, 0, cover));
    }
    for i in 0..parts.len()
        invariant
            geometry_ok(z_packed.len() as int, eq_outer.len() as int, k as int, n_stripes as int, stripes as int),
            size == stripes * k,
            cover == 8 * n_blocks,
            cover <= k,
            parts@.len() == (n_stripes + stripes - 1) / stripes as int,
            forall|i: int|
                0 <= i < parts@.len() ==> (#[trigger] parts@[i])@ == folded(
                    nth_chunk(z_packed@, size as int, i),
                    eq_outer@.subrange(8 * (i * stripes), eq_outer.len() as int),
                    k as int,
                    (nth_chunk(z_packed@, size as int, i).len() as int / k as int) as nat,
                    8 * n_blocks,
                ),
            out@ == folded(
                z_packed@,
                eq_outer@,
                k as int,
                stripes_before(i as int, stripes as int, n_stripes as int) as nat,
                cover,
            ),
    {
        let ghost o0 = out@;
        let ghost part = parts@[i as int]@;
        merge_elements(&mut out, &parts[i]);
        proof {
            let want = folded(
                z_packed@,
                eq_outer@,
                k as int,
                stripes_before(i + 1, stripes as int, n_stripes as int) as nat,
                cover,
            );
            assert forall|c: int| 0 <= c < k implies #[trigger] out@[c] == want[c] by {
                assert(out@[c] == fadd(o0[c], part[c]));
                if c < cover {
                    lemma_fold_chunk(
                        z_packed@,
                        eq_outer@,
                        k as int,
                        n_stripes as int,
                        stripes as int,
                        i as int,
                        c,
                    );
                } else {
                    law_fadd_zero(fzero());
                }
            }
            assert(out@ =~= want);
        }
    }
    proof {
        lemma_all_chunks(n_stripes as int, stripes as int);
        assert(covered(useful_bits as int, k as int, 8) == cover);
    }
    proof {
        assert forall|c: int| 0 <= c < useful_bits implies #[trigger] out@[c] == column_sum(
            z_packed@,
            eq_outer@,
            k as int,
            c,
            eq_outer@.len(),
        ) by {
            law_every_useful_column_is_folded(z_packed@, eq_outer@, k as int, useful_bits as int, 8, c);
        }
    }
    out
}

/// Both kernels give the same folds where the columns past the useful ones are
/// zero.
pub proof fn law_kernels_agree(z: Seq<u8>, eq: Seq<F128>, k: int, n: nat, useful_bits: int)
    requires
        k > 0,
        k % 64 == 0,
        0 <= useful_bits <= k,
        forall|s: int, c: int| 0 <= s < n && useful_bits <= c < k ==> #[trigger] z[s * k + c] == 0,
    ensures
        folded(z, eq, k, n, covered(useful_bits, k, 64)) == folded(z, eq, k, n, covered(useful_bits, k, 8)),
{
    law_padding_does_not_matter(
        z,
        eq,
        k,
        n,
        useful_bits,
        covered(useful_bits, k, 64),
        covered(useful_bits, k, 8),
    );
}

// ---- what the folds are for ----

/// Bit of row `row` in column `c`: the rows of a stripe are the bits of its bytes, the
/// lowest first.
pub open spec fn row_bit(z: Seq<u8>, k: int, row: int, c: int) -> bool {
    (z[(row / 8) * k + c] >> ((row % 8) as u8)) & 1 == 1
}

/// The sum of the weights of those of the first `rows` rows whose bit in column `c` is
/// set.
pub open spec fn column_sum(z: Seq<u8>, eq: Seq<F128>, k: int, c: int, rows: nat) -> F128
    decreases rows,
{
    if rows == 0 {
        fzero()
    } else {
        let before = column_sum(z, eq, k, c, (rows - 1) as nat);
        if row_bit(z, k, rows - 1, c) {
            fadd(before, eq[rows - 1])
        } else {
            before
        }
    }
}

proof fn lemma_one_row(z: Seq<u8>, eq: Seq<F128>, k: int, c: int, s: int, j: int, w: u8)
    requires
        0 <= s,
        0 <= j < 8,
        8 * s + 8 <= eq.len(),
        w == z[s * k + c],
    ensures
        column_sum(z, eq, k, c, (8 * s + j + 1) as nat) == fadd(
            column_sum(z, eq, k, c, (8 * s + j) as nat),
            f128_select(weights(eq, s)[j], w >> (j as u8)),
        ),
{
    let row = 8 * s + j;
    assert(row / 8 == s && row % 8 == j);
    assert(weights(eq, s)[j] == eq[row]);
    law_fadd_zero(column_sum(z, eq, k, c, row as nat));
}

/// The fold of a column is the sum of the weights of its set rows, row by row.
pub proof fn law_fold_sums_the_set_rows(z: Seq<u8>, eq: Seq<F128>, k: int, c: int, n: nat)
    requires
        8 * n <= eq.len(),
    ensures
        fold_rows(z, eq, k, c, n) == column_sum(z, eq, k, c, (8 * n) as nat),
    decreases n,
{
    if n > 0 {
        let s = n - 1;
        law_fold_sums_the_set_rows(z, eq, k, c, s as nat);
        let w = z[s * k + c];
        let v = weights(eq, s);
        let p = column_sum(z, eq, k, c, (8 * s) as nat);
        lemma_one_row(z, eq, k, c, s, 0, w);
        lemma_one_row(z, eq, k, c, s, 1, w);
        lemma_one_row(z, eq, k, c, s, 2, w);
        lemma_one_row(z, eq, k, c, s, 3, w);
        lemma_one_row(z, eq, k, c, s, 4, w);
        lemma_one_row(z, eq, k, c, s, 5, w);
        lemma_one_row(z, eq, k, c, s, 6, w);
        lemma_one_row(z, eq, k, c, s, 7, w);
        lemma_word_facts(0, 0, 0, 0, w, 0);
        let x0 = f128_select(v[0], w);
        let x1 = f128_select(v[1], w >> 1);
        let x2 = f128_select(v[2], w >> 2);
        let x3 = f128_select(v[3], w >> 3);
        let x4 = f128_select(v[4], w >> 4);
        let x5 = f128_select(v[5], w >> 5);
        let x6 = f128_select(v[6], w >> 6);
        let x7 = f128_select(v[7], w >> 7);
        let y1 = fadd(x0, x1);
        let y2 = fadd(y1, x2);
        let y3 = fadd(y2, x3);
        let y4 = fadd(y3, x4);
        let y5 = fadd(y4, x5);
        let y6 = fadd(y5, x6);
        law_fadd_assoc(p, x0, x1);
        law_fadd_assoc(p, y1, x2);
        law_fadd_assoc(p, y2, x3);
        law_fadd_assoc(p, y3, x4);
        law_fadd_assoc(p, y4, x5);
        law_fadd_assoc(p, y5, x6);
        law_fadd_assoc(p, y6, x7);
        assert((8 * s + 7 + 1) as nat == (8 * n) as nat);
    }
}

/// A column in which one row alone is set folds to the weight of that row.
pub proof fn law_single_row_folds_to_its_weight(z: Seq<u8>, eq: Seq<F128>, k: int, c: int, n: nat, row: int)
    requires
        8 * n <= eq.len(),
        0 <= row < 8 * n,
        forall|i: int| 0 <= i < 8 * n ==> (#[trigger] row_bit(z, k, i, c) <==> i == row),
    ensures
        fold_rows(z, eq, k, c, n) == eq[row],
{
    law_fold_sums_the_set_rows(z, eq, k, c, n);
    lemma_single_row(z, eq, k, c, row, (8 * n) as nat, (8 * n) as nat);
}

proof fn lemma_single_row(z: Seq<u8>, eq: Seq<F128>, k: int, c: int, row: int, rows: nat, all: nat)
    requires
        rows <= all,
        0 <= row < all,
        forall|i: int| 0 <= i < all ==> (#[trigger] row_bit(z, k, i, c) <==> i == row),
    ensures
        column_sum(z, eq, k, c, rows) == (if row < rows {
            eq[row]
        } else {
            fzero()
        }),
    decreases rows,
{
    if rows > 0 {
        lemma_single_row(z, eq, k, c, row, (rows - 1) as nat, all);
        assert(row_bit(z, k, rows - 1, c) <==> rows - 1 == row);
        law_fadd_zero(eq[row]);
        crate::field::gf2_128::law_fadd_comm(fzero(), eq[row]);
    }
}

/// The useful columns are covered, all of them, whatever the number of columns; what is
/// covered ends with a block, and no block without a useful column is covered.
pub proof fn law_useful_columns_are_covered(useful_bits: int, k: int, width: int)
    requires
        0 <= useful_bits <= k,
        0 < width,
        k % width == 0,
    ensures
        useful_bits <= covered(useful_bits, k, width) <= k,
        covered(useful_bits, k, width) < useful_bits + width,
        covered(useful_bits, k, width) % width == 0,
{
    let b = (useful_bits + width - 1) / width;
    vstd::arithmetic::div_mod::lemma_fundamental_div_mod(useful_bits + width - 1, width);
    let r = (useful_bits + width - 1) % width;
    assert(useful_bits + width - 1 == width * b + r);
    assert(width * b == b * width) by (nonlinear_arith);
    assert(useful_bits <= b * width < useful_bits + width);
    vstd::arithmetic::div_mod::lemma_mod_multiples_basic(b, width);
    if b * width > k {
        // The next multiple below is at most `k`, which is one itself.
        vstd::arithmetic::div_mod::lemma_fundamental_div_mod(k, width);
        let q = k / width;
        assert(k == width * q);
        assert(q < b) by (nonlinear_arith)
            requires
                k == width * q,
                b * width > k,
                0 < width,
        ;
        assert(width * q <= b * width - width) by (nonlinear_arith)
            requires
                q < b,
                0 < width,
        ;
        assert(k < useful_bits);
    }
}

/// What a kernel with blocks of `width` columns gives for a useful column is the sum of
/// the weights of the rows that are set in it, over all rows; behind the last block
/// with a useful column it gives zero.
pub proof fn law_every_useful_column_is_folded(
    z: Seq<u8>,
    eq: Seq<F128>,
    k: int,
    useful_bits: int,
    width: int,
    c: int,
)
    requires
        0 <= useful_bits <= k,
        0 < width,
        k % width == 0,
        eq.len() % 8 == 0,
        0 <= c < k,
    ensures
        ({
            let out = folded(z, eq, k, (eq.len() as int / 8) as nat, covered(useful_bits, k, width));
            &&& out.len() == k
            &&& c < useful_bits ==> out[c] == column_sum(z, eq, k, c, eq.len())
            &&& c >= useful_bits + width ==> out[c] == fzero()
        }),
{
    law_useful_columns_are_covered(useful_bits, k, width);
    law_fold_sums_the_set_rows(z, eq, k, c, (eq.len() as int / 8) as nat);
}

} // verus!
