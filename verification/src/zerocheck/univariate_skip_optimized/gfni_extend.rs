//! The row extension as bit-matrix products, sixty-four rows at a time.
//!
//! The extension is linear over the bits of its input, so output `i` of a row is
//! the sum over the chunks `b` of one matrix, number `i ^ 8 b`, times the chunk's
//! byte. Sixty-four matrices replace the whole lookup table. A *plane* holds one
//! byte of sixty-four rows, so that one product serves all of them.

use crate::bytes64::{
    affine_byte, columns_matrix, compose_word, group, groups_transposed, law_matrix_sums_columns,
    lemma_groups_transposed, lemma_xor8_orders, matrix_from_columns, qword_of, qword_transpose, xor8, xor8_bytes,
    Bytes64,
};
use crate::field::gf2_8::{gf8_mul, gf8_residue, law_residue_is_additive, law_shift_is_product};
use crate::zerocheck::univariate_skip_optimized::kernels::{
    leaf_byte, shift_reduce_inner_ab_x86_avx512,
};
use crate::zerocheck::univariate_skip_optimized::inv_table::{
    applied, is_composed, lemma_mix3, lemma_permuted, mix3, permuted, unit_word, InvNttTableByteSingleGf8, CHUNKS, ELL,
};
use crate::bits::le_u64;
use vstd::arithmetic::power2::{lemma2_to64, pow2};
use vstd::prelude::*;

verus! {

/// Rows per batch.
pub const EXTEND_ROWS: usize = 64;

/// Bytes of a batch of packed rows.
pub type ExtendSrc = [u8; 512];

/// Bytes of a batch of extended rows.
pub type ExtendDst = [u8; 4096];

/// Whether the matrix form of the extension is in use: the setting that turns it off is absent.
pub fn urm_gfni_extend_enabled(off_is_set: bool) -> (r: bool)
    ensures
        r == !off_is_set,
{
    !off_is_set
}

/// Whether the fused kernel serves all windows: on request only.
pub fn gfni_octa_all(on_is_set: bool) -> (r: bool)
    ensures
        r == on_is_set,
{
    on_is_set
}

// ---- the extension over matrices ----

/// Output `i` of the row `src[at..at + 8]`: the sum over the chunks `b` of matrix
/// `i ^ 8 b` times byte `b`.
pub open spec fn extended(mats: Seq<u64>, src: Seq<u8>, at: int, i: int) -> u8 {
    xor8_bytes(
        affine_byte(mats[permuted(i, 0)], src[at]),
        affine_byte(mats[permuted(i, 1)], src[at + 1]),
        affine_byte(mats[permuted(i, 2)], src[at + 2]),
        affine_byte(mats[permuted(i, 3)], src[at + 3]),
        affine_byte(mats[permuted(i, 4)], src[at + 4]),
        affine_byte(mats[permuted(i, 5)], src[at + 5]),
        affine_byte(mats[permuted(i, 6)], src[at + 6]),
        affine_byte(mats[permuted(i, 7)], src[at + 7]),
    )
}

/// Output `i` of the row that position `x` of the planes `p` belongs to.
pub open spec fn plane_sum(p: Seq<Bytes64>, mats: Seq<u64>, i: int, x: int) -> u8 {
    xor8_bytes(
        affine_byte(mats[permuted(i, 0)], p[0]@[x]),
        affine_byte(mats[permuted(i, 1)], p[1]@[x]),
        affine_byte(mats[permuted(i, 2)], p[2]@[x]),
        affine_byte(mats[permuted(i, 3)], p[3]@[x]),
        affine_byte(mats[permuted(i, 4)], p[4]@[x]),
        affine_byte(mats[permuted(i, 5)], p[5]@[x]),
        affine_byte(mats[permuted(i, 6)], p[6]@[x]),
        affine_byte(mats[permuted(i, 7)], p[7]@[x]),
    )
}

/// The same sum for output `8 u + v`, over the eight matrices `mv` of slice `v`.
pub open spec fn slice_sum(p: Seq<Bytes64>, mv: Seq<u64>, u: int, x: int) -> u8 {
    xor8_bytes(
        affine_byte(mv[0], p[mix3(u, 0)]@[x]),
        affine_byte(mv[1], p[mix3(u, 1)]@[x]),
        affine_byte(mv[2], p[mix3(u, 2)]@[x]),
        affine_byte(mv[3], p[mix3(u, 3)]@[x]),
        affine_byte(mv[4], p[mix3(u, 4)]@[x]),
        affine_byte(mv[5], p[mix3(u, 5)]@[x]),
        affine_byte(mv[6], p[mix3(u, 6)]@[x]),
        affine_byte(mv[7], p[mix3(u, 7)]@[x]),
    )
}

/// Whether `mv` holds the matrices `8 w + v`.
pub open spec fn is_slice(mats: Seq<u64>, mv: Seq<u64>, v: int) -> bool {
    forall|w: int| 0 <= w < 8 ==> #[trigger] mv[w] == mats[8 * w + v]
}

/// The slices of a matrix block as one block: entry `8 w + v` is entry `w` of slice `v`.
pub open spec fn flat(slices: Seq<[u64; 8]>) -> Seq<u64> {
    Seq::new(64, |i: int| slices[i % 8]@[i / 8])
}

/// Whether position `r` of plane `b` is byte `8 r + b` of `src`.
pub open spec fn are_planes(p: Seq<Bytes64>, src: Seq<u8>) -> bool {
    forall|b: int, r: int| 0 <= b < 8 && 0 <= r < 64 ==> #[trigger] p[b]@[r] == src[8 * r + b]
}

/// Whether position `8 k + j` of plane `b` is byte `b` of row `8 j + k` of `src`.
pub open spec fn are_planes_kmajor(p: Seq<Bytes64>, src: Seq<u8>) -> bool {
    forall|b: int, x: int|
        0 <= b < 8 && 0 <= x < 64 ==> #[trigger] p[b]@[x] == src[8 * (8 * (x % 8) + x / 8) + b]
}

/// One window of the round: the products of the extended rows `k` of both
/// operands at `lane`, scaled by `x^k` and summed.
pub open spec fn window_byte(mats: Seq<u64>, a: Seq<u8>, b: Seq<u8>, at: int, lane: int) -> u8 {
    xor8_bytes(
        scaled_product(mats, a, b, at, 0, lane),
        scaled_product(mats, a, b, at, 1, lane),
        scaled_product(mats, a, b, at, 2, lane),
        scaled_product(mats, a, b, at, 3, lane),
        scaled_product(mats, a, b, at, 4, lane),
        scaled_product(mats, a, b, at, 5, lane),
        scaled_product(mats, a, b, at, 6, lane),
        scaled_product(mats, a, b, at, 7, lane),
    )
}

/// Row `k` of a window: the product of the two extensions, times `x^k`.
pub open spec fn scaled_product(mats: Seq<u64>, a: Seq<u8>, b: Seq<u8>, at: int, k: int, lane: int) -> u8 {
    gf8_mul(
        gf8_mul(extended(mats, a, at + 8 * k, lane), extended(mats, b, at + 8 * k, lane)),
        1u8 << (k as u8),
    )
}

// ---- laws ----

/// The matrices of a table reproduce every one of its entries.
pub proof fn law_mats_reproduce_table(data: Seq<u8>, mats: Seq<u64>, w: int, i: int)
    requires
        is_composed(data),
        0 <= w < 256,
        0 <= i < 64,
        mats[i] == columns_matrix(unit_word(data, i)),
    ensures
        affine_byte(mats[i], w as u8) == data[64 * w + i],
{
    law_matrix_sums_columns(unit_word(data, i), w as u8);
    assert(data[64 * w + i] == compose_word(unit_word(data, i), w as u8));
}

/// Whether `mats` is the matrix block of the table.
pub open spec fn are_table_mats(data: Seq<u8>, mats: Seq<u64>) -> bool {
    forall|i: int| 0 <= i < 64 ==> #[trigger] mats[i] == columns_matrix(unit_word(data, i))
}

/// The matrix block depends on the eight unit rows of the table alone.
pub proof fn law_mats_depend_only_on_unit_rows(d1: Seq<u8>, d2: Seq<u8>, m1: Seq<u64>, m2: Seq<u64>, i: int)
    requires
        are_table_mats(d1, m1),
        are_table_mats(d2, m2),
        0 <= i < 64,
        d1[64 * 1 + i] == d2[64 * 1 + i],
        d1[64 * 2 + i] == d2[64 * 2 + i],
        d1[64 * 4 + i] == d2[64 * 4 + i],
        d1[64 * 8 + i] == d2[64 * 8 + i],
        d1[64 * 16 + i] == d2[64 * 16 + i],
        d1[64 * 32 + i] == d2[64 * 32 + i],
        d1[64 * 64 + i] == d2[64 * 64 + i],
        d1[64 * 128 + i] == d2[64 * 128 + i],
    ensures
        m1[i] == m2[i],
{
}

/// The extension over the matrices of a table is the extension by the table.
pub proof fn law_extension_is_table_lookup(data: Seq<u8>, mats: Seq<u64>, src: Seq<u8>, at: int, i: int)
    requires
        is_composed(data),
        are_table_mats(data, mats),
        0 <= i < 64,
    ensures
        extended(mats, src, at, i) == applied(data, src, at, i),
{
    lemma_permuted(i, 0);
    lemma_permuted(i, 1);
    lemma_permuted(i, 2);
    lemma_permuted(i, 3);
    lemma_permuted(i, 4);
    lemma_permuted(i, 5);
    lemma_permuted(i, 6);
    lemma_permuted(i, 7);
    law_mats_reproduce_table(data, mats, src[at] as int, permuted(i, 0));
    law_mats_reproduce_table(data, mats, src[at + 1] as int, permuted(i, 1));
    law_mats_reproduce_table(data, mats, src[at + 2] as int, permuted(i, 2));
    law_mats_reproduce_table(data, mats, src[at + 3] as int, permuted(i, 3));
    law_mats_reproduce_table(data, mats, src[at + 4] as int, permuted(i, 4));
    law_mats_reproduce_table(data, mats, src[at + 5] as int, permuted(i, 5));
    law_mats_reproduce_table(data, mats, src[at + 6] as int, permuted(i, 6));
    law_mats_reproduce_table(data, mats, src[at + 7] as int, permuted(i, 7));
}

/// The slice schedule computes the plain one: with `w = u ^ b`, matrix `i ^ 8 b`
/// of output `i = 8 u + v` is matrix `8 w + v`.
pub proof fn law_slice_schedule_is_plain(p: Seq<Bytes64>, mats: Seq<u64>, mv: Seq<u64>, u: int, v: int, x: int)
    requires
        is_slice(mats, mv, v),
        0 <= u < 8,
        0 <= v < 8,
    ensures
        slice_sum(p, mv, u, x) == plane_sum(p, mats, 8 * u + v, x),
{
    let i = 8 * u + v;
    assert(i / 8 == u && i % 8 == v);
    lemma_permuted(i, 0);
    lemma_permuted(i, 1);
    lemma_permuted(i, 2);
    lemma_permuted(i, 3);
    lemma_permuted(i, 4);
    lemma_permuted(i, 5);
    lemma_permuted(i, 6);
    lemma_permuted(i, 7);
    assert(mv[0] == mats[v]);
    assert(mv[1] == mats[8 + v]);
    assert(mv[2] == mats[16 + v]);
    assert(mv[3] == mats[24 + v]);
    assert(mv[4] == mats[32 + v]);
    assert(mv[5] == mats[40 + v]);
    assert(mv[6] == mats[48 + v]);
    assert(mv[7] == mats[56 + v]);
    lemma_xor8_orders(
        affine_byte(mats[permuted(i, 0)], p[0]@[x]),
        affine_byte(mats[permuted(i, 1)], p[1]@[x]),
        affine_byte(mats[permuted(i, 2)], p[2]@[x]),
        affine_byte(mats[permuted(i, 3)], p[3]@[x]),
        affine_byte(mats[permuted(i, 4)], p[4]@[x]),
        affine_byte(mats[permuted(i, 5)], p[5]@[x]),
        affine_byte(mats[permuted(i, 6)], p[6]@[x]),
        affine_byte(mats[permuted(i, 7)], p[7]@[x]),
    );
    if u == 0 {
    } else if u == 1 {
    } else if u == 2 {
    } else if u == 3 {
    } else if u == 4 {
    } else if u == 5 {
    } else if u == 6 {
    } else {
    }
}

/// The shift-reduce leaf: eight products, shifted by their row number and summed
/// as polynomials of degree below sixteen.
pub open spec fn shifted_sum(p: Seq<u8>) -> u16 {
    ((p[0] as u16) << 0) ^ ((p[1] as u16) << 1) ^ ((p[2] as u16) << 2) ^ ((p[3] as u16) << 3) ^ ((p[4] as u16) << 4)
        ^ ((p[5] as u16) << 5) ^ ((p[6] as u16) << 6) ^ ((p[7] as u16) << 7)
}

/// Scaling every product by `x^k` and summing gives what shifting, summing and
/// one reduction at the end gives.
pub proof fn law_scaled_sum_is_shift_reduce(p: Seq<u8>)
    ensures
        xor8_bytes(
            gf8_mul(p[0], 1u8 << 0u8),
            gf8_mul(p[1], 1u8 << 1u8),
            gf8_mul(p[2], 1u8 << 2u8),
            gf8_mul(p[3], 1u8 << 3u8),
            gf8_mul(p[4], 1u8 << 4u8),
            gf8_mul(p[5], 1u8 << 5u8),
            gf8_mul(p[6], 1u8 << 6u8),
            gf8_mul(p[7], 1u8 << 7u8),
        ) == gf8_residue(shifted_sum(p)),
{
    let s0 = (p[0] as u16) << 0;
    let s1 = s0 ^ ((p[1] as u16) << 1);
    let s2 = s1 ^ ((p[2] as u16) << 2);
    let s3 = s2 ^ ((p[3] as u16) << 3);
    let s4 = s3 ^ ((p[4] as u16) << 4);
    let s5 = s4 ^ ((p[5] as u16) << 5);
    let s6 = s5 ^ ((p[6] as u16) << 6);
    law_residue_is_additive(s0, (p[1] as u16) << 1);
    law_residue_is_additive(s1, (p[2] as u16) << 2);
    law_residue_is_additive(s2, (p[3] as u16) << 3);
    law_residue_is_additive(s3, (p[4] as u16) << 4);
    law_residue_is_additive(s4, (p[5] as u16) << 5);
    law_residue_is_additive(s5, (p[6] as u16) << 6);
    law_residue_is_additive(s6, (p[7] as u16) << 7);
    law_shift_is_product(p[0], 0);
    law_shift_is_product(p[1], 1);
    law_shift_is_product(p[2], 2);
    law_shift_is_product(p[3], 3);
    law_shift_is_product(p[4], 4);
    law_shift_is_product(p[5], 5);
    law_shift_is_product(p[6], 6);
    law_shift_is_product(p[7], 7);
}

// ---- the matrix blocks ----

/// The sixty-four matrices of the table: matrix `i` takes a packed byte to entry
/// `i` of its table row.
pub fn build_extend_mats(inv_table: &InvNttTableByteSingleGf8) -> (mats: [u64; 64])
    requires
        inv_table.ell == ELL,
        inv_table.n_chunks == CHUNKS,
        inv_table.data.len() == 256 * 64,
    ensures
        are_table_mats(inv_table.data@, mats@),
{
    let d = &inv_table.data;
    let mut mats = [0u64; 64];
    for i in 0..64usize
        invariant
            d.len() == 256 * 64,
            forall|j: int| 0 <= j < i ==> #[trigger] mats@[j] == columns_matrix(unit_word(d@, j)),
    {
        let col = (d[64 + i] as u64) | ((d[128 + i] as u64) << 8) | ((d[256 + i] as u64) << 16) | ((d[512 + i] as u64)
            << 24) | ((d[1024 + i] as u64) << 32) | ((d[2048 + i] as u64) << 40) | ((d[4096 + i] as u64) << 48) | ((
        d[8192 + i] as u64) << 56);
        mats[i] = matrix_from_columns(col);
    }
    mats
}

/// The matrices `8 w + v`, for `w` below eight.
fn slice_of(mats: &[u64; 64], v: usize) -> (mv: [u64; 8])
    requires
        v < 8,
    ensures
        is_slice(mats@, mv@, v as int),
{
    [
        mats[v],
        mats[8 + v],
        mats[16 + v],
        mats[24 + v],
        mats[32 + v],
        mats[40 + v],
        mats[48 + v],
        mats[56 + v],
    ]
}

/// The matrix block of the table in slices: slice `v` holds the matrices `8 w + v`.
pub fn build_extend_mats_vslice(inv_table: &InvNttTableByteSingleGf8) -> (slices: [[u64; 8]; 8])
    requires
        inv_table.ell == ELL,
        inv_table.n_chunks == CHUNKS,
        inv_table.data.len() == 256 * 64,
    ensures
        are_table_mats(inv_table.data@, flat(slices@)),
{
    let mats = build_extend_mats(inv_table);
    let mut slices = [[0u64; 8]; 8];
    for v in 0..8usize
        invariant
            forall|j: int| 0 <= j < v ==> is_slice(mats@, #[trigger] slices@[j]@, j),
    {
        slices[v] = slice_of(&mats, v);
    }
    proof {
        assert forall|i: int| 0 <= i < 64 implies #[trigger] flat(slices@)[i] == columns_matrix(
            unit_word(inv_table.data@, i),
        ) by {
            let mv = slices@[i % 8]@;
            assert(is_slice(mats@, mv, i % 8));
            assert(mv[i / 8] == mats@[8 * (i / 8) + i % 8]);
            assert(mats@[i] == columns_matrix(unit_word(inv_table.data@, i)));
        }
    }
    slices
}

// ---- the planes ----

/// The eight chunk planes of the sixty-four rows `src[8 r..8 r + 8]`.
pub fn input_planes(src: &[u8]) -> (p: [Bytes64; 8])
    requires
        src.len() == 512,
    ensures
        are_planes(p@, src@),
{
    let mut t = [Bytes64([0u8; 64]); 8];
    for m in 0..8usize
        invariant
            src.len() == 512,
            forall|j: int, x: int|
                0 <= j < m && 0 <= x < 64 ==> #[trigger] t@[j]@[x] == src@[64 * j + 8 * (x % 8) + x / 8],
    {
        let row = Bytes64::load(src, 64 * m);
        t[m] = row.byte_transpose();
    }
    let p = qword_transpose(t);
    proof {
        assert forall|b: int, r: int| 0 <= b < 8 && 0 <= r < 64 implies #[trigger] p@[b]@[r] == src@[8 * r + b] by {
            lemma_groups_transposed(t@, p@, b, r);
            let x = 8 * b + r % 8;
            assert(x % 8 == r % 8 && x / 8 == b);
            assert(t@[r / 8]@[x] == src@[64 * (r / 8) + 8 * (x % 8) + x / 8]);
        }
    }
    p
}

/// The chunk planes with the rows of one window spread over the groups: every
/// group holds the rows with one `k`.
pub fn input_planes_kmajor(src: &[u8]) -> (p: [Bytes64; 8])
    requires
        src.len() == 512,
    ensures
        are_planes_kmajor(p@, src@),
{
    let q = input_planes(src);
    let mut p = [Bytes64([0u8; 64]); 8];
    for b in 0..8usize
        invariant
            are_planes(q@, src@),
            forall|j: int, x: int|
                0 <= j < b && 0 <= x < 64 ==> #[trigger] p@[j]@[x] == src@[8 * (8 * (x % 8) + x / 8) + j],
    {
        let h = q[b].byte_transpose();
        proof {
            assert forall|x: int| 0 <= x < 64 implies #[trigger] h@[x] == src@[8 * (8 * (x % 8) + x / 8) + b] by {
                let r = 8 * (x % 8) + x / 8;
                assert(q@[b as int]@[r] == src@[8 * r + b]);
            }
        }
        p[b] = h;
    }
    p
}

/// Output plane `i`, in the plain schedule.
pub fn out_plane(p: &[Bytes64; 8], mats: &[u64; 64], i: usize) -> (r: Bytes64)
    requires
        i < 64,
    ensures
        forall|x: int| 0 <= x < 64 ==> #[trigger] r@[x] == plane_sum(p@, mats@, i as int, x),
{
    proof {
        lemma_permuted(i as int, 0);
        lemma_permuted(i as int, 1);
        lemma_permuted(i as int, 2);
        lemma_permuted(i as int, 3);
        lemma_permuted(i as int, 4);
        lemma_permuted(i as int, 5);
        lemma_permuted(i as int, 6);
        lemma_permuted(i as int, 7);
    }
    xor8(
        &[
            p[0].affine(mats[i ^ 0]),
            p[1].affine(mats[i ^ 8]),
            p[2].affine(mats[i ^ 16]),
            p[3].affine(mats[i ^ 24]),
            p[4].affine(mats[i ^ 32]),
            p[5].affine(mats[i ^ 40]),
            p[6].affine(mats[i ^ 48]),
            p[7].affine(mats[i ^ 56]),
        ],
    )
}

/// Whether every group of `mv[w]` is the matrix `m[w]`.
pub open spec fn are_broadcast(mv: Seq<Bytes64>, m: Seq<u64>) -> bool {
    forall|w: int, q: int| 0 <= w < 8 && 0 <= q < 8 ==> #[trigger] qword_of(mv[w]@, q) == m[w]
}

/// The matrices of a slice, each in all groups of a vector.
pub fn broadcast_slice(m: &[u64; 8]) -> (mv: [Bytes64; 8])
    ensures
        are_broadcast(mv@, m@),
{
    [
        Bytes64::mat_broadcast(m[0]),
        Bytes64::mat_broadcast(m[1]),
        Bytes64::mat_broadcast(m[2]),
        Bytes64::mat_broadcast(m[3]),
        Bytes64::mat_broadcast(m[4]),
        Bytes64::mat_broadcast(m[5]),
        Bytes64::mat_broadcast(m[6]),
        Bytes64::mat_broadcast(m[7]),
    ]
}

/// One product of the slice schedule.
fn slice_term(p: &[Bytes64; 8], mv: &[Bytes64; 8], u: usize, w: usize) -> (r: Bytes64)
    requires
        u < 8,
        w < 8,
    ensures
        forall|x: int|
            0 <= x < 64 ==> #[trigger] r@[x] == affine_byte(
                qword_of(mv@[w as int]@, x / 8),
                p@[mix3(u as int, w as int)]@[x],
            ),
{
    proof {
        lemma_mix3(u, w);
    }
    p[u ^ w].affine_v(mv[w])
}

/// Position `x` of the output plane `8 u + v`, for the vectors `mv` of slice `v`.
pub open spec fn slice_sum_v(p: Seq<Bytes64>, mv: Seq<Bytes64>, u: int, x: int) -> u8 {
    slice_sum(p, Seq::new(8, |w: int| qword_of(mv[w]@, x / 8)), u, x)
}

/// Output plane `8 u + v`, in the slice schedule, for the vectors `mv` of slice `v`.
pub fn out_plane_v(p: &[Bytes64; 8], mv: &[Bytes64; 8], u: usize) -> (r: Bytes64)
    requires
        u < 8,
    ensures
        forall|x: int| 0 <= x < 64 ==> #[trigger] r@[x] == slice_sum_v(p@, mv@, u as int, x),
{
    let t = [
        slice_term(p, mv, u, 0),
        slice_term(p, mv, u, 1),
        slice_term(p, mv, u, 2),
        slice_term(p, mv, u, 3),
        slice_term(p, mv, u, 4),
        slice_term(p, mv, u, 5),
        slice_term(p, mv, u, 6),
        slice_term(p, mv, u, 7),
    ];
    xor8(&t)
}

proof fn lemma_plane_v(p: Seq<Bytes64>, mats: Seq<u64>, m: Seq<u64>, mv: Seq<Bytes64>, u: int, v: int, x: int)
    requires
        is_slice(mats, m, v),
        are_broadcast(mv, m),
        0 <= u < 8,
        0 <= v < 8,
        0 <= x < 64,
    ensures
        slice_sum_v(p, mv, u, x) == plane_sum(p, mats, 8 * u + v, x),
{
    let q = Seq::new(8, |w: int| qword_of(mv[w]@, x / 8));
    assert(is_slice(mats, q, v)) by {
        assert forall|w: int| 0 <= w < 8 implies #[trigger] q[w] == mats[8 * w + v] by {
            assert(qword_of(mv[w]@, x / 8) == m[w]);
        }
    }
    law_slice_schedule_is_plain(p, mats, q, u, v, x);
}

/// A sum over planes is the extension of the row at that position.
proof fn lemma_plane_is_row(p: Seq<Bytes64>, src: Seq<u8>, mats: Seq<u64>, i: int, r: int)
    requires
        are_planes(p, src),
        0 <= r < 64,
    ensures
        plane_sum(p, mats, i, r) == extended(mats, src, 8 * r, i),
{
    assert(p[0]@[r] == src[8 * r + 0]);
    assert(p[1]@[r] == src[8 * r + 1]);
    assert(p[2]@[r] == src[8 * r + 2]);
    assert(p[3]@[r] == src[8 * r + 3]);
    assert(p[4]@[r] == src[8 * r + 4]);
    assert(p[5]@[r] == src[8 * r + 5]);
    assert(p[6]@[r] == src[8 * r + 6]);
    assert(p[7]@[r] == src[8 * r + 7]);
}

/// The sixty-four output planes: plane `i` holds output `i` of every row.
fn output_planes(src: &[u8], mats: &[u64; 64]) -> (q: [Bytes64; 64])
    requires
        src.len() == 512,
    ensures
        forall|i: int, r: int|
            0 <= i < 64 && 0 <= r < 64 ==> #[trigger] q@[i]@[r] == extended(mats@, src@, 8 * r, i),
{
    let p = input_planes(src);
    let mut q = [Bytes64([0u8; 64]); 64];
    for v in 0..8usize
        invariant
            are_planes(p@, src@),
            forall|i: int, r: int|
                0 <= i < 64 && i % 8 < v && 0 <= r < 64 ==> #[trigger] q@[i]@[r] == extended(mats@, src@, 8 * r, i),
    {
        let m = slice_of(mats, v);
        let mv = broadcast_slice(&m);
        for u in 0..8usize
            invariant
                v < 8,
                are_planes(p@, src@),
                is_slice(mats@, m@, v as int),
                are_broadcast(mv@, m@),
                forall|i: int, r: int|
                    0 <= i < 64 && (i % 8 < v || (i % 8 == v && i / 8 < u)) && 0 <= r < 64 ==> #[trigger] q@[i]@[r]
                        == extended(mats@, src@, 8 * r, i),
        {
            let h = out_plane_v(&p, &mv, u);
            proof {
                assert forall|r: int| 0 <= r < 64 implies #[trigger] h@[r] == extended(
                    mats@,
                    src@,
                    8 * r,
                    8 * u + v,
                ) by {
                    lemma_plane_v(p@, mats@, m@, mv@, u as int, v as int, r);
                    lemma_plane_is_row(p@, src@, mats@, 8 * u + v, r);
                }
            }
            q[8 * u + v] = h;
        }
    }
    q
}

/// Extends sixty-four rows, plane by plane: byte `64 i + r` is output `i` of row `r`.
pub fn extend64_planes(src: &[u8], mats: &[u64; 64], out: &mut [u8])
    requires
        src.len() == 512,
        old(out).len() == 4096,
    ensures
        final(out).len() == 4096,
        forall|i: int, r: int|
            0 <= i < 64 && 0 <= r < 64 ==> #[trigger] final(out)@[64 * i + r] == extended(mats@, src@, 8 * r, i),
{
    let q = output_planes(src, mats);
    for i in 0..64usize
        invariant
            out.len() == 4096,
            forall|i: int, r: int|
                0 <= i < 64 && 0 <= r < 64 ==> #[trigger] q@[i]@[r] == extended(mats@, src@, 8 * r, i),
            forall|n: int|
                0 <= n < 64 * i ==> #[trigger] out@[n] == extended(mats@, src@, 8 * (n % 64), n / 64),
    {
        q[i].store(out, 64 * i);
        proof {
            assert forall|n: int| 0 <= n < 64 * (i + 1) implies #[trigger] out@[n] == extended(
                mats@,
                src@,
                8 * (n % 64),
                n / 64,
            ) by {
                if n >= 64 * i {
                    assert(n / 64 == i && n % 64 == n - 64 * i);
                    assert(q@[i as int]@[n - 64 * i] == extended(mats@, src@, 8 * (n - 64 * i), i as int));
                }
            }
        }
    }
    proof {
        assert forall|i: int, r: int| 0 <= i < 64 && 0 <= r < 64 implies #[trigger] out@[64 * i + r] == extended(
            mats@,
            src@,
            8 * r,
            i,
        ) by {
            assert((64 * i + r) / 64 == i && (64 * i + r) % 64 == r);
        }
    }
}

/// Eight vectors of the array, `at + step * j`.
fn pick8(q: &[Bytes64; 64], at: usize, step: usize) -> (t: [Bytes64; 8])
    requires
        at + 7 * step < 64,
    ensures
        forall|j: int| 0 <= j < 8 ==> #[trigger] t@[j] == q@[at + step * j],
{
    let t = [
        q[at],
        q[at + step],
        q[at + 2 * step],
        q[at + 3 * step],
        q[at + 4 * step],
        q[at + 5 * step],
        q[at + 6 * step],
        q[at + 7 * step],
    ];
    proof {
        assert forall|j: int| 0 <= j < 8 implies #[trigger] t@[j] == q@[at + step * j] by {
            assert(j == 0 || j == 1 || j == 2 || j == 3 || j == 4 || j == 5 || j == 6 || j == 7);
        }
    }
    t
}

/// Bytes `8 g..8 g + 8` of the rows `8 m..8 m + 8`, for all `g` and `m`: the first
/// half of the transpose of the planes.
fn half_transposed(q: &[Bytes64; 64]) -> (h: [Bytes64; 64])
    ensures
        forall|g: int, m: int, x: int|
            0 <= g < 8 && 0 <= m < 8 && 0 <= x < 64 ==> #[trigger] h@[8 * g + m]@[x] == q@[8 * g + x % 8]@[8 * m + x
                / 8],
{
    let mut h = [Bytes64([0u8; 64]); 64];
    for g in 0..8usize
        invariant
            forall|n: int, x: int|
                0 <= n < 8 * g && 0 <= x < 64 ==> #[trigger] h@[n]@[x] == q@[8 * (n / 8) + x % 8]@[8 * (n % 8) + x
                    / 8],
    {
        let t = pick8(q, 8 * g, 1);
        let r = qword_transpose(t);
        for m in 0..8usize
            invariant
                g < 8,
                groups_transposed(t@, r@),
                forall|j: int| 0 <= j < 8 ==> #[trigger] t@[j] == q@[8 * g + 1 * j],
                forall|n: int, x: int|
                    0 <= n < 8 * g + m && 0 <= x < 64 ==> #[trigger] h@[n]@[x] == q@[8 * (n / 8) + x % 8]@[8 * (n % 8)
                        + x / 8],
        {
            let b = r[m].byte_transpose();
            proof {
                assert forall|x: int| 0 <= x < 64 implies #[trigger] b@[x] == q@[8 * g + x % 8]@[8 * m + x / 8] by {
                    let y = 8 * (x % 8) + x / 8;
                    assert(y / 8 == x % 8 && y % 8 == x / 8);
                    lemma_groups_transposed(t@, r@, m as int, y);
                    assert(t@[x % 8] == q@[8 * g + 1 * (x % 8)]);
                }
                assert((8 * g + m) / 8 == g && (8 * g + m) % 8 == m);
            }
            h[8 * g + m] = b;
        }
    }
    proof {
        assert forall|g: int, m: int, x: int| 0 <= g < 8 && 0 <= m < 8 && 0 <= x < 64 implies #[trigger] h@[8 * g
            + m]@[x] == q@[8 * g + x % 8]@[8 * m + x / 8] by {
            assert((8 * g + m) / 8 == g && (8 * g + m) % 8 == m);
        }
    }
    h
}

/// Extends sixty-four rows, row by row: byte `64 r + i` is output `i` of row `r`.
#[verifier::rlimit(30)]
pub fn extend64_rows(src: &[u8], mats: &[u64; 64], out: &mut [u8])
    requires
        src.len() == 512,
        old(out).len() == 4096,
    ensures
        final(out).len() == 4096,
        forall|r: int, i: int|
            0 <= r < 64 && 0 <= i < 64 ==> #[trigger] final(out)@[64 * r + i] == extended(mats@, src@, 8 * r, i),
{
    let q = output_planes(src, mats);
    let h = half_transposed(&q);
    for m in 0..8usize
        invariant
            out.len() == 4096,
            forall|i: int, r: int|
                0 <= i < 64 && 0 <= r < 64 ==> #[trigger] q@[i]@[r] == extended(mats@, src@, 8 * r, i),
            forall|g: int, m: int, x: int|
                0 <= g < 8 && 0 <= m < 8 && 0 <= x < 64 ==> #[trigger] h@[8 * g + m]@[x] == q@[8 * g + x % 8]@[8 * m + x
                    / 8],
            forall|n: int|
                0 <= n < 512 * m ==> #[trigger] out@[n] == extended(mats@, src@, 8 * (n / 64), n % 64),
    {
        let t = pick8(&h, m, 8);
        let rows = qword_transpose(t);
        for a in 0..8usize
            invariant
                m < 8,
                out.len() == 4096,
                groups_transposed(t@, rows@),
                forall|j: int| 0 <= j < 8 ==> #[trigger] t@[j] == h@[m + 8 * j],
                forall|i: int, r: int|
                    0 <= i < 64 && 0 <= r < 64 ==> #[trigger] q@[i]@[r] == extended(mats@, src@, 8 * r, i),
                forall|g: int, m: int, x: int|
                    0 <= g < 8 && 0 <= m < 8 && 0 <= x < 64 ==> #[trigger] h@[8 * g + m]@[x] == q@[8 * g + x % 8]@[8 * m
                        + x / 8],
                forall|n: int|
                    0 <= n < 512 * m + 64 * a ==> #[trigger] out@[n] == extended(mats@, src@, 8 * (n / 64), n % 64),
        {
            let ghost r = 8 * m + a;
            proof {
                assert forall|i: int| 0 <= i < 64 implies #[trigger] rows@[a as int]@[i] == extended(
                    mats@,
                    src@,
                    8 * r,
                    i,
                ) by {
                    lemma_groups_transposed(t@, rows@, a as int, i);
                    let y = 8 * a + i % 8;
                    assert(y / 8 == a && y % 8 == i % 8);
                    assert(t@[i / 8] == h@[m + 8 * (i / 8)]);
                    assert(h@[8 * (i / 8) + m]@[y] == q@[8 * (i / 8) + y % 8]@[8 * m + y / 8]);
                    assert(q@[i]@[r] == extended(mats@, src@, 8 * r, i));
                }
            }
            let ghost before = out@;
            rows[a].store(out, 64 * (8 * m + a));
            proof {
                assert forall|n: int| 0 <= n < 512 * m + 64 * (a + 1) implies #[trigger] out@[n] == extended(
                    mats@,
                    src@,
                    8 * (n / 64),
                    n % 64,
                ) by {
                    if n >= 64 * r {
                        assert(n / 64 == r && n % 64 == n - 64 * r);
                        assert(rows@[a as int]@[n - 64 * r] == extended(mats@, src@, 8 * r, n - 64 * r));
                    } else {
                        assert(out@[n] == before[n]);
                    }
                }
            }
        }
    }
    proof {
        assert forall|r: int, i: int| 0 <= r < 64 && 0 <= i < 64 implies #[trigger] out@[64 * r + i] == extended(
            mats@,
            src@,
            8 * r,
            i,
        ) by {
            assert((64 * r + i) / 64 == r && (64 * r + i) % 64 == i);
        }
    }
}

// ---- the fold over the rows of a window ----

/// The sum of the eight groups of `s`, at byte `c`.
pub open spec fn group_sum(s: Seq<u8>, c: int) -> u8 {
    xor8_bytes(s[c], s[8 + c], s[16 + c], s[24 + c], s[32 + c], s[40 + c], s[48 + c], s[56 + c])
}

/// Whether group `u` of `r` is the sum of the eight groups of `s[u]`.
pub open spec fn is_fold(s: Seq<Bytes64>, r: Seq<u8>) -> bool {
    forall|x: int| 0 <= x < 64 ==> #[trigger] r[x] == group_sum(s[x / 8]@, x % 8)
}

proof fn lemma_group_byte(r: Seq<u8>, a: Seq<u8>, i: int, s: int, c: int)
    requires
        group(r, i) == group(a, s),
        0 <= c < 8,
        0 <= i < 8,
        0 <= s < 8,
        r.len() == 64,
        a.len() == 64,
    ensures
        r[8 * i + c] == a[8 * s + c],
{
    assert(group(r, i)[c] == r[8 * i + c]);
    assert(group(a, s)[c] == a[8 * s + c]);
}

/// First stage: neighbouring groups of both vectors, summed and interleaved.
pub fn fold_pair(a: Bytes64, b: Bytes64) -> (r: Bytes64)
    ensures
        forall|x: int|
            0 <= x < 64 ==> #[trigger] r@[x] == (if x / 8 % 2 == 0 {
                a@[x] ^ a@[x + 8]
            } else {
                b@[x - 8] ^ b@[x]
            }),
{
    let lo = a.unpacklo64(b);
    let hi = a.unpackhi64(b);
    proof {
        assert forall|x: int| 0 <= x < 64 implies #[trigger] lo@[x] == (if x / 8 % 2 == 0 {
            a@[x]
        } else {
            b@[x - 8]
        }) && hi@[x] == (if x / 8 % 2 == 0 {
            a@[x + 8]
        } else {
            b@[x]
        }) by {
            let i = x / 8;
            let c = x % 8;
            if i % 2 == 0 {
                assert(group(lo@, i) == group(a@, i));
                lemma_group_byte(lo@, a@, i, i, c);
                assert(group(hi@, i) == group(a@, i + 1));
                lemma_group_byte(hi@, a@, i, i + 1, c);
            } else {
                assert(group(lo@, i) == group(b@, i - 1));
                lemma_group_byte(lo@, b@, i, i - 1, c);
                assert(group(hi@, i) == group(b@, i));
                lemma_group_byte(hi@, b@, i, i, c);
            }
        }
    }
    lo.xor(hi)
}

/// Second stage: the halves of both vectors, each summed.
pub fn fold_join(a: Bytes64, b: Bytes64) -> (r: Bytes64)
    ensures
        forall|x: int|
            0 <= x < 64 ==> #[trigger] r@[x] == (if x < 32 {
                a@[x] ^ a@[x + 32]
            } else {
                b@[x - 32] ^ b@[x]
            }),
{
    let s3_lo: [usize; 8] = [0, 1, 2, 3, 8, 9, 10, 11];
    let s3_hi: [usize; 8] = [4, 5, 6, 7, 12, 13, 14, 15];
    let lo = a.permt2q(&s3_lo, b);
    let hi = a.permt2q(&s3_hi, b);
    proof {
        assert forall|x: int| 0 <= x < 64 implies #[trigger] lo@[x] == (if x < 32 {
            a@[x]
        } else {
            b@[x - 32]
        }) && hi@[x] == (if x < 32 {
            a@[x + 32]
        } else {
            b@[x]
        }) by {
            let i = x / 8;
            let c = x % 8;
            assert(i == 0 || i == 1 || i == 2 || i == 3 || i == 4 || i == 5 || i == 6 || i == 7);
            if i < 4 {
                assert(group(lo@, i) == group(a@, i));
                lemma_group_byte(lo@, a@, i, i, c);
                assert(group(hi@, i) == group(a@, i + 4));
                lemma_group_byte(hi@, a@, i, i + 4, c);
            } else {
                assert(group(lo@, i) == group(b@, i - 4));
                lemma_group_byte(lo@, b@, i, i - 4, c);
                assert(group(hi@, i) == group(b@, i));
                lemma_group_byte(hi@, b@, i, i, c);
            }
        }
    }
    lo.xor(hi)
}

/// Last stage: group `q` with group `q + 2` inside each half of both vectors.
pub fn fold_final(a: Bytes64, b: Bytes64) -> (r: Bytes64)
    ensures
        forall|x: int|
            0 <= x < 64 ==> #[trigger] r@[x] == (if x < 32 {
                a@[x + 16 * (x / 16)] ^ a@[x + 16 * (x / 16) + 16]
            } else {
                b@[x - 32 + 16 * ((x - 32) / 16)] ^ b@[x - 32 + 16 * ((x - 32) / 16) + 16]
            }),
{
    let r3_lo: [usize; 8] = [0, 1, 4, 5, 8, 9, 12, 13];
    let r3_hi: [usize; 8] = [2, 3, 6, 7, 10, 11, 14, 15];
    let lo = a.permt2q(&r3_lo, b);
    let hi = a.permt2q(&r3_hi, b);
    proof {
        assert forall|x: int| 0 <= x < 64 implies #[trigger] lo@[x] == (if x < 32 {
            a@[x + 16 * (x / 16)]
        } else {
            b@[x - 32 + 16 * ((x - 32) / 16)]
        }) && hi@[x] == (if x < 32 {
            a@[x + 16 * (x / 16) + 16]
        } else {
            b@[x - 32 + 16 * ((x - 32) / 16) + 16]
        }) by {
            let i = x / 8;
            let c = x % 8;
            assert(i == 0 || i == 1 || i == 2 || i == 3 || i == 4 || i == 5 || i == 6 || i == 7);
            if i < 4 {
                let s = i + 2 * (i / 2);
                assert(group(lo@, i) == group(a@, s));
                lemma_group_byte(lo@, a@, i, s, c);
                assert(group(hi@, i) == group(a@, s + 2));
                lemma_group_byte(hi@, a@, i, s + 2, c);
            } else {
                let s = (i - 4) + 2 * ((i - 4) / 2);
                assert(group(lo@, i) == group(b@, s));
                lemma_group_byte(lo@, b@, i, s, c);
                assert(group(hi@, i) == group(b@, s + 2));
                lemma_group_byte(hi@, b@, i, s + 2, c);
            }
        }
    }
    lo.xor(hi)
}

/// The three stages: group `u` of the result is the sum of the groups of `s[u]`.
pub fn fold_butterfly(s: [Bytes64; 8]) -> (r: Bytes64)
    ensures
        is_fold(s@, r@),
{
    let y0 = fold_pair(s[0], s[1]);
    let y1 = fold_pair(s[2], s[3]);
    let y2 = fold_pair(s[4], s[5]);
    let y3 = fold_pair(s[6], s[7]);
    let z0 = fold_join(y0, y1);
    let z1 = fold_join(y2, y3);
    let r = fold_final(z0, z1);
    proof {
        assert forall|x: int| 0 <= x < 64 implies #[trigger] r@[x] == group_sum(s@[x / 8]@, x % 8) by {
            lemma_butterfly_at(s@, y0@, y1@, z0@, r@, x, 0);
            lemma_butterfly_at(s@, y2@, y3@, z1@, r@, x, 4);
        }
    }
    r
}

proof fn lemma_butterfly_at(s: Seq<Bytes64>, ya: Seq<u8>, yb: Seq<u8>, z: Seq<u8>, r: Seq<u8>, x: int, h: int)
    requires
        h == 0 || h == 4,
        0 <= x < 64,
        forall|x: int|
            0 <= x < 64 ==> #[trigger] ya[x] == (if x / 8 % 2 == 0 {
                s[h]@[x] ^ s[h]@[x + 8]
            } else {
                s[h + 1]@[x - 8] ^ s[h + 1]@[x]
            }),
        forall|x: int|
            0 <= x < 64 ==> #[trigger] yb[x] == (if x / 8 % 2 == 0 {
                s[h + 2]@[x] ^ s[h + 2]@[x + 8]
            } else {
                s[h + 3]@[x - 8] ^ s[h + 3]@[x]
            }),
        forall|x: int|
            0 <= x < 64 ==> #[trigger] z[x] == (if x < 32 {
                ya[x] ^ ya[x + 32]
            } else {
                yb[x - 32] ^ yb[x]
            }),
        8 * h <= x < 8 * h + 32 ==> r[x] == z[x - 8 * h + 16 * ((x - 8 * h) / 16)] ^ z[x - 8 * h + 16 * ((x - 8 * h)
            / 16) + 16],
    ensures
        8 * h <= x < 8 * h + 32 ==> r[x] == group_sum(s[x / 8]@, x % 8),
{
    if 8 * h <= x < 8 * h + 32 {
        let c = x % 8;
        let q = x / 8 - h;
        let v = s[x / 8]@;
        lemma_xor8_orders(v[c], v[8 + c], v[16 + c], v[24 + c], v[32 + c], v[40 + c], v[48 + c], v[56 + c]);
        assert(q == 0 || q == 1 || q == 2 || q == 3);
        assert(x == 8 * h + 8 * q + c);
        if q == 0 {
            assert(z[c] == ya[c] ^ ya[c + 32]);
            assert(z[16 + c] == ya[16 + c] ^ ya[48 + c]);
            assert(ya[c] == v[c] ^ v[8 + c]);
            assert(ya[16 + c] == v[16 + c] ^ v[24 + c]);
            assert(ya[32 + c] == v[32 + c] ^ v[40 + c]);
            assert(ya[48 + c] == v[48 + c] ^ v[56 + c]);
        } else if q == 1 {
            assert(z[8 + c] == ya[8 + c] ^ ya[40 + c]);
            assert(z[24 + c] == ya[24 + c] ^ ya[56 + c]);
            assert(ya[8 + c] == v[c] ^ v[8 + c]);
            assert(ya[24 + c] == v[16 + c] ^ v[24 + c]);
            assert(ya[40 + c] == v[32 + c] ^ v[40 + c]);
            assert(ya[56 + c] == v[48 + c] ^ v[56 + c]);
        } else if q == 2 {
            assert(z[32 + c] == yb[c] ^ yb[c + 32]);
            assert(z[48 + c] == yb[16 + c] ^ yb[48 + c]);
            assert(yb[c] == v[c] ^ v[8 + c]);
            assert(yb[16 + c] == v[16 + c] ^ v[24 + c]);
            assert(yb[32 + c] == v[32 + c] ^ v[40 + c]);
            assert(yb[48 + c] == v[48 + c] ^ v[56 + c]);
        } else {
            assert(z[40 + c] == yb[8 + c] ^ yb[40 + c]);
            assert(z[56 + c] == yb[24 + c] ^ yb[56 + c]);
            assert(yb[8 + c] == v[c] ^ v[8 + c]);
            assert(yb[24 + c] == v[16 + c] ^ v[24 + c]);
            assert(yb[40 + c] == v[32 + c] ^ v[40 + c]);
            assert(yb[56 + c] == v[48 + c] ^ v[56 + c]);
        }
    }
}

/// The fold as a transpose of the groups and an eight-way sum.
pub fn fold_k_reference(s: [Bytes64; 8]) -> (r: Bytes64)
    ensures
        is_fold(s@, r@),
{
    let t = qword_transpose(s);
    let r = xor8(&t);
    proof {
        assert forall|x: int| 0 <= x < 64 implies #[trigger] r@[x] == group_sum(s@[x / 8]@, x % 8) by {
            lemma_groups_transposed(s@, t@, 0, x);
            lemma_groups_transposed(s@, t@, 1, x);
            lemma_groups_transposed(s@, t@, 2, x);
            lemma_groups_transposed(s@, t@, 3, x);
            lemma_groups_transposed(s@, t@, 4, x);
            lemma_groups_transposed(s@, t@, 5, x);
            lemma_groups_transposed(s@, t@, 6, x);
            lemma_groups_transposed(s@, t@, 7, x);
        }
    }
    r
}

/// The butterfly and the transpose-then-sum form give the same vector.
pub proof fn law_fold_forms_agree(s: Seq<Bytes64>, r1: Seq<u8>, r2: Seq<u8>)
    requires
        r1.len() == 64,
        r2.len() == 64,
        is_fold(s, r1),
        is_fold(s, r2),
    ensures
        r1 == r2,
{
    assert forall|x: int| 0 <= x < 64 implies r1[x] == r2[x] by {
        assert(r1[x] == group_sum(s[x / 8]@, x % 8));
        assert(r2[x] == group_sum(s[x / 8]@, x % 8));
    }
    assert(r1 =~= r2);
}

// ---- the fused product ----

/// The multiplier `x^k` in every group `k`.
pub fn xk_vector() -> (r: Bytes64)
    ensures
        forall|x: int| 0 <= x < 64 ==> #[trigger] r@[x] == 1u8 << ((x / 8) as u8),
{
    let mut v = [0u8; 64];
    for x in 0..64usize
        invariant
            forall|j: int| 0 <= j < x ==> #[trigger] v@[j] == 1u8 << ((j / 8) as u8),
    {
        v[x] = 1u8 << ((x / 8) as u8);
    }
    Bytes64(v)
}

/// One output plane of one operand: an accumulator chain over the slice.
fn battery(p: &[Bytes64; 8], mv: &[u64; 8], u: usize) -> (r: Bytes64)
    requires
        u < 8,
    ensures
        forall|x: int| 0 <= x < 64 ==> #[trigger] r@[x] == slice_sum(p@, mv@, u as int, x),
{
    proof {
        lemma_mix3(u, 0);
        lemma_mix3(u, 1);
        lemma_mix3(u, 2);
        lemma_mix3(u, 3);
        lemma_mix3(u, 4);
        lemma_mix3(u, 5);
        lemma_mix3(u, 6);
        lemma_mix3(u, 7);
    }
    let acc = p[u ^ 0].affine(mv[0]).xor3(p[u ^ 1].affine(mv[1]), p[u ^ 2].affine(mv[2]));
    let acc = acc.xor3(p[u ^ 3].affine(mv[3]), p[u ^ 4].affine(mv[4]));
    let acc = acc.xor3(p[u ^ 5].affine(mv[5]), p[u ^ 6].affine(mv[6]));
    acc.xor(p[u ^ 7].affine(mv[7]))
}

/// One fused output plane: both operands extended, multiplied and scaled.
pub fn fused_plane(pa: &[Bytes64; 8], pb: &[Bytes64; 8], mv: &[u64; 8], xk: Bytes64, u: usize) -> (r: Bytes64)
    requires
        u < 8,
    ensures
        forall|x: int|
            0 <= x < 64 ==> #[trigger] r@[x] == gf8_mul(
                gf8_mul(slice_sum(pa@, mv@, u as int, x), slice_sum(pb@, mv@, u as int, x)),
                xk@[x],
            ),
{
    battery(pa, mv, u).mulb(battery(pb, mv, u)).mulb(xk)
}

/// A sum over k-major planes is the extension of the row that stands there.
proof fn lemma_kmajor_is_row(p: Seq<Bytes64>, src: Seq<u8>, mats: Seq<u64>, i: int, x: int)
    requires
        are_planes_kmajor(p, src),
        0 <= x < 64,
    ensures
        plane_sum(p, mats, i, x) == extended(mats, src, 64 * (x % 8) + 8 * (x / 8), i),
{
    let at = 64 * (x % 8) + 8 * (x / 8);
    assert(at == 8 * (8 * (x % 8) + x / 8));
    assert(p[0]@[x] == src[8 * (8 * (x % 8) + x / 8) + 0]);
    assert(p[1]@[x] == src[8 * (8 * (x % 8) + x / 8) + 1]);
    assert(p[2]@[x] == src[8 * (8 * (x % 8) + x / 8) + 2]);
    assert(p[3]@[x] == src[8 * (8 * (x % 8) + x / 8) + 3]);
    assert(p[4]@[x] == src[8 * (8 * (x % 8) + x / 8) + 4]);
    assert(p[5]@[x] == src[8 * (8 * (x % 8) + x / 8) + 5]);
    assert(p[6]@[x] == src[8 * (8 * (x % 8) + x / 8) + 6]);
    assert(p[7]@[x] == src[8 * (8 * (x % 8) + x / 8) + 7]);
}

/// The eight fused planes of slice `v`, folded: byte `8 u + j` is output `8 u + v` of window `j`.
fn fused_slice(
    pa: &[Bytes64; 8],
    pb: &[Bytes64; 8],
    mv: &[u64; 8],
    xk: Bytes64,
    Ghost(a): Ghost<Seq<u8>>,
    Ghost(b): Ghost<Seq<u8>>,
    Ghost(mats): Ghost<Seq<u64>>,
    Ghost(v): Ghost<int>,
) -> (r: Bytes64)
    requires
        are_planes_kmajor(pa@, a),
        are_planes_kmajor(pb@, b),
        is_slice(mats, mv@, v),
        0 <= v < 8,
        forall|x: int| 0 <= x < 64 ==> #[trigger] xk@[x] == 1u8 << ((x / 8) as u8),
    ensures
        forall|x: int|
            0 <= x < 64 ==> #[trigger] r@[x] == window_byte(mats, a, b, 64 * (x % 8), 8 * (x / 8) + v),
{
    let s = [
        fused_plane(pa, pb, mv, xk, 0),
        fused_plane(pa, pb, mv, xk, 1),
        fused_plane(pa, pb, mv, xk, 2),
        fused_plane(pa, pb, mv, xk, 3),
        fused_plane(pa, pb, mv, xk, 4),
        fused_plane(pa, pb, mv, xk, 5),
        fused_plane(pa, pb, mv, xk, 6),
        fused_plane(pa, pb, mv, xk, 7),
    ];
    let r = fold_butterfly(s);
    proof {
        assert forall|x: int| 0 <= x < 64 implies #[trigger] r@[x] == window_byte(
            mats,
            a,
            b,
            64 * (x % 8),
            8 * (x / 8) + v,
        ) by {
            let u = x / 8;
            let c = x % 8;
            assert forall|k: int| 0 <= k < 8 implies #[trigger] s@[u]@[8 * k + c] == scaled_product(
                mats,
                a,
                b,
                64 * c,
                k,
                8 * u + v,
            ) by {
                lemma_fused_position(pa@, pb@, mv@, mats, a, b, u, v, k, c);
                assert(u == 0 || u == 1 || u == 2 || u == 3 || u == 4 || u == 5 || u == 6 || u == 7);
                assert(xk@[8 * k + c] == 1u8 << (((8 * k + c) / 8) as u8));
            }
            assert(s@[u]@[8 * 0 + c] == scaled_product(mats, a, b, 64 * c, 0, 8 * u + v));
            assert(s@[u]@[8 * 1 + c] == scaled_product(mats, a, b, 64 * c, 1, 8 * u + v));
            assert(s@[u]@[8 * 2 + c] == scaled_product(mats, a, b, 64 * c, 2, 8 * u + v));
            assert(s@[u]@[8 * 3 + c] == scaled_product(mats, a, b, 64 * c, 3, 8 * u + v));
            assert(s@[u]@[8 * 4 + c] == scaled_product(mats, a, b, 64 * c, 4, 8 * u + v));
            assert(s@[u]@[8 * 5 + c] == scaled_product(mats, a, b, 64 * c, 5, 8 * u + v));
            assert(s@[u]@[8 * 6 + c] == scaled_product(mats, a, b, 64 * c, 6, 8 * u + v));
            assert(s@[u]@[8 * 7 + c] == scaled_product(mats, a, b, 64 * c, 7, 8 * u + v));
            assert(r@[x] == group_sum(s@[u]@, c));
        }
    }
    r
}

proof fn lemma_fused_position(
    pa: Seq<Bytes64>,
    pb: Seq<Bytes64>,
    mv: Seq<u64>,
    mats: Seq<u64>,
    a: Seq<u8>,
    b: Seq<u8>,
    u: int,
    v: int,
    k: int,
    c: int,
)
    requires
        are_planes_kmajor(pa, a),
        are_planes_kmajor(pb, b),
        is_slice(mats, mv, v),
        0 <= u < 8,
        0 <= v < 8,
        0 <= k < 8,
        0 <= c < 8,
    ensures
        slice_sum(pa, mv, u, 8 * k + c) == extended(mats, a, 64 * c + 8 * k, 8 * u + v),
        slice_sum(pb, mv, u, 8 * k + c) == extended(mats, b, 64 * c + 8 * k, 8 * u + v),
        (8 * k + c) / 8 == k,
{
    let x = 8 * k + c;
    assert(x / 8 == k && x % 8 == c);
    law_slice_schedule_is_plain(pa, mats, mv, u, v, x);
    law_slice_schedule_is_plain(pb, mats, mv, u, v, x);
    lemma_kmajor_is_row(pa, a, mats, 8 * u + v, x);
    lemma_kmajor_is_row(pb, b, mats, 8 * u + v, x);
}

/// The fused pipeline: eight windows of sixty-four bytes of both operands in, the
/// sixty-four bytes of every window out.
pub fn fused_ab8(a_src: &[u8], b_src: &[u8], mats: &[[u64; 8]; 8]) -> (r: [Bytes64; 8])
    requires
        a_src.len() == 512,
        b_src.len() == 512,
    ensures
        forall|j: int, i: int|
            0 <= j < 8 && 0 <= i < 64 ==> #[trigger] r@[j]@[i] == window_byte(
                flat(mats@),
                a_src@,
                b_src@,
                64 * j,
                i,
            ),
{
    let pa = input_planes_kmajor(a_src);
    let pb = input_planes_kmajor(b_src);
    let xk = xk_vector();
    let ghost m = flat(mats@);
    let mut g = [Bytes64([0u8; 64]); 8];
    for v in 0..8usize
        invariant
            are_planes_kmajor(pa@, a_src@),
            are_planes_kmajor(pb@, b_src@),
            m == flat(mats@),
            forall|x: int| 0 <= x < 64 ==> #[trigger] xk@[x] == 1u8 << ((x / 8) as u8),
            forall|k: int, x: int|
                0 <= k < v && 0 <= x < 64 ==> #[trigger] g@[k]@[x] == window_byte(
                    m,
                    a_src@,
                    b_src@,
                    64 * (x / 8),
                    8 * (x % 8) + k,
                ),
    {
        proof {
            assert forall|w: int| 0 <= w < 8 implies #[trigger] mats@[v as int]@[w] == m[8 * w + v] by {
                assert((8 * w + v) / 8 == w && (8 * w + v) % 8 == v);
            }
        }
        let f = fused_slice(
            &pa,
            &pb,
            &mats[v],
            xk,
            Ghost(a_src@),
            Ghost(b_src@),
            Ghost(m),
            Ghost(v as int),
        );
        let t = f.byte_transpose();
        proof {
            assert forall|x: int| 0 <= x < 64 implies #[trigger] t@[x] == window_byte(
                m,
                a_src@,
                b_src@,
                64 * (x / 8),
                8 * (x % 8) + v,
            ) by {
                let y = 8 * (x % 8) + x / 8;
                assert(y / 8 == x % 8 && y % 8 == x / 8);
                assert(f@[y] == window_byte(m, a_src@, b_src@, 64 * (y % 8), 8 * (y / 8) + v));
            }
        }
        g[v] = t;
    }
    let h = qword_transpose(g);
    let mut r = [Bytes64([0u8; 64]); 8];
    for j in 0..8usize
        invariant
            groups_transposed(g@, h@),
            forall|k: int, x: int|
                0 <= k < 8 && 0 <= x < 64 ==> #[trigger] g@[k]@[x] == window_byte(
                    m,
                    a_src@,
                    b_src@,
                    64 * (x / 8),
                    8 * (x % 8) + k,
                ),
            forall|k: int, i: int|
                0 <= k < j && 0 <= i < 64 ==> #[trigger] r@[k]@[i] == window_byte(m, a_src@, b_src@, 64 * k, i),
    {
        let w = h[j].byte_transpose();
        proof {
            assert forall|i: int| 0 <= i < 64 implies #[trigger] w@[i] == window_byte(
                m,
                a_src@,
                b_src@,
                64 * j,
                i,
            ) by {
                let y = 8 * (i % 8) + i / 8;
                assert(y / 8 == i % 8 && y % 8 == i / 8);
                lemma_groups_transposed(g@, h@, j as int, y);
                let x = 8 * j + i / 8;
                assert(x / 8 == j && x % 8 == i / 8);
                assert(g@[i % 8]@[x] == window_byte(m, a_src@, b_src@, 64 * (x / 8), 8 * (x % 8) + i % 8));
            }
        }
        r[j] = w;
    }
    r
}

/// Over the matrices of a table, the fused pipeline computes the leaf of every window.
pub proof fn law_fused_is_leaf(data: Seq<u8>, mats: Seq<u64>, a: Seq<u8>, b: Seq<u8>, at: int, lane: int)
    requires
        is_composed(data),
        are_table_mats(data, mats),
        0 <= lane < 64,
    ensures
        window_byte(mats, a, b, at, lane) == leaf_byte(data, a, b, at, lane),
{
    reveal(leaf_byte);
    assert forall|k: int| 0 <= k < 8 implies #[trigger] extended(mats, a, at + 8 * k, lane) == applied(
        data,
        a,
        at + 8 * k,
        lane,
    ) && extended(mats, b, at + 8 * k, lane) == applied(data, b, at + 8 * k, lane) by {
        law_extension_is_table_lookup(data, mats, a, at + 8 * k, lane);
        law_extension_is_table_lookup(data, mats, b, at + 8 * k, lane);
    }
    assert(extended(mats, a, at + 8 * 0, lane) == applied(data, a, at + 8 * 0, lane));
    assert(extended(mats, a, at + 8 * 1, lane) == applied(data, a, at + 8 * 1, lane));
    assert(extended(mats, a, at + 8 * 2, lane) == applied(data, a, at + 8 * 2, lane));
    assert(extended(mats, a, at + 8 * 3, lane) == applied(data, a, at + 8 * 3, lane));
    assert(extended(mats, a, at + 8 * 4, lane) == applied(data, a, at + 8 * 4, lane));
    assert(extended(mats, a, at + 8 * 5, lane) == applied(data, a, at + 8 * 5, lane));
    assert(extended(mats, a, at + 8 * 6, lane) == applied(data, a, at + 8 * 6, lane));
    assert(extended(mats, a, at + 8 * 7, lane) == applied(data, a, at + 8 * 7, lane));
}

/// The leaf of a window is what shifting the products of its rows, summing them
/// and one reduction at the end gives.
pub proof fn law_leaf_is_shift_reduce(data: Seq<u8>, a: Seq<u8>, b: Seq<u8>, at: int, lane: int)
    ensures
        leaf_byte(data, a, b, at, lane) == gf8_residue(
            shifted_sum(
                Seq::new(
                    8,
                    |k: int| gf8_mul(applied(data, a, at + 8 * k, lane), applied(data, b, at + 8 * k, lane)),
                ),
            ),
        ),
{
    reveal(leaf_byte);
    let p = Seq::new(
        8,
        |k: int| gf8_mul(applied(data, a, at + 8 * k, lane), applied(data, b, at + 8 * k, lane)),
    );
    law_scaled_sum_is_shift_reduce(p);
}

// ---- the live windows of a batch ----

/// Whether window `j` is live.
pub open spec fn is_live(live: u32, j: int) -> bool {
    (live >> (j as u32)) & 1 == 1
}

/// `s` with the sixty-four bytes `w` at `at`.
pub open spec fn overlaid(s: Seq<u8>, at: int, w: Seq<u8>) -> Seq<u8> {
    Seq::new(
        s.len(),
        |n: int|
            if at <= n < at + 64 {
                w[n - at]
            } else {
                s[n]
            },
    )
}

/// `s` after the first `n` windows of `w` were written, the live ones only, window
/// `j` at `base + j * stride`.
pub open spec fn scattered(s: Seq<u8>, w: Seq<Bytes64>, base: int, stride: int, live: u32, n: nat) -> Seq<u8>
    decreases n,
{
    if n == 0 {
        s
    } else {
        let before = scattered(s, w, base, stride, live, (n - 1) as nat);
        if is_live(live, n - 1) {
            overlaid(before, base + (n - 1) * stride, w[n - 1]@)
        } else {
            before
        }
    }
}

/// Whether byte `n` lies in a live window below `m`.
pub open spec fn in_live_window(base: int, stride: int, live: u32, m: int, n: int) -> bool {
    exists|j: int| 0 <= j < m && #[trigger] is_live(live, j) && base + j * stride <= n < base + j * stride + 64
}

/// Bytes outside the live windows are left as they were.
pub proof fn law_scatter_touches_live_windows_only(
    s: Seq<u8>,
    w: Seq<Bytes64>,
    base: int,
    stride: int,
    live: u32,
    m: nat,
    n: int,
)
    requires
        0 <= n < s.len(),
        !in_live_window(base, stride, live, m as int, n),
    ensures
        scattered(s, w, base, stride, live, m).len() == s.len(),
        scattered(s, w, base, stride, live, m)[n] == s[n],
    decreases m,
{
    if m > 0 {
        let k = (m - 1) as nat;
        if in_live_window(base, stride, live, k as int, n) {
            let j = choose|j: int|
                0 <= j < k && #[trigger] is_live(live, j) && base + j * stride <= n < base + j * stride + 64;
            assert(is_live(live, j));
        }
        law_scatter_touches_live_windows_only(s, w, base, stride, live, k, n);
        if is_live(live, k as int) {
            assert(!(base + k * stride <= n < base + k * stride + 64));
        }
    }
}

/// With windows that do not overlap, every live window holds its result.
pub proof fn law_scatter_writes_live_windows(
    s: Seq<u8>,
    w: Seq<Bytes64>,
    base: int,
    stride: int,
    live: u32,
    m: nat,
    j: int,
    i: int,
)
    requires
        0 <= base,
        64 <= stride,
        0 <= j < m,
        0 <= i < 64,
        is_live(live, j),
        base + j * stride + 64 <= s.len(),
    ensures
        scattered(s, w, base, stride, live, m).len() == s.len(),
        scattered(s, w, base, stride, live, m)[base + j * stride + i] == w[j]@[i],
    decreases m,
{
    let n = base + j * stride + i;
    assert(0 <= j * stride) by (nonlinear_arith)
        requires
            0 <= j,
            64 <= stride,
    ;
    let k = (m - 1) as nat;
    if j == k {
        lemma_scatter_len(s, w, base, stride, live, k);
    } else {
        law_scatter_writes_live_windows(s, w, base, stride, live, k, j, i);
        assert((k - j) * stride >= 64) by (nonlinear_arith)
            requires
                k - j >= 1,
                stride >= 64,
        ;
        assert(k * stride == j * stride + (k - j) * stride) by (nonlinear_arith);
        assert(!(base + k * stride <= n < base + k * stride + 64));
    }
}

proof fn lemma_scatter_len(s: Seq<u8>, w: Seq<Bytes64>, base: int, stride: int, live: u32, m: nat)
    ensures
        scattered(s, w, base, stride, live, m).len() == s.len(),
    decreases m,
{
    if m > 0 {
        lemma_scatter_len(s, w, base, stride, live, (m - 1) as nat);
    }
}

/// Writes the live windows of `w`, window `j` at `out_base + j * out_stride`.
pub fn octa_scatter(w: &[Bytes64; 8], out: &mut [u8], out_base: usize, out_stride: usize, live: u32)
    requires
        forall|j: int|
            0 <= j < 8 && #[trigger] is_live(live, j) ==> out_base + j * out_stride + 64 <= old(out).len(),
    ensures
        final(out)@ == scattered(old(out)@, w@, out_base as int, out_stride as int, live, 8),
{
    let ghost before = out@;
    for j in 0..8usize
        invariant
            out.len() == before.len(),
            forall|j: int|
                0 <= j < 8 && #[trigger] is_live(live, j) ==> out_base + j * out_stride + 64 <= out.len(),
            out@ == scattered(before, w@, out_base as int, out_stride as int, live, j as nat),
    {
        if (live >> (j as u32)) & 1 == 1 {
            assert(is_live(live, j as int));
            assert(out_base + j * out_stride + 64 <= out.len());
            assert(0 <= j * out_stride) by (nonlinear_arith);
            let ghost was = out@;
            w[j].store(out, out_base + j * out_stride);
            assert(out@ =~= overlaid(was, out_base + j * out_stride, w@[j as int]@));
        }
    }
}

/// Transforms the eight windows of a stage and publishes the live ones: window `j`
/// is read at `64 j` and written at `out_base + j * out_stride`.
pub fn round1_ab_inner_octa_gfni(
    a_stage: &[u8],
    b_stage: &[u8],
    out: &mut [u8],
    out_base: usize,
    out_stride: usize,
    live: u32,
    mats: &[[u64; 8]; 8],
) -> (w: [Bytes64; 8])
    requires
        a_stage.len() == 512,
        b_stage.len() == 512,
        forall|j: int|
            0 <= j < 8 && #[trigger] is_live(live, j) ==> out_base + j * out_stride + 64 <= old(out).len(),
    ensures
        forall|j: int, i: int|
            0 <= j < 8 && 0 <= i < 64 ==> #[trigger] w@[j]@[i] == window_byte(
                flat(mats@),
                a_stage@,
                b_stage@,
                64 * j,
                i,
            ),
        final(out)@ == scattered(old(out)@, w@, out_base as int, out_stride as int, live, 8),
{
    let w = fused_ab8(a_stage, b_stage, mats);
    octa_scatter(&w, out, out_base, out_stride, live);
    w
}

// ---- the cached matrix block ----

/// The unit rows of the table, one after another.
pub open spec fn is_fingerprint(data: Seq<u8>, fp: Seq<u8>) -> bool {
    forall|n: int|
        0 <= n < 512 ==> #[trigger] fp[n] == data[64 * pow2((n / 64) as nat) + n % 64]
}

/// The unit images at output `i`, out of a fingerprint.
pub open spec fn fingerprint_word(fp: Seq<u8>, i: int) -> u64 {
    le_u64(fp[i], fp[64 + i], fp[128 + i], fp[192 + i], fp[256 + i], fp[320 + i], fp[384 + i], fp[448 + i])
}

/// A matrix block, and the unit rows of the table that it was built from.
#[derive(Clone, Copy, Debug)]
pub struct CachedMats {
    pub fingerprint: [u8; 512],
    pub mats: [[u64; 8]; 8],
}

impl CachedMats {
    /// The matrices are those of the unit rows.
    pub open spec fn wf(&self) -> bool {
        forall|i: int|
            0 <= i < 64 ==> #[trigger] flat(self.mats@)[i] == columns_matrix(
                fingerprint_word(self.fingerprint@, i),
            )
    }
}

/// The unit rows of the table, one after another.
pub fn fingerprint_of(inv_table: &InvNttTableByteSingleGf8) -> (fp: [u8; 512])
    requires
        inv_table.data.len() == 256 * 64,
    ensures
        is_fingerprint(inv_table.data@, fp@),
{
    let d = &inv_table.data;
    let mut fp = [0u8; 512];
    let mut row: usize = 64;
    proof {
        lemma2_to64();
    }
    for t in 0..8usize
        invariant
            d.len() == 256 * 64,
            row == 64 * pow2(t as nat),
            forall|n: int| 0 <= n < 64 * t ==> #[trigger] fp@[n] == d@[64 * pow2((n / 64) as nat) + n % 64],
    {
        proof {
            lemma2_to64();
            assert(t == 0 || t == 1 || t == 2 || t == 3 || t == 4 || t == 5 || t == 6 || t == 7);
        }
        for i in 0..64usize
            invariant
                t < 8,
                d.len() == 256 * 64,
                row == 64 * pow2(t as nat),
                row <= 64 * 128,
                forall|n: int|
                    0 <= n < 64 * t + i ==> #[trigger] fp@[n] == d@[64 * pow2((n / 64) as nat) + n % 64],
        {
            assert((64 * t + i) / 64 == t && (64 * t + i) % 64 == i);
            fp[64 * t + i] = d[row + i];
        }
        row = 2 * row;
    }
    fp
}

/// A fingerprint holds the unit words of its table.
proof fn lemma_fingerprint_word(data: Seq<u8>, fp: Seq<u8>, i: int)
    requires
        is_fingerprint(data, fp),
        0 <= i < 64,
    ensures
        fingerprint_word(fp, i) == unit_word(data, i),
{
    lemma2_to64();
    assert(fp[i] == data[64 * pow2((i / 64) as nat) + i % 64]);
    assert(fp[64 + i] == data[64 * pow2(((64 + i) / 64) as nat) + (64 + i) % 64]);
    assert(fp[128 + i] == data[64 * pow2(((128 + i) / 64) as nat) + (128 + i) % 64]);
    assert(fp[192 + i] == data[64 * pow2(((192 + i) / 64) as nat) + (192 + i) % 64]);
    assert(fp[256 + i] == data[64 * pow2(((256 + i) / 64) as nat) + (256 + i) % 64]);
    assert(fp[320 + i] == data[64 * pow2(((320 + i) / 64) as nat) + (320 + i) % 64]);
    assert(fp[384 + i] == data[64 * pow2(((384 + i) / 64) as nat) + (384 + i) % 64]);
    assert(fp[448 + i] == data[64 * pow2(((448 + i) / 64) as nat) + (448 + i) % 64]);
}

/// Whether two fingerprints are the same.
fn same_fingerprint(a: &[u8; 512], b: &[u8; 512]) -> (r: bool)
    ensures
        r == (a@ == b@),
{
    for n in 0..512usize
        invariant
            forall|k: int| 0 <= k < n ==> a@[k] == b@[k],
    {
        if a[n] != b[n] {
            return false;
        }
    }
    assert(a@ =~= b@);
    true
}

/// The matrix block for the table, or nothing: when the matrix form is off, when
/// the table is not of the ranked shape, or when the block in the cache belongs to
/// another table. The first call that gets past the first two fills the cache.
pub fn prepare_extend_mats(
    inv_table: &InvNttTableByteSingleGf8,
    enabled: bool,
    cache: &mut Option<CachedMats>,
) -> (r: Option<[[u64; 8]; 8]>)
    requires
        inv_table.is_ranked_shape() ==> inv_table.data.len() == 256 * 64,
        *old(cache) matches Some(c) ==> c.wf(),
    ensures
        *final(cache) matches Some(c) ==> c.wf(),
        !(enabled && inv_table.is_ranked_shape()) ==> r is None && *final(cache) == *old(cache),
        enabled && inv_table.is_ranked_shape() ==> *final(cache) is Some,
        enabled && inv_table.is_ranked_shape() && *old(cache) is Some ==> *final(cache) == *old(cache),
        enabled && inv_table.is_ranked_shape() && *old(cache) is None ==> is_fingerprint(
            inv_table.data@,
            (*final(cache))->Some_0.fingerprint@,
        ),
        enabled && inv_table.is_ranked_shape() ==> (r is Some <==> is_fingerprint(
            inv_table.data@,
            (*final(cache))->Some_0.fingerprint@,
        )),
        r matches Some(m) ==> m == (*final(cache))->Some_0.mats && are_table_mats(inv_table.data@, flat(m@)),
{
    if !enabled || inv_table.k != 6 || inv_table.ell != ELL || inv_table.n_chunks != CHUNKS {
        return None;
    }
    let fp = fingerprint_of(inv_table);
    let cached = match *cache {
        Some(c) => c,
        None => {
            let c = CachedMats { fingerprint: fp, mats: build_extend_mats_vslice(inv_table) };
            proof {
                assert forall|i: int| 0 <= i < 64 implies #[trigger] flat(c.mats@)[i] == columns_matrix(
                    fingerprint_word(c.fingerprint@, i),
                ) by {
                    lemma_fingerprint_word(inv_table.data@, fp@, i);
                }
            }
            *cache = Some(c);
            c
        },
    };
    let same = same_fingerprint(&cached.fingerprint, &fp);
    proof {
        if is_fingerprint(inv_table.data@, cached.fingerprint@) {
            assert(cached.fingerprint@ =~= fp@) by {
                assert forall|n: int| 0 <= n < 512 implies cached.fingerprint@[n] == fp@[n] by {
                    assert(fp@[n] == inv_table.data@[64 * pow2((n / 64) as nat) + n % 64]);
                }
            }
        }
        if same {
            assert forall|i: int| 0 <= i < 64 implies #[trigger] flat(cached.mats@)[i] == columns_matrix(
                unit_word(inv_table.data@, i),
            ) by {
                lemma_fingerprint_word(inv_table.data@, fp@, i);
            }
        }
    }
    if same {
        Some(cached.mats)
    } else {
        None
    }
}

// ---- entry points on whole batches ----

/// Extends a batch of rows by its matrices, row by row.
pub fn flock_probe_gfni_extend64_rows(src: &ExtendSrc, mats: &[u64; 64], out: &mut ExtendDst)
    ensures
        forall|r: int, i: int|
            0 <= r < 64 && 0 <= i < 64 ==> #[trigger] final(out)@[64 * r + i] == extended(mats@, src@, 8 * r, i),
{
    extend64_rows(src, mats, out);
}

/// Extends a batch of rows by its matrices, plane by plane.
pub fn flock_probe_gfni_extend64_planes(src: &ExtendSrc, mats: &[u64; 64], out: &mut ExtendDst)
    ensures
        forall|i: int, r: int|
            0 <= i < 64 && 0 <= r < 64 ==> #[trigger] final(out)@[64 * i + r] == extended(mats@, src@, 8 * r, i),
{
    extend64_planes(src, mats, out);
}

/// The fused product of eight windows.
pub fn flock_probe_gfni_fused_ab8(
    a_src: &ExtendSrc,
    b_src: &ExtendSrc,
    mats: &[[u64; 8]; 8],
    out: &mut [[u8; 64]; 8],
)
    ensures
        forall|j: int, i: int|
            0 <= j < 8 && 0 <= i < 64 ==> #[trigger] final(out)@[j]@[i] == window_byte(
                flat(mats@),
                a_src@,
                b_src@,
                64 * j,
                i,
            ),
{
    let r = fused_ab8(a_src, b_src, mats);
    for j in 0..8usize
        invariant
            forall|j: int, i: int|
                0 <= j < 8 && 0 <= i < 64 ==> #[trigger] r@[j]@[i] == window_byte(
                    flat(mats@),
                    a_src@,
                    b_src@,
                    64 * j,
                    i,
                ),
            forall|k: int, i: int|
                0 <= k < j && 0 <= i < 64 ==> #[trigger] out@[k]@[i] == window_byte(
                    flat(mats@),
                    a_src@,
                    b_src@,
                    64 * k,
                    i,
                ),
    {
        let w = r[j];
        proof {
            assert forall|i: int| 0 <= i < 64 implies #[trigger] w.0@[i] == window_byte(
                flat(mats@),
                a_src@,
                b_src@,
                64 * j,
                i,
            ) by {
                assert(r@[j as int]@[i] == window_byte(flat(mats@), a_src@, b_src@, 64 * j, i));
            }
        }
        out[j] = w.0;
    }
}

/// The product of eight windows by table lookups.
pub fn flock_probe_incumbent_ab8(
    a_src: &ExtendSrc,
    b_src: &ExtendSrc,
    inv_table: &InvNttTableByteSingleGf8,
    out: &mut [[u8; 64]; 8],
)
    requires
        inv_table.ell == ELL,
        inv_table.data.len() == 256 * 64,
    ensures
        forall|j: int, i: int|
            0 <= j < 8 && 0 <= i < 64 ==> #[trigger] final(out)@[j]@[i] == leaf_byte(
                inv_table.data@,
                a_src@,
                b_src@,
                64 * j,
                i,
            ),
{
    for j in 0..8usize
        invariant
            inv_table.ell == ELL,
            inv_table.data.len() == 256 * 64,
            forall|k: int, i: int|
                0 <= k < j && 0 <= i < 64 ==> #[trigger] out@[k]@[i] == leaf_byte(
                    inv_table.data@,
                    a_src@,
                    b_src@,
                    64 * k,
                    i,
                ),
    {
        let mut w = [0u8; 64];
        shift_reduce_inner_ab_x86_avx512(a_src, b_src, inv_table, 0, j, &mut w);
        out[j] = w;
    }
}

/// Extends a batch of rows by table lookups, row by row.
pub fn flock_probe_incumbent_extend64(src: &ExtendSrc, inv_table: &InvNttTableByteSingleGf8, out: &mut ExtendDst)
    requires
        inv_table.ell == ELL,
        inv_table.data.len() == 256 * 64,
    ensures
        forall|r: int, i: int|
            0 <= r < 64 && 0 <= i < 64 ==> #[trigger] final(out)@[64 * r + i] == applied(
                inv_table.data@,
                src@,
                8 * r,
                i,
            ),
{
    for n in 0..4096usize
        invariant
            inv_table.ell == ELL,
            inv_table.data.len() == 256 * 64,
            forall|k: int|
                0 <= k < n ==> #[trigger] out@[k] == applied(inv_table.data@, src@, 8 * (k / 64), k % 64),
    {
        out[n] = inv_table.apply_at(src, 8 * (n / 64), n % 64);
    }
    proof {
        assert forall|r: int, i: int| 0 <= r < 64 && 0 <= i < 64 implies #[trigger] out@[64 * r + i] == applied(
            inv_table.data@,
            src@,
            8 * r,
            i,
        ) by {
            assert((64 * r + i) / 64 == r && (64 * r + i) % 64 == i);
        }
    }
}

} // verus!
