//! Folding packed rows through byte tables.
//!
//! A row is eight packed bytes; its fold is the sum of one table entry per byte.
//! Where the tables are linear in the byte, sixty-four rows fold in one batch of
//! bit-matrix products.

use crate::bits::{le_byte, le_u64, lemma_le_round_trip, lemma_word_facts};
use crate::bytes64::{
    affine_byte, columns_matrix, compose_word, law_matrix_sums_columns, lemma_groups_transposed, lemma_qword_byte,
    lemma_word_bytes, matrix_from_columns, qword_of, qword_transpose, xor8, xor8_bytes, Bytes64,
};
use crate::field::gf2_128::{
    fadd, fmul, fzero, law_fadd_zero, lemma_fadd_swap4, law_fmul_add_right, law_fmul_zero, F128,
};
use crate::field::gf2_8::gf8_select;
use vstd::prelude::*;

verus! {

/// Entries of the fold tables: eight tables of 256.
pub const TABLE_LEN: usize = 2048;

/// The sum of the table entries of the first `n` bytes of a row.
pub open spec fn row_fold_upto(table: Seq<F128>, pkt: Seq<u8>, row: int, n: nat) -> F128
    decreases n,
{
    if n == 0 {
        fzero()
    } else {
        fadd(
            row_fold_upto(table, pkt, row, (n - 1) as nat),
            table[256 * (n - 1) + pkt[8 * row + n - 1]],
        )
    }
}

/// The fold of packed row `row`: the sum over its eight bytes of the entry that
/// the byte selects in its table.
pub open spec fn row_fold(table: Seq<F128>, pkt: Seq<u8>, row: int) -> F128 {
    row_fold_upto(table, pkt, row, 8)
}

/// Folds the four rows of one pair by table look-ups: rows `row0` and `row1` of
/// `a`, then of `b`.
pub fn fold_round2_pair(table: &[F128], a_pkt: &[u8], b_pkt: &[u8], row0: usize, row1: usize) -> (r: [F128; 4])
    requires
        table.len() == 2048,
        8 * row0 + 8 <= a_pkt.len(),
        8 * row1 + 8 <= a_pkt.len(),
        8 * row0 + 8 <= b_pkt.len(),
        8 * row1 + 8 <= b_pkt.len(),
    ensures
        r@[0] == row_fold(table@, a_pkt@, row0 as int),
        r@[1] == row_fold(table@, a_pkt@, row1 as int),
        r@[2] == row_fold(table@, b_pkt@, row0 as int),
        r@[3] == row_fold(table@, b_pkt@, row1 as int),
{
    let mut a0 = F128::zero();
    let mut a1 = F128::zero();
    let mut b0 = F128::zero();
    let mut b1 = F128::zero();
    for c in 0..8usize
        invariant
            table.len() == 2048,
            8 * row0 + 8 <= a_pkt.len(),
            8 * row1 + 8 <= a_pkt.len(),
            8 * row0 + 8 <= b_pkt.len(),
            8 * row1 + 8 <= b_pkt.len(),
            a0 == row_fold_upto(table@, a_pkt@, row0 as int, c as nat),
            a1 == row_fold_upto(table@, a_pkt@, row1 as int, c as nat),
            b0 == row_fold_upto(table@, b_pkt@, row0 as int, c as nat),
            b1 == row_fold_upto(table@, b_pkt@, row1 as int, c as nat),
    {
        a0 = a0 + table[256 * c + a_pkt[8 * row0 + c] as usize];
        a1 = a1 + table[256 * c + a_pkt[8 * row1 + c] as usize];
        b0 = b0 + table[256 * c + b_pkt[8 * row0 + c] as usize];
        b1 = b1 + table[256 * c + b_pkt[8 * row1 + c] as usize];
    }
    [a0, a1, b0, b1]
}

// ---- linear tables ----

/// Byte `k` of a field element, the lowest first.
pub open spec fn f128_byte(v: F128, k: int) -> u8 {
    if k < 8 {
        le_byte(v.lo, k)
    } else {
        le_byte(v.hi, k - 8)
    }
}

/// `v` if the lowest bit of `bit` is set, zero otherwise.
pub open spec fn f128_select(v: F128, bit: u8) -> F128 {
    if bit & 1 == 1 {
        v
    } else {
        fzero()
    }
}

/// The sum of the eight elements of `v` over the set bits of `w`.
pub open spec fn select_sum(v: Seq<F128>, w: u8) -> F128 {
    fadd(
        fadd(
            fadd(
                fadd(
                    fadd(
                        fadd(
                            fadd(f128_select(v[0], w), f128_select(v[1], w >> 1)),
                            f128_select(v[2], w >> 2),
                        ),
                        f128_select(v[3], w >> 3),
                    ),
                    f128_select(v[4], w >> 4),
                ),
                f128_select(v[5], w >> 5),
            ),
            f128_select(v[6], w >> 6),
        ),
        f128_select(v[7], w >> 7),
    )
}

/// The unit entries of table `j`.
pub open spec fn unit_entries(table: Seq<F128>, j: int) -> Seq<F128> {
    seq![
        table[256 * j + 1],
        table[256 * j + 2],
        table[256 * j + 4],
        table[256 * j + 8],
        table[256 * j + 16],
        table[256 * j + 32],
        table[256 * j + 64],
        table[256 * j + 128],
    ]
}

/// The sum of the unit entries of table `j` over the set bits of `w`.
pub open spec fn compose_entry(table: Seq<F128>, j: int, w: u8) -> F128 {
    select_sum(unit_entries(table, j), w)
}

/// Whether every entry is the sum of the unit entries over the bits of its index.
pub open spec fn tables_linear(table: Seq<F128>) -> bool {
    forall|j: int, w: u8|
        0 <= j < 8 ==> table[256 * j + w] == #[trigger] compose_entry(table, j, w)
}

/// Byte `k` of the eight elements of `v`, as a word.
pub open spec fn column_of(v: Seq<F128>, k: int) -> u64 {
    le_u64(
        f128_byte(v[0], k),
        f128_byte(v[1], k),
        f128_byte(v[2], k),
        f128_byte(v[3], k),
        f128_byte(v[4], k),
        f128_byte(v[5], k),
        f128_byte(v[6], k),
        f128_byte(v[7], k),
    )
}

/// Byte `k` of the eight unit entries of table `j`, as a word.
pub open spec fn basis_column(table: Seq<F128>, j: int, k: int) -> u64 {
    column_of(unit_entries(table, j), k)
}

/// Whether `mats` holds the bit matrices of the tables: matrix `16 j + k` takes
/// a byte to byte `k` of its entry in table `j`.
pub open spec fn mats_of(table: Seq<F128>, mats: Seq<u64>) -> bool {
    forall|j: int, k: int|
        0 <= j < 8 && 0 <= k < 16 ==> mats[16 * j + k] == columns_matrix(#[trigger] basis_column(table, j, k))
}

/// Byte `k` of a field element.
pub fn f128_byte_exec(v: F128, k: usize) -> (r: u8)
    requires
        k < 16,
    ensures
        r == f128_byte(v, k as int),
{
    if k < 8 {
        (v.lo >> ((8 * k) as u64)) as u8
    } else {
        (v.hi >> ((8 * (k - 8)) as u64)) as u8
    }
}

/// The bit matrices of the eight byte tables, from their unit entries alone.
pub fn build_row_fold_mats(data: &[F128]) -> (mats: [u64; 128])
    requires
        data.len() == 2048,
    ensures
        mats_of(data@, mats@),
{
    let mut mats = [0u64; 128];
    for j in 0..8usize
        invariant
            data.len() == 2048,
            forall|i: int|
                0 <= i < 16 * j ==> #[trigger] mats@[i] == columns_matrix(basis_column(data@, i / 16, i % 16)),
    {
        for k in 0..16usize
            invariant
                data.len() == 2048,
                j < 8,
                forall|i: int|
                    0 <= i < 16 * j + k ==> #[trigger] mats@[i] == columns_matrix(
                        basis_column(data@, i / 16, i % 16),
                    ),
        {
            let b = 256 * j;
            let col: u64 = (f128_byte_exec(data[b + 1], k) as u64) | ((f128_byte_exec(data[b + 2], k) as u64) << 8)
                | ((f128_byte_exec(data[b + 4], k) as u64) << 16) | ((f128_byte_exec(data[b + 8], k) as u64)
                << 24) | ((f128_byte_exec(data[b + 16], k) as u64) << 32) | ((f128_byte_exec(data[b + 32], k)
                as u64) << 40) | ((f128_byte_exec(data[b + 64], k) as u64) << 48) | ((f128_byte_exec(
                data[b + 128],
                k,
            ) as u64) << 56);
            mats[16 * j + k] = matrix_from_columns(col);
            proof {
                assert((16 * j + k) / 16 == j && (16 * j + k) % 16 == k);
                assert(col == basis_column(data@, j as int, k as int));
            }
        }
    }
    proof {
        assert forall|j: int, k: int| 0 <= j < 8 && 0 <= k < 16 implies mats@[16 * j + k] == columns_matrix(
            #[trigger] basis_column(data@, j, k),
        ) by {
            assert((16 * j + k) / 16 == j && (16 * j + k) % 16 == k);
        }
    }
    mats
}

proof fn lemma_byte_of_xor_bits(a: u64, b: u64, s: u64, v: u8, w: u8, i: u8)
    by (bit_vector)
    ensures
        (((v ^ w) >> i) & 1 == 1) == (((v >> i) & 1 == 1) != ((w >> i) & 1 == 1)),
        v >> 0u8 == v,
        w < 8 && i < 8 ==> (((1u8 << w) >> i) & 1 == 1) == (w == i),
        (1u8 << w) >> 0u8 == 1u8 << w,
        ((a ^ b) >> s) as u8 == ((a >> s) as u8) ^ ((b >> s) as u8),
        (0u64 >> s) as u8 == 0,
{
}

/// Bytes of a sum, and of zero.
pub proof fn lemma_f128_byte_add(a: F128, b: F128, k: int)
    requires
        0 <= k < 16,
    ensures
        f128_byte(fadd(a, b), k) == f128_byte(a, k) ^ f128_byte(b, k),
        f128_byte(fzero(), k) == 0,
{
    if k < 8 {
        lemma_byte_of_xor_bits(a.lo, b.lo, (8 * k) as u64, 0, 0, 0);
    } else {
        lemma_byte_of_xor_bits(a.hi, b.hi, (8 * (k - 8)) as u64, 0, 0, 0);
    }
}

proof fn lemma_f128_byte_select(v: F128, bit: u8, k: int)
    requires
        0 <= k < 16,
    ensures
        f128_byte(f128_select(v, bit), k) == gf8_select(f128_byte(v, k), bit),
{
    lemma_f128_byte_add(v, v, k);
}

/// Every byte of a selected sum is the selected sum of the bytes.
pub proof fn lemma_select_sum_byte(v: Seq<F128>, w: u8, k: int)
    requires
        0 <= k < 16,
    ensures
        f128_byte(select_sum(v, w), k) == compose_word(column_of(v, k), w),
{
    let s0 = f128_select(v[0], w);
    let s1 = f128_select(v[1], w >> 1);
    let s2 = f128_select(v[2], w >> 2);
    let s3 = f128_select(v[3], w >> 3);
    let s4 = f128_select(v[4], w >> 4);
    let s5 = f128_select(v[5], w >> 5);
    let s6 = f128_select(v[6], w >> 6);
    let s7 = f128_select(v[7], w >> 7);
    let t1 = fadd(s0, s1);
    let t2 = fadd(t1, s2);
    let t3 = fadd(t2, s3);
    let t4 = fadd(t3, s4);
    let t5 = fadd(t4, s5);
    let t6 = fadd(t5, s6);
    lemma_f128_byte_add(s0, s1, k);
    lemma_f128_byte_add(t1, s2, k);
    lemma_f128_byte_add(t2, s3, k);
    lemma_f128_byte_add(t3, s4, k);
    lemma_f128_byte_add(t4, s5, k);
    lemma_f128_byte_add(t5, s6, k);
    lemma_f128_byte_add(t6, s7, k);
    lemma_f128_byte_select(v[0], w, k);
    lemma_f128_byte_select(v[1], w >> 1, k);
    lemma_f128_byte_select(v[2], w >> 2, k);
    lemma_f128_byte_select(v[3], w >> 3, k);
    lemma_f128_byte_select(v[4], w >> 4, k);
    lemma_f128_byte_select(v[5], w >> 5, k);
    lemma_f128_byte_select(v[6], w >> 6, k);
    lemma_f128_byte_select(v[7], w >> 7, k);
    let col = column_of(v, k);
    lemma_word_bytes(
        f128_byte(v[0], k),
        f128_byte(v[1], k),
        f128_byte(v[2], k),
        f128_byte(v[3], k),
        f128_byte(v[4], k),
        f128_byte(v[5], k),
        f128_byte(v[6], k),
        f128_byte(v[7], k),
    );
    reveal(compose_word);
    lemma_word_facts(col, 0, 0, 0, 0, 0);
}

/// The matrices reproduce linear tables: matrix `16 j + k` takes every byte to
/// byte `k` of the byte's entry in table `j`.
pub proof fn law_mats_reproduce_tables(table: Seq<F128>, mats: Seq<u64>, j: int, w: u8, k: int)
    requires
        tables_linear(table),
        mats_of(table, mats),
        0 <= j < 8,
        0 <= k < 16,
    ensures
        affine_byte(mats[16 * j + k], w) == f128_byte(table[256 * j + w], k),
{
    let col = basis_column(table, j, k);
    assert(mats[16 * j + k] == columns_matrix(col));
    law_matrix_sums_columns(col, w);
    assert(table[256 * j + w] == compose_entry(table, j, w));
    lemma_select_sum_byte(unit_entries(table, j), w, k);
}

// ---- batches of sixty-four rows ----

/// Output byte `k` of a row: the sum over its bytes `j` of matrix `16 j + k` applied to byte `j`.
pub open spec fn batch_byte(mats: Seq<u64>, row: Seq<u8>, k: int) -> u8 {
    xor8_bytes(
        affine_byte(mats[k], row[0]),
        affine_byte(mats[16 + k], row[1]),
        affine_byte(mats[32 + k], row[2]),
        affine_byte(mats[48 + k], row[3]),
        affine_byte(mats[64 + k], row[4]),
        affine_byte(mats[80 + k], row[5]),
        affine_byte(mats[96 + k], row[6]),
        affine_byte(mats[112 + k], row[7]),
    )
}

/// The eight bytes of row `r` of a batch.
pub open spec fn batch_row(z: Seq<Bytes64>, r: int) -> Seq<u8> {
    Seq::new(8, |j: int| z[r / 8]@[8 * (r % 8) + j])
}

/// Byte `j` of all sixty-four rows, for each `j`.
fn byte_planes(z: [Bytes64; 8]) -> (p: [Bytes64; 8])
    ensures
        forall|j: int, r: int| 0 <= j < 8 && 0 <= r < 64 ==> #[trigger] p@[j]@[r] == z@[r / 8]@[8 * (r % 8) + j],
{
    let mut t = [Bytes64::zero(); 8];
    for i in 0..8usize
        invariant
            forall|m: int, b: int|
                0 <= m < i && 0 <= b < 64 ==> #[trigger] t@[m]@[b] == z@[m]@[8 * (b % 8) + b / 8],
    {
        t[i] = z[i].byte_transpose();
    }
    let p = qword_transpose(t);
    proof {
        assert forall|j: int, r: int| 0 <= j < 8 && 0 <= r < 64 implies #[trigger] p@[j]@[r] == z@[r / 8]@[8 * (r
            % 8) + j] by {
            lemma_groups_transposed(t@, p@, j, r);
            let b = 8 * j + r % 8;
            assert(b / 8 == j && b % 8 == r % 8);
            assert(t@[r / 8]@[b] == z@[r / 8]@[8 * (b % 8) + b / 8]);
        }
    }
    p
}

/// Output-byte plane `k`: eight bit-matrix products, summed.
fn fold_plane(p: &[Bytes64; 8], mats: &[u64; 128], k: usize) -> (r: Bytes64)
    requires
        k < 16,
    ensures
        forall|i: int|
            0 <= i < 64 ==> #[trigger] r@[i] == xor8_bytes(
                affine_byte(mats@[k as int], p@[0]@[i]),
                affine_byte(mats@[16 + k], p@[1]@[i]),
                affine_byte(mats@[32 + k], p@[2]@[i]),
                affine_byte(mats@[48 + k], p@[3]@[i]),
                affine_byte(mats@[64 + k], p@[4]@[i]),
                affine_byte(mats@[80 + k], p@[5]@[i]),
                affine_byte(mats@[96 + k], p@[6]@[i]),
                affine_byte(mats@[112 + k], p@[7]@[i]),
            ),
{
    let g = [
        p[0].affine(mats[k]),
        p[1].affine(mats[16 + k]),
        p[2].affine(mats[32 + k]),
        p[3].affine(mats[48 + k]),
        p[4].affine(mats[64 + k]),
        p[5].affine(mats[80 + k]),
        p[6].affine(mats[96 + k]),
        p[7].affine(mats[112 + k]),
    ];
    xor8(&g)
}

/// Eight planes back to rows: byte `8 q + k` of vector `i` is plane `k` at row `8 i + q`.
fn planes_to_rows(acc: [Bytes64; 8]) -> (h: [Bytes64; 8])
    ensures
        forall|i: int, b: int|
            0 <= i < 8 && 0 <= b < 64 ==> #[trigger] h@[i]@[b] == acc@[b % 8]@[8 * i + b / 8],
{
    let t = qword_transpose(acc);
    let mut h = [Bytes64::zero(); 8];
    for i in 0..8usize
        invariant
            forall|m: int, b: int|
                0 <= m < i && 0 <= b < 64 ==> #[trigger] h@[m]@[b] == t@[m]@[8 * (b % 8) + b / 8],
    {
        h[i] = t[i].byte_transpose();
    }
    proof {
        assert forall|i: int, b: int| 0 <= i < 8 && 0 <= b < 64 implies #[trigger] h@[i]@[b] == acc@[b % 8]@[8 * i
            + b / 8] by {
            let c = 8 * (b % 8) + b / 8;
            assert(h@[i]@[b] == t@[i]@[c]);
            lemma_groups_transposed(acc@, t@, i, c);
            assert(c / 8 == b % 8 && c % 8 == b / 8);
        }
    }
    h
}

/// Folds sixty-four rows held in eight vectors: group `q` of `z[i]` is row `8 i + q`.
pub fn gfni_fold64_regs(z: [Bytes64; 8], mats: &[u64; 128]) -> (out: [F128; 64])
    ensures
        forall|r: int, k: int|
            0 <= r < 64 && 0 <= k < 16 ==> #[trigger] f128_byte(out@[r], k) == batch_byte(
                mats@,
                batch_row(z@, r),
                k,
            ),
{
    let p = byte_planes(z);
    let mut lo_acc = [Bytes64::zero(); 8];
    let mut hi_acc = [Bytes64::zero(); 8];
    for k in 0..8usize
        invariant
            forall|j: int, r: int|
                0 <= j < 8 && 0 <= r < 64 ==> #[trigger] p@[j]@[r] == z@[r / 8]@[8 * (r % 8) + j],
            forall|m: int, r: int|
                0 <= m < k && 0 <= r < 64 ==> #[trigger] lo_acc@[m]@[r] == batch_byte(
                    mats@,
                    batch_row(z@, r),
                    m,
                ),
            forall|m: int, r: int|
                0 <= m < k && 0 <= r < 64 ==> #[trigger] hi_acc@[m]@[r] == batch_byte(
                    mats@,
                    batch_row(z@, r),
                    m + 8,
                ),
    {
        lo_acc[k] = fold_plane(&p, mats, k);
        hi_acc[k] = fold_plane(&p, mats, k + 8);
    }
    let lo_half = planes_to_rows(lo_acc);
    let hi_half = planes_to_rows(hi_acc);
    let mut out = [F128::zero(); 64];
    for r in 0..64usize
        invariant
            forall|i: int|
                0 <= i < r ==> #[trigger] out@[i] == (F128 {
                    lo: qword_of(lo_half@[i / 8]@, i % 8),
                    hi: qword_of(hi_half@[i / 8]@, i % 8),
                }),
    {
        out[r] = F128 { lo: lo_half[r / 8].qword(r % 8), hi: hi_half[r / 8].qword(r % 8) };
    }
    proof {
        assert forall|r: int, k: int| 0 <= r < 64 && 0 <= k < 16 implies #[trigger] f128_byte(out@[r], k)
            == batch_byte(mats@, batch_row(z@, r), k) by {
            let i = r / 8;
            let q = r % 8;
            if k < 8 {
                lemma_qword_byte(lo_half@[i]@, q, k);
                let b = 8 * q + k;
                assert(b / 8 == q && b % 8 == k);
                assert(lo_half@[i]@[b] == lo_acc@[k]@[8 * i + q]);
                assert(lo_acc@[k]@[r] == batch_byte(mats@, batch_row(z@, r), k));
            } else {
                lemma_qword_byte(hi_half@[i]@, q, k - 8);
                let b = 8 * q + (k - 8);
                assert(b / 8 == q && b % 8 == k - 8);
                assert(hi_half@[i]@[b] == hi_acc@[k - 8]@[8 * i + q]);
                assert(hi_acc@[k - 8]@[r] == batch_byte(mats@, batch_row(z@, r), k - 8 + 8));
            }
        }
    }
    out
}

/// Folds the sixty-four consecutive packed rows from `row` on.
pub fn gfni_fold64_rows(pkt: &[u8], row: usize, mats: &[u64; 128]) -> (out: [F128; 64])
    requires
        8 * row + 512 <= pkt.len(),
    ensures
        forall|r: int, k: int|
            0 <= r < 64 && 0 <= k < 16 ==> #[trigger] f128_byte(out@[r], k) == batch_byte(
                mats@,
                pkt@.subrange(8 * (row + r), 8 * (row + r) + 8),
                k,
            ),
{
    let mut z = [Bytes64::zero(); 8];
    for i in 0..8usize
        invariant
            8 * row + 512 <= pkt.len(),
            forall|m: int, b: int|
                0 <= m < i && 0 <= b < 64 ==> #[trigger] z@[m]@[b] == pkt@[8 * row + 64 * m + b],
    {
        z[i] = Bytes64::load(pkt, 8 * row + 64 * i);
    }
    let out = gfni_fold64_regs(z, mats);
    proof {
        assert forall|r: int, k: int| 0 <= r < 64 && 0 <= k < 16 implies #[trigger] f128_byte(out@[r], k)
            == batch_byte(mats@, pkt@.subrange(8 * (row + r), 8 * (row + r) + 8), k) by {
            let want = pkt@.subrange(8 * (row + r), 8 * (row + r) + 8);
            assert forall|j: int| 0 <= j < 8 implies batch_row(z@, r)[j] == want[j] by {
                assert(z@[r / 8]@[8 * (r % 8) + j] == pkt@[8 * row + 64 * (r / 8) + (8 * (r % 8) + j)]);
            }
            assert(batch_row(z@, r) =~= want);
        }
    }
    out
}

proof fn lemma_f128_from_bytes(a: F128, b: F128)
    requires
        forall|k: int| 0 <= k < 16 ==> #[trigger] f128_byte(a, k) == f128_byte(b, k),
    ensures
        a == b,
{
    lemma_le_round_trip(a.lo);
    lemma_le_round_trip(a.hi);
    lemma_le_round_trip(b.lo);
    lemma_le_round_trip(b.hi);
    assert(f128_byte(a, 0) == f128_byte(b, 0));
    assert(f128_byte(a, 1) == f128_byte(b, 1));
    assert(f128_byte(a, 2) == f128_byte(b, 2));
    assert(f128_byte(a, 3) == f128_byte(b, 3));
    assert(f128_byte(a, 4) == f128_byte(b, 4));
    assert(f128_byte(a, 5) == f128_byte(b, 5));
    assert(f128_byte(a, 6) == f128_byte(b, 6));
    assert(f128_byte(a, 7) == f128_byte(b, 7));
    assert(f128_byte(a, 8) == f128_byte(b, 8));
    assert(f128_byte(a, 9) == f128_byte(b, 9));
    assert(f128_byte(a, 10) == f128_byte(b, 10));
    assert(f128_byte(a, 11) == f128_byte(b, 11));
    assert(f128_byte(a, 12) == f128_byte(b, 12));
    assert(f128_byte(a, 13) == f128_byte(b, 13));
    assert(f128_byte(a, 14) == f128_byte(b, 14));
    assert(f128_byte(a, 15) == f128_byte(b, 15));
}

proof fn lemma_row_fold_byte(table: Seq<F128>, mats: Seq<u64>, pkt: Seq<u8>, row: int, k: int)
    requires
        tables_linear(table),
        mats_of(table, mats),
        0 <= row,
        8 * row + 8 <= pkt.len(),
        0 <= k < 16,
    ensures
        f128_byte(row_fold(table, pkt, row), k) == batch_byte(mats, pkt.subrange(8 * row, 8 * row + 8), k),
{
    reveal_with_fuel(row_fold_upto, 9);
    let e = |j: int| table[256 * j + pkt[8 * row + j]];
    let s1 = fadd(fzero(), e(0));
    let s2 = fadd(s1, e(1));
    let s3 = fadd(s2, e(2));
    let s4 = fadd(s3, e(3));
    let s5 = fadd(s4, e(4));
    let s6 = fadd(s5, e(5));
    let s7 = fadd(s6, e(6));
    law_fadd_zero(e(0));
    lemma_f128_byte_add(s1, e(1), k);
    lemma_f128_byte_add(s2, e(2), k);
    lemma_f128_byte_add(s3, e(3), k);
    lemma_f128_byte_add(s4, e(4), k);
    lemma_f128_byte_add(s5, e(5), k);
    lemma_f128_byte_add(s6, e(6), k);
    lemma_f128_byte_add(s7, e(7), k);
    let bytes = pkt.subrange(8 * row, 8 * row + 8);
    assert forall|j: int| 0 <= j < 8 implies #[trigger] affine_byte(mats[16 * j + k], bytes[j]) == f128_byte(
        e(j),
        k,
    ) by {
        law_mats_reproduce_tables(table, mats, j, pkt[8 * row + j], k);
    }
    assert(affine_byte(mats[16 * 0 + k], bytes[0]) == f128_byte(e(0), k));
    assert(affine_byte(mats[16 * 1 + k], bytes[1]) == f128_byte(e(1), k));
    assert(affine_byte(mats[16 * 2 + k], bytes[2]) == f128_byte(e(2), k));
    assert(affine_byte(mats[16 * 3 + k], bytes[3]) == f128_byte(e(3), k));
    assert(affine_byte(mats[16 * 4 + k], bytes[4]) == f128_byte(e(4), k));
    assert(affine_byte(mats[16 * 5 + k], bytes[5]) == f128_byte(e(5), k));
    assert(affine_byte(mats[16 * 6 + k], bytes[6]) == f128_byte(e(6), k));
    assert(affine_byte(mats[16 * 7 + k], bytes[7]) == f128_byte(e(7), k));
}

/// The batch gives what the table look-ups give, where the tables are linear and
/// the matrices are theirs: a value with the batch's bytes is the row's fold.
pub proof fn law_batch_is_row_fold(table: Seq<F128>, mats: Seq<u64>, pkt: Seq<u8>, row: int, v: F128)
    requires
        tables_linear(table),
        mats_of(table, mats),
        0 <= row,
        8 * row + 8 <= pkt.len(),
        forall|k: int|
            0 <= k < 16 ==> #[trigger] f128_byte(v, k) == batch_byte(
                mats,
                pkt.subrange(8 * row, 8 * row + 8),
                k,
            ),
    ensures
        v == row_fold(table, pkt, row),
{
    assert forall|k: int| 0 <= k < 16 implies #[trigger] f128_byte(v, k) == f128_byte(
        row_fold(table, pkt, row),
        k,
    ) by {
        lemma_row_fold_byte(table, mats, pkt, row, k);
    }
    lemma_f128_from_bytes(v, row_fold(table, pkt, row));
}

proof fn lemma_zero_entry(table: Seq<F128>, j: int)
    requires
        tables_linear(table),
        0 <= j < 8,
    ensures
        table[256 * j] == fzero(),
{
    assert(table[256 * j + 0u8] == compose_entry(table, j, 0u8));
    lemma_word_facts(0, 0, 0, 0, 0, 0);
    law_fadd_zero(fzero());
}

/// A row of zero bytes folds to zero through linear tables.
pub proof fn law_zero_row_folds_to_zero(table: Seq<F128>, pkt: Seq<u8>, row: int)
    requires
        tables_linear(table),
        forall|j: int| 8 * row <= j < 8 * row + 8 ==> #[trigger] pkt[j] == 0,
    ensures
        row_fold(table, pkt, row) == fzero(),
{
    reveal_with_fuel(row_fold_upto, 9);
    law_fadd_zero(fzero());
    lemma_zero_entry(table, 0);
    lemma_zero_entry(table, 1);
    lemma_zero_entry(table, 2);
    lemma_zero_entry(table, 3);
    lemma_zero_entry(table, 4);
    lemma_zero_entry(table, 5);
    lemma_zero_entry(table, 6);
    lemma_zero_entry(table, 7);
    assert(pkt[8 * row + 0] == 0 && pkt[8 * row + 1] == 0 && pkt[8 * row + 2] == 0 && pkt[8 * row + 3] == 0
        && pkt[8 * row + 4] == 0 && pkt[8 * row + 5] == 0 && pkt[8 * row + 6] == 0 && pkt[8 * row + 7] == 0);
}

/// Every entry of the tables times `s`.
pub open spec fn scaled(table: Seq<F128>, s: F128) -> Seq<F128> {
    Seq::new(table.len(), |i: int| fmul(s, table[i]))
}

proof fn lemma_select_scaled(s: F128, v: F128, bit: u8)
    ensures
        f128_select(fmul(s, v), bit) == fmul(s, f128_select(v, bit)),
{
    law_fmul_zero(s);
}

/// Scaling the unit entries scales every composed entry, so scaled tables are
/// linear and have matrices of their own.
pub proof fn law_scaled_tables_are_linear(table: Seq<F128>, s: F128)
    requires
        table.len() == TABLE_LEN,
        tables_linear(table),
    ensures
        tables_linear(scaled(table, s)),
{
    let q = scaled(table, s);
    assert forall|j: int, w: u8| 0 <= j < 8 implies q[256 * j + w] == #[trigger] compose_entry(q, j, w) by {
        assert(table[256 * j + w] == compose_entry(table, j, w));
        let v = unit_entries(table, j);
        let x0 = f128_select(v[0], w);
        let x1 = f128_select(v[1], w >> 1);
        let x2 = f128_select(v[2], w >> 2);
        let x3 = f128_select(v[3], w >> 3);
        let x4 = f128_select(v[4], w >> 4);
        let x5 = f128_select(v[5], w >> 5);
        let x6 = f128_select(v[6], w >> 6);
        let x7 = f128_select(v[7], w >> 7);
        lemma_select_scaled(s, v[0], w);
        lemma_select_scaled(s, v[1], w >> 1);
        lemma_select_scaled(s, v[2], w >> 2);
        lemma_select_scaled(s, v[3], w >> 3);
        lemma_select_scaled(s, v[4], w >> 4);
        lemma_select_scaled(s, v[5], w >> 5);
        lemma_select_scaled(s, v[6], w >> 6);
        lemma_select_scaled(s, v[7], w >> 7);
        let y1 = fadd(x0, x1);
        let y2 = fadd(y1, x2);
        let y3 = fadd(y2, x3);
        let y4 = fadd(y3, x4);
        let y5 = fadd(y4, x5);
        let y6 = fadd(y5, x6);
        law_fmul_add_right(s, x0, x1);
        law_fmul_add_right(s, y1, x2);
        law_fmul_add_right(s, y2, x3);
        law_fmul_add_right(s, y3, x4);
        law_fmul_add_right(s, y4, x5);
        law_fmul_add_right(s, y5, x6);
        law_fmul_add_right(s, y6, x7);
    }
}

/// Scaled tables fold every row to the scaled fold.
pub proof fn law_scaled_tables_fold_to_scaled_rows(table: Seq<F128>, s: F128, pkt: Seq<u8>, row: int)
    requires
        table.len() == TABLE_LEN,
    ensures
        row_fold(scaled(table, s), pkt, row) == fmul(s, row_fold(table, pkt, row)),
{
    lemma_scaled_upto(table, s, pkt, row, 8);
}

proof fn lemma_scaled_upto(table: Seq<F128>, s: F128, pkt: Seq<u8>, row: int, n: nat)
    requires
        table.len() == TABLE_LEN,
        n <= 8,
    ensures
        row_fold_upto(scaled(table, s), pkt, row, n) == fmul(s, row_fold_upto(table, pkt, row, n)),
    decreases n,
{
    law_fmul_zero(s);
    if n > 0 {
        lemma_scaled_upto(table, s, pkt, row, (n - 1) as nat);
        law_fmul_add_right(
            s,
            row_fold_upto(table, pkt, row, (n - 1) as nat),
            table[256 * (n - 1) + pkt[8 * row + n - 1]],
        );
    }
}

// ---- what the tables are ----

proof fn lemma_select_adds(v: F128, a: u8, b: u8, i: u8)
    ensures
        f128_select(v, (a ^ b) >> i) == fadd(f128_select(v, a >> i), f128_select(v, b >> i)),
{
    lemma_byte_of_xor_bits(0, 0, 0, a, b, i);
    crate::field::gf2_128::law_fadd_self(v);
    law_fadd_zero(v);
    law_fadd_zero(fzero());
    crate::field::gf2_128::law_fadd_comm(v, fzero());
}

/// The sum over one set bit is the element of that bit.
pub proof fn law_one_bit_selects_one_element(v: Seq<F128>, k: u8)
    requires
        k < 8,
    ensures
        select_sum(v, 1u8 << k) == v[k as int],
{
    let w = 1u8 << k;
    assert forall|i: u8| i < 8 implies #[trigger] f128_select(v[i as int], w >> i) == (if i == k {
        v[i as int]
    } else {
        fzero()
    }) by {
        lemma_byte_of_xor_bits(0, 0, 0, 0, k, i);
    }
    lemma_byte_of_xor_bits(0, 0, 0, 0, k, 0);
    assert(f128_select(v[0], w >> 0u8) == f128_select(v[0], w));
    law_fadd_zero(v[k as int]);
    law_fadd_zero(fzero());
    crate::field::gf2_128::law_fadd_comm(fzero(), v[k as int]);
}

/// A selected sum is additive: over the XOR of two bytes it is the sum of both.
pub proof fn law_selected_sums_add(v: Seq<F128>, a: u8, b: u8)
    ensures
        select_sum(v, a ^ b) == fadd(select_sum(v, a), select_sum(v, b)),
{
    lemma_byte_of_xor_bits(0, 0, 0, a, b, 0);
    lemma_byte_of_xor_bits(0, 0, 0, b, a, 0);
    lemma_byte_of_xor_bits(0, 0, 0, a ^ b, a, 0);
    lemma_select_adds(v[0], a, b, 0);
    lemma_select_adds(v[1], a, b, 1);
    lemma_select_adds(v[2], a, b, 2);
    lemma_select_adds(v[3], a, b, 3);
    lemma_select_adds(v[4], a, b, 4);
    lemma_select_adds(v[5], a, b, 5);
    lemma_select_adds(v[6], a, b, 6);
    lemma_select_adds(v[7], a, b, 7);
    let a0 = f128_select(v[0], a);
    let a1 = f128_select(v[1], a >> 1);
    let a2 = f128_select(v[2], a >> 2);
    let a3 = f128_select(v[3], a >> 3);
    let a4 = f128_select(v[4], a >> 4);
    let a5 = f128_select(v[5], a >> 5);
    let a6 = f128_select(v[6], a >> 6);
    let a7 = f128_select(v[7], a >> 7);
    let b0 = f128_select(v[0], b);
    let b1 = f128_select(v[1], b >> 1);
    let b2 = f128_select(v[2], b >> 2);
    let b3 = f128_select(v[3], b >> 3);
    let b4 = f128_select(v[4], b >> 4);
    let b5 = f128_select(v[5], b >> 5);
    let b6 = f128_select(v[6], b >> 6);
    let b7 = f128_select(v[7], b >> 7);
    let p1 = fadd(a0, a1);
    let q1 = fadd(b0, b1);
    let p2 = fadd(p1, a2);
    let q2 = fadd(q1, b2);
    let p3 = fadd(p2, a3);
    let q3 = fadd(q2, b3);
    let p4 = fadd(p3, a4);
    let q4 = fadd(q3, b4);
    let p5 = fadd(p4, a5);
    let q5 = fadd(q4, b5);
    let p6 = fadd(p5, a6);
    let q6 = fadd(q5, b6);
    lemma_fadd_swap4(a0, b0, a1, b1);
    lemma_fadd_swap4(p1, q1, a2, b2);
    lemma_fadd_swap4(p2, q2, a3, b3);
    lemma_fadd_swap4(p3, q3, a4, b4);
    lemma_fadd_swap4(p4, q4, a5, b5);
    lemma_fadd_swap4(p5, q5, a6, b6);
    lemma_fadd_swap4(p6, q6, a7, b7);
}

/// A table is additive: the entry of the XOR of two bytes is the sum of their entries.
pub proof fn law_tables_are_additive(table: Seq<F128>, j: int, a: u8, b: u8)
    requires
        tables_linear(table),
        0 <= j < 8,
    ensures
        table[256 * j + (a ^ b)] == fadd(table[256 * j + a], table[256 * j + b]),
{
    assert(table[256 * j + (a ^ b)] == compose_entry(table, j, a ^ b));
    assert(table[256 * j + a] == compose_entry(table, j, a));
    assert(table[256 * j + b] == compose_entry(table, j, b));
    law_selected_sums_add(unit_entries(table, j), a, b);
}

/// A packed row folds to the sum of eight entries: byte `j` of the row picks one in
/// table `j`.
pub proof fn law_row_folds_eight_entries(table: Seq<F128>, pkt: Seq<u8>, row: int)
    ensures
        row_fold(table, pkt, row) == fadd(
            fadd(
                fadd(
                    fadd(
                        fadd(
                            fadd(
                                fadd(table[pkt[8 * row] as int], table[256 + pkt[8 * row + 1]]),
                                table[512 + pkt[8 * row + 2]],
                            ),
                            table[768 + pkt[8 * row + 3]],
                        ),
                        table[1024 + pkt[8 * row + 4]],
                    ),
                    table[1280 + pkt[8 * row + 5]],
                ),
                table[1536 + pkt[8 * row + 6]],
            ),
            table[1792 + pkt[8 * row + 7]],
        ),
{
    reveal_with_fuel(row_fold_upto, 9);
    let first = table[pkt[8 * row] as int];
    law_fadd_zero(first);
    crate::field::gf2_128::law_fadd_comm(fzero(), first);
}

/// The sixteen bytes of an element are those of its low word and then of its high word.
pub proof fn law_bytes_of_an_element(v: F128)
    ensures
        v.lo == f128_byte(v, 0) + 0x100 * f128_byte(v, 1) + 0x1_0000 * f128_byte(v, 2) + 0x100_0000 * f128_byte(v, 3)
            + 0x1_0000_0000 * f128_byte(v, 4) + 0x100_0000_0000 * f128_byte(v, 5) + 0x1_0000_0000_0000 * f128_byte(v, 6)
            + 0x100_0000_0000_0000 * f128_byte(v, 7),
        v.hi == f128_byte(v, 8) + 0x100 * f128_byte(v, 9) + 0x1_0000 * f128_byte(v, 10) + 0x100_0000 * f128_byte(v, 11)
            + 0x1_0000_0000 * f128_byte(v, 12) + 0x100_0000_0000 * f128_byte(v, 13) + 0x1_0000_0000_0000 * f128_byte(
            v,
            14,
        ) + 0x100_0000_0000_0000 * f128_byte(v, 15),
{
    crate::bits::law_word_is_the_sum_of_its_bytes(v.lo);
    crate::bits::law_word_is_the_sum_of_its_bytes(v.hi);
}

} // verus!
