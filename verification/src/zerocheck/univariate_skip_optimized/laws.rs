//! What the tables, the masks and the padding plan mean.

use super::gfni_extend::{flat, is_fingerprint, is_live};
use super::inv_table::{applied, is_composed, lemma_mix3, lemma_permuted, permuted, unit_word, InvNttTableByteSingleGf8};
use super::kernels::{
    bank_mask, converted, converted_masked, drained, is_bit_transposed, leaf_byte, lemma_bank_mask_bound,
};
use super::pad_skip::{is_useful, outers_per_block, produced, transformed, useful_windows, BMedPadPlan, PaddingSpec};
use crate::bits::{bit8, lemma_word_facts};
use crate::bytes64::lemma_compose_bits;
use crate::field::gf2_128::{fadd, fzero, F128};
use crate::field::gf2_8::gf8_mul;
use vstd::arithmetic::power2::{lemma2_to64, lemma_pow2_adds, lemma_pow2_unfold, pow2};
use vstd::prelude::*;

verus! {

// ---- the extension ----

/// Chunk `b` finds output `i` at `i` with the bits of `b` flipped in its upper three; the
/// same flip leads back.
pub proof fn law_chunks_flip_the_upper_bits(i: int, b: int)
    requires
        0 <= i < 64,
        0 <= b < 8,
    ensures
        permuted(i, b) == 8 * (((i / 8) as usize) ^ (b as usize)) + i % 8,
        permuted(permuted(i, b), b) == i,
        permuted(i, 0) == i,
{
    lemma_permuted(i, b);
    lemma_permuted(i, 0);
    lemma_mix3((i / 8) as usize, b as usize);
}

/// The table rows are additive: the row of the XOR of two bytes is the XOR of their rows.
pub proof fn law_table_rows_are_additive(data: Seq<u8>, x: u8, y: u8, i: int)
    requires
        is_composed(data),
        0 <= i < 64,
    ensures
        data[64 * (x ^ y) + i] == data[64 * x + i] ^ data[64 * y + i],
{
    let z = (x ^ y) as int;
    lemma_compose_bits(unit_word(data, i), x, y, 0);
    assert(data[64 * z + i] == crate::bytes64::compose_word(unit_word(data, i), z as u8));
    assert(data[64 * (x as int) + i] == crate::bytes64::compose_word(unit_word(data, i), x));
    assert(data[64 * (y as int) + i] == crate::bytes64::compose_word(unit_word(data, i), y));
}

/// An extended row reads one table row for each of its eight bytes, at the output with the
/// chunk's bits flipped.
pub proof fn law_extension_reads_eight_rows(data: Seq<u8>, src: Seq<u8>, at: int, i: int)
    ensures
        applied(data, src, at, i) == data[64 * src[at] + permuted(i, 0)] ^ data[64 * src[at + 1] + permuted(i, 1)]
            ^ data[64 * src[at + 2] + permuted(i, 2)] ^ data[64 * src[at + 3] + permuted(i, 3)] ^ data[64 * src[at + 4]
            + permuted(i, 4)] ^ data[64 * src[at + 5] + permuted(i, 5)] ^ data[64 * src[at + 6] + permuted(i, 6)]
            ^ data[64 * src[at + 7] + permuted(i, 7)],
{
}

/// A byte of a window sums, over its eight rows `k`, the product of both extended rows
/// times `x^k`.
pub proof fn law_window_sums_eight_products(data: Seq<u8>, a: Seq<u8>, b: Seq<u8>, at: int, lane: int)
    ensures
        ({
            let p = |k: int| gf8_mul(applied(data, a, at + 8 * k, lane), applied(data, b, at + 8 * k, lane));
            leaf_byte(data, a, b, at, lane) == gf8_mul(p(0), 1u8 << 0u8) ^ gf8_mul(p(1), 1u8 << 1u8) ^ gf8_mul(
                p(2),
                1u8 << 2u8,
            ) ^ gf8_mul(p(3), 1u8 << 3u8) ^ gf8_mul(p(4), 1u8 << 4u8) ^ gf8_mul(p(5), 1u8 << 5u8) ^ gf8_mul(
                p(6),
                1u8 << 6u8,
            ) ^ gf8_mul(p(7), 1u8 << 7u8)
        }),
{
    reveal(leaf_byte);
}

/// The fingerprint of a table holds its rows 1, 2, 4, ..., 128 one after another.
pub proof fn law_fingerprint_holds_the_unit_rows(data: Seq<u8>, fp: Seq<u8>, i: int)
    requires
        is_fingerprint(data, fp),
        0 <= i < 64,
    ensures
        fp[i] == data[64 + i],
        fp[64 + i] == data[128 + i],
        fp[128 + i] == data[256 + i],
        fp[192 + i] == data[512 + i],
        fp[256 + i] == data[1024 + i],
        fp[320 + i] == data[2048 + i],
        fp[384 + i] == data[4096 + i],
        fp[448 + i] == data[8192 + i],
{
    lemma2_to64();
    assert forall|t: int| 0 <= t < 8 implies #[trigger] fp[64 * t + i] == data[64 * pow2(t as nat) + i] by {
        assert((64 * t + i) / 64 == t && (64 * t + i) % 64 == i);
    }
    assert(fp[64 * 0 + i] == data[64 * pow2(0) + i]);
    assert(fp[64 * 1 + i] == data[64 * pow2(1) + i]);
    assert(fp[64 * 2 + i] == data[64 * pow2(2) + i]);
    assert(fp[64 * 3 + i] == data[64 * pow2(3) + i]);
    assert(fp[64 * 4 + i] == data[64 * pow2(4) + i]);
    assert(fp[64 * 5 + i] == data[64 * pow2(5) + i]);
    assert(fp[64 * 6 + i] == data[64 * pow2(6) + i]);
    assert(fp[64 * 7 + i] == data[64 * pow2(7) + i]);
}

/// Window `j` is live where bit `j` of the mask is set.
pub proof fn law_live_windows_are_set_bits(live: u32, j: u32)
    requires
        j < 32,
    ensures
        is_live(live, j as int) <==> live & (1u32 << j) != 0,
{
    lemma_word_facts(0, 0, live, j, 0, 0);
}

/// The bit transpose of eight rows moves bit `x % 8` of byte `x / 8` of row `q` to bit `q`
/// of byte `x`.
pub proof fn law_bit_transpose_moves_every_bit(input: Seq<u8>, out: Seq<u8>, x: int, q: int)
    requires
        is_bit_transposed(input, out),
        0 <= x < 64,
        0 <= q < 8,
    ensures
        bit8(out[x], q) == bit8(input[8 * q + x / 8], x % 8),
{
    let j = x / 8;
    let i = x % 8;
    assert(8 * j + i == x);
    assert(bit8(out[8 * j + i], q) == bit8(input[8 * q + j], i));
}

// ---- conversions and drains ----

proof fn lemma_converted_prefix(c: Seq<[u8; 64]>, d: Seq<[u8; 64]>, convert: Seq<F128>, mask: u8, lane: int, n: nat)
    requires
        forall|i: int| 0 <= i < n ==> #[trigger] c[i] == d[i],
    ensures
        converted(c, convert, lane, n) == converted(d, convert, lane, n),
        converted_masked(c, convert, mask, lane, n) == converted_masked(d, convert, mask, lane, n),
    decreases n,
{
    if n > 0 {
        lemma_converted_prefix(c, d, convert, mask, lane, (n - 1) as nat);
        assert(c[n - 1] == d[n - 1]);
    }
}

/// One more window adds the entry that its byte selects in the table of the window, or, of
/// a masked sum, the entry of the byte's bits in the mask.
pub proof fn law_conversion_grows(c: Seq<[u8; 64]>, row: [u8; 64], convert: Seq<F128>, mask: u8, lane: int)
    ensures
        converted(c, convert, lane, 0) == fzero(),
        converted_masked(c, convert, mask, lane, 0) == fzero(),
        converted(c.push(row), convert, lane, c.len() + 1) == fadd(
            converted(c, convert, lane, c.len()),
            convert[256 * c.len() + row@[lane]],
        ),
        converted_masked(c.push(row), convert, mask, lane, c.len() + 1) == fadd(
            converted_masked(c, convert, mask, lane, c.len()),
            convert[256 * c.len() + (row@[lane] & mask)],
        ),
{
    lemma_converted_prefix(c.push(row), c, convert, mask, lane, c.len());
    assert(c.push(row)[c.len() as int] == row);
}

/// A mask of all bits masks nothing.
pub proof fn law_full_mask_keeps_the_sum(c: Seq<[u8; 64]>, convert: Seq<F128>, lane: int, n: nat)
    ensures
        converted_masked(c, convert, 0xff, lane, n) == converted(c, convert, lane, n),
    decreases n,
{
    if n > 0 {
        law_full_mask_keeps_the_sum(c, convert, lane, (n - 1) as nat);
        lemma_word_facts(0, 0, 0, 0, c[n - 1]@[lane], 0);
    }
}

/// A bank mask gathers one bit of every row: bit `b` is bit `bank` of byte `lane` of
/// row `b`, for every row, and no further bit is set.
pub proof fn law_bank_mask_gathers_every_row(c: Seq<u8>, bank: int, lane: int, n: nat, b: nat)
    requires
        b < n,
    ensures
        (bank_mask(c, bank, lane, n) as int / pow2(b) as int) % 2 == (if bit8(c[64 * b + lane], bank) {
            1int
        } else {
            0int
        }),
        bank_mask(c, bank, lane, n) < pow2(n),
    decreases n,
{
    let k = (n - 1) as nat;
    let low = bank_mask(c, bank, lane, k) as int;
    let m = bank_mask(c, bank, lane, n) as int;
    let e: int = if bit8(c[64 * k + lane], bank) {
        1
    } else {
        0
    };
    lemma_bank_mask_bound(c, bank, lane, k);
    lemma_bank_mask_bound(c, bank, lane, n);
    vstd::arithmetic::power2::lemma_pow2_pos(b);
    vstd::arithmetic::power2::lemma_pow2_pos(k);
    let q = pow2(b) as int;
    let t = pow2(k) as int;
    assert(m == low + e * t);
    if b == k {
        vstd::arithmetic::div_mod::lemma_fundamental_div_mod_converse(m, t, e, low);
    } else {
        law_bank_mask_gathers_every_row(c, bank, lane, k, b);
        let s = (k - b - 1) as nat;
        lemma_pow2_adds(b, (k - b) as nat);
        lemma_pow2_unfold((k - b) as nat);
        let h = pow2(s) as int;
        assert(t == q * (2 * h));
        assert(e * t == q * (2 * (e * h))) by (nonlinear_arith)
            requires
                t == q * (2 * h),
        ;
        let w = 2 * (e * h);
        vstd::arithmetic::div_mod::lemma_fundamental_div_mod(low, q);
        assert(m == (low / q + w) * q + low % q) by (nonlinear_arith)
            requires
                m == low + q * w,
                low == q * (low / q) + low % q,
        ;
        vstd::arithmetic::div_mod::lemma_fundamental_div_mod_converse(m, q, low / q + w, low % q);
        assert((low / q + 2 * (e * h)) % 2 == (low / q) % 2);
    }
}

proof fn lemma_mask_splits(c: Seq<u8>, bank: int, lane: int, k: nat)
    requires
        0 <= lane < 64,
        512 + 64 * k <= c.len(),
    ensures
        bank_mask(c, bank, lane, (8 + k) as nat) == bank_mask(c, bank, lane, 8) + 256 * bank_mask(
            c.skip(512),
            bank,
            lane,
            k,
        ),
    decreases k,
{
    if k > 0 {
        let j = (k - 1) as nat;
        lemma_mask_splits(c, bank, lane, j);
        assert(c.skip(512)[64 * j + lane] == c[64 * (8 + j) + lane]);
        lemma_pow2_adds(8, j);
        lemma2_to64();
    }
}

/// A drain adds two entries to a lane of a bank: the one that the first eight rows select
/// in the lower table, and the one that the next rows select in the upper.
pub proof fn law_drain_adds_two_entries(before: F128, c: Seq<u8>, tables: Seq<F128>, bank: int, lane: int, k: nat)
    requires
        0 <= lane < 64,
        512 + 64 * k <= c.len(),
    ensures
        drained(before, c, tables, bank, lane, (8 + k) as nat) == fadd(
            before,
            fadd(
                tables[bank_mask(c, bank, lane, 8) as int],
                tables[256 + bank_mask(c.skip(512), bank, lane, k) as int],
            ),
        ),
{
    lemma_mask_splits(c, bank, lane, k);
    lemma_bank_mask_bound(c, bank, lane, 8);
    lemma2_to64();
}

// ---- the padding ----

/// A block of `2^k_log` bits is cut into outer windows of 8192 bits, and those into sixteen
/// windows of 512. A window counts where its first bit is a useful one, and the counted
/// windows of an outer window come first. A block of less than an outer window counts
/// whole.
pub proof fn law_windows_count_where_they_start_useful(p: PaddingSpec, outer: int, w: int)
    requires
        0 <= outer,
        0 <= w < 16,
    ensures
        p.k_log >= 13 ==> 8192 * outers_per_block(p) == pow2(p.k_log as nat),
        p.k_log < 13 ==> outers_per_block(p) == 1,
        p.k_log >= 13 ==> (is_useful(p, outer, w) <==> 8192 * outer + 512 * w < p.useful_bits),
        p.k_log < 13 ==> is_useful(p, outer, w),
        w < useful_windows(p, outer) <==> p.k_log < 13 || 8192 * outer + 512 * w < p.useful_bits,
        0 <= useful_windows(p, outer) <= 16,
{
    if p.k_log >= 13 {
        lemma_pow2_adds(13, (p.k_log - 13) as nat);
        lemma2_to64();
    }
}

/// The plan of a padding counts every outer window of the block that way, and it is dense
/// exactly if it counts every window.
pub proof fn law_plan_counts_the_useful_windows(plan: BMedPadPlan, p: PaddingSpec, i: int, w: int)
    requires
        plan.is_plan_of(p),
        p.k_log >= 13,
        0 <= i,
        8192 * i < pow2(p.k_log as nat),
        0 <= w < 16,
    ensures
        8192 * plan.counts.len() == pow2(p.k_log as nat),
        plan.within_outer_mask + 1 == plan.counts.len(),
        w < plan.counts@[i] <==> 8192 * i + 512 * w < p.useful_bits,
        plan.dense ==> 8192 * i + 512 * w < p.useful_bits,
        p.useful_bits >= pow2(p.k_log as nat) ==> plan.dense,
{
    law_windows_count_where_they_start_useful(p, i, w);
    assert(plan.counts@[i] == useful_windows(p, i));
    if p.useful_bits >= pow2(p.k_log as nat) {
        assert forall|j: int| 0 <= j < plan.counts.len() implies #[trigger] plan.counts@[j] == 16 by {
            law_windows_count_where_they_start_useful(p, j, 15);
            assert(plan.counts@[j] == useful_windows(p, j));
        }
    }
}

/// What the producer leaves in byte `l` of window `w` of outer window `o`: the product of
/// the window if the plan counts it; else zero if whole lines are streamed, and otherwise
/// what stood there.
pub proof fn law_producer_fills_the_counted_windows(
    data: Seq<u8>,
    a: Seq<u8>,
    b: Seq<u8>,
    before: Seq<u8>,
    counts: Seq<u8>,
    outer_base: int,
    nt: u8,
    o: int,
    w: int,
    l: int,
)
    requires
        0 <= o,
        0 <= w < 16,
        0 <= l < 64,
    ensures
        ({
            let n = 1024 * o + 64 * w + l;
            let count = counts[(outer_base + o) % counts.len() as int];
            produced(data, a, b, before, counts, outer_base, nt, n) == (if w < count {
                leaf_byte(data, a, b, 1024 * o + 64 * w, l)
            } else if nt == 1 {
                0
            } else {
                before[n]
            })
        }),
{
    let n = 1024 * o + 64 * w + l;
    assert(n / 1024 == o && n % 1024 == 64 * w + l && n % 64 == l);
}

/// What a transform of the first `count` windows at `base` leaves in byte `l` of window `w`,
/// and outside of them.
pub proof fn law_transform_fills_the_first_windows(
    data: Seq<u8>,
    a: Seq<u8>,
    b: Seq<u8>,
    before: Seq<u8>,
    base: int,
    count: int,
    w: int,
    l: int,
)
    requires
        0 <= w,
        0 <= l < 64,
    ensures
        transformed(data, a, b, before, base, count, base + 64 * w + l) == (if w < count {
            leaf_byte(data, a, b, base + 64 * w, l)
        } else {
            before[base + 64 * w + l]
        }),
        forall|n: int| n < base ==> #[trigger] transformed(data, a, b, before, base, count, n) == before[n],
{
    assert((64 * w + l) % 64 == l);
}

/// The shape that the kernels are written for: a domain of `2^6` points, rows of
/// sixty-four entries and eight bytes.
pub proof fn law_ranked_shape_is_sixty_four_points(t: InvNttTableByteSingleGf8)
    ensures
        t.is_ranked_shape() <==> t.k == 6 && t.ell == 64 && t.n_chunks == 8,
        t.wf() ==> t.ell == 64 && t.n_chunks == 8 && t.data.len() == 16384,
{
}

/// Entry `8 w + v` of the flat block is entry `w` of slice `v`.
pub proof fn law_flat_block_interleaves_the_slices(slices: Seq<[u64; 8]>, v: int, w: int)
    requires
        0 <= v < 8,
        0 <= w < 8,
    ensures
        flat(slices).len() == 64,
        flat(slices)[8 * w + v] == slices[v]@[w],
{
    assert((8 * w + v) % 8 == v && (8 * w + v) / 8 == w);
}

} // verus!
