//! The leaf kernels of the round: the bit transpose of a block, the product of two
//! extended windows, and the accumulation of the results.

use crate::bits::{bit, bit8, le_byte, lemma_le_byte_bit, transpose_8x8_bits};
use crate::bytes64::{lemma_qword_bit, qword_of, xor8_bytes, Bytes64};
use crate::field::gf2_128::ghash::{f128x4_loadu, f128x4_set, f128x4_splat, f128x4_storeu, ghash_mul_x4, xor_x4};
use crate::field::gf2_128::{fadd, fmul, fzero, F128};
use crate::field::gf2_8::{gf8_mul, law_gf8_units, F8};
use crate::zerocheck::univariate_skip_optimized::inv_table::{applied, InvNttTableByteSingleGf8, ELL};
use vstd::arithmetic::power2::{lemma_pow2_strictly_increases, lemma_pow2_unfold, pow2};
use vstd::prelude::*;

verus! {

/// Windows of an outer window, as a power of two.
pub const N_MEDIUM: usize = 4;

/// Packed bytes per row.
pub const N_CHUNKS: usize = 8;

// ---- the bit transpose ----

/// Whether byte `8 j + i` of `out` collects bit `i` of byte `j` of the eight rows of `input`.
pub open spec fn is_bit_transposed(input: Seq<u8>, out: Seq<u8>) -> bool {
    forall|j: int, i: int, q: int|
        #![trigger bit8(out[8 * j + i], q)]
        0 <= j < 8 && 0 <= i < 8 && 0 <= q < 8 ==> bit8(out[8 * j + i], q) == bit8(input[8 * q + j], i)
}

/// Transposes the bits of a block of eight rows of eight bytes, column by column:
/// byte `8 j + i` of the output collects bit `i` of byte `j` of every row.
pub fn bit_transpose_64bytes(input: &[u8; 64], output: &mut [u8; 64])
    ensures
        is_bit_transposed(input@, final(output)@),
{
    let y = Bytes64(*input).byte_transpose();
    let mut w = [0u64; 8];
    for j in 0..8usize
        invariant
            forall|k: int, r: int, c: int|
                #![trigger bit(w@[k], 8 * c + r)]
                0 <= k < j && 0 <= r < 8 && 0 <= c < 8 ==> bit(w@[k], 8 * c + r) == bit(
                    qword_of(y@, k),
                    8 * r + c,
                ),
    {
        w[j] = transpose_8x8_bits(y.qword(j));
    }
    let z = Bytes64::from_qwords(w);
    proof {
        assert forall|j: int, i: int, q: int|
            #![trigger bit8(z@[8 * j + i], q)]
            0 <= j < 8 && 0 <= i < 8 && 0 <= q < 8 implies bit8(z@[8 * j + i], q) == bit8(input@[8 * q + j], i) by {
            assert((8 * j + i) / 8 == j && (8 * j + i) % 8 == i);
            assert(z@[8 * j + i] == le_byte(w@[j], i));
            lemma_le_byte_bit(w@[j], i, q);
            assert(bit(w@[j], 8 * i + q) == bit(qword_of(y@, j), 8 * q + i));
            lemma_qword_bit(y@, j, q, i);
            assert((8 * j + q) / 8 == j && (8 * j + q) % 8 == q);
            assert(y@[8 * j + q] == input@[8 * q + j]);
        }
        assert(is_bit_transposed(input@, z@));
    }
    *output = z.0;
}

// ---- the product of two extended windows ----

/// Row `k` of the window at `at`: the product of the two extended rows at `lane`, times `x^k`.
pub open spec fn leaf_term(data: Seq<u8>, a: Seq<u8>, b: Seq<u8>, at: int, k: int, lane: int) -> u8 {
    gf8_mul(
        gf8_mul(applied(data, a, at + 8 * k, lane), applied(data, b, at + 8 * k, lane)),
        1u8 << (k as u8),
    )
}

/// The sum of the rows of the window at `at`.
#[verifier::opaque]
pub open spec fn leaf_byte(data: Seq<u8>, a: Seq<u8>, b: Seq<u8>, at: int, lane: int) -> u8 {
    xor8_bytes(
        leaf_term(data, a, b, at, 0, lane),
        leaf_term(data, a, b, at, 1, lane),
        leaf_term(data, a, b, at, 2, lane),
        leaf_term(data, a, b, at, 3, lane),
        leaf_term(data, a, b, at, 4, lane),
        leaf_term(data, a, b, at, 5, lane),
        leaf_term(data, a, b, at, 6, lane),
        leaf_term(data, a, b, at, 7, lane),
    )
}

/// The sum of the first `n` rows.
spec fn leaf_upto(data: Seq<u8>, a: Seq<u8>, b: Seq<u8>, at: int, lane: int, n: nat) -> u8
    decreases n,
{
    if n == 0 {
        0
    } else {
        leaf_upto(data, a, b, at, lane, (n - 1) as nat) ^ leaf_term(data, a, b, at, n - 1, lane)
    }
}

proof fn lemma_leaf_upto(data: Seq<u8>, a: Seq<u8>, b: Seq<u8>, at: int, lane: int)
    ensures
        leaf_upto(data, a, b, at, lane, 8) == leaf_byte(data, a, b, at, lane),
{
    reveal(leaf_byte);
    reveal_with_fuel(leaf_upto, 9);
    law_gf8_units(leaf_term(data, a, b, at, 0, lane));
}

/// The window `b_med` of the outer window at `chunk_byte_base`: both operands are
/// extended row by row, multiplied, scaled and summed. The scratch columns are left
/// with the last row's extensions.
pub fn shift_reduce_inner_ab_x86_sse(
    a_packed: &[u8],
    b_packed: &[u8],
    inv_table: &InvNttTableByteSingleGf8,
    chunk_byte_base: usize,
    b_med: usize,
    out: &mut [u8; 64],
    a_col: &mut [F8],
    b_col: &mut [F8],
)
    requires
        inv_table.ell == ELL,
        inv_table.data.len() == 256 * 64,
        chunk_byte_base + 64 * b_med + 64 <= a_packed.len(),
        chunk_byte_base + 64 * b_med + 64 <= b_packed.len(),
        old(a_col).len() == 64,
        old(b_col).len() == 64,
    ensures
        forall|i: int|
            0 <= i < 64 ==> #[trigger] final(out)@[i] == leaf_byte(
                inv_table.data@,
                a_packed@,
                b_packed@,
                chunk_byte_base + 64 * b_med,
                i,
            ),
        final(a_col).len() == 64,
        final(b_col).len() == 64,
        forall|i: int|
            0 <= i < 64 ==> #[trigger] final(a_col)@[i].0 == applied(
                inv_table.data@,
                a_packed@,
                chunk_byte_base + 64 * b_med + 56,
                i,
            ),
        forall|i: int|
            0 <= i < 64 ==> #[trigger] final(b_col)@[i].0 == applied(
                inv_table.data@,
                b_packed@,
                chunk_byte_base + 64 * b_med + 56,
                i,
            ),
{
    let at = chunk_byte_base + b_med * N_CHUNKS * 8;
    let mut acc = [0u8; 64];
    for k in 0..8usize
        invariant
            inv_table.ell == ELL,
            inv_table.data.len() == 256 * 64,
            at + 64 <= a_packed.len(),
            at + 64 <= b_packed.len(),
            a_col.len() == 64,
            b_col.len() == 64,
            forall|i: int|
                0 <= i < 64 ==> #[trigger] acc@[i] == leaf_upto(
                    inv_table.data@,
                    a_packed@,
                    b_packed@,
                    at as int,
                    i,
                    k as nat,
                ),
            k > 0 ==> forall|i: int|
                0 <= i < 64 ==> #[trigger] a_col@[i].0 == applied(inv_table.data@, a_packed@, at + 8 * (k - 1), i),
            k > 0 ==> forall|i: int|
                0 <= i < 64 ==> #[trigger] b_col@[i].0 == applied(inv_table.data@, b_packed@, at + 8 * (k - 1), i),
    {
        let off = at + k * N_CHUNKS;
        inv_table.apply_row(a_packed, off, a_col);
        inv_table.apply_row(b_packed, off, b_col);
        let xk = F8(1u8 << (k as u8));
        let ghost before = acc@;
        for i in 0..64usize
            invariant
                k < 8,
                off == at + 8 * k,
                xk.0 == 1u8 << (k as u8),
                a_col.len() == 64,
                b_col.len() == 64,
                forall|j: int|
                    0 <= j < 64 ==> #[trigger] a_col@[j].0 == applied(inv_table.data@, a_packed@, off as int, j),
                forall|j: int|
                    0 <= j < 64 ==> #[trigger] b_col@[j].0 == applied(inv_table.data@, b_packed@, off as int, j),
                forall|j: int| i <= j < 64 ==> #[trigger] acc@[j] == before[j],
                forall|j: int|
                    0 <= j < i ==> #[trigger] acc@[j] == before[j] ^ leaf_term(
                        inv_table.data@,
                        a_packed@,
                        b_packed@,
                        at as int,
                        k as int,
                        j,
                    ),
        {
            acc[i] = acc[i] ^ a_col[i].mul(b_col[i]).mul(xk).0;
        }
    }
    proof {
        assert forall|i: int| 0 <= i < 64 implies #[trigger] acc@[i] == leaf_byte(
            inv_table.data@,
            a_packed@,
            b_packed@,
            at as int,
            i,
        ) by {
            lemma_leaf_upto(inv_table.data@, a_packed@, b_packed@, at as int, i);
        }
    }
    *out = acc;
}

/// One extended row as a vector.
fn apply_vector(inv_table: &InvNttTableByteSingleGf8, src: &[u8], at: usize) -> (r: Bytes64)
    requires
        inv_table.ell == ELL,
        inv_table.data.len() == 256 * 64,
        at + 8 <= src.len(),
    ensures
        forall|i: int| 0 <= i < 64 ==> #[trigger] r@[i] == applied(inv_table.data@, src@, at as int, i),
{
    let mut v = [0u8; 64];
    for i in 0..64usize
        invariant
            inv_table.ell == ELL,
            inv_table.data.len() == 256 * 64,
            at + 8 <= src.len(),
            forall|j: int| 0 <= j < i ==> #[trigger] v@[j] == applied(inv_table.data@, src@, at as int, j),
    {
        v[i] = inv_table.apply_at(src, at, i);
    }
    Bytes64(v)
}

/// One byte in all positions.
fn splat_byte(x: u8) -> (r: Bytes64)
    ensures
        forall|i: int| 0 <= i < 64 ==> #[trigger] r@[i] == x,
{
    Bytes64([x; 64])
}

/// Row `k` of the window at `at`, as a vector.
fn scaled_row(
    inv_table: &InvNttTableByteSingleGf8,
    a_packed: &[u8],
    b_packed: &[u8],
    at: usize,
    k: usize,
) -> (r: Bytes64)
    requires
        inv_table.ell == ELL,
        inv_table.data.len() == 256 * 64,
        at + 64 <= a_packed.len(),
        at + 64 <= b_packed.len(),
        k < 8,
    ensures
        forall|i: int|
            0 <= i < 64 ==> #[trigger] r@[i] == leaf_term(
                inv_table.data@,
                a_packed@,
                b_packed@,
                at as int,
                k as int,
                i,
            ),
{
    let off = at + k * N_CHUNKS;
    let av = apply_vector(inv_table, a_packed, off);
    let bv = apply_vector(inv_table, b_packed, off);
    let product = av.mulb(bv);
    if k == 0 {
        proof {
            assert forall|i: int| 0 <= i < 64 implies #[trigger] product@[i] == leaf_term(
                inv_table.data@,
                a_packed@,
                b_packed@,
                at as int,
                0,
                i,
            ) by {
                law_gf8_units(product@[i]);
            }
        }
        product
    } else {
        product.mulb(splat_byte(1u8 << (k as u8)))
    }
}

/// The same window on whole vectors; the first row is not scaled, as `x^0` is one.
pub fn shift_reduce_inner_ab_x86_avx512(
    a_packed: &[u8],
    b_packed: &[u8],
    inv_table: &InvNttTableByteSingleGf8,
    chunk_byte_base: usize,
    b_med: usize,
    out: &mut [u8; 64],
)
    requires
        inv_table.ell == ELL,
        inv_table.data.len() == 256 * 64,
        chunk_byte_base + 64 * b_med + 64 <= a_packed.len(),
        chunk_byte_base + 64 * b_med + 64 <= b_packed.len(),
    ensures
        forall|i: int|
            0 <= i < 64 ==> #[trigger] final(out)@[i] == leaf_byte(
                inv_table.data@,
                a_packed@,
                b_packed@,
                chunk_byte_base + 64 * b_med,
                i,
            ),
{
    let at = chunk_byte_base + b_med * N_CHUNKS * 8;
    let mut acc = Bytes64::zero();
    for k in 0..8usize
        invariant
            inv_table.ell == ELL,
            inv_table.data.len() == 256 * 64,
            at + 64 <= a_packed.len(),
            at + 64 <= b_packed.len(),
            forall|i: int|
                0 <= i < 64 ==> #[trigger] acc@[i] == leaf_upto(
                    inv_table.data@,
                    a_packed@,
                    b_packed@,
                    at as int,
                    i,
                    k as nat,
                ),
    {
        let scaled = scaled_row(inv_table, a_packed, b_packed, at, k);
        acc = acc.xor(scaled);
    }
    proof {
        assert forall|i: int| 0 <= i < 64 implies #[trigger] acc@[i] == leaf_byte(
            inv_table.data@,
            a_packed@,
            b_packed@,
            at as int,
            i,
        ) by {
            lemma_leaf_upto(inv_table.data@, a_packed@, b_packed@, at as int, i);
        }
    }
    *out = acc.0;
    assert(out@ == acc@);
}

// ---- accumulation ----

/// The sum over the first `n` windows of the table entries that their bytes at `lane` select.
pub open spec fn converted(chunk: Seq<[u8; 64]>, convert: Seq<F128>, lane: int, n: nat) -> F128
    decreases n,
{
    if n == 0 {
        fzero()
    } else {
        fadd(
            converted(chunk, convert, lane, (n - 1) as nat),
            convert[256 * (n - 1) + chunk[n - 1]@[lane]],
        )
    }
}

/// The table entries of one lane, summed.
fn convert_lane(chunk: &[[u8; 64]; 16], n: usize, convert: &[F128], lane: usize) -> (r: F128)
    requires
        n <= 16,
        lane < 64,
        256 * n <= convert.len(),
    ensures
        r == converted(chunk@, convert@, lane as int, n as nat),
{
    let mut acc = F128::zero();
    for b in 0..n
        invariant
            n <= 16,
            lane < 64,
            256 * n <= convert.len(),
            acc == converted(chunk@, convert@, lane as int, b as nat),
    {
        acc = acc + convert[256 * b + chunk[b][lane] as usize];
    }
    acc
}

/// Adds to every lane the converted sum of its window bytes, scaled by `eq_lo_val`,
/// four lanes at a time.
pub fn accumulate_convert_ab(
    chunk_ab_bytes: &[[u8; 64]; 16],
    n_b_med: usize,
    convert: &[F128],
    eq_lo_val: F128,
    partial_ab: &mut [F128; 64],
)
    requires
        n_b_med <= 16,
        256 * n_b_med <= convert.len(),
    ensures
        forall|l: int|
            0 <= l < 64 ==> #[trigger] final(partial_ab)@[l] == fadd(
                old(partial_ab)@[l],
                fmul(converted(chunk_ab_bytes@, convert@, l, n_b_med as nat), eq_lo_val),
            ),
{
    let ghost before = partial_ab@;
    let eq = f128x4_splat(eq_lo_val);
    let mut part = *partial_ab;
    for g in 0..16usize
        invariant
            n_b_med <= 16,
            256 * n_b_med <= convert.len(),
            eq@ == seq![eq_lo_val, eq_lo_val, eq_lo_val, eq_lo_val],
            forall|l: int| 4 * g <= l < 64 ==> #[trigger] part@[l] == before[l],
            forall|l: int|
                0 <= l < 4 * g ==> #[trigger] part@[l] == fadd(
                    before[l],
                    fmul(converted(chunk_ab_bytes@, convert@, l, n_b_med as nat), eq_lo_val),
                ),
    {
        let lane = 4 * g;
        let cf = f128x4_set(
            convert_lane(chunk_ab_bytes, n_b_med, convert, lane),
            convert_lane(chunk_ab_bytes, n_b_med, convert, lane + 1),
            convert_lane(chunk_ab_bytes, n_b_med, convert, lane + 2),
            convert_lane(chunk_ab_bytes, n_b_med, convert, lane + 3),
        );
        let scaled = ghash_mul_x4(cf, eq);
        let sum = xor_x4(f128x4_loadu(&part, lane), scaled);
        proof {
            assert forall|j: int| 0 <= j < 4 implies #[trigger] sum@[j] == fadd(
                before[lane + j],
                fmul(converted(chunk_ab_bytes@, convert@, lane + j, n_b_med as nat), eq_lo_val),
            ) by {
                assert(j == 0 || j == 1 || j == 2 || j == 3);
                assert(scaled@[j] == fmul(cf@[j], eq@[j]));
                assert(part@[lane + j] == before[lane + j]);
            }
        }
        let ghost was = part@;
        f128x4_storeu(&mut part, lane, sum);
        proof {
            assert forall|l: int| 0 <= l < lane + 4 implies #[trigger] part@[l] == fadd(
                before[l],
                fmul(converted(chunk_ab_bytes@, convert@, l, n_b_med as nat), eq_lo_val),
            ) by {
                if l < lane {
                    assert(part@[l] == was[l]);
                } else {
                    assert(part@[l] == sum@[l - lane]);
                }
            }
        }
    }
    *partial_ab = part;
}

/// The same sum over the bits of `mask` in the window bytes.
pub open spec fn converted_masked(chunk: Seq<[u8; 64]>, convert: Seq<F128>, mask: u8, lane: int, n: nat) -> F128
    decreases n,
{
    if n == 0 {
        fzero()
    } else {
        fadd(
            converted_masked(chunk, convert, mask, lane, (n - 1) as nat),
            convert[256 * (n - 1) + (chunk[n - 1]@[lane] & mask)],
        )
    }
}

/// Adds to every lane the converted sums of the product bytes, and of the even and
/// the odd bits of the third operand's bytes, each scaled by `eq_lo_val`.
pub fn accumulate_convert_with_s_hat_v(
    chunk_ab_bytes: &[[u8; 64]; 16],
    chunk_c_bytes: &[[u8; 64]; 16],
    n_b_med: usize,
    convert: &[F128],
    eq_lo_val: F128,
    partial_ab: &mut [F128; 64],
    partial_c_0: &mut [F128; 64],
    partial_c_1: &mut [F128; 64],
)
    requires
        n_b_med <= 16,
        256 * n_b_med <= convert.len(),
    ensures
        forall|l: int|
            0 <= l < 64 ==> #[trigger] final(partial_ab)@[l] == fadd(
                old(partial_ab)@[l],
                fmul(converted(chunk_ab_bytes@, convert@, l, n_b_med as nat), eq_lo_val),
            ),
        forall|l: int|
            0 <= l < 64 ==> #[trigger] final(partial_c_0)@[l] == fadd(
                old(partial_c_0)@[l],
                fmul(converted_masked(chunk_c_bytes@, convert@, 0x55, l, n_b_med as nat), eq_lo_val),
            ),
        forall|l: int|
            0 <= l < 64 ==> #[trigger] final(partial_c_1)@[l] == fadd(
                old(partial_c_1)@[l],
                fmul(converted_masked(chunk_c_bytes@, convert@, 0xaa, l, n_b_med as nat), eq_lo_val),
            ),
{
    let ghost ab = partial_ab@;
    let ghost c0 = partial_c_0@;
    let ghost c1 = partial_c_1@;
    for lane in 0..64usize
        invariant
            n_b_med <= 16,
            256 * n_b_med <= convert.len(),
            forall|l: int| lane <= l < 64 ==> #[trigger] partial_ab@[l] == ab[l],
            forall|l: int| lane <= l < 64 ==> #[trigger] partial_c_0@[l] == c0[l],
            forall|l: int| lane <= l < 64 ==> #[trigger] partial_c_1@[l] == c1[l],
            forall|l: int|
                0 <= l < lane ==> #[trigger] partial_ab@[l] == fadd(
                    ab[l],
                    fmul(converted(chunk_ab_bytes@, convert@, l, n_b_med as nat), eq_lo_val),
                ),
            forall|l: int|
                0 <= l < lane ==> #[trigger] partial_c_0@[l] == fadd(
                    c0[l],
                    fmul(converted_masked(chunk_c_bytes@, convert@, 0x55, l, n_b_med as nat), eq_lo_val),
                ),
            forall|l: int|
                0 <= l < lane ==> #[trigger] partial_c_1@[l] == fadd(
                    c1[l],
                    fmul(converted_masked(chunk_c_bytes@, convert@, 0xaa, l, n_b_med as nat), eq_lo_val),
                ),
    {
        let converted_ab = convert_lane(chunk_ab_bytes, n_b_med, convert, lane);
        let converted_c_0 = convert_lane_masked(chunk_c_bytes, n_b_med, convert, lane, 0x55);
        let converted_c_1 = convert_lane_masked(chunk_c_bytes, n_b_med, convert, lane, 0xaa);
        partial_ab[lane] = partial_ab[lane] + converted_ab * eq_lo_val;
        partial_c_0[lane] = partial_c_0[lane] + converted_c_0 * eq_lo_val;
        partial_c_1[lane] = partial_c_1[lane] + converted_c_1 * eq_lo_val;
    }
}

/// The table entries of one lane's masked bytes, summed.
fn convert_lane_masked(chunk: &[[u8; 64]; 16], n: usize, convert: &[F128], lane: usize, mask: u8) -> (r: F128)
    requires
        n <= 16,
        lane < 64,
        256 * n <= convert.len(),
    ensures
        r == converted_masked(chunk@, convert@, mask, lane as int, n as nat),
{
    let mut acc = F128::zero();
    for b in 0..n
        invariant
            n <= 16,
            lane < 64,
            256 * n <= convert.len(),
            acc == converted_masked(chunk@, convert@, mask, lane as int, b as nat),
    {
        acc = acc + convert[256 * b + (chunk[b][lane] & mask) as usize];
    }
    acc
}

// ---- the third operand's banks ----

/// The number whose bit `b` is bit `bank` of byte `lane` of row `b`, over the first `n` rows.
pub open spec fn bank_mask(c: Seq<u8>, bank: int, lane: int, n: nat) -> nat
    decreases n,
{
    if n == 0 {
        0
    } else {
        bank_mask(c, bank, lane, (n - 1) as nat) + (if bit8(c[64 * (n - 1) + lane], bank) {
            pow2((n - 1) as nat)
        } else {
            0
        })
    }
}

/// A bank mask has no bit past the last row.
pub proof fn lemma_bank_mask_bound(c: Seq<u8>, bank: int, lane: int, n: nat)
    ensures
        bank_mask(c, bank, lane, n) < pow2(n),
    decreases n,
{
    if n == 0 {
        vstd::arithmetic::power2::lemma2_to64();
    } else {
        lemma_bank_mask_bound(c, bank, lane, (n - 1) as nat);
        lemma_pow2_unfold(n);
    }
}

/// One lane of a bank after the drain: the two table halves at the two bytes of its mask.
pub open spec fn drained(before: F128, c: Seq<u8>, tables: Seq<F128>, bank: int, lane: int, n: nat) -> F128 {
    let m = bank_mask(c, bank, lane, n) as int;
    fadd(before, fadd(tables[m % 256], tables[256 + m / 256]))
}

/// Adds to every lane of every bank the table entries of its mask, lane by lane.
pub fn accumulate_c_banks_scalar(
    c_block: &[u8; 1024],
    n_b_med: usize,
    mask_tables: &[F128],
    partial_c: &mut [[F128; 64]; 8],
)
    requires
        n_b_med <= 16,
        mask_tables.len() == 512,
    ensures
        forall|bank: int, lane: int|
            0 <= bank < 8 && 0 <= lane < 64 ==> #[trigger] final(partial_c)@[bank]@[lane] == drained(
                old(partial_c)@[bank]@[lane],
                c_block@,
                mask_tables@,
                bank,
                lane,
                n_b_med as nat,
            ),
{
    let ghost before = partial_c@;
    for bank in 0..8usize
        invariant
            n_b_med <= 16,
            mask_tables.len() == 512,
            forall|b: int| bank <= b < 8 ==> #[trigger] partial_c@[b] == before[b],
            forall|b: int, lane: int|
                0 <= b < bank && 0 <= lane < 64 ==> #[trigger] partial_c@[b]@[lane] == drained(
                    before[b]@[lane],
                    c_block@,
                    mask_tables@,
                    b,
                    lane,
                    n_b_med as nat,
                ),
    {
        let mut row = partial_c[bank];
        for lane in 0..64usize
            invariant
                n_b_med <= 16,
                mask_tables.len() == 512,
                bank < 8,
                forall|l: int| lane <= l < 64 ==> #[trigger] row@[l] == before[bank as int]@[l],
                forall|l: int|
                    0 <= l < lane ==> #[trigger] row@[l] == drained(
                        before[bank as int]@[l],
                        c_block@,
                        mask_tables@,
                        bank as int,
                        l,
                        n_b_med as nat,
                    ),
        {
            let mask = lane_mask(c_block, bank, lane, n_b_med);
            row[lane] = drain_lane(row[lane], mask, mask_tables);
        }
        partial_c[bank] = row;
    }
}

/// The mask of one lane of one bank.
fn lane_mask(c_block: &[u8; 1024], bank: usize, lane: usize, n: usize) -> (r: u32)
    requires
        bank < 8,
        lane < 64,
        n <= 16,
    ensures
        r == bank_mask(c_block@, bank as int, lane as int, n as nat),
        r < 65536,
{
    let mut mask: u32 = 0;
    let mut weight: u32 = 1;
    proof {
        vstd::arithmetic::power2::lemma2_to64();
    }
    for b in 0..n
        invariant
            bank < 8,
            lane < 64,
            n <= 16,
            weight == pow2(b as nat),
            weight <= 65536,
            mask == bank_mask(c_block@, bank as int, lane as int, b as nat),
            mask < weight,
    {
        proof {
            lemma_pow2_unfold((b + 1) as nat);
            lemma_weight_bound((b + 1) as nat);
        }
        if (c_block[64 * b + lane] >> (bank as u8)) & 1 == 1 {
            mask = mask + weight;
        }
        weight = 2 * weight;
    }
    proof {
        lemma_bank_mask_bound(c_block@, bank as int, lane as int, n as nat);
        lemma_weight_bound(n as nat);
    }
    mask
}

proof fn lemma_weight_bound(n: nat)
    requires
        n <= 16,
    ensures
        pow2(n) <= 65536,
{
    vstd::arithmetic::power2::lemma2_to64();
    if n < 16 {
        lemma_pow2_strictly_increases(n, 16);
    }
}

/// One lane with the two table entries of its mask added.
fn drain_lane(v: F128, mask: u32, mask_tables: &[F128]) -> (r: F128)
    requires
        mask < 65536,
        mask_tables.len() == 512,
    ensures
        r == fadd(v, fadd(mask_tables@[mask as int % 256], mask_tables@[256 + mask as int / 256])),
{
    v + (mask_tables[(mask % 256) as usize] + mask_tables[256 + (mask / 256) as usize])
}

/// The masks of sixteen lanes of all banks, row by row.
fn bank_masks16(c_block: &[u8; 1024], lane_base: usize, n: usize) -> (m: [[u32; 16]; 8])
    requires
        lane_base + 16 <= 64,
        n <= 16,
    ensures
        forall|bank: int, l: int|
            0 <= bank < 8 && 0 <= l < 16 ==> #[trigger] m@[bank]@[l] == bank_mask(
                c_block@,
                bank,
                lane_base + l,
                n as nat,
            ),
{
    let mut m = [[0u32; 16]; 8];
    let mut weight: u32 = 1;
    proof {
        vstd::arithmetic::power2::lemma2_to64();
    }
    for b in 0..n
        invariant
            lane_base + 16 <= 64,
            n <= 16,
            weight == pow2(b as nat),
            weight <= 65536,
            forall|bank: int, l: int|
                0 <= bank < 8 && 0 <= l < 16 ==> #[trigger] m@[bank]@[l] == bank_mask(
                    c_block@,
                    bank,
                    lane_base + l,
                    b as nat,
                ),
    {
        let ghost was = m@;
        for bank in 0..8usize
            invariant
                lane_base + 16 <= 64,
                b < n,
                n <= 16,
                weight == pow2(b as nat),
                weight <= 65536,
                forall|k: int| bank <= k < 8 ==> #[trigger] m@[k] == was[k],
                forall|bank: int, l: int|
                    0 <= bank < 8 && 0 <= l < 16 ==> #[trigger] was[bank]@[l] == bank_mask(
                        c_block@,
                        bank,
                        lane_base + l,
                        b as nat,
                    ),
                forall|k: int, l: int|
                    0 <= k < bank && 0 <= l < 16 ==> #[trigger] m@[k]@[l] == bank_mask(
                        c_block@,
                        k,
                        lane_base + l,
                        (b + 1) as nat,
                    ),
        {
            let mut row = m[bank];
            for l in 0..16usize
                invariant
                    lane_base + 16 <= 64,
                    b < n,
                    n <= 16,
                    bank < 8,
                    weight == pow2(b as nat),
                    weight <= 65536,
                    forall|k: int|
                        l <= k < 16 ==> #[trigger] row@[k] == bank_mask(
                            c_block@,
                            bank as int,
                            lane_base + k,
                            b as nat,
                        ),
                    forall|k: int|
                        0 <= k < l ==> #[trigger] row@[k] == bank_mask(
                            c_block@,
                            bank as int,
                            lane_base + k,
                            (b + 1) as nat,
                        ),
            {
                proof {
                    lemma_bank_mask_bound(c_block@, bank as int, lane_base + l, b as nat);
                }
                if (c_block[64 * b + (lane_base + l)] >> (bank as u8)) & 1 == 1 {
                    row[l] = row[l] + weight;
                }
            }
            m[bank] = row;
        }
        proof {
            lemma_pow2_unfold((b + 1) as nat);
            lemma_weight_bound((b + 1) as nat);
        }
        weight = 2 * weight;
    }
    m
}

/// Adds to every lane of every bank the table entries of its mask, the masks of
/// sixteen lanes at a time.
#[verifier::rlimit(40)]
pub fn accumulate_c_banks(
    c_block: &[u8; 1024],
    n_b_med: usize,
    mask_tables: &[F128],
    partial_c: &mut [[F128; 64]; 8],
)
    requires
        n_b_med <= 16,
        mask_tables.len() == 512,
    ensures
        forall|bank: int, lane: int|
            0 <= bank < 8 && 0 <= lane < 64 ==> #[trigger] final(partial_c)@[bank]@[lane] == drained(
                old(partial_c)@[bank]@[lane],
                c_block@,
                mask_tables@,
                bank,
                lane,
                n_b_med as nat,
            ),
{
    let ghost before = partial_c@;
    for g in 0..4usize
        invariant
            n_b_med <= 16,
            mask_tables.len() == 512,
            forall|b: int, lane: int|
                0 <= b < 8 && 16 * g <= lane < 64 ==> #[trigger] partial_c@[b]@[lane] == before[b]@[lane],
            forall|b: int, lane: int|
                0 <= b < 8 && 0 <= lane < 16 * g ==> #[trigger] partial_c@[b]@[lane] == drained(
                    before[b]@[lane],
                    c_block@,
                    mask_tables@,
                    b,
                    lane,
                    n_b_med as nat,
                ),
    {
        let lane_base = 16 * g;
        let masks = bank_masks16(c_block, lane_base, n_b_med);
        let ghost was = partial_c@;
        for bank in 0..8usize
            invariant
                n_b_med <= 16,
                mask_tables.len() == 512,
                g < 4,
                lane_base == 16 * g,
                forall|k: int, l: int|
                    0 <= k < 8 && 0 <= l < 16 ==> #[trigger] masks@[k]@[l] == bank_mask(
                        c_block@,
                        k,
                        lane_base + l,
                        n_b_med as nat,
                    ),
                forall|b: int, lane: int|
                    0 <= b < 8 && 16 * g <= lane < 64 ==> #[trigger] was[b]@[lane] == before[b]@[lane],
                forall|b: int| bank <= b < 8 ==> #[trigger] partial_c@[b] == was[b],
                forall|b: int, lane: int|
                    0 <= b < bank && 16 * g + 16 <= lane < 64 ==> #[trigger] partial_c@[b]@[lane] == before[b]@[lane],
                forall|b: int, lane: int|
                    0 <= b < bank && 0 <= lane < 16 * g + 16 ==> #[trigger] partial_c@[b]@[lane] == drained(
                        before[b]@[lane],
                        c_block@,
                        mask_tables@,
                        b,
                        lane,
                        n_b_med as nat,
                    ),
                forall|b: int, lane: int|
                    0 <= b < 8 && 0 <= lane < 16 * g ==> #[trigger] was[b]@[lane] == drained(
                        before[b]@[lane],
                        c_block@,
                        mask_tables@,
                        b,
                        lane,
                        n_b_med as nat,
                    ),
        {
            let row = drain_row16(&partial_c[bank], &masks[bank], lane_base, mask_tables, Ghost(c_block@), Ghost(
                bank as int,
            ), Ghost(n_b_med as nat));
            proof {
                assert(partial_c@[bank as int] == was[bank as int]);
                assert forall|lane: int| 0 <= lane < 16 * g + 16 implies #[trigger] row@[lane] == drained(
                    before[bank as int]@[lane],
                    c_block@,
                    mask_tables@,
                    bank as int,
                    lane,
                    n_b_med as nat,
                ) by {
                    if lane >= 16 * g {
                        assert(was[bank as int]@[lane] == before[bank as int]@[lane]);
                    } else {
                        assert(was[bank as int]@[lane] == drained(
                            before[bank as int]@[lane],
                            c_block@,
                            mask_tables@,
                            bank as int,
                            lane,
                            n_b_med as nat,
                        ));
                    }
                }
                assert forall|lane: int| 16 * g + 16 <= lane < 64 implies #[trigger] row@[lane]
                    == before[bank as int]@[lane] by {
                    assert(was[bank as int]@[lane] == before[bank as int]@[lane]);
                }
            }
            partial_c[bank] = row;
        }
    }
}

/// Sixteen lanes of one bank with their table entries added.
fn drain_row16(
    row: &[F128; 64],
    masks: &[u32; 16],
    lane_base: usize,
    mask_tables: &[F128],
    Ghost(c): Ghost<Seq<u8>>,
    Ghost(bank): Ghost<int>,
    Ghost(n): Ghost<nat>,
) -> (r: [F128; 64])
    requires
        lane_base + 16 <= 64,
        mask_tables.len() == 512,
        n <= 16,
        forall|l: int| 0 <= l < 16 ==> #[trigger] masks@[l] == bank_mask(c, bank, lane_base + l, n),
    ensures
        forall|l: int|
            0 <= l < 64 ==> #[trigger] r@[l] == (if lane_base <= l < lane_base + 16 {
                drained(row@[l], c, mask_tables@, bank, l, n)
            } else {
                row@[l]
            }),
{
    let mut r = *row;
    for l in 0..16usize
        invariant
            lane_base + 16 <= 64,
            mask_tables.len() == 512,
            n <= 16,
            forall|l: int| 0 <= l < 16 ==> #[trigger] masks@[l] == bank_mask(c, bank, lane_base + l, n),
            forall|k: int|
                0 <= k < 64 ==> #[trigger] r@[k] == (if lane_base <= k < lane_base + l {
                    drained(row@[k], c, mask_tables@, bank, k, n)
                } else {
                    row@[k]
                }),
    {
        proof {
            lemma_bank_mask_bound(c, bank, lane_base + l, n);
            lemma_weight_bound(n);
            assert(masks@[l as int] == bank_mask(c, bank, lane_base + l, n));
        }
        r[lane_base + l] = drain_lane(r[lane_base + l], masks[l], mask_tables);
    }
    r
}

} // verus!
