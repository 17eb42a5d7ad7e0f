//! The streaming producer of the inner products, with the padding left out.
//!
//! A witness block holds its useful bits first and padding after them. The windows
//! of an outer window that lie in the padding alone are not transformed: the reader
//! of the round stops at the same counts.

use crate::field::gf2_8::F8;
use crate::zerocheck::univariate_skip_optimized::inv_table::{InvNttTableByteSingleGf8, ELL};
use crate::zerocheck::univariate_skip_optimized::kernels::{
    leaf_byte, shift_reduce_inner_ab_x86_avx512, shift_reduce_inner_ab_x86_sse,
};
use vstd::arithmetic::power2::{lemma2_to64, lemma_pow2_pos, pow2};
use vstd::prelude::*;

verus! {

/// Windows of an outer window.
pub const N_FULL: usize = 16;

/// Bytes of an outer window.
pub const OUTER_BYTES: usize = 1024;

/// Bits of an outer window, as a power of two.
pub const OUTER_LOG: usize = 13;

/// Bits of a window.
pub const WINDOW_BITS: usize = 512;

/// The shape of the padding: blocks of `2^k_log` bits, of which the first
/// `useful_bits` are useful.
#[derive(Clone, Copy, Debug)]
pub struct PaddingSpec {
    pub k_log: usize,
    pub useful_bits: usize,
}

/// Outer windows per block; a block smaller than an outer window counts as one.
pub open spec fn outers_per_block(p: PaddingSpec) -> nat {
    if p.k_log >= OUTER_LOG {
        pow2((p.k_log - OUTER_LOG) as nat)
    } else {
        1
    }
}

/// Whether window `w` of outer window `outer` of a block holds a useful bit. Of a
/// block smaller than an outer window every window counts.
pub open spec fn is_useful(p: PaddingSpec, outer: int, w: int) -> bool {
    p.k_log < OUTER_LOG || WINDOW_BITS * (N_FULL * outer + w) < p.useful_bits
}

/// The number of useful windows of outer window `outer` of a block: they come first.
pub open spec fn useful_windows(p: PaddingSpec, outer: int) -> int {
    if p.k_log < OUTER_LOG || p.useful_bits as int >= 8192 * (outer + 1) {
        16
    } else if p.useful_bits as int <= 8192 * outer {
        0
    } else {
        (p.useful_bits as int - 8192 * outer + 511) / 512
    }
}

/// The count says which windows hold a useful bit: those below it, and no others.
pub proof fn law_counts_are_useful_prefixes(p: PaddingSpec, outer: int, w: int)
    requires
        0 <= outer,
        0 <= w < N_FULL,
    ensures
        0 <= useful_windows(p, outer) <= N_FULL,
        is_useful(p, outer, w) <==> w < useful_windows(p, outer),
{
}

/// The counts of the outer windows of a block, made once and looked up per window.
#[derive(Clone, Debug)]
pub struct BMedPadPlan {
    pub within_outer_mask: usize,
    pub counts: Vec<u8>,
    pub dense: bool,
}

/// The mask of the outer index within a block, and the counts of its outer windows.
pub fn build_b_med_counts(padding: &PaddingSpec) -> (r: (usize, Vec<u8>))
    requires
        padding.k_log < OUTER_LOG + usize::BITS,
    ensures
        r.0 + 1 == outers_per_block(*padding),
        r.1.len() == outers_per_block(*padding),
        forall|i: int| 0 <= i < r.1.len() ==> #[trigger] r.1@[i] == useful_windows(*padding, i),
{
    let n: usize = if padding.k_log >= OUTER_LOG {
        let s = padding.k_log - OUTER_LOG;
        proof {
            vstd::bits::lemma_usize_pow2_no_overflow(s as nat);
            vstd::bits::lemma_usize_shl_is_mul(1, s);
        }
        1usize << s
    } else {
        1
    };
    let mut counts: Vec<u8> = Vec::new();
    for i in 0..n
        invariant
            n == outers_per_block(*padding),
            counts.len() == i,
            forall|k: int| 0 <= k < i ==> #[trigger] counts@[k] == useful_windows(*padding, k),
    {
        // The bits below this outer window would not fit a machine word only when
        // no useful bit reaches it.
        let count: u8 = if padding.k_log < OUTER_LOG || padding.useful_bits / 8192 > i {
            16
        } else if padding.useful_bits / 8192 < i {
            0
        } else {
            ((padding.useful_bits % 8192 + 511) / 512) as u8
        };
        counts.push(count);
    }
    proof {
        if padding.k_log >= OUTER_LOG {
            lemma_pow2_pos((padding.k_log - OUTER_LOG) as nat);
        }
    }
    (n - 1, counts)
}

impl BMedPadPlan {
    /// The plan belongs to the padding: its mask and counts are those of the block,
    /// and it is dense when every window of every outer window is useful.
    pub open spec fn is_plan_of(&self, p: PaddingSpec) -> bool {
        &&& p.k_log < OUTER_LOG + usize::BITS
        &&& self.within_outer_mask + 1 == outers_per_block(p)
        &&& self.counts.len() == outers_per_block(p)
        &&& forall|i: int| 0 <= i < self.counts.len() ==> #[trigger] self.counts@[i] == useful_windows(p, i)
        &&& self.dense == (forall|i: int| 0 <= i < self.counts.len() ==> #[trigger] self.counts@[i] == N_FULL)
    }

    /// The mask and the counts fit together.
    pub open spec fn wf(&self) -> bool {
        exists|p: PaddingSpec| self.is_plan_of(p)
    }

    /// The plan of a padding.
    pub fn new(padding: &PaddingSpec) -> (r: BMedPadPlan)
        requires
            padding.k_log < OUTER_LOG + usize::BITS,
        ensures
            r.is_plan_of(*padding),
            r.wf(),
    {
        let (within_outer_mask, counts) = build_b_med_counts(padding);
        let n = counts.len();
        let mut dense = true;
        for i in 0..n
            invariant
                n == counts.len(),
                dense == (forall|k: int| 0 <= k < i ==> #[trigger] counts@[k] == N_FULL),
        {
            if counts[i] as usize != N_FULL {
                dense = false;
            }
        }
        let r = BMedPadPlan { within_outer_mask, counts, dense };
        proof {
            if dense {
                assert forall|i: int| 0 <= i < r.counts.len() implies #[trigger] r.counts@[i] == N_FULL by {}
            }
            assert(r.is_plan_of(*padding));
        }
        r
    }

    /// Whether nothing can be skipped.
    pub fn is_dense(&self) -> (r: bool)
        ensures
            r == self.dense,
    {
        self.dense
    }

    /// Windows of the outer window `outer` that hold a useful bit.
    pub fn n_b_med(&self, outer: usize) -> (r: usize)
        requires
            self.wf(),
        ensures
            r == self.counts@[outer as int % self.counts.len() as int],
            r <= N_FULL,
            forall|p: PaddingSpec|
                self.is_plan_of(p) ==> r == useful_windows(p, outer as int % outers_per_block(p) as int),
    {
        let w = self.within(outer);
        let r = self.counts[w] as usize;
        proof {
            let p = choose|p: PaddingSpec| self.is_plan_of(p);
            law_counts_are_useful_prefixes(p, w as int, 0);
        }
        r
    }

    /// The index of the outer window within its block.
    pub fn within(&self, outer: usize) -> (r: usize)
        requires
            self.wf(),
        ensures
            r == outer as int % self.counts.len() as int,
            r < self.counts.len(),
    {
        proof {
            let p = choose|p: PaddingSpec| self.is_plan_of(p);
            let s: nat = if p.k_log >= OUTER_LOG {
                (p.k_log - OUTER_LOG) as nat
            } else {
                0
            };
            lemma2_to64();
            lemma_pow2_pos(s);
            vstd::bits::lemma_usize_pow2_no_overflow(s);
            vstd::bits::lemma_usize_low_bits_mask_is_mod(outer, s);
            assert(outers_per_block(p) == pow2(s));
            assert(vstd::bits::low_bits_mask(s) == self.within_outer_mask);
        }
        outer & self.within_outer_mask
    }
}

// ---- the producer ----

/// Zeroes the bytes `at..end`: the windows that a stream cannot leave unwritten.
pub fn zero_tail(out: &mut [u8], at: usize, end: usize)
    requires
        at <= end <= old(out).len(),
    ensures
        final(out).len() == old(out).len(),
        forall|n: int|
            0 <= n < old(out).len() ==> #[trigger] final(out)@[n] == (if at <= n < end {
                0u8
            } else {
                old(out)@[n]
            }),
{
    let ghost before = out@;
    for i in at..end
        invariant
            at <= end <= out.len(),
            out.len() == before.len(),
            forall|n: int|
                0 <= n < before.len() ==> #[trigger] out@[n] == (if at <= n < i {
                    0u8
                } else {
                    before[n]
                }),
    {
        out[i] = 0;
    }
}

/// Byte `n` after the first `count` windows of the outer window at `base` were transformed.
pub open spec fn transformed(
    data: Seq<u8>,
    a: Seq<u8>,
    b: Seq<u8>,
    before: Seq<u8>,
    base: int,
    count: int,
    n: int,
) -> u8 {
    if base <= n < base + 64 * count {
        leaf_byte(data, a, b, n - (n - base) % 64, (n - base) % 64)
    } else {
        before[n]
    }
}

/// Transforms window `b_med` of the outer window at `base`, with the wide kernel or
/// with the narrow one.
pub fn shift_reduce_inner_ab(
    a_packed: &[u8],
    b_packed: &[u8],
    inv_table: &InvNttTableByteSingleGf8,
    base: usize,
    b_med: usize,
    out: &mut [u8],
    a_col: &mut [F8],
    b_col: &mut [F8],
    wide: bool,
)
    requires
        inv_table.ell == ELL,
        inv_table.data.len() == 256 * 64,
        base + 64 * b_med + 64 <= a_packed.len(),
        base + 64 * b_med + 64 <= b_packed.len(),
        base + 64 * b_med + 64 <= old(out).len(),
        old(a_col).len() == 64,
        old(b_col).len() == 64,
    ensures
        final(out).len() == old(out).len(),
        final(a_col).len() == 64,
        final(b_col).len() == 64,
        forall|n: int|
            0 <= n < old(out).len() ==> #[trigger] final(out)@[n] == (if base + 64 * b_med <= n < base + 64 * b_med
                + 64 {
                leaf_byte(
                    inv_table.data@,
                    a_packed@,
                    b_packed@,
                    base + 64 * b_med,
                    n - (base + 64 * b_med),
                )
            } else {
                old(out)@[n]
            }),
{
    let mut w = [0u8; 64];
    if wide {
        shift_reduce_inner_ab_x86_avx512(a_packed, b_packed, inv_table, base, b_med, &mut w);
    } else {
        shift_reduce_inner_ab_x86_sse(a_packed, b_packed, inv_table, base, b_med, &mut w, a_col, b_col);
    }
    let at = base + 64 * b_med;
    let ghost before = out@;
    for i in 0..64usize
        invariant
            at + 64 <= out.len(),
            out.len() == before.len(),
            forall|n: int|
                0 <= n < before.len() ==> #[trigger] out@[n] == (if at <= n < at + i {
                    w@[n - at]
                } else {
                    before[n]
                }),
    {
        out[at + i] = w[i];
    }
}

/// Transforms the first `count` windows of the outer window at `base`, two at a
/// time and the odd one last.
#[verifier::rlimit(30)]
pub fn shift_reduce_windows_into_blocks(
    a_packed: &[u8],
    b_packed: &[u8],
    inv_table: &InvNttTableByteSingleGf8,
    base: usize,
    count: usize,
    out: &mut [u8],
    a_col: &mut [F8],
    b_col: &mut [F8],
    wide: bool,
)
    requires
        inv_table.ell == ELL,
        inv_table.data.len() == 256 * 64,
        count <= N_FULL,
        base + OUTER_BYTES <= a_packed.len(),
        base + OUTER_BYTES <= b_packed.len(),
        base + OUTER_BYTES <= old(out).len(),
        old(a_col).len() == 64,
        old(b_col).len() == 64,
    ensures
        final(out).len() == old(out).len(),
        final(a_col).len() == 64,
        final(b_col).len() == 64,
        forall|n: int|
            0 <= n < old(out).len() ==> #[trigger] final(out)@[n] == transformed(
                inv_table.data@,
                a_packed@,
                b_packed@,
                old(out)@,
                base as int,
                count as int,
                n,
            ),
{
    let ghost before = out@;
    let mut b_med: usize = 0;
    while b_med + 1 < count
        invariant
            inv_table.ell == ELL,
            inv_table.data.len() == 256 * 64,
            b_med <= count <= N_FULL,
            base + OUTER_BYTES <= a_packed.len(),
            base + OUTER_BYTES <= b_packed.len(),
            base + OUTER_BYTES <= out.len(),
            out.len() == before.len(),
            a_col.len() == 64,
            b_col.len() == 64,
            forall|n: int|
                0 <= n < before.len() ==> #[trigger] out@[n] == transformed(
                    inv_table.data@,
                    a_packed@,
                    b_packed@,
                    before,
                    base as int,
                    b_med as int,
                    n,
                ),
        decreases count - b_med,
    {
        one_window(a_packed, b_packed, inv_table, base, b_med, out, a_col, b_col, wide, Ghost(before));
        one_window(a_packed, b_packed, inv_table, base, b_med + 1, out, a_col, b_col, wide, Ghost(before));
        b_med = b_med + 2;
    }
    if b_med < count {
        one_window(a_packed, b_packed, inv_table, base, b_med, out, a_col, b_col, wide, Ghost(before));
    }
}

/// One more window of an outer window whose first `b_med` are done.
fn one_window(
    a_packed: &[u8],
    b_packed: &[u8],
    inv_table: &InvNttTableByteSingleGf8,
    base: usize,
    b_med: usize,
    out: &mut [u8],
    a_col: &mut [F8],
    b_col: &mut [F8],
    wide: bool,
    Ghost(before): Ghost<Seq<u8>>,
)
    requires
        inv_table.ell == ELL,
        inv_table.data.len() == 256 * 64,
        b_med < N_FULL,
        base + OUTER_BYTES <= a_packed.len(),
        base + OUTER_BYTES <= b_packed.len(),
        base + OUTER_BYTES <= old(out).len(),
        old(out).len() == before.len(),
        old(a_col).len() == 64,
        old(b_col).len() == 64,
        forall|n: int|
            0 <= n < before.len() ==> #[trigger] old(out)@[n] == transformed(
                inv_table.data@,
                a_packed@,
                b_packed@,
                before,
                base as int,
                b_med as int,
                n,
            ),
    ensures
        final(out).len() == old(out).len(),
        final(a_col).len() == 64,
        final(b_col).len() == 64,
        forall|n: int|
            0 <= n < before.len() ==> #[trigger] final(out)@[n] == transformed(
                inv_table.data@,
                a_packed@,
                b_packed@,
                before,
                base as int,
                b_med + 1,
                n,
            ),
{
    let ghost was = out@;
    shift_reduce_inner_ab(a_packed, b_packed, inv_table, base, b_med, out, a_col, b_col, wide);
    proof {
        let at = base + 64 * b_med;
        assert forall|n: int| 0 <= n < before.len() implies #[trigger] out@[n] == transformed(
            inv_table.data@,
            a_packed@,
            b_packed@,
            before,
            base as int,
            b_med + 1,
            n,
        ) by {
            if at <= n < at + 64 {
                assert((n - base) % 64 == n - at);
            } else {
                assert(was[n] == transformed(
                    inv_table.data@,
                    a_packed@,
                    b_packed@,
                    before,
                    base as int,
                    b_med as int,
                    n,
                ));
            }
        }
    }
}

/// How the stores of a call reach memory, by the address of the output modulo 64:
/// whole lines past the cache, quarter lines past the cache, or through the cache.
pub fn store_class(nt_out: bool, residue: usize) -> (r: u8)
    requires
        residue < 64,
    ensures
        r == (if !nt_out {
            0u8
        } else if residue == 0 {
            2
        } else if residue % 16 == 0 {
            1
        } else {
            0
        }),
{
    if nt_out {
        if residue == 0 {
            2
        } else if residue % 16 == 0 {
            1
        } else {
            0
        }
    } else {
        0
    }
}

/// Byte `n` of the output of the producer: the windows that the plan counts are
/// transformed; the others are zeroed in quarter-line streams, so that no line is
/// left half written, and untouched otherwise.
pub open spec fn produced(
    data: Seq<u8>,
    a: Seq<u8>,
    b: Seq<u8>,
    before: Seq<u8>,
    counts: Seq<u8>,
    outer_base: int,
    nt: u8,
    n: int,
) -> u8 {
    let outer = n / 1024;
    let count = counts[(outer_base + outer) % counts.len() as int] as int;
    if n % 1024 < 64 * count {
        leaf_byte(data, a, b, n - n % 64, n % 64)
    } else if nt == 1 {
        0
    } else {
        before[n]
    }
}

/// The windows that the reader of the round loads are those of the dense producer,
/// whatever the plan leaves out.
pub proof fn law_padded_is_dense_where_read(
    data: Seq<u8>,
    a: Seq<u8>,
    b: Seq<u8>,
    before: Seq<u8>,
    counts: Seq<u8>,
    outer_base: int,
    nt: u8,
    n: int,
)
    requires
        0 <= outer_base,
        0 <= n,
        counts.len() > 0,
        n % 1024 < 64 * counts[(outer_base + n / 1024) % counts.len() as int],
    ensures
        produced(data, a, b, before, counts, outer_base, nt, n) == produced(
            data,
            a,
            b,
            before,
            seq![16u8],
            outer_base,
            nt,
            n,
        ),
{
    assert((outer_base + n / 1024) % 1 == 0);
    assert(seq![16u8][0] == 16u8);
}

/// Transforms the windows of both operands that carry useful bits, for all outer
/// windows of the buffers; `outer_base` is the index of the first of them.
#[verifier::rlimit(60)]
pub fn precompute_round1_ab_inner_windows_padded(
    a_packed: &[u8],
    b_packed: &[u8],
    out: &mut [u8],
    inv_table: &InvNttTableByteSingleGf8,
    nt_out: bool,
    out_residue: usize,
    plan: &BMedPadPlan,
    outer_base: usize,
    wide: bool,
)
    requires
        a_packed.len() == b_packed.len(),
        a_packed.len() == old(out).len(),
        a_packed.len() % 1024 == 0,
        inv_table.k == 6,
        inv_table.ell == ELL,
        inv_table.data.len() == 256 * 64,
        out_residue < 64,
        plan.wf(),
        outer_base + a_packed.len() / 1024 <= usize::MAX,
    ensures
        final(out).len() == old(out).len(),
        forall|n: int|
            0 <= n < old(out).len() ==> #[trigger] final(out)@[n] == produced(
                inv_table.data@,
                a_packed@,
                b_packed@,
                old(out)@,
                plan.counts@,
                outer_base as int,
                (if !nt_out {
                    0u8
                } else if out_residue == 0 {
                    2
                } else if out_residue % 16 == 0 {
                    1
                } else {
                    0
                }),
                n,
            ),
{
    let nt = store_class(nt_out, out_residue);
    let drop_tail = nt != 1;
    let mut a_col = [F8(0); 64];
    let mut b_col = [F8(0); 64];
    let ghost before = out@;
    let outers = a_packed.len() / OUTER_BYTES;
    for outer in 0..outers
        invariant
            outers == a_packed.len() / 1024,
            a_packed.len() % 1024 == 0,
            a_packed.len() == b_packed.len(),
            a_packed.len() == out.len(),
            out.len() == before.len(),
            inv_table.ell == ELL,
            inv_table.data.len() == 256 * 64,
            plan.wf(),
            outer_base + outers <= usize::MAX,
            drop_tail == (nt != 1),
            forall|n: int| 1024 * outer <= n < before.len() ==> #[trigger] out@[n] == before[n],
            forall|n: int|
                0 <= n < 1024 * outer ==> #[trigger] out@[n] == produced(
                    inv_table.data@,
                    a_packed@,
                    b_packed@,
                    before,
                    plan.counts@,
                    outer_base as int,
                    nt,
                    n,
                ),
    {
        let base = outer * OUTER_BYTES;
        let g_outer = outer_base + outer;
        let n_b_med = plan.n_b_med(g_outer);
        let ghost was = out@;
        shift_reduce_windows_into_blocks(
            a_packed,
            b_packed,
            inv_table,
            base,
            n_b_med,
            out,
            &mut a_col,
            &mut b_col,
            wide,
        );
        let ghost mid = out@;
        if n_b_med < N_FULL && !drop_tail {
            zero_tail(out, base + n_b_med * 64, base + OUTER_BYTES);
        }
        proof {
            assert forall|n: int| 0 <= n < 1024 * (outer + 1) implies #[trigger] out@[n] == produced(
                inv_table.data@,
                a_packed@,
                b_packed@,
                before,
                plan.counts@,
                outer_base as int,
                nt,
                n,
            ) by {
                assert(mid[n] == transformed(
                    inv_table.data@,
                    a_packed@,
                    b_packed@,
                    was,
                    base as int,
                    n_b_med as int,
                    n,
                ));
                if n >= 1024 * outer {
                    assert(n / 1024 == outer && n % 1024 == n - base);
                    assert((n - base) % 64 == n % 64);
                    assert(was[n] == before[n]);
                } else {
                    assert(was[n] == produced(
                        inv_table.data@,
                        a_packed@,
                        b_packed@,
                        before,
                        plan.counts@,
                        outer_base as int,
                        nt,
                        n,
                    ));
                }
            }
            assert forall|n: int| 1024 * (outer + 1) <= n < before.len() implies #[trigger] out@[n] == before[n] by {
                assert(mid[n] == transformed(
                    inv_table.data@,
                    a_packed@,
                    b_packed@,
                    was,
                    base as int,
                    n_b_med as int,
                    n,
                ));
                assert(was[n] == before[n]);
            }
        }
    }
}

} // verus!
