//! The slice kernels four lanes at a time.
//!
//! A multiplier that is used more than once is kept together with its product
//! by `x^64`, so that every lane-wise product takes one reduction step.

use super::{
    bind_seq, dot, dot_upto, evens, fold_seq, lemma_dot_step4, lerp, lerp2, pair_sums, portable, vadd,
};
use crate::field::gf2_128::ghash::{
    even_lanes, f128x4_loadu, f128x4_splat, f128x4_storeu, ghash_mul_unreduced_x86, ghash_mul_x4_split,
    ghash_shift64_x4, odd_lanes, transpose4_lanes, xor_x4, F128x4, F256Unreduced, WideGhashX4,
};
use crate::field::gf2_128::{
    fadd, fmul, fzero, law_fadd_assoc, law_fadd_comm, law_fadd_zero, law_fmul_comm, times_xn, F128,
};
use vstd::prelude::*;

verus! {

/// Destination pairs per block of the blocked folds.
pub const FOLD_PAIRS_BLOCK: usize = 256;

/// Destination pairs per block of the blocked folds.
pub fn fold_pairs_block_size() -> (r: usize)
    ensures
        r == FOLD_PAIRS_BLOCK,
{
    FOLD_PAIRS_BLOCK
}

/// A multiplier in every lane, with its product by `x^64`.
#[derive(Clone, Copy, Debug)]
pub struct Multiplier {
    pub r: F128,
    pub by: F128x4,
    pub by_x64: F128x4,
}

impl Multiplier {
    /// Both lane vectors hold what their names say.
    pub open spec fn wf(self) -> bool {
        &&& self.by@ == seq![self.r, self.r, self.r, self.r]
        &&& forall|i: int| 0 <= i < 4 ==> #[trigger] self.by_x64@[i] == times_xn(self.by@[i], 64)
    }

    /// Prepares the multiplier `r`.
    pub fn new(r: F128) -> (m: Multiplier)
        ensures
            m.wf(),
            m.r == r,
    {
        let by = f128x4_splat(r);
        Multiplier { r, by, by_x64: ghash_shift64_x4(by) }
    }

    /// Lane-wise `r * v`.
    pub fn times(&self, v: F128x4) -> (p: F128x4)
        requires
            self.wf(),
        ensures
            forall|i: int| 0 <= i < 4 ==> #[trigger] p@[i] == fmul(self.r, v@[i]),
    {
        let p = ghash_mul_x4_split(v, self.by, self.by_x64);
        proof {
            assert forall|i: int| 0 <= i < 4 implies #[trigger] p@[i] == fmul(self.r, v@[i]) by {
                assert(self.by@[i] == self.r);
                law_fmul_comm(v@[i], self.r);
            }
        }
        p
    }

    /// Lane-wise fold of `even` and `odd` at `r`.
    pub fn lerp(&self, even: F128x4, odd: F128x4) -> (p: F128x4)
        requires
            self.wf(),
        ensures
            forall|i: int| 0 <= i < 4 ==> #[trigger] p@[i] == lerp(even@[i], odd@[i], self.r),
    {
        let d = xor_x4(even, odd);
        let m = self.times(d);
        let p = xor_x4(even, m);
        proof {
            assert forall|i: int| 0 <= i < 4 implies #[trigger] p@[i] == lerp(even@[i], odd@[i], self.r) by {
                assert(d@[i] == fadd(even@[i], odd@[i]));
                assert(m@[i] == fmul(self.r, d@[i]));
            }
        }
        p
    }
}

/// Folds the four adjacent pairs `src[s..s + 8]`.
pub fn fold_quad(src: &[F128], s: usize, r: &Multiplier) -> (q: F128x4)
    requires
        s + 8 <= src.len(),
        r.wf(),
    ensures
        forall|i: int|
            0 <= i < 4 ==> #[trigger] q@[i] == lerp(src@[s + 2 * i], src@[s + 2 * i + 1], r.r),
{
    let lo = f128x4_loadu(src, s);
    let hi = f128x4_loadu(src, s + 4);
    let even = even_lanes(lo, hi);
    let odd = odd_lanes(lo, hi);
    let q = r.lerp(even, odd);
    proof {
        assert forall|i: int| 0 <= i < 4 implies #[trigger] q@[i] == lerp(
            src@[s + 2 * i],
            src@[s + 2 * i + 1],
            r.r,
        ) by {
            assert(even@[i] == src@[s + 2 * i]);
            assert(odd@[i] == src@[s + 2 * i + 1]);
        }
    }
    q
}

/// Folds adjacent pairs of `src`, from pair `base` on, into `dst`.
pub fn fold_pairs(src: &[F128], base: usize, dst: &mut [F128], r: F128)
    requires
        base <= src.len() / 2,
        old(dst).len() <= src.len() / 2 - base,
    ensures
        final(dst).len() == old(dst).len(),
        forall|t: int|
            0 <= t < old(dst).len() ==> #[trigger] final(dst)@[t] == lerp(
                src@[2 * (base + t)],
                src@[2 * (base + t) + 1],
                r,
            ),
{
    let m = Multiplier::new(r);
    let n: usize = dst.len();
    let lanes: usize = n - n % 4;
    let mut t: usize = 0;
    while t < lanes
        invariant
            m.wf(),
            m.r == r,
            n == dst.len(),
            lanes == n - n % 4,
            t % 4 == 0,
            t <= lanes,
            base <= src.len() / 2,
            n <= src.len() / 2 - base,
            forall|j: int|
                0 <= j < t ==> #[trigger] dst@[j] == lerp(
                    src@[2 * (base + j)],
                    src@[2 * (base + j) + 1],
                    r,
                ),
        decreases lanes - t,
    {
        let q = fold_quad(src, 2 * (base + t), &m);
        f128x4_storeu(dst, t, q);
        proof {
            assert forall|j: int| t <= j < t + 4 implies #[trigger] dst@[j] == lerp(
                src@[2 * (base + j)],
                src@[2 * (base + j) + 1],
                r,
            ) by {
                assert(dst@[j] == q@[j - t]);
                assert(2 * (base + t) + 2 * (j - t) == 2 * (base + j));
            }
        }
        t = t + 4;
    }
    portable::portable_tail(src, base, dst, r, t);
}

/// Folds the pairs `from..to` of a block: quadruples first, single pairs after.
fn fold_block_tail(src: &[F128], base: usize, dst: &mut [F128], m: &Multiplier, from: usize, to: usize)
    requires
        m.wf(),
        base <= src.len() / 2,
        old(dst).len() <= src.len() / 2 - base,
        from <= to <= old(dst).len(),
    ensures
        final(dst).len() == old(dst).len(),
        forall|t: int| 0 <= t < from ==> #[trigger] final(dst)@[t] == old(dst)@[t],
        forall|t: int|
            from <= t < to ==> #[trigger] final(dst)@[t] == lerp(
                src@[2 * (base + t)],
                src@[2 * (base + t) + 1],
                m.r,
            ),
{
    let ghost before = dst@;
    let lanes: usize = (to - from) - (to - from) % 4;
    let chunk_end: usize = from + lanes;
    let mut t: usize = from;
    while t < chunk_end
        invariant
            m.wf(),
            dst.len() == before.len(),
            base <= src.len() / 2,
            dst.len() <= src.len() / 2 - base,
            lanes == (to - from) - (to - from) % 4,
            chunk_end == from + lanes,
            from <= t <= chunk_end <= to <= dst.len(),
            (t - from) % 4 == 0,
            forall|j: int| 0 <= j < from ==> #[trigger] dst@[j] == before[j],
            forall|j: int|
                from <= j < t ==> #[trigger] dst@[j] == lerp(
                    src@[2 * (base + j)],
                    src@[2 * (base + j) + 1],
                    m.r,
                ),
        decreases chunk_end - t,
    {
        let q = fold_quad(src, 2 * (base + t), m);
        f128x4_storeu(dst, t, q);
        proof {
            assert forall|j: int| t <= j < t + 4 implies #[trigger] dst@[j] == lerp(
                src@[2 * (base + j)],
                src@[2 * (base + j) + 1],
                m.r,
            ) by {
                assert(dst@[j] == q@[j - t]);
                assert(2 * (base + t) + 2 * (j - t) == 2 * (base + j));
            }
        }
        t = t + 4;
    }
    while t < to
        invariant
            dst.len() == before.len(),
            base <= src.len() / 2,
            dst.len() <= src.len() / 2 - base,
            from <= t <= to <= dst.len(),
            forall|j: int| 0 <= j < from ==> #[trigger] dst@[j] == before[j],
            forall|j: int|
                from <= j < t ==> #[trigger] dst@[j] == lerp(
                    src@[2 * (base + j)],
                    src@[2 * (base + j) + 1],
                    m.r,
                ),
        decreases to - t,
    {
        let s: usize = 2 * (base + t);
        let even = src[s];
        dst[t] = even + m.r * (even + src[s + 1]);
        t = t + 1;
    }
}

/// Whether `v` holds `want[at..at + 4]`.
spec fn holds4(v: Seq<F128>, want: Seq<F128>, at: int) -> bool {
    v[0] == want[at] && v[1] == want[at + 1] && v[2] == want[at + 2] && v[3] == want[at + 3]
}

/// Stores eight quadruples to `dst[t..t + 32]`.
fn store8(dst: &mut [F128], t: usize, vs: [F128x4; 8], want: Ghost<Seq<F128>>)
    requires
        t + 32 <= old(dst).len(),
        forall|q: int| 0 <= q < 8 ==> holds4((#[trigger] vs@[q])@, want@, t + 4 * q),
    ensures
        final(dst).len() == old(dst).len(),
        forall|j: int| 0 <= j < t ==> #[trigger] final(dst)@[j] == old(dst)@[j],
        forall|j: int| t <= j < t + 32 ==> #[trigger] final(dst)@[j] == want@[j],
{
    let ghost before = dst@;
    for q in 0..8
        invariant
            t + 32 <= before.len(),
            dst.len() == before.len(),
            forall|k: int| 0 <= k < 8 ==> holds4((#[trigger] vs@[k])@, want@, t + 4 * k),
            forall|j: int| 0 <= j < t ==> #[trigger] dst@[j] == before[j],
            forall|j: int| t <= j < t + 4 * q ==> #[trigger] dst@[j] == want@[j],
    {
        let v = vs[q];
        assert(holds4(vs@[q as int]@, want@, t + 4 * q));
        f128x4_storeu(dst, t + 4 * q, v);
        proof {
            assert forall|j: int| t + 4 * q <= j < t + 4 * q + 4 implies #[trigger] dst@[j] == want@[j] by {
                let i = j - (t + 4 * q);
                assert(dst@[j] == v@[i]);
                assert(i == 0 || i == 1 || i == 2 || i == 3);
            }
        }
    }
}

/// [`fold_pairs`] in blocks, eight quadruples at a time within a block.
pub fn fold_pairs_cached(src: &[F128], base: usize, dst: &mut [F128], r: F128)
    requires
        base <= src.len() / 2,
        old(dst).len() <= src.len() / 2 - base,
    ensures
        final(dst).len() == old(dst).len(),
        forall|t: int|
            0 <= t < old(dst).len() ==> #[trigger] final(dst)@[t] == lerp(
                src@[2 * (base + t)],
                src@[2 * (base + t) + 1],
                r,
            ),
{
    let m = Multiplier::new(r);
    let total: usize = dst.len();
    let block: usize = if fold_pairs_block_size() < total {
        fold_pairs_block_size()
    } else {
        total
    };
    let ghost want = Seq::new(
        total as nat,
        |t: int| lerp(src@[2 * (base + t)], src@[2 * (base + t) + 1], r),
    );
    let mut done: usize = 0;
    while done < total
        invariant
            m.wf(),
            m.r == r,
            dst.len() == total,
            base <= src.len() / 2,
            total <= src.len() / 2 - base,
            done <= total,
            0 < total ==> 0 < block,
            want == Seq::new(
                total as nat,
                |t: int| lerp(src@[2 * (base + t)], src@[2 * (base + t) + 1], r),
            ),
            forall|j: int| 0 <= j < done ==> #[trigger] dst@[j] == want[j],
        decreases total - done,
    {
        let chunk: usize = if block < total - done {
            block
        } else {
            total - done
        };
        let unroll_end: usize = done + (chunk - chunk % 32);
        let mut t: usize = done;
        while t < unroll_end
            invariant
                m.wf(),
                m.r == r,
                dst.len() == total,
                base <= src.len() / 2,
                total <= src.len() / 2 - base,
                chunk <= total - done,
                unroll_end == done + (chunk - chunk % 32),
                done <= t <= unroll_end,
                (t - done) % 32 == 0,
                want == Seq::new(
                    total as nat,
                    |t: int| lerp(src@[2 * (base + t)], src@[2 * (base + t) + 1], r),
                ),
                forall|j: int| 0 <= j < t ==> #[trigger] dst@[j] == want[j],
            decreases unroll_end - t,
        {
            let s: usize = 2 * (base + t);
            let v0 = fold_quad(src, s, &m);
            let v1 = fold_quad(src, s + 8, &m);
            let v2 = fold_quad(src, s + 16, &m);
            let v3 = fold_quad(src, s + 24, &m);
            let v4 = fold_quad(src, s + 32, &m);
            let v5 = fold_quad(src, s + 40, &m);
            let v6 = fold_quad(src, s + 48, &m);
            let v7 = fold_quad(src, s + 56, &m);
            proof {
                assert(holds4(v0@, want, t as int));
                assert(holds4(v1@, want, t + 4));
                assert(holds4(v2@, want, t + 8));
                assert(holds4(v3@, want, t + 12));
                assert(holds4(v4@, want, t + 16));
                assert(holds4(v5@, want, t + 20));
                assert(holds4(v6@, want, t + 24));
                assert(holds4(v7@, want, t + 28));
            }
            store8(dst, t, [v0, v1, v2, v3, v4, v5, v6, v7], Ghost(want));
            t = t + 32;
        }
        fold_block_tail(src, base, dst, &m, t, done + chunk);
        done = done + chunk;
    }
}

// ---- folds with a scaled addend ----

/// `src` folded at `r`, plus `scale` times `addend` folded at `r`, at pair `j`.
pub open spec fn lerp_scaled(src: Seq<F128>, addend: Seq<F128>, j: int, r: F128, scale: F128) -> F128 {
    fadd(
        lerp(src[2 * j], src[2 * j + 1], r),
        fmul(scale, lerp(addend[2 * j], addend[2 * j + 1], r)),
    )
}

/// Folds the pairs `j..j + 4` of both slices and adds the scaled second fold.
fn fold_quad_scaled(src: &[F128], addend: &[F128], j: usize, r: &Multiplier, scale: &Multiplier) -> (q: F128x4)
    requires
        2 * j + 8 <= src.len(),
        2 * j + 8 <= addend.len(),
        r.wf(),
        scale.wf(),
    ensures
        forall|i: int|
            0 <= i < 4 ==> #[trigger] q@[i] == lerp_scaled(src@, addend@, j + i, r.r, scale.r),
{
    let s_folded = fold_quad(src, 2 * j, r);
    let a_folded = fold_quad(addend, 2 * j, r);
    let scaled = scale.times(a_folded);
    let q = xor_x4(s_folded, scaled);
    proof {
        assert forall|i: int| 0 <= i < 4 implies #[trigger] q@[i] == lerp_scaled(
            src@,
            addend@,
            j + i,
            r.r,
            scale.r,
        ) by {
            assert(scaled@[i] == fmul(scale.r, a_folded@[i]));
            assert(2 * j + 2 * i == 2 * (j + i));
        }
    }
    q
}

/// One pair of [`fold_quad_scaled`].
fn fold_one_scaled(src: &[F128], addend: &[F128], j: usize, r: F128, scale: F128) -> (v: F128)
    requires
        2 * j + 2 <= src.len(),
        2 * j + 2 <= addend.len(),
    ensures
        v == lerp_scaled(src@, addend@, j as int, r, scale),
{
    let index: usize = 2 * j;
    let src_even = src[index];
    let addend_even = addend[index];
    let src_folded = src_even + r * (src_even + src[index + 1]);
    let addend_folded = addend_even + r * (addend_even + addend[index + 1]);
    src_folded + scale * addend_folded
}

/// The pairs `from..to` of a scaled fold: quadruples first, single pairs after.
fn fold_scaled_tail(
    src: &[F128],
    addend: &[F128],
    base: usize,
    dst: &mut [F128],
    r: &Multiplier,
    scale: &Multiplier,
    from: usize,
    to: usize,
)
    requires
        r.wf(),
        scale.wf(),
        base <= src.len() / 2,
        base <= addend.len() / 2,
        old(dst).len() <= src.len() / 2 - base,
        old(dst).len() <= addend.len() / 2 - base,
        from <= to <= old(dst).len(),
    ensures
        final(dst).len() == old(dst).len(),
        forall|t: int| 0 <= t < from ==> #[trigger] final(dst)@[t] == old(dst)@[t],
        forall|t: int|
            from <= t < to ==> #[trigger] final(dst)@[t] == lerp_scaled(
                src@,
                addend@,
                base + t,
                r.r,
                scale.r,
            ),
{
    let ghost before = dst@;
    let lanes: usize = (to - from) - (to - from) % 4;
    let chunk_end: usize = from + lanes;
    let mut t: usize = from;
    while t < chunk_end
        invariant
            r.wf(),
            scale.wf(),
            dst.len() == before.len(),
            base <= src.len() / 2,
            base <= addend.len() / 2,
            dst.len() <= src.len() / 2 - base,
            dst.len() <= addend.len() / 2 - base,
            lanes == (to - from) - (to - from) % 4,
            chunk_end == from + lanes,
            from <= t <= chunk_end <= to <= dst.len(),
            (t - from) % 4 == 0,
            forall|j: int| 0 <= j < from ==> #[trigger] dst@[j] == before[j],
            forall|j: int|
                from <= j < t ==> #[trigger] dst@[j] == lerp_scaled(
                    src@,
                    addend@,
                    base + j,
                    r.r,
                    scale.r,
                ),
        decreases chunk_end - t,
    {
        let q = fold_quad_scaled(src, addend, base + t, r, scale);
        f128x4_storeu(dst, t, q);
        proof {
            assert forall|j: int| t <= j < t + 4 implies #[trigger] dst@[j] == lerp_scaled(
                src@,
                addend@,
                base + j,
                r.r,
                scale.r,
            ) by {
                assert(dst@[j] == q@[j - t]);
                assert(base + t + (j - t) == base + j);
            }
        }
        t = t + 4;
    }
    while t < to
        invariant
            dst.len() == before.len(),
            base <= src.len() / 2,
            base <= addend.len() / 2,
            dst.len() <= src.len() / 2 - base,
            dst.len() <= addend.len() / 2 - base,
            from <= t <= to <= dst.len(),
            forall|j: int| 0 <= j < from ==> #[trigger] dst@[j] == before[j],
            forall|j: int|
                from <= j < t ==> #[trigger] dst@[j] == lerp_scaled(
                    src@,
                    addend@,
                    base + j,
                    r.r,
                    scale.r,
                ),
        decreases to - t,
    {
        dst[t] = fold_one_scaled(src, addend, base + t, r.r, scale.r);
        t = t + 1;
    }
}

/// Folds both slices at `r` from pair `base` on and adds the second one scaled.
pub fn fold_pairs_with_scaled_addend(
    src: &[F128],
    addend: &[F128],
    base: usize,
    dst: &mut [F128],
    r: F128,
    scale: F128,
)
    requires
        base <= src.len() / 2,
        base <= addend.len() / 2,
        old(dst).len() <= src.len() / 2 - base,
        old(dst).len() <= addend.len() / 2 - base,
    ensures
        final(dst).len() == old(dst).len(),
        forall|t: int|
            0 <= t < old(dst).len() ==> #[trigger] final(dst)@[t] == lerp_scaled(
                src@,
                addend@,
                base + t,
                r,
                scale,
            ),
{
    let r_m = Multiplier::new(r);
    let scale_m = Multiplier::new(scale);
    let n: usize = dst.len();
    fold_scaled_tail(src, addend, base, dst, &r_m, &scale_m, 0, n);
}

/// [`fold_pairs_with_scaled_addend`] in blocks, eight quadruples at a time within a block.
pub fn fold_pairs_with_scaled_addend_cached(
    src: &[F128],
    addend: &[F128],
    base: usize,
    dst: &mut [F128],
    r: F128,
    scale: F128,
)
    requires
        base <= src.len() / 2,
        base <= addend.len() / 2,
        old(dst).len() <= src.len() / 2 - base,
        old(dst).len() <= addend.len() / 2 - base,
    ensures
        final(dst).len() == old(dst).len(),
        forall|t: int|
            0 <= t < old(dst).len() ==> #[trigger] final(dst)@[t] == lerp_scaled(
                src@,
                addend@,
                base + t,
                r,
                scale,
            ),
{
    let r_m = Multiplier::new(r);
    let scale_m = Multiplier::new(scale);
    let total: usize = dst.len();
    let block: usize = if fold_pairs_block_size() < total {
        fold_pairs_block_size()
    } else {
        total
    };
    let ghost want = Seq::new(
        total as nat,
        |t: int| lerp_scaled(src@, addend@, base + t, r, scale),
    );
    let mut done: usize = 0;
    while done < total
        invariant
            r_m.wf(),
            r_m.r == r,
            scale_m.wf(),
            scale_m.r == scale,
            dst.len() == total,
            base <= src.len() / 2,
            base <= addend.len() / 2,
            total <= src.len() / 2 - base,
            total <= addend.len() / 2 - base,
            done <= total,
            0 < total ==> 0 < block,
            want == Seq::new(
                total as nat,
                |t: int| lerp_scaled(src@, addend@, base + t, r, scale),
            ),
            forall|j: int| 0 <= j < done ==> #[trigger] dst@[j] == want[j],
        decreases total - done,
    {
        let chunk: usize = if block < total - done {
            block
        } else {
            total - done
        };
        let unroll_end: usize = done + (chunk - chunk % 32);
        let mut t: usize = done;
        while t < unroll_end
            invariant
                r_m.wf(),
                r_m.r == r,
                scale_m.wf(),
                scale_m.r == scale,
                dst.len() == total,
                base <= src.len() / 2,
                base <= addend.len() / 2,
                total <= src.len() / 2 - base,
                total <= addend.len() / 2 - base,
                chunk <= total - done,
                unroll_end == done + (chunk - chunk % 32),
                done <= t <= unroll_end,
                (t - done) % 32 == 0,
                want == Seq::new(
                    total as nat,
                    |t: int| lerp_scaled(src@, addend@, base + t, r, scale),
                ),
                forall|j: int| 0 <= j < t ==> #[trigger] dst@[j] == want[j],
            decreases unroll_end - t,
        {
            let j: usize = base + t;
            let v0 = fold_quad_scaled(src, addend, j, &r_m, &scale_m);
            let v1 = fold_quad_scaled(src, addend, j + 4, &r_m, &scale_m);
            let v2 = fold_quad_scaled(src, addend, j + 8, &r_m, &scale_m);
            let v3 = fold_quad_scaled(src, addend, j + 12, &r_m, &scale_m);
            let v4 = fold_quad_scaled(src, addend, j + 16, &r_m, &scale_m);
            let v5 = fold_quad_scaled(src, addend, j + 20, &r_m, &scale_m);
            let v6 = fold_quad_scaled(src, addend, j + 24, &r_m, &scale_m);
            let v7 = fold_quad_scaled(src, addend, j + 28, &r_m, &scale_m);
            proof {
                assert(holds4(v0@, want, t as int));
                assert(holds4(v1@, want, t + 4));
                assert(holds4(v2@, want, t + 8));
                assert(holds4(v3@, want, t + 12));
                assert(holds4(v4@, want, t + 16));
                assert(holds4(v5@, want, t + 20));
                assert(holds4(v6@, want, t + 24));
                assert(holds4(v7@, want, t + 28));
            }
            store8(dst, t, [v0, v1, v2, v3, v4, v5, v6, v7], Ghost(want));
            t = t + 32;
        }
        fold_scaled_tail(src, addend, base, dst, &r_m, &scale_m, t, done + chunk);
        done = done + chunk;
    }
}

// ---- scaled sums and nested folds ----

/// Adds one scaled slice into another: `dst[i] += scale * addend[i]`.
pub fn add_scaled(dst: &mut [F128], addend: &[F128], scale: F128)
    requires
        old(dst).len() == addend.len(),
    ensures
        final(dst).len() == old(dst).len(),
        forall|i: int|
            0 <= i < old(dst).len() ==> #[trigger] final(dst)@[i] == fadd(
                old(dst)@[i],
                fmul(scale, addend@[i]),
            ),
{
    let ghost before = dst@;
    let m = Multiplier::new(scale);
    let n: usize = dst.len();
    let lanes: usize = n - n % 4;
    let mut i: usize = 0;
    while i < lanes
        invariant
            m.wf(),
            m.r == scale,
            n == before.len(),
            dst.len() == n,
            addend.len() == n,
            lanes == n - n % 4,
            i <= lanes,
            i % 4 == 0,
            forall|j: int| 0 <= j < i ==> #[trigger] dst@[j] == fadd(before[j], fmul(scale, addend@[j])),
            forall|j: int| i <= j < n ==> #[trigger] dst@[j] == before[j],
        decreases lanes - i,
    {
        let current = f128x4_loadu(dst, i);
        let extra = f128x4_loadu(addend, i);
        let scaled = m.times(extra);
        let sum = xor_x4(current, scaled);
        f128x4_storeu(dst, i, sum);
        proof {
            assert forall|j: int| i <= j < i + 4 implies #[trigger] dst@[j] == fadd(
                before[j],
                fmul(scale, addend@[j]),
            ) by {
                let k = j - i;
                assert(dst@[j] == sum@[k]);
                assert(sum@[k] == fadd(current@[k], scaled@[k]));
                assert(scaled@[k] == fmul(scale, extra@[k]));
            }
        }
        i = i + 4;
    }
    while i < n
        invariant
            n == before.len(),
            dst.len() == n,
            addend.len() == n,
            i <= n,
            forall|j: int| 0 <= j < i ==> #[trigger] dst@[j] == fadd(before[j], fmul(scale, addend@[j])),
            forall|j: int| i <= j < n ==> #[trigger] dst@[j] == before[j],
        decreases n - i,
    {
        dst[i] = dst[i] + scale * addend[i];
        i = i + 1;
    }
}

/// Folds adjacent quadruples: `r0` within pairs, then `r1` across them.
pub fn fold4_nested(src: &[F128], dst: &mut [F128], r0: F128, r1: F128)
    requires
        src.len() == 4 * old(dst).len(),
    ensures
        final(dst).len() == old(dst).len(),
        forall|t: int|
            0 <= t < old(dst).len() ==> #[trigger] final(dst)@[t] == lerp2(
                src@[4 * t],
                src@[4 * t + 1],
                src@[4 * t + 2],
                src@[4 * t + 3],
                r0,
                r1,
            ),
{
    let m0 = Multiplier::new(r0);
    let m1 = Multiplier::new(r1);
    let n: usize = dst.len();
    let lanes: usize = n - n % 4;
    let mut t: usize = 0;
    while t < lanes
        invariant
            m0.wf(),
            m0.r == r0,
            m1.wf(),
            m1.r == r1,
            dst.len() == n,
            src.len() == 4 * n,
            lanes == n - n % 4,
            t <= lanes,
            t % 4 == 0,
            forall|j: int|
                0 <= j < t ==> #[trigger] dst@[j] == lerp2(
                    src@[4 * j],
                    src@[4 * j + 1],
                    src@[4 * j + 2],
                    src@[4 * j + 3],
                    r0,
                    r1,
                ),
        decreases lanes - t,
    {
        let s: usize = 4 * t;
        let mid01 = fold_quad(src, s, &m0);
        let mid23 = fold_quad(src, s + 8, &m0);
        let low = even_lanes(mid01, mid23);
        let high = odd_lanes(mid01, mid23);
        let out = m1.lerp(low, high);
        f128x4_storeu(dst, t, out);
        proof {
            assert forall|j: int| t <= j < t + 4 implies #[trigger] dst@[j] == lerp2(
                src@[4 * j],
                src@[4 * j + 1],
                src@[4 * j + 2],
                src@[4 * j + 3],
                r0,
                r1,
            ) by {
                let k = j - t;
                assert(dst@[j] == out@[k]);
                assert(out@[k] == lerp(low@[k], high@[k], r1));
                assert(k == 0 || k == 1 || k == 2 || k == 3);
                assert(mid01@[0] == lerp(src@[s + 0], src@[s + 1], r0));
                assert(mid01@[1] == lerp(src@[s + 2], src@[s + 3], r0));
                assert(mid01@[2] == lerp(src@[s + 4], src@[s + 5], r0));
                assert(mid01@[3] == lerp(src@[s + 6], src@[s + 7], r0));
                assert(mid23@[0] == lerp(src@[s + 8], src@[s + 9], r0));
                assert(mid23@[1] == lerp(src@[s + 10], src@[s + 11], r0));
                assert(mid23@[2] == lerp(src@[s + 12], src@[s + 13], r0));
                assert(mid23@[3] == lerp(src@[s + 14], src@[s + 15], r0));
            }
        }
        t = t + 4;
    }
    portable::fold4_tail(src, dst, r0, r1, t);
}

// ---- banked sums ----

/// The sum of `w[b] * src[at + b]` over `b < n`.
pub open spec fn dot_at(w: Seq<F128>, src: Seq<F128>, at: int, n: nat) -> F128
    decreases n,
{
    if n == 0 {
        fzero()
    } else {
        fadd(dot_at(w, src, at, (n - 1) as nat), fmul(w[n - 1], src[at + n - 1]))
    }
}

/// A banked sum as a sum of products with a part of the vector.
pub proof fn lemma_dot_at(w: Seq<F128>, src: Seq<F128>, at: int, n: nat)
    requires
        0 <= at,
        at + w.len() <= src.len(),
        n <= w.len(),
    ensures
        dot_at(w, src, at, n) == dot_upto(w, src.subrange(at, at + w.len()), n),
    decreases n,
{
    if n > 0 {
        lemma_dot_at(w, src, at, (n - 1) as nat);
        assert(src.subrange(at, at + w.len())[n - 1] == src[at + n - 1]);
    }
}

/// Four weighted sums at `at`, `at + stride`, ..., one unreduced accumulator per sum.
fn fold_banked_quad(src: &[F128], at: usize, stride: usize, w: &[F128]) -> (r: F128x4)
    requires
        w.len() % 4 == 0,
        w.len() <= stride,
        at + 4 * stride <= src.len(),
    ensures
        r@[0] == dot_at(w@, src@, at as int, w.len() as nat),
        r@[1] == dot_at(w@, src@, at + stride, w.len() as nat),
        r@[2] == dot_at(w@, src@, at + 2 * stride, w.len() as nat),
        r@[3] == dot_at(w@, src@, at + 3 * stride, w.len() as nat),
{
    let mut acc = WideGhashX4::zero();
    let n: usize = w.len();
    let mut b: usize = 0;
    while b < n
        invariant
            n == w.len(),
            n % 4 == 0,
            n <= stride,
            at + 4 * stride <= src.len(),
            b <= n,
            b % 4 == 0,
            acc.lane(0) == dot_at(w@, src@, at as int, b as nat),
            acc.lane(1) == dot_at(w@, src@, at + stride, b as nat),
            acc.lane(2) == dot_at(w@, src@, at + 2 * stride, b as nat),
            acc.lane(3) == dot_at(w@, src@, at + 3 * stride, b as nat),
        decreases n - b,
    {
        let a0 = f128x4_loadu(src, at + b);
        let a1 = f128x4_loadu(src, at + stride + b);
        let a2 = f128x4_loadu(src, at + 2 * stride + b);
        let a3 = f128x4_loadu(src, at + 3 * stride + b);
        let u = transpose4_lanes(a0, a1, a2, a3);
        for k in 0..4
            invariant
                n == w.len(),
                b + 4 <= n,
                n <= stride,
                at + 4 * stride <= src.len(),
                a0@ == src@.subrange(at + b, at + b + 4),
                a1@ == src@.subrange(at + stride + b, at + stride + b + 4),
                a2@ == src@.subrange(at + 2 * stride + b, at + 2 * stride + b + 4),
                a3@ == src@.subrange(at + 3 * stride + b, at + 3 * stride + b + 4),
                forall|k: int|
                    0 <= k < 4 ==> #[trigger] u@[k]@ == seq![a0@[k], a1@[k], a2@[k], a3@[k]],
                acc.lane(0) == dot_at(w@, src@, at as int, (b + k) as nat),
                acc.lane(1) == dot_at(w@, src@, at + stride, (b + k) as nat),
                acc.lane(2) == dot_at(w@, src@, at + 2 * stride, (b + k) as nat),
                acc.lane(3) == dot_at(w@, src@, at + 3 * stride, (b + k) as nat),
        {
            let wk = w[b + k];
            let ghost before = acc;
            acc.mul_acc(u[k], f128x4_splat(wk));
            proof {
                let v = u@[k as int]@;
                assert(v == seq![a0@[k as int], a1@[k as int], a2@[k as int], a3@[k as int]]);
                assert(acc.lane(0) == fadd(before.lane(0), fmul(v[0], wk)));
                assert(acc.lane(1) == fadd(before.lane(1), fmul(v[1], wk)));
                assert(acc.lane(2) == fadd(before.lane(2), fmul(v[2], wk)));
                assert(acc.lane(3) == fadd(before.lane(3), fmul(v[3], wk)));
                law_fmul_comm(v[0], wk);
                law_fmul_comm(v[1], wk);
                law_fmul_comm(v[2], wk);
                law_fmul_comm(v[3], wk);
                assert((b + k + 1) - 1 == b + k);
            }
        }
        b = b + 4;
    }
    acc.reduce_lanes()
}

/// One weighted sum, reduced term by term.
fn fold_banked_one(src: &[F128], at: usize, w: &[F128]) -> (v: F128)
    requires
        at + w.len() <= src.len(),
    ensures
        v == dot_at(w@, src@, at as int, w.len() as nat),
{
    let mut v = F128::zero();
    let n: usize = w.len();
    for b in 0..n
        invariant
            n == w.len(),
            at + n <= src.len(),
            v == dot_at(w@, src@, at as int, b as nat),
    {
        v = v + w[b] * src[at + b];
    }
    v
}

/// Sixteen-bank weighted fold: `dst[t]` is the sum of `w[b] * src[16 t + b]`.
pub fn fold16_banked(src: &[F128], dst: &mut [F128], w: &[F128; 16])
    requires
        src.len() == 16 * old(dst).len(),
    ensures
        final(dst).len() == old(dst).len(),
        forall|t: int|
            0 <= t < old(dst).len() ==> #[trigger] final(dst)@[t] == dot(
                w@,
                src@.subrange(16 * t, 16 * t + 16),
            ),
{
    let n: usize = dst.len();
    let quads: usize = n - n % 4;
    let mut t: usize = 0;
    while t < quads
        invariant
            dst.len() == n,
            src.len() == 16 * n,
            quads == n - n % 4,
            t <= quads,
            t % 4 == 0,
            forall|j: int| 0 <= j < t ==> #[trigger] dst@[j] == dot_at(w@, src@, 16 * j, 16),
        decreases quads - t,
    {
        let q = fold_banked_quad(src, 16 * t, 16, w);
        f128x4_storeu(dst, t, q);
        proof {
            assert forall|j: int| t <= j < t + 4 implies #[trigger] dst@[j] == dot_at(w@, src@, 16 * j, 16) by {
                assert(dst@[j] == q@[j - t]);
                assert(j == t || j == t + 1 || j == t + 2 || j == t + 3);
            }
        }
        t = t + 4;
    }
    while t < n
        invariant
            dst.len() == n,
            src.len() == 16 * n,
            t <= n,
            forall|j: int| 0 <= j < t ==> #[trigger] dst@[j] == dot_at(w@, src@, 16 * j, 16),
        decreases n - t,
    {
        dst[t] = fold_banked_one(src, 16 * t, w);
        t = t + 1;
    }
    proof {
        assert forall|j: int| 0 <= j < n implies #[trigger] dst@[j] == dot(
            w@,
            src@.subrange(16 * j, 16 * j + 16),
        ) by {
            lemma_dot_at(w@, src@, 16 * j, 16);
        }
    }
}

/// Sixty-four-bank weighted fold: `dst[t]` is the sum of `w[b] * src[64 t + b]`.
pub fn fold64_banked(src: &[F128], dst: &mut [F128], w: &[F128; 64])
    requires
        src.len() == 64 * old(dst).len(),
    ensures
        final(dst).len() == old(dst).len(),
        forall|t: int|
            0 <= t < old(dst).len() ==> #[trigger] final(dst)@[t] == dot(
                w@,
                src@.subrange(64 * t, 64 * t + 64),
            ),
{
    let n: usize = dst.len();
    let quads: usize = n - n % 4;
    let mut t: usize = 0;
    while t < quads
        invariant
            dst.len() == n,
            src.len() == 64 * n,
            quads == n - n % 4,
            t <= quads,
            t % 4 == 0,
            forall|j: int| 0 <= j < t ==> #[trigger] dst@[j] == dot_at(w@, src@, 64 * j, 64),
        decreases quads - t,
    {
        let q = fold_banked_quad(src, 64 * t, 64, w);
        f128x4_storeu(dst, t, q);
        proof {
            assert forall|j: int| t <= j < t + 4 implies #[trigger] dst@[j] == dot_at(w@, src@, 64 * j, 64) by {
                assert(dst@[j] == q@[j - t]);
                assert(j == t || j == t + 1 || j == t + 2 || j == t + 3);
            }
        }
        t = t + 4;
    }
    while t < n
        invariant
            dst.len() == n,
            src.len() == 64 * n,
            t <= n,
            forall|j: int| 0 <= j < t ==> #[trigger] dst@[j] == dot_at(w@, src@, 64 * j, 64),
        decreases n - t,
    {
        dst[t] = fold_banked_one(src, 64 * t, w);
        t = t + 1;
    }
    proof {
        assert forall|j: int| 0 <= j < n implies #[trigger] dst@[j] == dot(
            w@,
            src@.subrange(64 * j, 64 * j + 64),
        ) by {
            lemma_dot_at(w@, src@, 64 * j, 64);
        }
    }
}

// ---- fold and message ----

/// Folds both vectors at `r` in place, eight outputs at a time, and returns the
/// statistics of the next round.
pub fn fold_two_and_msg_in_place(f: &mut Vec<F128>, b: &mut Vec<F128>, r: F128) -> (u: (F128, F128))
    requires
        old(f)@.len() == old(b)@.len(),
        old(f)@.len() % 4 == 0,
    ensures
        final(f)@ == fold_seq(old(f)@, r),
        final(b)@ == fold_seq(old(b)@, r),
        u.0 == dot(evens(final(f)@), evens(final(b)@)),
        u.1 == dot(pair_sums(final(f)@), pair_sums(final(b)@)),
{
    let ghost f0s = f@;
    let ghost b0s = b@;
    let ghost fs = fold_seq(f@, r);
    let ghost bs = fold_seq(b@, r);
    let m = Multiplier::new(r);
    let len: usize = f.len();
    let half: usize = len / 2;
    let lanes: usize = half - half % 8;
    let mut u0_acc = WideGhashX4::zero();
    let mut u2_acc = WideGhashX4::zero();
    let mut t: usize = 0;
    while t < lanes
        invariant
            m.wf(),
            m.r == r,
            len == f0s.len(),
            half == len / 2,
            len % 4 == 0,
            len == b0s.len(),
            f@.len() == len,
            b@.len() == len,
            lanes == half - half % 8,
            t % 8 == 0,
            t <= lanes,
            fs == fold_seq(f0s, r),
            bs == fold_seq(b0s, r),
            forall|i: int| 0 <= i < t ==> #[trigger] f@[i] == fs[i],
            forall|i: int| 0 <= i < t ==> #[trigger] b@[i] == bs[i],
            forall|i: int| t <= i < len ==> #[trigger] f@[i] == f0s[i],
            forall|i: int| t <= i < len ==> #[trigger] b@[i] == b0s[i],
            u0_acc.total() == dot_upto(evens(fs), evens(bs), (t / 2) as nat),
            u2_acc.total() == dot_upto(pair_sums(fs), pair_sums(bs), (t / 2) as nat),
        decreases lanes - t,
    {
        let f0 = fold_quad(f, 2 * t, &m);
        let f1 = fold_quad(f, 2 * t + 8, &m);
        let b0 = fold_quad(b, 2 * t, &m);
        let b1 = fold_quad(b, 2 * t + 8, &m);
        proof {
            lemma_quad_at(f0s, fs, r, f@, t as int, f0@, f1@);
            lemma_quad_at(b0s, bs, r, b@, t as int, b0@, b1@);
        }
        store_quad(f, t, f0);
        store_quad(f, t + 4, f1);
        store_quad(b, t, b0);
        store_quad(b, t + 4, b1);
        let f_even = even_lanes(f0, f1);
        let b_even = even_lanes(b0, b1);
        let f_odd = odd_lanes(f0, f1);
        let b_odd = odd_lanes(b0, b1);
        let f_sum = xor_x4(f_even, f_odd);
        let b_sum = xor_x4(b_even, b_odd);
        let ghost t0 = u0_acc.total();
        let ghost s0 = u2_acc.total();
        u0_acc.mul_acc(f_even, b_even);
        u2_acc.mul_acc(f_sum, b_sum);
        proof {
            let k = (t / 2) as int;
            assert(2 * k == t);
            lemma_even_odd_at(fs, t as int, f0@, f1@, f_sum@);
            lemma_even_odd_at(bs, t as int, b0@, b1@, b_sum@);
            lemma_acc_step4(t0, u0_acc.total(), evens(fs), evens(bs), k);
            lemma_acc_step4(s0, u2_acc.total(), pair_sums(fs), pair_sums(bs), k);
            assert((t + 8) / 2 == k + 4);
            assert forall|i: int| 0 <= i < t + 8 implies #[trigger] f@[i] == fs[i] by {
                if t <= i {
                    assert(i == t || i == t + 1 || i == t + 2 || i == t + 3 || i == t + 4 || i == t + 5 || i
                        == t + 6 || i == t + 7);
                }
            }
            assert forall|i: int| 0 <= i < t + 8 implies #[trigger] b@[i] == bs[i] by {
                if t <= i {
                    assert(i == t || i == t + 1 || i == t + 2 || i == t + 3 || i == t + 4 || i == t + 5 || i
                        == t + 6 || i == t + 7);
                }
            }
        }
        t = t + 8;
    }
    let mut u0 = u0_acc.fold().reduce();
    let mut u2 = u2_acc.fold().reduce();
    while t < half
        invariant
            len == f0s.len(),
            half == len / 2,
            len % 4 == 0,
            len == b0s.len(),
            f@.len() == len,
            b@.len() == len,
            t % 2 == 0,
            t <= half,
            fs == fold_seq(f0s, r),
            bs == fold_seq(b0s, r),
            forall|i: int| 0 <= i < t ==> #[trigger] f@[i] == fs[i],
            forall|i: int| 0 <= i < t ==> #[trigger] b@[i] == bs[i],
            forall|i: int| t <= i < len ==> #[trigger] f@[i] == f0s[i],
            forall|i: int| t <= i < len ==> #[trigger] b@[i] == b0s[i],
            u0 == dot_upto(evens(fs), evens(bs), (t / 2) as nat),
            u2 == dot_upto(pair_sums(fs), pair_sums(bs), (t / 2) as nat),
        decreases half - t,
    {
        let source: usize = 2 * t;
        let x0 = f[source] + r * (f[source] + f[source + 1]);
        let x1 = f[source + 2] + r * (f[source + 2] + f[source + 3]);
        let y0 = b[source] + r * (b[source] + b[source + 1]);
        let y1 = b[source + 2] + r * (b[source + 2] + b[source + 3]);
        f[t] = x0;
        f[t + 1] = x1;
        b[t] = y0;
        b[t + 1] = y1;
        proof {
            assert(fs[t as int] == x0);
            assert(fs[t + 1] == x1);
            assert(bs[t as int] == y0);
            assert(bs[t + 1] == y1);
            let k = (t / 2) as int;
            assert(evens(fs)[k] == x0 && evens(bs)[k] == y0);
            assert(pair_sums(fs)[k] == fadd(x0, x1) && pair_sums(bs)[k] == fadd(y0, y1));
            assert((t + 2) / 2 == t / 2 + 1);
        }
        u0 = u0 + x0 * y0;
        u2 = u2 + (x0 + x1) * (y0 + y1);
        t = t + 2;
    }
    f.truncate(half);
    b.truncate(half);
    proof {
        assert(f@ =~= fs);
        assert(b@ =~= bs);
        assert(evens(fs).len() == t / 2);
        assert(pair_sums(fs).len() == t / 2);
    }
    (u0, u2)
}

/// Two folded quadruples are elements `t..t + 8` of the folded vector.
proof fn lemma_quad_at(
    before: Seq<F128>,
    folded: Seq<F128>,
    r: F128,
    now: Seq<F128>,
    t: int,
    q0: Seq<F128>,
    q1: Seq<F128>,
)
    requires
        0 <= t,
        t + 8 <= before.len() / 2,
        now.len() == before.len(),
        folded == fold_seq(before, r),
        forall|i: int| t <= i < before.len() ==> #[trigger] now[i] == before[i],
        forall|i: int| 0 <= i < 4 ==> #[trigger] q0[i] == lerp(now[2 * t + 2 * i], now[2 * t + 2 * i + 1], r),
        forall|i: int|
            0 <= i < 4 ==> #[trigger] q1[i] == lerp(now[2 * t + 8 + 2 * i], now[2 * t + 8 + 2 * i + 1], r),
    ensures
        q0[0] == folded[t],
        q0[1] == folded[t + 1],
        q0[2] == folded[t + 2],
        q0[3] == folded[t + 3],
        q1[0] == folded[t + 4],
        q1[1] == folded[t + 5],
        q1[2] == folded[t + 6],
        q1[3] == folded[t + 7],
{
    assert forall|i: int| 0 <= i < 4 implies #[trigger] q0[i] == folded[t + i] by {
        assert(2 * t + 2 * i == 2 * (t + i));
    }
    assert forall|i: int| 0 <= i < 4 implies #[trigger] q1[i] == folded[t + 4 + i] by {
        assert(2 * t + 8 + 2 * i == 2 * (t + 4 + i));
    }
    assert(q0[0] == folded[t + 0]);
    assert(q1[0] == folded[t + 4 + 0]);
}

/// The even elements and the pair sums of eight elements from an even position on.
proof fn lemma_even_odd_at(v: Seq<F128>, t: int, q0: Seq<F128>, q1: Seq<F128>, sums: Seq<F128>)
    requires
        0 <= t,
        t % 2 == 0,
        t + 8 <= v.len(),
        q0[0] == v[t],
        q0[1] == v[t + 1],
        q0[2] == v[t + 2],
        q0[3] == v[t + 3],
        q1[0] == v[t + 4],
        q1[1] == v[t + 5],
        q1[2] == v[t + 6],
        q1[3] == v[t + 7],
        sums[0] == fadd(q0[0], q0[1]),
        sums[1] == fadd(q0[2], q0[3]),
        sums[2] == fadd(q1[0], q1[1]),
        sums[3] == fadd(q1[2], q1[3]),
    ensures
        evens(v)[t / 2] == q0[0],
        evens(v)[t / 2 + 1] == q0[2],
        evens(v)[t / 2 + 2] == q1[0],
        evens(v)[t / 2 + 3] == q1[2],
        pair_sums(v)[t / 2] == sums[0],
        pair_sums(v)[t / 2 + 1] == sums[1],
        pair_sums(v)[t / 2 + 2] == sums[2],
        pair_sums(v)[t / 2 + 3] == sums[3],
{
    let k = t / 2;
    assert(2 * k == t);
}

fn store_quad(v: &mut Vec<F128>, at: usize, q: F128x4)
    requires
        at + 4 <= old(v).len(),
    ensures
        final(v)@.len() == old(v)@.len(),
        forall|i: int|
            0 <= i < old(v)@.len() ==> #[trigger] final(v)@[i] == (if at <= i < at + 4 {
                q@[i - at]
            } else {
                old(v)@[i]
            }),
{
    v[at] = q.lanes[0];
    v[at + 1] = q.lanes[1];
    v[at + 2] = q.lanes[2];
    v[at + 3] = q.lanes[3];
}

// ---- split-half rounds ----

/// Folds two halves at `r`: `lo[i]` becomes the line through `lo[i]` and `hi[i]` at `r`.
pub fn bind_split_half(lo: &mut [F128], hi: &[F128], r: F128)
    requires
        old(lo).len() <= hi.len(),
    ensures
        final(lo)@ == bind_seq(old(lo)@, hi@, r),
{
    let ghost before = lo@;
    let m = Multiplier::new(r);
    let n: usize = lo.len();
    let lanes: usize = n - n % 4;
    let mut i: usize = 0;
    while i < lanes
        invariant
            m.wf(),
            m.r == r,
            n == before.len(),
            lo.len() == n,
            n <= hi.len(),
            lanes == n - n % 4,
            i <= lanes,
            i % 4 == 0,
            forall|j: int| 0 <= j < i ==> #[trigger] lo@[j] == lerp(before[j], hi@[j], r),
            forall|j: int| i <= j < n ==> #[trigger] lo@[j] == before[j],
        decreases lanes - i,
    {
        let a = f128x4_loadu(lo, i);
        let b = f128x4_loadu(hi, i);
        let new = m.lerp(a, b);
        f128x4_storeu(lo, i, new);
        proof {
            assert forall|j: int| i <= j < i + 4 implies #[trigger] lo@[j] == lerp(before[j], hi@[j], r) by {
                assert(lo@[j] == new@[j - i]);
                assert(a@[j - i] == before[j]);
                assert(b@[j - i] == hi@[j]);
            }
        }
        i = i + 4;
    }
    while i < n
        invariant
            n == before.len(),
            lo.len() == n,
            n <= hi.len(),
            i <= n,
            forall|j: int| 0 <= j < i ==> #[trigger] lo@[j] == lerp(before[j], hi@[j], r),
            forall|j: int| i <= j < n ==> #[trigger] lo@[j] == before[j],
        decreases n - i,
    {
        proof {
            law_fadd_comm(hi@[i as int], before[i as int]);
        }
        lo[i] = lo[i] + r * (hi[i] + lo[i]);
        i = i + 1;
    }
    assert(lo@ =~= bind_seq(before, hi@, r));
}

/// An accumulated product sum grows by four terms.
pub proof fn lemma_acc_step4(total0: F128, total1: F128, a: Seq<F128>, b: Seq<F128>, i: int)
    requires
        0 <= i,
        total0 == dot_upto(a, b, i as nat),
        total1 == fadd(
            total0,
            fadd(
                fadd(fmul(a[i], b[i]), fmul(a[i + 1], b[i + 1])),
                fadd(fmul(a[i + 2], b[i + 2]), fmul(a[i + 3], b[i + 3])),
            ),
        ),
    ensures
        total1 == dot_upto(a, b, (i + 4) as nat),
{
    lemma_dot_step4(a, b, i);
}

/// A term that goes to the tail goes to the whole.
pub proof fn lemma_tail_step(acc: F128, wide: F128, term: F128)
    ensures
        fadd(fadd(acc, term), wide) == fadd(fadd(acc, wide), term),
{
    law_fadd_assoc(acc, term, wide);
    law_fadd_comm(term, wide);
    law_fadd_assoc(acc, wide, term);
}

/// The two statistics of a round over split halves, on the first `n` positions:
/// the product sum of the high halves, and that of the sums of the halves.
pub fn msg_split_half(chi: &[F128], clo: &[F128], zhi: &[F128], zlo: &[F128], n: usize) -> (e: (F128, F128))
    requires
        n <= chi.len(),
        n <= clo.len(),
        n <= zhi.len(),
        n <= zlo.len(),
    ensures
        e.0 == dot_upto(chi@, zhi@, n as nat),
        e.1 == dot_upto(vadd(chi@, clo@), vadd(zhi@, zlo@), n as nat),
{
    let ghost cs = vadd(chi@, clo@);
    let ghost zs = vadd(zhi@, zlo@);
    let mut e1_wide = WideGhashX4::zero();
    let mut einf_wide = WideGhashX4::zero();
    let lanes: usize = n - n % 4;
    let mut i: usize = 0;
    while i < lanes
        invariant
            n <= chi.len(),
            n <= clo.len(),
            n <= zhi.len(),
            n <= zlo.len(),
            cs == vadd(chi@, clo@),
            zs == vadd(zhi@, zlo@),
            lanes == n - n % 4,
            i <= lanes,
            i % 4 == 0,
            e1_wide.total() == dot_upto(chi@, zhi@, i as nat),
            einf_wide.total() == dot_upto(cs, zs, i as nat),
        decreases lanes - i,
    {
        let ch = f128x4_loadu(chi, i);
        let zh = f128x4_loadu(zhi, i);
        let ghost t0 = e1_wide.total();
        let ghost s0 = einf_wide.total();
        e1_wide.mul_acc(ch, zh);
        let cl = f128x4_loadu(clo, i);
        let zl = f128x4_loadu(zlo, i);
        let c = xor_x4(ch, cl);
        let z = xor_x4(zh, zl);
        einf_wide.mul_acc(c, z);
        proof {
            lemma_acc_step4(t0, e1_wide.total(), chi@, zhi@, i as int);
            assert(c@[0] == cs[i + 0] && c@[1] == cs[i + 1] && c@[2] == cs[i + 2] && c@[3] == cs[i + 3]);
            assert(z@[0] == zs[i + 0] && z@[1] == zs[i + 1] && z@[2] == zs[i + 2] && z@[3] == zs[i + 3]);
            lemma_acc_step4(s0, einf_wide.total(), cs, zs, i as int);
        }
        i = i + 4;
    }
    let mut e1_acc = F256Unreduced::zero();
    let mut einf_acc = F256Unreduced::zero();
    proof {
        law_fadd_zero(e1_wide.total());
        law_fadd_zero(einf_wide.total());
    }
    while i < n
        invariant
            n <= chi.len(),
            n <= clo.len(),
            n <= zhi.len(),
            n <= zlo.len(),
            cs == vadd(chi@, clo@),
            zs == vadd(zhi@, zlo@),
            i <= n,
            fadd(e1_acc.value(), e1_wide.total()) == dot_upto(chi@, zhi@, i as nat),
            fadd(einf_acc.value(), einf_wide.total()) == dot_upto(cs, zs, i as nat),
        decreases n - i,
    {
        let p = ghash_mul_unreduced_x86(chi[i], zhi[i]);
        let q = ghash_mul_unreduced_x86(chi[i] + clo[i], zhi[i] + zlo[i]);
        proof {
            lemma_tail_step(e1_acc.value(), e1_wide.total(), p.value());
            lemma_tail_step(einf_acc.value(), einf_wide.total(), q.value());
        }
        e1_acc = e1_acc.xor(p);
        einf_acc = einf_acc.xor(q);
        i = i + 1;
    }
    e1_acc = e1_acc.xor(e1_wide.fold());
    einf_acc = einf_acc.xor(einf_wide.fold());
    (e1_acc.reduce(), einf_acc.reduce())
}

/// What a fused bind leaves in a quarter: its first `n` elements folded with `hi` at `r`.
pub open spec fn bound_prefix(q: Seq<F128>, before: Seq<F128>, hi: Seq<F128>, r: F128, n: int) -> bool {
    &&& q.len() == before.len()
    &&& forall|i: int| 0 <= i < n ==> #[trigger] q[i] == lerp(before[i], hi[i], r)
    &&& forall|i: int| n <= i < before.len() ==> #[trigger] q[i] == before[i]
}

fn bind_quad(q: &mut [F128], hi: &[F128], i: usize, m: &Multiplier, before: Ghost<Seq<F128>>) -> (v: F128x4)
    requires
        m.wf(),
        bound_prefix(old(q)@, before@, hi@, m.r, i as int),
        i + 4 <= old(q).len(),
        i + 4 <= hi.len(),
    ensures
        bound_prefix(final(q)@, before@, hi@, m.r, i + 4),
        v@ == final(q)@.subrange(i as int, i + 4),
{
    let a = f128x4_loadu(q, i);
    let b = f128x4_loadu(hi, i);
    let v = m.lerp(a, b);
    f128x4_storeu(q, i, v);
    proof {
        assert forall|j: int| i <= j < i + 4 implies #[trigger] q@[j] == lerp(before@[j], hi@[j], m.r) by {
            assert(q@[j] == v@[j - i]);
            assert(a@[j - i] == before@[j]);
            assert(b@[j - i] == hi@[j]);
        }
        assert(v@ =~= q@.subrange(i as int, i + 4));
    }
    v
}

fn bind_one(q: &mut [F128], hi: &[F128], i: usize, r: F128, before: Ghost<Seq<F128>>) -> (v: F128)
    requires
        bound_prefix(old(q)@, before@, hi@, r, i as int),
        i < old(q).len(),
        i < hi.len(),
    ensures
        bound_prefix(final(q)@, before@, hi@, r, i + 1),
        v == final(q)@[i as int],
{
    let v = q[i] + r * (hi[i] + q[i]);
    proof {
        assert(q@[i as int] == before@[i as int]);
        law_fadd_comm(hi@[i as int], before@[i as int]);
    }
    q[i] = v;
    v
}

proof fn lemma_dot_prefix(a: Seq<F128>, b: Seq<F128>, a2: Seq<F128>, b2: Seq<F128>, n: nat)
    requires
        forall|i: int| 0 <= i < n ==> #[trigger] a[i] == a2[i],
        forall|i: int| 0 <= i < n ==> #[trigger] b[i] == b2[i],
    ensures
        dot_upto(a, b, n) == dot_upto(a2, b2, n),
    decreases n,
{
    if n > 0 {
        lemma_dot_prefix(a, b, a2, b2, (n - 1) as nat);
        assert(a[n - 1] == a2[n - 1]);
        assert(b[n - 1] == b2[n - 1]);
    }
}

/// Binds the top coordinate of two vectors held as quarters, on their first `n`
/// positions, and returns the statistics of the next round over the bound quarters.
pub fn bind_both_and_msg_split(
    cq0: &mut [F128],
    cq1: &mut [F128],
    cq2: &[F128],
    cq3: &[F128],
    zq0: &mut [F128],
    zq1: &mut [F128],
    zq2: &[F128],
    zq3: &[F128],
    r: F128,
    n: usize,
) -> (e: (F128, F128))
    requires
        n <= old(cq0).len(),
        n <= old(cq1).len(),
        n <= cq2.len(),
        n <= cq3.len(),
        n <= old(zq0).len(),
        n <= old(zq1).len(),
        n <= zq2.len(),
        n <= zq3.len(),
    ensures
        bound_prefix(final(cq0)@, old(cq0)@, cq2@, r, n as int),
        bound_prefix(final(cq1)@, old(cq1)@, cq3@, r, n as int),
        bound_prefix(final(zq0)@, old(zq0)@, zq2@, r, n as int),
        bound_prefix(final(zq1)@, old(zq1)@, zq3@, r, n as int),
        e.0 == dot_upto(final(cq1)@, final(zq1)@, n as nat),
        e.1 == dot_upto(vadd(final(cq1)@, final(cq0)@), vadd(final(zq1)@, final(zq0)@), n as nat),
{
    let ghost c0b = cq0@;
    let ghost c1b = cq1@;
    let ghost z0b = zq0@;
    let ghost z1b = zq1@;
    let ghost c0 = bind_seq(c0b.subrange(0, n as int), cq2@, r);
    let ghost c1 = bind_seq(c1b.subrange(0, n as int), cq3@, r);
    let ghost z0 = bind_seq(z0b.subrange(0, n as int), zq2@, r);
    let ghost z1 = bind_seq(z1b.subrange(0, n as int), zq3@, r);
    let ghost cs = vadd(c1, c0);
    let ghost zs = vadd(z1, z0);
    let m = Multiplier::new(r);
    let mut e1_wide = WideGhashX4::zero();
    let mut einf_wide = WideGhashX4::zero();
    let lanes: usize = n - n % 4;
    let mut i: usize = 0;
    while i < lanes
        invariant
            m.wf(),
            m.r == r,
            n <= c0b.len(),
            n <= c1b.len(),
            n <= z0b.len(),
            n <= z1b.len(),
            n <= cq2.len(),
            n <= cq3.len(),
            n <= zq2.len(),
            n <= zq3.len(),
            c0 == bind_seq(c0b.subrange(0, n as int), cq2@, r),
            c1 == bind_seq(c1b.subrange(0, n as int), cq3@, r),
            z0 == bind_seq(z0b.subrange(0, n as int), zq2@, r),
            z1 == bind_seq(z1b.subrange(0, n as int), zq3@, r),
            cs == vadd(c1, c0),
            zs == vadd(z1, z0),
            lanes == n - n % 4,
            i <= lanes,
            i % 4 == 0,
            bound_prefix(cq0@, c0b, cq2@, r, i as int),
            bound_prefix(cq1@, c1b, cq3@, r, i as int),
            bound_prefix(zq0@, z0b, zq2@, r, i as int),
            bound_prefix(zq1@, z1b, zq3@, r, i as int),
            e1_wide.total() == dot_upto(c1, z1, i as nat),
            einf_wide.total() == dot_upto(cs, zs, i as nat),
        decreases lanes - i,
    {
        let lo = bind_quad(cq0, cq2, i, &m, Ghost(c0b));
        let hi = bind_quad(cq1, cq3, i, &m, Ghost(c1b));
        let zlo = bind_quad(zq0, zq2, i, &m, Ghost(z0b));
        let zhi = bind_quad(zq1, zq3, i, &m, Ghost(z1b));
        let ghost t0 = e1_wide.total();
        let ghost s0 = einf_wide.total();
        e1_wide.mul_acc(hi, zhi);
        let c = xor_x4(hi, lo);
        let z = xor_x4(zhi, zlo);
        einf_wide.mul_acc(c, z);
        proof {
            assert forall|k: int| 0 <= k < 4 implies #[trigger] hi@[k] == c1[i + k] && zhi@[k] == z1[i + k] && c@[k]
                == cs[i + k] && z@[k] == zs[i + k] by {
                assert(hi@[k] == cq1@[i + k]);
                assert(lo@[k] == cq0@[i + k]);
                assert(zhi@[k] == zq1@[i + k]);
                assert(zlo@[k] == zq0@[i + k]);
            }
            assert(hi@[0] == c1[i + 0] && hi@[1] == c1[i + 1] && hi@[2] == c1[i + 2] && hi@[3] == c1[i + 3]);
            lemma_acc_step4(t0, e1_wide.total(), c1, z1, i as int);
            lemma_acc_step4(s0, einf_wide.total(), cs, zs, i as int);
        }
        i = i + 4;
    }
    let mut e1_acc = F256Unreduced::zero();
    let mut einf_acc = F256Unreduced::zero();
    proof {
        law_fadd_zero(e1_wide.total());
        law_fadd_zero(einf_wide.total());
    }
    while i < n
        invariant
            n <= c0b.len(),
            n <= c1b.len(),
            n <= z0b.len(),
            n <= z1b.len(),
            n <= cq2.len(),
            n <= cq3.len(),
            n <= zq2.len(),
            n <= zq3.len(),
            c0 == bind_seq(c0b.subrange(0, n as int), cq2@, r),
            c1 == bind_seq(c1b.subrange(0, n as int), cq3@, r),
            z0 == bind_seq(z0b.subrange(0, n as int), zq2@, r),
            z1 == bind_seq(z1b.subrange(0, n as int), zq3@, r),
            cs == vadd(c1, c0),
            zs == vadd(z1, z0),
            i <= n,
            bound_prefix(cq0@, c0b, cq2@, r, i as int),
            bound_prefix(cq1@, c1b, cq3@, r, i as int),
            bound_prefix(zq0@, z0b, zq2@, r, i as int),
            bound_prefix(zq1@, z1b, zq3@, r, i as int),
            fadd(e1_acc.value(), e1_wide.total()) == dot_upto(c1, z1, i as nat),
            fadd(einf_acc.value(), einf_wide.total()) == dot_upto(cs, zs, i as nat),
        decreases n - i,
    {
        let lo = bind_one(cq0, cq2, i, r, Ghost(c0b));
        let hi = bind_one(cq1, cq3, i, r, Ghost(c1b));
        let zlo = bind_one(zq0, zq2, i, r, Ghost(z0b));
        let zhi = bind_one(zq1, zq3, i, r, Ghost(z1b));
        let p = ghash_mul_unreduced_x86(hi, zhi);
        let q = ghash_mul_unreduced_x86(hi + lo, zhi + zlo);
        proof {
            assert(hi == c1[i as int] && zhi == z1[i as int]);
            assert(lo == c0[i as int] && zlo == z0[i as int]);
            lemma_tail_step(e1_acc.value(), e1_wide.total(), p.value());
            lemma_tail_step(einf_acc.value(), einf_wide.total(), q.value());
        }
        e1_acc = e1_acc.xor(p);
        einf_acc = einf_acc.xor(q);
        i = i + 1;
    }
    e1_acc = e1_acc.xor(e1_wide.fold());
    einf_acc = einf_acc.xor(einf_wide.fold());
    proof {
        lemma_dot_prefix(c1, z1, cq1@, zq1@, n as nat);
        lemma_dot_prefix(cs, zs, vadd(cq1@, cq0@), vadd(zq1@, zq0@), n as nat);
    }
    (e1_acc.reduce(), einf_acc.reduce())
}

} // verus!
