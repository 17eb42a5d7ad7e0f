//! Folds, scaled sums and weighted sums over slices of [`F128`].

use crate::field::gf2_128::{
    fadd, fmul, fone, fzero, law_fadd_assoc, lemma_fadd_swap4, law_fadd_zero, law_fmul_add_right,
    law_fmul_assoc, law_fmul_comm, law_fmul_one_left, F128,
};
use vstd::prelude::*;

pub mod laws;
pub mod pairwise;
pub mod portable;
pub mod wide;

verus! {

// ---- vectors ----

/// The line through `even` at 0 and `odd` at 1, evaluated at `r`.
pub open spec fn lerp(even: F128, odd: F128, r: F128) -> F128 {
    fadd(even, fmul(r, fadd(even, odd)))
}

/// Two lines folded by a third: the fold of four values at `(r0, r1)`.
pub open spec fn lerp2(a0: F128, a1: F128, a2: F128, a3: F128, r0: F128, r1: F128) -> F128 {
    lerp(lerp(a0, a1, r0), lerp(a2, a3, r0), r1)
}

/// `sum of a[i] * b[i]` over `i < n`.
pub open spec fn dot_upto(a: Seq<F128>, b: Seq<F128>, n: nat) -> F128
    decreases n,
{
    if n == 0 {
        fzero()
    } else {
        fadd(dot_upto(a, b, (n - 1) as nat), fmul(a[n - 1], b[n - 1]))
    }
}

/// `sum of a[i] * b[i]` over the whole of `a`.
pub open spec fn dot(a: Seq<F128>, b: Seq<F128>) -> F128 {
    dot_upto(a, b, a.len())
}

/// Element-wise sum.
pub open spec fn vadd(a: Seq<F128>, b: Seq<F128>) -> Seq<F128> {
    Seq::new(a.len(), |i: int| fadd(a[i], b[i]))
}

/// Every adjacent pair folded at `r`.
pub open spec fn fold_seq(a: Seq<F128>, r: F128) -> Seq<F128> {
    Seq::new((a.len() / 2) as nat, |i: int| lerp(a[2 * i], a[2 * i + 1], r))
}

/// The elements at even positions.
pub open spec fn evens(a: Seq<F128>) -> Seq<F128> {
    Seq::new((a.len() / 2) as nat, |i: int| a[2 * i])
}

/// The sums of adjacent pairs.
pub open spec fn pair_sums(a: Seq<F128>) -> Seq<F128> {
    Seq::new((a.len() / 2) as nat, |i: int| fadd(a[2 * i], a[2 * i + 1]))
}

/// `lo[i]` and `hi[i]` folded at `r`.
pub open spec fn bind_seq(lo: Seq<F128>, hi: Seq<F128>, r: F128) -> Seq<F128> {
    Seq::new(lo.len(), |i: int| lerp(lo[i], hi[i], r))
}

/// A sum of four terms added to a running sum one by one.
pub proof fn lemma_sum4(d: F128, a: F128, b: F128, c: F128, e: F128)
    ensures
        fadd(fadd(fadd(fadd(d, a), b), c), e) == fadd(d, fadd(fadd(a, b), fadd(c, e))),
{
    law_fadd_assoc(d, a, b);
    law_fadd_assoc(fadd(d, fadd(a, b)), c, e);
    law_fadd_assoc(d, fadd(a, b), fadd(c, e));
}

/// Four more terms of a product sum.
pub proof fn lemma_dot_step4(a: Seq<F128>, b: Seq<F128>, n: int)
    requires
        0 <= n,
    ensures
        dot_upto(a, b, (n + 4) as nat) == fadd(
            dot_upto(a, b, n as nat),
            fadd(
                fadd(fmul(a[n], b[n]), fmul(a[n + 1], b[n + 1])),
                fadd(fmul(a[n + 2], b[n + 2]), fmul(a[n + 3], b[n + 3])),
            ),
        ),
{
    reveal_with_fuel(dot_upto, 5);
    lemma_sum4(
        dot_upto(a, b, n as nat),
        fmul(a[n], b[n]),
        fmul(a[n + 1], b[n + 1]),
        fmul(a[n + 2], b[n + 2]),
        fmul(a[n + 3], b[n + 3]),
    );
}

// ---- laws ----

/// The one-product fold equals the two-product form `even * (1 + r) + odd * r`.
pub proof fn law_fold_two_products(even: F128, odd: F128, r: F128)
    ensures
        lerp(even, odd, r) == fadd(fmul(even, fadd(fone(), r)), fmul(odd, r)),
{
    law_fmul_add_right(r, even, odd);
    law_fmul_add_right(even, fone(), r);
    law_fmul_comm(even, fone());
    law_fmul_one_left(even);
    law_fmul_comm(r, even);
    law_fmul_comm(r, odd);
    law_fadd_assoc(even, fmul(even, r), fmul(odd, r));
}

/// Folding at zero keeps the even element; folding at one gives the odd one.
pub proof fn law_fold_endpoints(even: F128, odd: F128)
    ensures
        lerp(even, odd, fzero()) == even,
        lerp(even, odd, fone()) == odd,
{
    crate::field::gf2_128::law_fmul_zero(fadd(even, odd));
    law_fadd_zero(even);
    law_fmul_one_left(fadd(even, odd));
    law_fadd_assoc(even, even, odd);
    crate::field::gf2_128::law_fadd_self(even);
    law_fadd_zero(odd);
}

/// The nested fold of quadruples is two passes of the pair fold.
pub proof fn law_fold4_is_two_passes(src: Seq<F128>, r0: F128, r1: F128, t: int)
    requires
        0 <= t,
        4 * t + 4 <= src.len(),
    ensures
        fold_seq(fold_seq(src, r0), r1)[t] == lerp2(
            src[4 * t],
            src[4 * t + 1],
            src[4 * t + 2],
            src[4 * t + 3],
            r0,
            r1,
        ),
{
    let mid = fold_seq(src, r0);
    assert(mid.len() == src.len() / 2);
    assert(mid[2 * t] == lerp(src[4 * t], src[4 * t + 1], r0));
    assert(mid[2 * t + 1] == lerp(src[2 * (2 * t + 1)], src[2 * (2 * t + 1) + 1], r0));
}

/// Folding is linear: folding a scaled sum is the scaled sum of the folds.
pub proof fn law_fold_linear(a0: F128, a1: F128, b0: F128, b1: F128, r: F128, scale: F128)
    ensures
        lerp(fadd(a0, fmul(scale, b0)), fadd(a1, fmul(scale, b1)), r) == fadd(
            lerp(a0, a1, r),
            fmul(scale, lerp(b0, b1, r)),
        ),
{
    let sb0 = fmul(scale, b0);
    let sb1 = fmul(scale, b1);
    let da = fadd(a0, a1);
    let db = fadd(b0, b1);
    lemma_fadd_swap4(a0, sb0, a1, sb1);
    law_fmul_add_right(scale, b0, b1);
    // r * (da + scale * db)
    law_fmul_add_right(r, da, fmul(scale, db));
    law_fmul_assoc(r, scale, db);
    law_fmul_comm(r, scale);
    law_fmul_assoc(scale, r, db);
    lemma_fadd_swap4(a0, sb0, fmul(r, da), fmul(scale, fmul(r, db)));
    law_fmul_add_right(scale, b0, fmul(r, db));
}

/// Folding four values at `(r0, r1)` is one deferred sum of three products.
pub proof fn law_fold4_deferred(a0: F128, a1: F128, a2: F128, a3: F128, r0: F128, r1: F128)
    ensures
        lerp2(a0, a1, a2, a3, r0, r1) == fadd(
            a0,
            fadd(
                fadd(fmul(r0, fadd(a0, a1)), fmul(r1, fadd(a0, a2))),
                fmul(fmul(r0, r1), fadd(fadd(a0, a1), fadd(a2, a3))),
            ),
        ),
{
    let d0 = fadd(a0, a1);
    let d1 = fadd(a2, a3);
    let low = lerp(a0, a1, r0);
    let high = lerp(a2, a3, r0);
    // low + high = (a0 + a2) + r0 * (d0 + d1)
    lemma_fadd_swap4(a0, fmul(r0, d0), a2, fmul(r0, d1));
    law_fmul_add_right(r0, d0, d1);
    let s = fadd(d0, d1);
    assert(fadd(low, high) == fadd(fadd(a0, a2), fmul(r0, s)));
    law_fmul_add_right(r1, fadd(a0, a2), fmul(r0, s));
    law_fmul_assoc(r1, r0, s);
    law_fmul_comm(r1, r0);
    let p = fmul(r0, d0);
    let q = fmul(r1, fadd(a0, a2));
    let w = fmul(fmul(r0, r1), s);
    law_fadd_assoc(a0, p, fadd(q, w));
    law_fadd_assoc(p, q, w);
}

// ---- selected kernels ----

/// Folds adjacent pairs of `src`, from pair `base` on, into `dst`.
pub fn fold_pairs(src: &[F128], base: usize, dst: &mut [F128], r: F128)
    requires
        base <= src.len() / 2,
        old(dst).len() <= src.len() / 2 - base,
    ensures
        final(dst).len() == old(dst).len(),
        forall|t: int|
            0 <= t < old(dst).len() ==> #[trigger] final(dst)@[t] == lerp(
                src@[2 * (base + t)],
                src@[2 * (base + t) + 1],
                r,
            ),
{
    wide::fold_pairs(src, base, dst, r)
}

/// Folds both vectors at `r` in place and returns the statistics of the next
/// round: the product sum of the even positions, and that of the pair sums.
pub fn fold_two_and_msg_in_place(f: &mut Vec<F128>, b: &mut Vec<F128>, r: F128) -> (u: (F128, F128))
    requires
        old(f).len() == old(b).len(),
        old(f).len() % 4 == 0,
    ensures
        final(f)@ == fold_seq(old(f)@, r),
        final(b)@ == fold_seq(old(b)@, r),
        u.0 == dot(evens(final(f)@), evens(final(b)@)),
        u.1 == dot(pair_sums(final(f)@), pair_sums(final(b)@)),
{
    let ghost f0s = f@;
    let ghost b0s = b@;
    let ghost fs = fold_seq(f@, r);
    let ghost bs = fold_seq(b@, r);
    let len: usize = f.len();
    let half: usize = len / 2;
    let mut u0 = F128::zero();
    let mut u2 = F128::zero();
    let mut t: usize = 0;
    while t < half
        invariant
            len == f0s.len(),
            half == len / 2,
            f0s.len() % 4 == 0,
            f0s.len() == b0s.len(),
            f@.len() == f0s.len(),
            b@.len() == f0s.len(),
            t % 2 == 0,
            t <= half,
            fs == fold_seq(f0s, r),
            bs == fold_seq(b0s, r),
            forall|i: int| 0 <= i < t ==> f@[i] == fs[i] && b@[i] == bs[i],
            forall|i: int| t <= i < f0s.len() ==> f@[i] == f0s[i] && b@[i] == b0s[i],
            u0 == dot_upto(evens(fs), evens(bs), (t / 2) as nat),
            u2 == dot_upto(pair_sums(fs), pair_sums(bs), (t / 2) as nat),
        decreases half - t,
    {
        let source: usize = 2 * t;
        let x0 = f[source] + r * (f[source] + f[source + 1]);
        let x1 = f[source + 2] + r * (f[source + 2] + f[source + 3]);
        let y0 = b[source] + r * (b[source] + b[source + 1]);
        let y1 = b[source + 2] + r * (b[source + 2] + b[source + 3]);
        f[t] = x0;
        f[t + 1] = x1;
        b[t] = y0;
        b[t + 1] = y1;
        proof {
            assert(fs[t as int] == x0);
            assert(fs[t + 1] == x1);
            assert(bs[t as int] == y0);
            assert(bs[t + 1] == y1);
            let k = (t / 2) as int;
            assert(evens(fs)[k] == x0 && evens(bs)[k] == y0);
            assert(pair_sums(fs)[k] == fadd(x0, x1) && pair_sums(bs)[k] == fadd(y0, y1));
            assert((t + 2) / 2 == t / 2 + 1);
        }
        u0 = u0 + x0 * y0;
        u2 = u2 + (x0 + x1) * (y0 + y1);
        t = t + 2;
    }
    f.truncate(half);
    b.truncate(half);
    proof {
        assert(f@ =~= fs);
        assert(b@ =~= bs);
        assert(evens(fs).len() == t / 2);
        assert(pair_sums(fs).len() == t / 2);
    }
    (u0, u2)
}

/// Adds one scaled slice into another: `dst[i] += scale * addend[i]`.
pub fn add_scaled(dst: &mut [F128], addend: &[F128], scale: F128)
    requires
        old(dst).len() == addend.len(),
    ensures
        final(dst).len() == old(dst).len(),
        forall|i: int|
            0 <= i < old(dst).len() ==> #[trigger] final(dst)@[i] == fadd(
                old(dst)@[i],
                fmul(scale, addend@[i]),
            ),
{
    wide::add_scaled(dst, addend, scale)
}

/// Folds adjacent quadruples: `r0` within pairs, then `r1` across them.
pub fn fold4_nested(src: &[F128], dst: &mut [F128], r0: F128, r1: F128)
    requires
        src.len() == 4 * old(dst).len(),
    ensures
        final(dst).len() == old(dst).len(),
        forall|t: int|
            0 <= t < old(dst).len() ==> #[trigger] final(dst)@[t] == lerp2(
                src@[4 * t],
                src@[4 * t + 1],
                src@[4 * t + 2],
                src@[4 * t + 3],
                r0,
                r1,
            ),
{
    wide::fold4_nested(src, dst, r0, r1)
}

/// Sixteen-bank weighted fold: `dst[t]` is the sum of `w[b] * src[16 t + b]`.
pub fn fold16_banked(src: &[F128], dst: &mut [F128], w: &[F128; 16])
    requires
        src.len() == 16 * old(dst).len(),
    ensures
        final(dst).len() == old(dst).len(),
        forall|t: int|
            0 <= t < old(dst).len() ==> #[trigger] final(dst)@[t] == dot(
                w@,
                src@.subrange(16 * t, 16 * t + 16),
            ),
{
    wide::fold16_banked(src, dst, w)
}

/// Sixty-four-bank weighted fold: `dst[t]` is the sum of `w[b] * src[64 t + b]`.
pub fn fold64_banked(src: &[F128], dst: &mut [F128], w: &[F128; 64])
    requires
        src.len() == 64 * old(dst).len(),
    ensures
        final(dst).len() == old(dst).len(),
        forall|t: int|
            0 <= t < old(dst).len() ==> #[trigger] final(dst)@[t] == dot(
                w@,
                src@.subrange(64 * t, 64 * t + 64),
            ),
{
    wide::fold64_banked(src, dst, w)
}

} // verus!
