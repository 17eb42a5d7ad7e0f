//! Folds of plain tables, fused with the message of the next round.
//!
//! Every output is stored once and goes into the message while it is still in
//! a lane vector.

use super::message::{
    lemma_lookahead_step1, lemma_lookahead_step4, lookahead, lookahead_upto, message_inf, message_one, odd_products,
    sum_products, LookaheadMessage, PairMessage,
};
use crate::field::f128_slice::{dot_upto, fold_seq, law_fold4_deferred, lemma_dot_step4, lerp, lerp2};
use crate::field::gf2_128::ghash::{
    even_lanes, f128x4_loadu, f128x4_splat, f128x4_storeu, ghash_mul_x4, odd_lanes, transpose4_lanes, xor_x4, F128x4,
    WideGhashX4,
};
use crate::field::gf2_128::{fadd, fmul, fzero, law_fadd_zero, F128};
use vstd::prelude::*;

verus! {

/// Lane-wise fold of `even` and `odd` at `r`.
pub fn fold_lanes(even: F128x4, odd: F128x4, r: F128) -> (q: F128x4)
    ensures
        forall|i: int| 0 <= i < 4 ==> #[trigger] q@[i] == lerp(even@[i], odd@[i], r),
{
    let d = xor_x4(even, odd);
    let p = ghash_mul_x4(f128x4_splat(r), d);
    let q = xor_x4(even, p);
    proof {
        assert forall|i: int| 0 <= i < 4 implies #[trigger] q@[i] == lerp(even@[i], odd@[i], r) by {
            assert(d@[i] == fadd(even@[i], odd@[i]));
            assert(p@[i] == fmul(r, d@[i]));
        }
    }
    q
}

/// Folds the eight values held in `lo` and `hi` into four.
pub fn fold_regs(lo: F128x4, hi: F128x4, r: F128) -> (q: F128x4)
    ensures
        q@[0] == lerp(lo@[0], lo@[1], r),
        q@[1] == lerp(lo@[2], lo@[3], r),
        q@[2] == lerp(hi@[0], hi@[1], r),
        q@[3] == lerp(hi@[2], hi@[3], r),
{
    let even = even_lanes(lo, hi);
    let odd = odd_lanes(lo, hi);
    let q = fold_lanes(even, odd, r);
    assert(q@[0] == lerp(even@[0], odd@[0], r));
    assert(q@[1] == lerp(even@[1], odd@[1], r));
    assert(q@[2] == lerp(even@[2], odd@[2], r));
    assert(q@[3] == lerp(even@[3], odd@[3], r));
    q
}

/// Folds the eight values `src[s..s + 8]` into four.
pub fn fold_x4(src: &[F128], s: usize, r: F128) -> (q: F128x4)
    requires
        s + 8 <= src.len(),
    ensures
        forall|i: int| 0 <= i < 4 ==> #[trigger] q@[i] == lerp(src@[s + 2 * i], src@[s + 2 * i + 1], r),
{
    let lo = f128x4_loadu(src, s);
    let hi = f128x4_loadu(src, s + 4);
    let q = fold_regs(lo, hi, r);
    proof {
        assert forall|i: int| 0 <= i < 4 implies #[trigger] q@[i] == lerp(
            src@[s + 2 * i],
            src@[s + 2 * i + 1],
            r,
        ) by {
            assert(i == 0 || i == 1 || i == 2 || i == 3);
        }
    }
    q
}

/// Whether `q` holds the four outputs `lerp2` of the sixteen values from `s` on.
pub open spec fn folds16(q: Seq<F128>, src: Seq<F128>, s: int, ra: F128, rb: F128) -> bool {
    forall|i: int|
        0 <= i < 4 ==> #[trigger] q[i] == lerp2(
            src[s + 4 * i],
            src[s + 4 * i + 1],
            src[s + 4 * i + 2],
            src[s + 4 * i + 3],
            ra,
            rb,
        )
}

/// Folds sixteen values into four, at `ra` and then at `rb`.
pub fn fold16_to_4(src: &[F128], s: usize, ra: F128, rb: F128) -> (q: F128x4)
    requires
        s + 16 <= src.len(),
    ensures
        folds16(q@, src@, s as int, ra, rb),
{
    let t0 = fold_x4(src, s, ra);
    let t1 = fold_x4(src, s + 8, ra);
    let q = fold_regs(t0, t1, rb);
    proof {
        assert(t0@[0] == lerp(src@[s + 2 * 0], src@[s + 2 * 0 + 1], ra));
        assert(t0@[1] == lerp(src@[s + 2 * 1], src@[s + 2 * 1 + 1], ra));
        assert(t0@[2] == lerp(src@[s + 2 * 2], src@[s + 2 * 2 + 1], ra));
        assert(t0@[3] == lerp(src@[s + 2 * 3], src@[s + 2 * 3 + 1], ra));
        assert(t1@[0] == lerp(src@[s + 8 + 2 * 0], src@[s + 8 + 2 * 0 + 1], ra));
        assert(t1@[1] == lerp(src@[s + 8 + 2 * 1], src@[s + 8 + 2 * 1 + 1], ra));
        assert(t1@[2] == lerp(src@[s + 8 + 2 * 2], src@[s + 8 + 2 * 2 + 1], ra));
        assert(t1@[3] == lerp(src@[s + 8 + 2 * 3], src@[s + 8 + 2 * 3 + 1], ra));
        assert forall|i: int| 0 <= i < 4 implies #[trigger] q@[i] == lerp2(
            src@[s + 4 * i],
            src@[s + 4 * i + 1],
            src@[s + 4 * i + 2],
            src@[s + 4 * i + 3],
            ra,
            rb,
        ) by {
            assert(i == 0 || i == 1 || i == 2 || i == 3);
        }
    }
    q
}

/// [`fold16_to_4`] with three unreduced products and one reduction per lane;
/// `rarb` is the product of the two points.
pub fn fold16_to_4_deferred(src: &[F128], s: usize, ra: F128, rb: F128, rarb: F128) -> (q: F128x4)
    requires
        s + 16 <= src.len(),
        rarb == fmul(ra, rb),
    ensures
        folds16(q@, src@, s as int, ra, rb),
{
    let i0 = f128x4_loadu(src, s);
    let i1 = f128x4_loadu(src, s + 4);
    let i2 = f128x4_loadu(src, s + 8);
    let i3 = f128x4_loadu(src, s + 12);
    let x = transpose4_lanes(i0, i1, i2, i3);
    let x01 = xor_x4(x[0], x[1]);
    let x02 = xor_x4(x[0], x[2]);
    let x23 = xor_x4(x[2], x[3]);
    let x0123 = xor_x4(x01, x23);
    let mut acc = WideGhashX4::zero();
    let ghost a0 = acc;
    acc.mul_acc(f128x4_splat(ra), x01);
    let ghost a1 = acc;
    acc.mul_acc(f128x4_splat(rb), x02);
    let ghost a2 = acc;
    acc.mul_acc(f128x4_splat(rarb), x0123);
    let red = acc.reduce_lanes();
    let q = xor_x4(x[0], red);
    proof {
        assert forall|i: int| 0 <= i < 4 implies #[trigger] q@[i] == lerp2(
            src@[s + 4 * i],
            src@[s + 4 * i + 1],
            src@[s + 4 * i + 2],
            src@[s + 4 * i + 3],
            ra,
            rb,
        ) by {
            let v0 = src@[s + 4 * i];
            let v1 = src@[s + 4 * i + 1];
            let v2 = src@[s + 4 * i + 2];
            let v3 = src@[s + 4 * i + 3];
            assert(x@[0]@ == seq![i0@[0], i1@[0], i2@[0], i3@[0]]);
            assert(x@[1]@ == seq![i0@[1], i1@[1], i2@[1], i3@[1]]);
            assert(x@[2]@ == seq![i0@[2], i1@[2], i2@[2], i3@[2]]);
            assert(x@[3]@ == seq![i0@[3], i1@[3], i2@[3], i3@[3]]);
            assert(i == 0 || i == 1 || i == 2 || i == 3);
            assert(x@[0]@[i] == v0 && x@[1]@[i] == v1 && x@[2]@[i] == v2 && x@[3]@[i] == v3);
            assert(x01@[i] == fadd(v0, v1));
            assert(x02@[i] == fadd(v0, v2));
            assert(x23@[i] == fadd(v2, v3));
            assert(x0123@[i] == fadd(x01@[i], x23@[i]));
            assert(a0.lane(i) == fzero());
            assert(a1.lane(i) == fadd(a0.lane(i), fmul(ra, x01@[i])));
            law_fadd_zero(fmul(ra, x01@[i]));
            assert(a2.lane(i) == fadd(a1.lane(i), fmul(rb, x02@[i])));
            assert(acc.lane(i) == fadd(a2.lane(i), fmul(rarb, x0123@[i])));
            assert(red@[i] == acc.lane(i));
            law_fold4_deferred(v0, v1, v2, v3, ra, rb);
        }
    }
    q
}

// ---- one fold ----

/// Four more pairs of a plain message: eight outputs from `2 x` on sit in the lanes.
proof fn lemma_message_step4(
    eq: Seq<F128>,
    a: Seq<F128>,
    b: Seq<F128>,
    x: int,
    e: Seq<F128>,
    a_lo: Seq<F128>,
    a_hi: Seq<F128>,
    b_lo: Seq<F128>,
    b_hi: Seq<F128>,
)
    requires
        0 <= x,
        x + 4 <= eq.len(),
        2 * (x + 4) <= a.len(),
        a.len() == b.len(),
        forall|i: int| 0 <= i < 4 ==> #[trigger] e[i] == eq[x + i],
        forall|i: int| 0 <= i < 4 ==> #[trigger] a_lo[i] == a[2 * x + i],
        forall|i: int| 0 <= i < 4 ==> #[trigger] a_hi[i] == a[2 * x + 4 + i],
        forall|i: int| 0 <= i < 4 ==> #[trigger] b_lo[i] == b[2 * x + i],
        forall|i: int| 0 <= i < 4 ==> #[trigger] b_hi[i] == b[2 * x + 4 + i],
    ensures
        dot_upto(eq, odd_products(a, b), (x + 4) as nat) == fadd(
            dot_upto(eq, odd_products(a, b), x as nat),
            fadd(
                fadd(fmul(e[0], fmul(a_lo[1], b_lo[1])), fmul(e[1], fmul(a_lo[3], b_lo[3]))),
                fadd(fmul(e[2], fmul(a_hi[1], b_hi[1])), fmul(e[3], fmul(a_hi[3], b_hi[3]))),
            ),
        ),
        dot_upto(eq, sum_products(a, b), (x + 4) as nat) == fadd(
            dot_upto(eq, sum_products(a, b), x as nat),
            fadd(
                fadd(
                    fmul(e[0], fmul(fadd(a_lo[0], a_lo[1]), fadd(b_lo[0], b_lo[1]))),
                    fmul(e[1], fmul(fadd(a_lo[2], a_lo[3]), fadd(b_lo[2], b_lo[3]))),
                ),
                fadd(
                    fmul(e[2], fmul(fadd(a_hi[0], a_hi[1]), fadd(b_hi[0], b_hi[1]))),
                    fmul(e[3], fmul(fadd(a_hi[2], a_hi[3]), fadd(b_hi[2], b_hi[3]))),
                ),
            ),
        ),
{
    lemma_dot_step4(eq, odd_products(a, b), x);
    lemma_dot_step4(eq, sum_products(a, b), x);
    assert(e[0] == eq[x + 0] && e[1] == eq[x + 1] && e[2] == eq[x + 2] && e[3] == eq[x + 3]);
    assert(a_lo[0] == a[2 * x + 0] && a_lo[1] == a[2 * x + 1] && a_lo[2] == a[2 * x + 2] && a_lo[3] == a[2 * x
        + 3]);
    assert(b_lo[0] == b[2 * x + 0] && b_lo[1] == b[2 * x + 1] && b_lo[2] == b[2 * x + 2] && b_lo[3] == b[2 * x
        + 3]);
    assert(a_hi[0] == a[2 * x + 4 + 0] && a_hi[1] == a[2 * x + 4 + 1] && a_hi[2] == a[2 * x + 4 + 2] && a_hi[3]
        == a[2 * x + 4 + 3]);
    assert(b_hi[0] == b[2 * x + 4 + 0] && b_hi[1] == b[2 * x + 4 + 1] && b_hi[2] == b[2 * x + 4 + 2] && b_hi[3]
        == b[2 * x + 4 + 3]);
    assert(2 * (x + 1) == 2 * x + 2 && 2 * (x + 2) == 2 * x + 4 && 2 * (x + 3) == 2 * x + 6);
}

/// Stores two folded quadruples to `out[at..at + 8]`; the outputs before stay.
fn store_eight(out: &mut [F128], at: usize, lo: F128x4, hi: F128x4, want: Ghost<Seq<F128>>)
    requires
        at + 8 <= old(out).len(),
        forall|i: int| 0 <= i < at ==> #[trigger] old(out)@[i] == want@[i],
        forall|i: int| 0 <= i < 4 ==> #[trigger] lo@[i] == want@[at + i],
        forall|i: int| 0 <= i < 4 ==> #[trigger] hi@[i] == want@[at + 4 + i],
    ensures
        final(out).len() == old(out).len(),
        forall|i: int| 0 <= i < at + 8 ==> #[trigger] final(out)@[i] == want@[i],
{
    f128x4_storeu(out, at, lo);
    f128x4_storeu(out, at + 4, hi);
    proof {
        assert forall|i: int| 0 <= i < at + 8 implies #[trigger] out@[i] == want@[i] by {
            if at <= i < at + 4 {
                assert(lo@[i - at] == want@[at + (i - at)]);
            } else if at + 4 <= i {
                assert(hi@[i - at - 4] == want@[at + 4 + (i - at - 4)]);
            }
        }
    }
}

/// Stores a folded quadruple to `out[at..at + 4]`; the outputs before stay.
fn store_four(out: &mut [F128], at: usize, q: F128x4, want: Ghost<Seq<F128>>)
    requires
        at + 4 <= old(out).len(),
        forall|i: int| 0 <= i < at ==> #[trigger] old(out)@[i] == want@[i],
        forall|i: int| 0 <= i < 4 ==> #[trigger] q@[i] == want@[at + i],
    ensures
        final(out).len() == old(out).len(),
        forall|i: int| 0 <= i < at + 4 ==> #[trigger] final(out)@[i] == want@[i],
{
    f128x4_storeu(out, at, q);
    proof {
        assert forall|i: int| 0 <= i < at + 4 implies #[trigger] out@[i] == want@[i] by {
            if at <= i {
                assert(q@[i - at] == want@[at + (i - at)]);
            }
        }
    }
}

/// Adds the pairs `x` and `x + 1` to a message, read back from the outputs.
fn add_pair_tail(
    msg: &mut PairMessage,
    eq: &[F128],
    a: &[F128],
    b: &[F128],
    x: usize,
    fa: Ghost<Seq<F128>>,
    fb: Ghost<Seq<F128>>,
)
    requires
        x + 2 <= eq.len(),
        2 * (x + 2) <= a.len(),
        a.len() == b.len(),
        fa@.len() == a.len(),
        fb@.len() == b.len(),
        forall|i: int| 0 <= i < 2 * (x + 2) ==> #[trigger] a@[i] == fa@[i],
        forall|i: int| 0 <= i < 2 * (x + 2) ==> #[trigger] b@[i] == fb@[i],
        old(msg).one() == dot_upto(eq@, odd_products(fa@, fb@), x as nat),
        old(msg).inf() == dot_upto(eq@, sum_products(fa@, fb@), x as nat),
    ensures
        final(msg).one() == dot_upto(eq@, odd_products(fa@, fb@), (x + 2) as nat),
        final(msg).inf() == dot_upto(eq@, sum_products(fa@, fb@), (x + 2) as nat),
{
    for lane in 0..2
        invariant
            x + 2 <= eq.len(),
            2 * (x + 2) <= a.len(),
            a.len() == b.len(),
            fa@.len() == a.len(),
            fb@.len() == b.len(),
            forall|i: int| 0 <= i < 2 * (x + 2) ==> #[trigger] a@[i] == fa@[i],
            forall|i: int| 0 <= i < 2 * (x + 2) ==> #[trigger] b@[i] == fb@[i],
            msg.one() == dot_upto(eq@, odd_products(fa@, fb@), (x + lane) as nat),
            msg.inf() == dot_upto(eq@, sum_products(fa@, fb@), (x + lane) as nat),
    {
        let o: usize = 2 * x + 2 * lane;
        proof {
            let i = x + lane;
            assert(odd_products(fa@, fb@)[i] == fmul(fa@[2 * i + 1], fb@[2 * i + 1]));
            assert(2 * i == o);
        }
        msg.add_one(eq[x + lane], a[o], a[o + 1], b[o], b[o + 1]);
    }
}

/// Folds both tables at `r_fold` and returns the message of the folded tables:
/// the sum at one and the sum at infinity, weighted by `eq_lo`.
pub fn fold_and_message(
    a_in: &[F128],
    b_in: &[F128],
    a_out: &mut [F128],
    b_out: &mut [F128],
    r_fold: F128,
    eq_lo: &[F128],
) -> (m: (F128, F128))
    requires
        a_in.len() == 2 * old(a_out).len(),
        b_in.len() == 2 * old(b_out).len(),
        old(a_out).len() == 2 * eq_lo.len(),
        old(b_out).len() == 2 * eq_lo.len(),
        eq_lo.len() % 2 == 0,
    ensures
        final(a_out)@ == fold_seq(a_in@, r_fold),
        final(b_out)@ == fold_seq(b_in@, r_fold),
        m.0 == message_one(eq_lo@, final(a_out)@, final(b_out)@),
        m.1 == message_inf(eq_lo@, final(a_out)@, final(b_out)@),
{
    let ghost fa = fold_seq(a_in@, r_fold);
    let ghost fb = fold_seq(b_in@, r_fold);
    let n: usize = eq_lo.len();
    let mut msg = PairMessage::new();
    let mut x_lo: usize = 0;
    while n - x_lo >= 4
        invariant
            n == eq_lo.len(),
            n % 2 == 0,
            x_lo <= n,
            x_lo % 4 == 0,
            a_in.len() == 4 * n,
            b_in.len() == 4 * n,
            a_out.len() == 2 * n,
            b_out.len() == 2 * n,
            fa == fold_seq(a_in@, r_fold),
            fb == fold_seq(b_in@, r_fold),
            forall|i: int| 0 <= i < 2 * x_lo ==> #[trigger] a_out@[i] == fa[i],
            forall|i: int| 0 <= i < 2 * x_lo ==> #[trigger] b_out@[i] == fb[i],
            msg.one() == dot_upto(eq_lo@, odd_products(fa, fb), x_lo as nat),
            msg.inf() == dot_upto(eq_lo@, sum_products(fa, fb), x_lo as nat),
        decreases n - x_lo,
    {
        let output: usize = 2 * x_lo;
        let a_lo = fold_x4(a_in, 2 * output, r_fold);
        let a_hi = fold_x4(a_in, 2 * (output + 4), r_fold);
        let b_lo = fold_x4(b_in, 2 * output, r_fold);
        let b_hi = fold_x4(b_in, 2 * (output + 4), r_fold);
        proof {
            lemma_fold_at(a_in@, r_fold, output as int, a_lo@);
            lemma_fold_at(a_in@, r_fold, output + 4, a_hi@);
            lemma_fold_at(b_in@, r_fold, output as int, b_lo@);
            lemma_fold_at(b_in@, r_fold, output + 4, b_hi@);
        }
        store_eight(a_out, output, a_lo, a_hi, Ghost(fa));
        store_eight(b_out, output, b_lo, b_hi, Ghost(fb));
        let eq = f128x4_loadu(eq_lo, x_lo);
        proof {
            lemma_message_step4(eq_lo@, fa, fb, x_lo as int, eq@, a_lo@, a_hi@, b_lo@, b_hi@);
        }
        msg.add_four(eq, a_lo, a_hi, b_lo, b_hi);
        x_lo = x_lo + 4;
    }
    if x_lo < n {
        let output: usize = 2 * x_lo;
        let a_folded = fold_x4(a_in, 2 * output, r_fold);
        let b_folded = fold_x4(b_in, 2 * output, r_fold);
        proof {
            lemma_fold_at(a_in@, r_fold, output as int, a_folded@);
            lemma_fold_at(b_in@, r_fold, output as int, b_folded@);
        }
        store_four(a_out, output, a_folded, Ghost(fa));
        store_four(b_out, output, b_folded, Ghost(fb));
        add_pair_tail(&mut msg, eq_lo, a_out, b_out, x_lo, Ghost(fa), Ghost(fb));
    }
    proof {
        assert(a_out@ =~= fa);
        assert(b_out@ =~= fb);
    }
    msg.finish()
}

/// A folded quadruple is elements `at..at + 4` of the folded vector.
proof fn lemma_fold_at(src: Seq<F128>, r: F128, at: int, q: Seq<F128>)
    requires
        0 <= at,
        2 * (at + 4) <= src.len(),
        forall|i: int| 0 <= i < 4 ==> #[trigger] q[i] == lerp(src[2 * at + 2 * i], src[2 * at + 2 * i + 1], r),
    ensures
        forall|i: int| 0 <= i < 4 ==> #[trigger] q[i] == fold_seq(src, r)[at + i],
{
    assert forall|i: int| 0 <= i < 4 implies #[trigger] q[i] == fold_seq(src, r)[at + i] by {
        assert(2 * at + 2 * i == 2 * (at + i));
    }
}

// ---- two folds ----

/// Every quadruple folded at `ra` and then at `rb`.
pub open spec fn fold2_seq(src: Seq<F128>, ra: F128, rb: F128) -> Seq<F128> {
    Seq::new(
        (src.len() / 4) as nat,
        |t: int| lerp2(src[4 * t], src[4 * t + 1], src[4 * t + 2], src[4 * t + 3], ra, rb),
    )
}

proof fn lemma_fold16_at(src: Seq<F128>, ra: F128, rb: F128, at: int, q: Seq<F128>)
    requires
        0 <= at,
        4 * (at + 4) <= src.len(),
        folds16(q, src, 4 * at, ra, rb),
    ensures
        forall|i: int| 0 <= i < 4 ==> #[trigger] q[i] == fold2_seq(src, ra, rb)[at + i],
{
    assert forall|i: int| 0 <= i < 4 implies #[trigger] q[i] == fold2_seq(src, ra, rb)[at + i] by {
        assert(4 * at + 4 * i == 4 * (at + i));
    }
}

/// Folds both tables at `rho1` and then at `rho2`, and returns the message of
/// the result.
pub fn fold2_and_message(
    a_in: &[F128],
    b_in: &[F128],
    a_out: &mut [F128],
    b_out: &mut [F128],
    rho1: F128,
    rho2: F128,
    eq_lo: &[F128],
) -> (m: (F128, F128))
    requires
        a_in.len() == 4 * old(a_out).len(),
        b_in.len() == 4 * old(b_out).len(),
        old(a_out).len() == 2 * eq_lo.len(),
        old(b_out).len() == 2 * eq_lo.len(),
        eq_lo.len() % 2 == 0,
    ensures
        final(a_out)@ == fold2_seq(a_in@, rho1, rho2),
        final(b_out)@ == fold2_seq(b_in@, rho1, rho2),
        m.0 == message_one(eq_lo@, final(a_out)@, final(b_out)@),
        m.1 == message_inf(eq_lo@, final(a_out)@, final(b_out)@),
{
    let ghost fa = fold2_seq(a_in@, rho1, rho2);
    let ghost fb = fold2_seq(b_in@, rho1, rho2);
    let n: usize = eq_lo.len();
    let mut msg = PairMessage::new();
    let mut x_lo: usize = 0;
    while n - x_lo >= 4
        invariant
            n == eq_lo.len(),
            n % 2 == 0,
            x_lo <= n,
            x_lo % 4 == 0,
            a_in.len() == 8 * n,
            b_in.len() == 8 * n,
            a_out.len() == 2 * n,
            b_out.len() == 2 * n,
            fa == fold2_seq(a_in@, rho1, rho2),
            fb == fold2_seq(b_in@, rho1, rho2),
            forall|i: int| 0 <= i < 2 * x_lo ==> #[trigger] a_out@[i] == fa[i],
            forall|i: int| 0 <= i < 2 * x_lo ==> #[trigger] b_out@[i] == fb[i],
            msg.one() == dot_upto(eq_lo@, odd_products(fa, fb), x_lo as nat),
            msg.inf() == dot_upto(eq_lo@, sum_products(fa, fb), x_lo as nat),
        decreases n - x_lo,
    {
        let output: usize = 2 * x_lo;
        let input: usize = 4 * output;
        let a_lo = fold16_to_4(a_in, input, rho1, rho2);
        let a_hi = fold16_to_4(a_in, input + 16, rho1, rho2);
        let b_lo = fold16_to_4(b_in, input, rho1, rho2);
        let b_hi = fold16_to_4(b_in, input + 16, rho1, rho2);
        proof {
            lemma_fold16_at(a_in@, rho1, rho2, output as int, a_lo@);
            lemma_fold16_at(a_in@, rho1, rho2, output + 4, a_hi@);
            lemma_fold16_at(b_in@, rho1, rho2, output as int, b_lo@);
            lemma_fold16_at(b_in@, rho1, rho2, output + 4, b_hi@);
        }
        store_eight(a_out, output, a_lo, a_hi, Ghost(fa));
        store_eight(b_out, output, b_lo, b_hi, Ghost(fb));
        let eq = f128x4_loadu(eq_lo, x_lo);
        proof {
            lemma_message_step4(eq_lo@, fa, fb, x_lo as int, eq@, a_lo@, a_hi@, b_lo@, b_hi@);
        }
        msg.add_four(eq, a_lo, a_hi, b_lo, b_hi);
        x_lo = x_lo + 4;
    }
    if x_lo < n {
        let output: usize = 2 * x_lo;
        let input: usize = 4 * output;
        let a_folded = fold16_to_4(a_in, input, rho1, rho2);
        let b_folded = fold16_to_4(b_in, input, rho1, rho2);
        proof {
            lemma_fold16_at(a_in@, rho1, rho2, output as int, a_folded@);
            lemma_fold16_at(b_in@, rho1, rho2, output as int, b_folded@);
        }
        store_four(a_out, output, a_folded, Ghost(fa));
        store_four(b_out, output, b_folded, Ghost(fb));
        add_pair_tail(&mut msg, eq_lo, a_out, b_out, x_lo, Ghost(fa), Ghost(fb));
    }
    proof {
        assert(a_out@ =~= fa);
        assert(b_out@ =~= fb);
    }
    msg.finish()
}

/// Whether four lane vectors hold `want[at..at + 16]`.
pub open spec fn holds16(
    q0: Seq<F128>,
    q1: Seq<F128>,
    q2: Seq<F128>,
    q3: Seq<F128>,
    want: Seq<F128>,
    at: int,
) -> bool {
    &&& forall|i: int| 0 <= i < 4 ==> #[trigger] q0[i] == want[at + i]
    &&& forall|i: int| 0 <= i < 4 ==> #[trigger] q1[i] == want[at + 4 + i]
    &&& forall|i: int| 0 <= i < 4 ==> #[trigger] q2[i] == want[at + 8 + i]
    &&& forall|i: int| 0 <= i < 4 ==> #[trigger] q3[i] == want[at + 12 + i]
}

/// Stores four folded quadruples to `out[at..at + 16]`; the outputs before stay.
pub(crate) fn store_sixteen(
    out: &mut [F128],
    at: usize,
    q0: F128x4,
    q1: F128x4,
    q2: F128x4,
    q3: F128x4,
    want: Ghost<Seq<F128>>,
)
    requires
        at + 16 <= old(out).len(),
        forall|i: int| 0 <= i < at ==> #[trigger] old(out)@[i] == want@[i],
        holds16(q0@, q1@, q2@, q3@, want@, at as int),
    ensures
        final(out).len() == old(out).len(),
        forall|i: int| 0 <= i < at + 16 ==> #[trigger] final(out)@[i] == want@[i],
{
    store_eight(out, at, q0, q1, want);
    proof {
        assert forall|i: int| 0 <= i < 4 implies #[trigger] q2@[i] == want@[at + 8 + i] by {}
        assert forall|i: int| 0 <= i < 4 implies #[trigger] q3@[i] == want@[at + 8 + 4 + i] by {}
    }
    store_eight(out, at + 8, q2, q3, want);
}

/// Adds the four groups that `oa` and `ob` hold to a look-ahead message.
pub(crate) fn add_four_groups(
    msg: &mut LookaheadMessage,
    eq_lo: &[F128],
    x_lo: usize,
    oa: [F128x4; 4],
    ob: [F128x4; 4],
    fa: Ghost<Seq<F128>>,
    fb: Ghost<Seq<F128>>,
)
    requires
        x_lo % 2 == 0,
        x_lo + 8 <= eq_lo.len(),
        2 * (x_lo + 8) <= fa@.len(),
        fa@.len() == fb@.len(),
        holds16(oa@[0]@, oa@[1]@, oa@[2]@, oa@[3]@, fa@, 2 * x_lo),
        holds16(ob@[0]@, ob@[1]@, ob@[2]@, ob@[3]@, fb@, 2 * x_lo),
        forall|k: int|
            0 <= k < 8 ==> #[trigger] old(msg).sum(k) == lookahead_upto(
                k,
                eq_lo@,
                fa@,
                fb@,
                (x_lo / 2) as nat,
            ),
    ensures
        forall|k: int|
            0 <= k < 8 ==> #[trigger] final(msg).sum(k) == lookahead_upto(
                k,
                eq_lo@,
                fa@,
                fb@,
                (x_lo / 2 + 4) as nat,
            ),
{
    let ghost before = *msg;
    let a = transpose4_lanes(oa[0], oa[1], oa[2], oa[3]);
    let b = transpose4_lanes(ob[0], ob[1], ob[2], ob[3]);
    let e_lo = f128x4_loadu(eq_lo, x_lo);
    let e_hi = f128x4_loadu(eq_lo, x_lo + 4);
    let w = odd_lanes(e_lo, e_hi);
    msg.add_four(w, a[0], a[1], a[2], a[3], b[0], b[1], b[2], b[3]);
    proof {
        let n = (x_lo / 2) as int;
        assert(2 * n == x_lo);
        let ga = seq![a@[0]@, a@[1]@, a@[2]@, a@[3]@];
        let gb = seq![b@[0]@, b@[1]@, b@[2]@, b@[3]@];
        assert forall|l: int| 0 <= l < 4 implies #[trigger] w@[l] == eq_lo@[2 * (n + l) + 1] by {
            assert(l == 0 || l == 1 || l == 2 || l == 3);
        }
        lemma_groups_in_lanes(
            seq![oa@[0]@, oa@[1]@, oa@[2]@, oa@[3]@],
            ga,
            fa@,
            n,
        );
        lemma_groups_in_lanes(
            seq![ob@[0]@, ob@[1]@, ob@[2]@, ob@[3]@],
            gb,
            fb@,
            n,
        );
        assert forall|k: int| 0 <= k < 8 implies #[trigger] msg.sum(k) == lookahead_upto(
            k,
            eq_lo@,
            fa@,
            fb@,
            (n + 4) as nat,
        ) by {
            assert(before.sum(k) == lookahead_upto(k, eq_lo@, fa@, fb@, n as nat));
            lemma_lookahead_step4(k, eq_lo@, fa@, fb@, n, w@, ga, gb);
        }
    }
}

/// Transposing four stored groups puts element `j` of group `l` into lane `l` of vector `j`.
proof fn lemma_groups_in_lanes(o: Seq<Seq<F128>>, g: Seq<Seq<F128>>, v: Seq<F128>, n: int)
    requires
        o.len() == 4,
        g.len() == 4,
        holds16(o[0], o[1], o[2], o[3], v, 4 * n),
        forall|k: int| 0 <= k < 4 ==> #[trigger] g[k] == seq![o[0][k], o[1][k], o[2][k], o[3][k]],
    ensures
        forall|l: int, j: int| 0 <= l < 4 && 0 <= j < 4 ==> #[trigger] g[j][l] == v[4 * (n + l) + j],
{
    assert forall|l: int, j: int| 0 <= l < 4 && 0 <= j < 4 implies #[trigger] g[j][l] == v[4 * (n + l) + j] by {
        assert(g[j] == seq![o[0][j], o[1][j], o[2][j], o[3][j]]);
        if l == 0 {
            assert(o[0][j] == v[4 * n + j]);
        } else if l == 1 {
            assert(o[1][j] == v[4 * n + 4 + j]);
        } else if l == 2 {
            assert(o[2][j] == v[4 * n + 8 + j]);
        } else {
            assert(o[3][j] == v[4 * n + 12 + j]);
        }
    }
}

/// Adds group `x_lo / 2`, read back from the outputs, to a look-ahead message.
pub(crate) fn add_one_group(
    msg: &mut LookaheadMessage,
    eq_lo: &[F128],
    x_lo: usize,
    a: &[F128],
    b: &[F128],
    fa: Ghost<Seq<F128>>,
    fb: Ghost<Seq<F128>>,
)
    requires
        x_lo % 2 == 0,
        x_lo + 2 <= eq_lo.len(),
        2 * (x_lo + 2) <= a.len(),
        a.len() == b.len(),
        fa@.len() == a.len(),
        fb@.len() == b.len(),
        forall|i: int| 2 * x_lo <= i < 2 * (x_lo + 2) ==> #[trigger] a@[i] == fa@[i],
        forall|i: int| 2 * x_lo <= i < 2 * (x_lo + 2) ==> #[trigger] b@[i] == fb@[i],
        forall|k: int|
            0 <= k < 8 ==> #[trigger] old(msg).sum(k) == lookahead_upto(
                k,
                eq_lo@,
                fa@,
                fb@,
                (x_lo / 2) as nat,
            ),
    ensures
        forall|k: int|
            0 <= k < 8 ==> #[trigger] final(msg).sum(k) == lookahead_upto(
                k,
                eq_lo@,
                fa@,
                fb@,
                (x_lo / 2 + 1) as nat,
            ),
{
    let ghost before = *msg;
    let o: usize = 2 * x_lo;
    msg.add_one(eq_lo[x_lo + 1], [a[o], a[o + 1], a[o + 2], a[o + 3]], [b[o], b[o + 1], b[o + 2], b[o + 3]]);
    proof {
        let n = (x_lo / 2) as int;
        assert(2 * n == x_lo && 4 * n == o);
        assert forall|k: int| 0 <= k < 8 implies #[trigger] msg.sum(k) == lookahead_upto(
            k,
            eq_lo@,
            fa@,
            fb@,
            (n + 1) as nat,
        ) by {
            assert(before.sum(k) == lookahead_upto(k, eq_lo@, fa@, fb@, n as nat));
            lemma_lookahead_step1(k, eq_lo@, fa@, fb@, n);
        }
    }
}

/// Folds both tables at `rho_a` and then at `rho_b`, and returns the eight
/// look-ahead sums of the result. With `defer` the two folds share one reduction.
pub fn fold2_and_message_lookahead(
    a_in: &[F128],
    b_in: &[F128],
    a_out: &mut [F128],
    b_out: &mut [F128],
    rho_a: F128,
    rho_b: F128,
    eq_lo: &[F128],
    defer: bool,
) -> (m: [F128; 8])
    requires
        a_in.len() == 4 * old(a_out).len(),
        b_in.len() == 4 * old(b_out).len(),
        old(a_out).len() == 2 * eq_lo.len(),
        old(b_out).len() == 2 * eq_lo.len(),
        eq_lo.len() % 2 == 0,
    ensures
        final(a_out)@ == fold2_seq(a_in@, rho_a, rho_b),
        final(b_out)@ == fold2_seq(b_in@, rho_a, rho_b),
        forall|k: int|
            0 <= k < 8 ==> #[trigger] m@[k] == lookahead(k, eq_lo@, final(a_out)@, final(b_out)@),
{
    let ghost fa = fold2_seq(a_in@, rho_a, rho_b);
    let ghost fb = fold2_seq(b_in@, rho_a, rho_b);
    let rho_ab = rho_a * rho_b;
    let lo_size: usize = eq_lo.len();
    let mut msg = LookaheadMessage::new();
    let mut x_lo: usize = 0;
    while lo_size - x_lo >= 8
        invariant
            rho_ab == fmul(rho_a, rho_b),
            lo_size == eq_lo.len(),
            lo_size % 2 == 0,
            x_lo <= lo_size,
            x_lo % 8 == 0,
            a_in.len() == 8 * lo_size,
            b_in.len() == 8 * lo_size,
            a_out.len() == 2 * lo_size,
            b_out.len() == 2 * lo_size,
            fa == fold2_seq(a_in@, rho_a, rho_b),
            fb == fold2_seq(b_in@, rho_a, rho_b),
            forall|i: int| 0 <= i < 2 * x_lo ==> #[trigger] a_out@[i] == fa[i],
            forall|i: int| 0 <= i < 2 * x_lo ==> #[trigger] b_out@[i] == fb[i],
            forall|k: int|
                0 <= k < 8 ==> #[trigger] msg.sum(k) == lookahead_upto(k, eq_lo@, fa, fb, (x_lo / 2) as nat),
        decreases lo_size - x_lo,
    {
        let output: usize = 2 * x_lo;
        let oa = fold64_to_16(a_in, 4 * output, rho_a, rho_b, rho_ab, defer);
        let ob = fold64_to_16(b_in, 4 * output, rho_a, rho_b, rho_ab, defer);
        proof {
            lemma_fold64_at(a_in@, rho_a, rho_b, output as int, oa@[0]@, oa@[1]@, oa@[2]@, oa@[3]@);
            lemma_fold64_at(b_in@, rho_a, rho_b, output as int, ob@[0]@, ob@[1]@, ob@[2]@, ob@[3]@);
        }
        store_sixteen(a_out, output, oa[0], oa[1], oa[2], oa[3], Ghost(fa));
        store_sixteen(b_out, output, ob[0], ob[1], ob[2], ob[3], Ghost(fb));
        add_four_groups(&mut msg, eq_lo, x_lo, oa, ob, Ghost(fa), Ghost(fb));
        proof {
            assert((x_lo + 8) / 2 == x_lo / 2 + 4);
        }
        x_lo = x_lo + 8;
    }
    while lo_size - x_lo >= 2
        invariant
            lo_size == eq_lo.len(),
            lo_size % 2 == 0,
            x_lo <= lo_size,
            x_lo % 2 == 0,
            a_in.len() == 8 * lo_size,
            b_in.len() == 8 * lo_size,
            a_out.len() == 2 * lo_size,
            b_out.len() == 2 * lo_size,
            fa == fold2_seq(a_in@, rho_a, rho_b),
            fb == fold2_seq(b_in@, rho_a, rho_b),
            forall|i: int| 0 <= i < 2 * x_lo ==> #[trigger] a_out@[i] == fa[i],
            forall|i: int| 0 <= i < 2 * x_lo ==> #[trigger] b_out@[i] == fb[i],
            forall|k: int|
                0 <= k < 8 ==> #[trigger] msg.sum(k) == lookahead_upto(k, eq_lo@, fa, fb, (x_lo / 2) as nat),
        decreases lo_size - x_lo,
    {
        let output: usize = 2 * x_lo;
        let oa = fold16_to_4(a_in, 4 * output, rho_a, rho_b);
        let ob = fold16_to_4(b_in, 4 * output, rho_a, rho_b);
        proof {
            lemma_fold16_at(a_in@, rho_a, rho_b, output as int, oa@);
            lemma_fold16_at(b_in@, rho_a, rho_b, output as int, ob@);
        }
        store_four(a_out, output, oa, Ghost(fa));
        store_four(b_out, output, ob, Ghost(fb));
        add_one_group(&mut msg, eq_lo, x_lo, a_out, b_out, Ghost(fa), Ghost(fb));
        proof {
            assert((x_lo + 2) / 2 == x_lo / 2 + 1);
        }
        x_lo = x_lo + 2;
    }
    proof {
        assert(a_out@ =~= fa);
        assert(b_out@ =~= fb);
    }
    msg.finish()
}

/// Sixteen composed folds of the sixty-four values from `s` on, four to a vector.
pub fn fold64_to_16(
    src: &[F128],
    s: usize,
    ra: F128,
    rb: F128,
    rarb: F128,
    defer: bool,
) -> (o: [F128x4; 4])
    requires
        s + 64 <= src.len(),
        rarb == fmul(ra, rb),
    ensures
        folds16(o@[0]@, src@, s as int, ra, rb),
        folds16(o@[1]@, src@, s + 16, ra, rb),
        folds16(o@[2]@, src@, s + 32, ra, rb),
        folds16(o@[3]@, src@, s + 48, ra, rb),
{
    if defer {
        [
            fold16_to_4_deferred(src, s, ra, rb, rarb),
            fold16_to_4_deferred(src, s + 16, ra, rb, rarb),
            fold16_to_4_deferred(src, s + 32, ra, rb, rarb),
            fold16_to_4_deferred(src, s + 48, ra, rb, rarb),
        ]
    } else {
        [
            fold16_to_4(src, s, ra, rb),
            fold16_to_4(src, s + 16, ra, rb),
            fold16_to_4(src, s + 32, ra, rb),
            fold16_to_4(src, s + 48, ra, rb),
        ]
    }
}

proof fn lemma_fold64_at(
    src: Seq<F128>,
    ra: F128,
    rb: F128,
    at: int,
    q0: Seq<F128>,
    q1: Seq<F128>,
    q2: Seq<F128>,
    q3: Seq<F128>,
)
    requires
        0 <= at,
        4 * (at + 16) <= src.len(),
        folds16(q0, src, 4 * at, ra, rb),
        folds16(q1, src, 4 * at + 16, ra, rb),
        folds16(q2, src, 4 * at + 32, ra, rb),
        folds16(q3, src, 4 * at + 48, ra, rb),
    ensures
        holds16(q0, q1, q2, q3, fold2_seq(src, ra, rb), at),
{
    lemma_fold16_at(src, ra, rb, at, q0);
    lemma_fold16_at(src, ra, rb, at + 4, q1);
    lemma_fold16_at(src, ra, rb, at + 8, q2);
    lemma_fold16_at(src, ra, rb, at + 12, q3);
}

/// Folding twice in a row is the composed fold.
pub proof fn law_fold2_is_two_folds(src: Seq<F128>, ra: F128, rb: F128)
    requires
        src.len() % 4 == 0,
    ensures
        fold2_seq(src, ra, rb) == fold_seq(fold_seq(src, ra), rb),
{
    assert forall|t: int| 0 <= t < src.len() / 4 implies fold2_seq(src, ra, rb)[t] == fold_seq(
        fold_seq(src, ra),
        rb,
    )[t] by {
        crate::field::f128_slice::law_fold4_is_two_passes(src, ra, rb, t);
    }
    assert(fold2_seq(src, ra, rb) =~= fold_seq(fold_seq(src, ra), rb));
}

} // verus!
