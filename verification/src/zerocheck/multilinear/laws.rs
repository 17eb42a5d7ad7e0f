//! What the look-ahead sums determine.

use super::message::{
    form, form_products, lookahead, lookahead_upto, message_inf, message_one, odd_products, odds, sum_products,
};
use crate::field::f128_slice::laws::lemma_dot_prefix;
use crate::field::f128_slice::{bind_seq, dot, dot_upto, fold_seq, lerp, vadd};
use crate::field::gf2_128::{
    fadd, fmul, fzero, law_fadd_assoc, law_fadd_comm, law_fadd_self, lemma_fadd_swap4, law_fadd_zero,
    law_fmul_add_left, law_fmul_add_right, law_fmul_assoc, law_fmul_comm, law_fmul_zero, F128,
};
use vstd::prelude::*;

verus! {

/// `c0 + r * (c0 + c1 + c2) + r^2 * c2`: the product of two lines at `r`, from
/// its values `c0` at zero and `c1` at one and its leading coefficient `c2`.
pub open spec fn quadratic(c0: F128, c1: F128, c2: F128, r: F128) -> F128 {
    fadd(fadd(c0, fmul(r, fadd(fadd(c1, c2), c0))), fmul(fmul(r, r), c2))
}

/// The product of two lines is determined by its end values and its leading coefficient.
pub proof fn law_product_of_lines(x0: F128, x1: F128, y0: F128, y1: F128, r: F128)
    ensures
        fmul(lerp(x0, x1, r), lerp(y0, y1, r)) == quadratic(
            fmul(x0, y0),
            fmul(x1, y1),
            fmul(fadd(x0, x1), fadd(y0, y1)),
            r,
        ),
{
    let d = fadd(x0, x1);
    let e = fadd(y0, y1);
    let rd = fmul(r, d);
    let re = fmul(r, e);
    // (x0 + rd) (y0 + re)
    law_fmul_add_left(x0, rd, fadd(y0, re));
    law_fmul_add_right(x0, y0, re);
    law_fmul_add_right(rd, y0, re);
    let c0 = fmul(x0, y0);
    let c1 = fmul(x1, y1);
    let c2 = fmul(d, e);
    // rd * re = r r d e
    law_fmul_assoc(r, d, re);
    law_fmul_comm(r, e);
    law_fmul_assoc(d, e, r);
    law_fmul_comm(c2, r);
    law_fmul_assoc(r, r, c2);
    assert(fmul(rd, re) == fmul(fmul(r, r), c2));
    // x0 * re + rd * y0 = r (x0 e + d y0)
    law_fmul_comm(x0, re);
    law_fmul_assoc(r, e, x0);
    law_fmul_comm(e, x0);
    law_fmul_assoc(r, d, y0);
    let xe = fmul(x0, e);
    let dy = fmul(d, y0);
    law_fmul_add_right(r, xe, dy);
    // x0 e + d y0 = (c1 + c2) + c0
    law_fmul_add_right(x0, y0, y1);
    law_fmul_add_left(x0, x1, y0);
    law_fmul_add_left(x0, x1, e);
    law_fmul_add_right(x1, y0, y1);
    let p01 = fmul(x0, y1);
    let p10 = fmul(x1, y0);
    assert(xe == fadd(c0, p01));
    assert(dy == fadd(c0, p10));
    assert(c2 == fadd(fadd(c0, p01), fadd(p10, c1)));
    // xe + dy = p01 + p10
    lemma_fadd_swap4(c0, p01, c0, p10);
    law_fadd_self(c0);
    law_fadd_zero(fadd(p01, p10));
    // (c1 + c2) + c0
    law_fadd_assoc(c0, p01, fadd(p10, c1));
    law_fadd_assoc(p01, p10, c1);
    let s = fadd(p01, p10);
    assert(c2 == fadd(c0, fadd(s, c1)));
    law_fadd_comm(c1, c2);
    law_fadd_assoc(c0, fadd(s, c1), c1);
    law_fadd_assoc(s, c1, c1);
    law_fadd_self(c1);
    law_fadd_zero(s);
    assert(fadd(c1, c2) == fadd(c0, s));
    law_fadd_comm(c0, s);
    law_fadd_assoc(s, c0, c0);
    assert(fadd(fadd(c1, c2), c0) == s);
    // regroup
    let m0 = fmul(x0, re);
    let m1 = fmul(rd, y0);
    law_fadd_assoc(fadd(c0, m0), m1, fmul(rd, re));
    law_fadd_assoc(c0, m0, m1);
}

proof fn lemma_quadratic_add(
    a0: F128,
    a1: F128,
    a2: F128,
    b0: F128,
    b1: F128,
    b2: F128,
    r: F128,
)
    ensures
        quadratic(fadd(a0, b0), fadd(a1, b1), fadd(a2, b2), r) == fadd(
            quadratic(a0, a1, a2, r),
            quadratic(b0, b1, b2, r),
        ),
{
    lemma_fadd_swap4(a1, b1, a2, b2);
    lemma_fadd_swap4(fadd(a1, a2), fadd(b1, b2), a0, b0);
    let sa = fadd(fadd(a1, a2), a0);
    let sb = fadd(fadd(b1, b2), b0);
    law_fmul_add_right(r, sa, sb);
    law_fmul_add_right(fmul(r, r), a2, b2);
    lemma_fadd_swap4(a0, b0, fmul(r, sa), fmul(r, sb));
    lemma_fadd_swap4(
        fadd(a0, fmul(r, sa)),
        fadd(b0, fmul(r, sb)),
        fmul(fmul(r, r), a2),
        fmul(fmul(r, r), b2),
    );
}

proof fn lemma_quadratic_scaled(w: F128, c0: F128, c1: F128, c2: F128, r: F128)
    ensures
        fmul(w, quadratic(c0, c1, c2, r)) == quadratic(fmul(w, c0), fmul(w, c1), fmul(w, c2), r),
{
    let s = fadd(fadd(c1, c2), c0);
    let rr = fmul(r, r);
    law_fmul_add_right(w, fadd(c0, fmul(r, s)), fmul(rr, c2));
    law_fmul_add_right(w, c0, fmul(r, s));
    law_fmul_assoc(w, r, s);
    law_fmul_comm(w, r);
    law_fmul_assoc(r, w, s);
    law_fmul_add_right(w, fadd(c1, c2), c0);
    law_fmul_add_right(w, c1, c2);
    law_fmul_assoc(w, rr, c2);
    law_fmul_comm(w, rr);
    law_fmul_assoc(rr, w, c2);
}

proof fn lemma_quadratic_zero(r: F128)
    ensures
        quadratic(fzero(), fzero(), fzero(), r) == fzero(),
{
    law_fadd_zero(fzero());
    law_fmul_zero(r);
    law_fmul_zero(fmul(r, r));
}

proof fn lemma_next_round_upto(eq: Seq<F128>, a: Seq<F128>, b: Seq<F128>, r: F128, n: nat)
    requires
        a.len() == 2 * eq.len(),
        b.len() == 2 * eq.len(),
        2 * n <= eq.len(),
    ensures
        dot_upto(odds(eq), odd_products(fold_seq(a, r), fold_seq(b, r)), n) == quadratic(
            lookahead_upto(4, eq, a, b, n),
            lookahead_upto(2, eq, a, b, n),
            lookahead_upto(3, eq, a, b, n),
            r,
        ),
        dot_upto(odds(eq), sum_products(fold_seq(a, r), fold_seq(b, r)), n) == quadratic(
            lookahead_upto(5, eq, a, b, n),
            lookahead_upto(6, eq, a, b, n),
            lookahead_upto(7, eq, a, b, n),
            r,
        ),
    decreases n,
{
    if n == 0 {
        lemma_quadratic_zero(r);
    } else {
        let m = (n - 1) as nat;
        let u = m as int;
        lemma_next_round_upto(eq, a, b, r, m);
        let w = odds(eq)[u];
        let fa = fold_seq(a, r);
        let fb = fold_seq(b, r);
        let a0 = a[4 * u];
        let a1 = a[4 * u + 1];
        let a2 = a[4 * u + 2];
        let a3 = a[4 * u + 3];
        let b0 = b[4 * u];
        let b1 = b[4 * u + 1];
        let b2 = b[4 * u + 2];
        let b3 = b[4 * u + 3];
        assert(fa[2 * u] == lerp(a[2 * (2 * u)], a[2 * (2 * u) + 1], r));
        assert(fa[2 * u + 1] == lerp(a[2 * (2 * u + 1)], a[2 * (2 * u + 1) + 1], r));
        assert(fb[2 * u] == lerp(b[2 * (2 * u)], b[2 * (2 * u) + 1], r));
        assert(fb[2 * u + 1] == lerp(b[2 * (2 * u + 1)], b[2 * (2 * u + 1) + 1], r));
        assert(fa[2 * u + 1] == lerp(a2, a3, r) && fb[2 * u + 1] == lerp(b2, b3, r));
        let p = |k: int| form_products(k, a, b)[u];
        law_product_of_lines(a2, a3, b2, b3, r);
        lemma_quadratic_scaled(w, p(4), p(2), p(3), r);
        lemma_quadratic_add(
            lookahead_upto(4, eq, a, b, m),
            lookahead_upto(2, eq, a, b, m),
            lookahead_upto(3, eq, a, b, m),
            fmul(w, p(4)),
            fmul(w, p(2)),
            fmul(w, p(3)),
            r,
        );
        assert(odd_products(fa, fb)[u] == quadratic(p(4), p(2), p(3), r));
        // A0 + A1 is the line through (a0 + a2) and (a1 + a3)
        lemma_line_add(a0, a1, a2, a3, r);
        lemma_line_add(b0, b1, b2, b3, r);
        law_product_of_lines(fadd(a0, a2), fadd(a1, a3), fadd(b0, b2), fadd(b1, b3), r);
        lemma_quadratic_scaled(w, p(5), p(6), p(7), r);
        lemma_quadratic_add(
            lookahead_upto(5, eq, a, b, m),
            lookahead_upto(6, eq, a, b, m),
            lookahead_upto(7, eq, a, b, m),
            fmul(w, p(5)),
            fmul(w, p(6)),
            fmul(w, p(7)),
            r,
        );
        assert(sum_products(fa, fb)[u] == quadratic(p(5), p(6), p(7), r));
    }
}

proof fn lemma_line_add(x0: F128, x1: F128, y0: F128, y1: F128, r: F128)
    ensures
        fadd(lerp(x0, x1, r), lerp(y0, y1, r)) == lerp(fadd(x0, y0), fadd(x1, y1), r),
{
    let dx = fadd(x0, x1);
    let dy = fadd(y0, y1);
    lemma_fadd_swap4(x0, fmul(r, dx), y0, fmul(r, dy));
    law_fmul_add_right(r, dx, dy);
    lemma_fadd_swap4(x0, x1, y0, y1);
}

/// The last six look-ahead sums determine the next round: whatever point the
/// tables are folded at, the message of the folded tables, weighted by the odd
/// weights, follows from those sums.
pub proof fn law_lookahead_gives_next_message(eq: Seq<F128>, a: Seq<F128>, b: Seq<F128>, r: F128)
    requires
        a.len() == 2 * eq.len(),
        b.len() == 2 * eq.len(),
    ensures
        message_one(odds(eq), fold_seq(a, r), fold_seq(b, r)) == quadratic(
            lookahead(4, eq, a, b),
            lookahead(2, eq, a, b),
            lookahead(3, eq, a, b),
            r,
        ),
        message_inf(odds(eq), fold_seq(a, r), fold_seq(b, r)) == quadratic(
            lookahead(5, eq, a, b),
            lookahead(6, eq, a, b),
            lookahead(7, eq, a, b),
            r,
        ),
{
    lemma_next_round_upto(eq, a, b, r, (eq.len() / 2) as nat);
}

proof fn lemma_this_round_upto(eq: Seq<F128>, a: Seq<F128>, b: Seq<F128>, c: F128, n: nat)
    requires
        a.len() == 2 * eq.len(),
        b.len() == 2 * eq.len(),
        2 * n <= eq.len(),
        forall|u: int| 0 <= u < eq.len() / 2 ==> eq[2 * u] == fmul(c, #[trigger] odds(eq)[u]),
    ensures
        dot_upto(eq, odd_products(a, b), (2 * n) as nat) == fadd(
            fmul(c, lookahead_upto(0, eq, a, b, n)),
            lookahead_upto(2, eq, a, b, n),
        ),
        dot_upto(eq, sum_products(a, b), (2 * n) as nat) == fadd(
            fmul(c, lookahead_upto(1, eq, a, b, n)),
            lookahead_upto(3, eq, a, b, n),
        ),
    decreases n,
{
    if n == 0 {
        law_fmul_zero(c);
        law_fadd_zero(fzero());
    } else {
        let m = (n - 1) as nat;
        let u = m as int;
        lemma_this_round_upto(eq, a, b, c, m);
        let w = odds(eq)[u];
        assert(eq[2 * u] == fmul(c, w));
        assert(eq[2 * u + 1] == w);
        reveal_with_fuel(dot_upto, 3);
        let p = |k: int| form_products(k, a, b)[u];
        let op = odd_products(a, b);
        let sp = sum_products(a, b);
        assert(op[2 * u] == fmul(a[2 * (2 * u) + 1], b[2 * (2 * u) + 1]));
        assert(op[2 * u + 1] == fmul(a[2 * (2 * u + 1) + 1], b[2 * (2 * u + 1) + 1]));
        assert(op[2 * u] == p(0) && op[2 * u + 1] == p(2));
        assert(sp[2 * u] == p(1)) by {
            assert(2 * (2 * u) == 4 * u);
        }
        assert(sp[2 * u + 1] == p(3)) by {
            assert(2 * (2 * u + 1) == 4 * u + 2);
        }
        law_fmul_assoc(c, w, p(0));
        law_fmul_assoc(c, w, p(1));
        law_fmul_add_right(c, lookahead_upto(0, eq, a, b, m), fmul(w, p(0)));
        law_fmul_add_right(c, lookahead_upto(1, eq, a, b, m), fmul(w, p(1)));
        let x0 = fmul(c, lookahead_upto(0, eq, a, b, m));
        let y0 = lookahead_upto(2, eq, a, b, m);
        let x1 = fmul(c, fmul(w, p(0)));
        let y1 = fmul(w, p(2));
        law_fadd_assoc(fadd(x0, y0), x1, y1);
        lemma_fadd_swap4(x0, y0, x1, y1);
        let s0 = fmul(c, lookahead_upto(1, eq, a, b, m));
        let t0 = lookahead_upto(3, eq, a, b, m);
        let s1 = fmul(c, fmul(w, p(1)));
        let t1 = fmul(w, p(3));
        law_fadd_assoc(fadd(s0, t0), s1, t1);
        lemma_fadd_swap4(s0, t0, s1, t1);
    }
}

/// The first four look-ahead sums determine this round: where every even weight
/// is `c` times the odd weight next to it, the message is the even sums scaled
/// by `c` plus the odd sums.
pub proof fn law_lookahead_gives_this_message(eq: Seq<F128>, a: Seq<F128>, b: Seq<F128>, c: F128)
    requires
        eq.len() % 2 == 0,
        a.len() == 2 * eq.len(),
        b.len() == 2 * eq.len(),
        forall|u: int| 0 <= u < eq.len() / 2 ==> eq[2 * u] == fmul(c, #[trigger] odds(eq)[u]),
    ensures
        message_one(eq, a, b) == fadd(fmul(c, lookahead(0, eq, a, b)), lookahead(2, eq, a, b)),
        message_inf(eq, a, b) == fadd(fmul(c, lookahead(1, eq, a, b)), lookahead(3, eq, a, b)),
{
    lemma_this_round_upto(eq, a, b, c, (eq.len() / 2) as nat);
}

proof fn lemma_round_upto(eq: Seq<F128>, a: Seq<F128>, b: Seq<F128>, r: F128, n: nat)
    requires
        a.len() == 2 * eq.len(),
        b.len() == 2 * eq.len(),
        n <= eq.len(),
    ensures
        dot_upto(eq, products(fold_seq(a, r), fold_seq(b, r)), n) == quadratic(
            dot_upto(eq, products(fold_seq(a, fzero()), fold_seq(b, fzero())), n),
            dot_upto(eq, odd_products(a, b), n),
            dot_upto(eq, sum_products(a, b), n),
            r,
        ),
    decreases n,
{
    if n == 0 {
        lemma_quadratic_zero(r);
    } else {
        let m = (n - 1) as nat;
        let u = m as int;
        lemma_round_upto(eq, a, b, r, m);
        let w = eq[u];
        let a0 = a[2 * u];
        let a1 = a[2 * u + 1];
        let b0 = b[2 * u];
        let b1 = b[2 * u + 1];
        crate::field::f128_slice::law_fold_endpoints(a0, a1);
        crate::field::f128_slice::law_fold_endpoints(b0, b1);
        law_product_of_lines(a0, a1, b0, b1, r);
        let c0 = fmul(a0, b0);
        let c1 = fmul(a1, b1);
        let c2 = fmul(fadd(a0, a1), fadd(b0, b1));
        assert(products(fold_seq(a, r), fold_seq(b, r))[u] == quadratic(c0, c1, c2, r));
        assert(products(fold_seq(a, fzero()), fold_seq(b, fzero()))[u] == c0);
        assert(odd_products(a, b)[u] == c1);
        assert(sum_products(a, b)[u] == c2);
        lemma_quadratic_scaled(w, c0, c1, c2, r);
        lemma_quadratic_add(
            dot_upto(eq, products(fold_seq(a, fzero()), fold_seq(b, fzero())), m),
            dot_upto(eq, odd_products(a, b), m),
            dot_upto(eq, sum_products(a, b), m),
            fmul(w, c0),
            fmul(w, c1),
            fmul(w, c2),
            r,
        );
    }
}

/// The products of two vectors, element by element.
pub open spec fn products(a: Seq<F128>, b: Seq<F128>) -> Seq<F128> {
    Seq::new(a.len(), |i: int| fmul(a[i], b[i]))
}

/// What a round message is for: wherever the tables are folded, the weighted sum of the
/// products of the folds is the quadratic through the sum at zero, the message at one
/// and the message at infinity.
pub proof fn law_message_evaluates_the_round(eq: Seq<F128>, a: Seq<F128>, b: Seq<F128>, r: F128)
    requires
        a.len() == 2 * eq.len(),
        b.len() == 2 * eq.len(),
    ensures
        dot(eq, products(fold_seq(a, r), fold_seq(b, r))) == quadratic(
            dot(eq, products(fold_seq(a, fzero()), fold_seq(b, fzero()))),
            message_one(eq, a, b),
            message_inf(eq, a, b),
            r,
        ),
{
    lemma_round_upto(eq, a, b, r, eq.len());
}

/// One more pair adds its weighted odd product to the message at one, and its weighted
/// product of sums to the message at infinity.
pub proof fn law_message_grows(
    eq: Seq<F128>,
    a: Seq<F128>,
    b: Seq<F128>,
    w: F128,
    a0: F128,
    a1: F128,
    b0: F128,
    b1: F128,
)
    requires
        a.len() == 2 * eq.len(),
        b.len() == 2 * eq.len(),
    ensures
        message_one(eq.push(w), a.push(a0).push(a1), b.push(b0).push(b1)) == fadd(
            message_one(eq, a, b),
            fmul(w, fmul(a1, b1)),
        ),
        message_inf(eq.push(w), a.push(a0).push(a1), b.push(b0).push(b1)) == fadd(
            message_inf(eq, a, b),
            fmul(w, fmul(fadd(a0, a1), fadd(b0, b1))),
        ),
        message_one(Seq::empty(), a, b) == fzero(),
        message_inf(Seq::empty(), a, b) == fzero(),
{
    let n = eq.len();
    let u = n as int;
    let ea = a.push(a0).push(a1);
    let eb = b.push(b0).push(b1);
    assert(ea[2 * u] == a0 && ea[2 * u + 1] == a1 && eb[2 * u] == b0 && eb[2 * u + 1] == b1);
    assert(odd_products(ea, eb)[u] == fmul(a1, b1));
    assert(sum_products(ea, eb)[u] == fmul(fadd(a0, a1), fadd(b0, b1)));
    lemma_dot_prefix(eq.push(w), odd_products(ea, eb), eq, odd_products(a, b), n);
    lemma_dot_prefix(eq.push(w), sum_products(ea, eb), eq, sum_products(a, b), n);
}

/// One more group of four adds to every look-ahead sum the product of its combinations,
/// weighted by the odd weight of the group.
pub proof fn law_lookahead_grows(
    k: int,
    eq: Seq<F128>,
    a: Seq<F128>,
    b: Seq<F128>,
    w: Seq<F128>,
    x: Seq<F128>,
    y: Seq<F128>,
)
    requires
        eq.len() % 2 == 0,
        a.len() == 2 * eq.len(),
        b.len() == 2 * eq.len(),
        w.len() == 2,
        x.len() == 4,
        y.len() == 4,
    ensures
        lookahead(k, eq + w, a + x, b + y) == fadd(
            lookahead(k, eq, a, b),
            fmul(w[1], fmul(form(k, x[0], x[1], x[2], x[3]), form(k, y[0], y[1], y[2], y[3]))),
        ),
        lookahead(k, Seq::empty(), a, b) == fzero(),
{
    let n = (eq.len() / 2) as nat;
    let u = n as int;
    let ea = a + x;
    let eb = b + y;
    let p = form_products(k, ea, eb);
    assert((eq + w).len() / 2 == n + 1);
    assert(ea[4 * u] == x[0] && ea[4 * u + 1] == x[1] && ea[4 * u + 2] == x[2] && ea[4 * u + 3] == x[3]);
    assert(eb[4 * u] == y[0] && eb[4 * u + 1] == y[1] && eb[4 * u + 2] == y[2] && eb[4 * u + 3] == y[3]);
    assert(odds(eq + w)[u] == w[1]);
    assert forall|i: int| 0 <= i < n implies #[trigger] p[i] == form_products(k, a, b)[i] by {
        assert(4 * i + 3 < a.len());
    }
    assert forall|i: int| 0 <= i < n implies #[trigger] odds(eq + w)[i] == odds(eq)[i] by {
        assert(2 * i + 1 < eq.len());
    }
    lemma_dot_prefix(odds(eq + w), p, odds(eq), form_products(k, a, b), n);
}

proof fn lemma_split_round_upto(
    clo: Seq<F128>,
    chi: Seq<F128>,
    zlo: Seq<F128>,
    zhi: Seq<F128>,
    r: F128,
    n: nat,
)
    requires
        chi.len() == clo.len(),
        zlo.len() == clo.len(),
        zhi.len() == clo.len(),
        n <= clo.len(),
    ensures
        dot_upto(bind_seq(clo, chi, r), bind_seq(zlo, zhi, r), n) == quadratic(
            dot_upto(clo, zlo, n),
            dot_upto(chi, zhi, n),
            dot_upto(vadd(chi, clo), vadd(zhi, zlo), n),
            r,
        ),
    decreases n,
{
    if n == 0 {
        lemma_quadratic_zero(r);
    } else {
        let m = (n - 1) as nat;
        let u = m as int;
        lemma_split_round_upto(clo, chi, zlo, zhi, r, m);
        law_product_of_lines(clo[u], chi[u], zlo[u], zhi[u], r);
        law_fadd_comm(clo[u], chi[u]);
        law_fadd_comm(zlo[u], zhi[u]);
        lemma_quadratic_add(
            dot_upto(clo, zlo, m),
            dot_upto(chi, zhi, m),
            dot_upto(vadd(chi, clo), vadd(zhi, zlo), m),
            fmul(clo[u], zlo[u]),
            fmul(chi[u], zhi[u]),
            fmul(vadd(chi, clo)[u], vadd(zhi, zlo)[u]),
            r,
        );
    }
}

/// The same of tables split in halves: wherever they are bound, the sum of products of
/// the bound halves is the quadratic through the sum of the lower halves, the sum of the
/// upper halves and the sum of the sums.
pub proof fn law_split_message_evaluates_the_round(
    clo: Seq<F128>,
    chi: Seq<F128>,
    zlo: Seq<F128>,
    zhi: Seq<F128>,
    r: F128,
)
    requires
        chi.len() == clo.len(),
        zlo.len() == clo.len(),
        zhi.len() == clo.len(),
    ensures
        dot(bind_seq(clo, chi, r), bind_seq(zlo, zhi, r)) == quadratic(
            dot(clo, zlo),
            dot(chi, zhi),
            dot(vadd(chi, clo), vadd(zhi, zlo)),
            r,
        ),
{
    lemma_split_round_upto(clo, chi, zlo, zhi, r, clo.len());
}

} // verus!
