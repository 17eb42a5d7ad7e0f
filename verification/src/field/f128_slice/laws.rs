//! How the sums and folds of a vector grow with it.

use super::wide::{bound_prefix, dot_at, lerp_scaled, lemma_dot_at};
use super::{bind_seq, dot, dot_upto, evens, fold_seq, law_fold_linear, pair_sums, vadd};
use crate::field::gf2_128::{fadd, fmul, fzero, law_fadd_assoc, law_fadd_zero, F128};
use vstd::prelude::*;

verus! {

/// A sum of products reads no element past its bound.
pub proof fn lemma_dot_prefix(a: Seq<F128>, b: Seq<F128>, c: Seq<F128>, d: Seq<F128>, n: nat)
    requires
        forall|i: int| 0 <= i < n ==> #[trigger] a[i] == c[i],
        forall|i: int| 0 <= i < n ==> #[trigger] b[i] == d[i],
    ensures
        dot_upto(a, b, n) == dot_upto(c, d, n),
    decreases n,
{
    if n > 0 {
        lemma_dot_prefix(a, b, c, d, (n - 1) as nat);
        assert(a[n - 1] == c[n - 1] && b[n - 1] == d[n - 1]);
    }
}

/// The sum of products of empty vectors is zero, and one more element on either side
/// adds its product.
pub proof fn law_product_sum_grows(a: Seq<F128>, b: Seq<F128>, x: F128, y: F128)
    requires
        a.len() == b.len(),
    ensures
        dot(Seq::empty(), b) == fzero(),
        dot(a.push(x), b.push(y)) == fadd(dot(a, b), fmul(x, y)),
{
    lemma_dot_prefix(a.push(x), b.push(y), a, b, a.len());
}

/// The sum of products of two vectors is the sum over any two parts of them.
pub proof fn law_product_sum_splits(a: Seq<F128>, b: Seq<F128>, c: Seq<F128>, d: Seq<F128>)
    requires
        a.len() == b.len(),
        c.len() == d.len(),
    ensures
        dot(a + c, b + d) == fadd(dot(a, b), dot(c, d)),
    decreases c.len(),
{
    if c.len() == 0 {
        lemma_dot_prefix(a + c, b + d, a, b, a.len());
        law_fadd_zero(dot(a, b));
    } else {
        let c0 = c.drop_last();
        let d0 = d.drop_last();
        law_product_sum_splits(a, b, c0, d0);
        law_product_sum_grows(a + c0, b + d0, c.last(), d.last());
        law_product_sum_grows(c0, d0, c.last(), d.last());
        assert((a + c0).push(c.last()) =~= a + c);
        assert((b + d0).push(d.last()) =~= b + d);
        assert(c0.push(c.last()) =~= c);
        assert(d0.push(d.last()) =~= d);
        law_fadd_assoc(dot(a, b), dot(c0, d0), fmul(c.last(), d.last()));
    }
}

/// One more pair adds one fold, one even element and one sum, and changes none before.
pub proof fn law_one_more_pair(a: Seq<F128>, x: F128, y: F128, r: F128)
    requires
        a.len() % 2 == 0,
    ensures
        fold_seq(a.push(x).push(y), r) == fold_seq(a, r).push(fadd(x, fmul(r, fadd(x, y)))),
        evens(a.push(x).push(y)) == evens(a).push(x),
        pair_sums(a.push(x).push(y)) == pair_sums(a).push(fadd(x, y)),
        fold_seq(Seq::empty(), r) == Seq::<F128>::empty(),
{
    let b = a.push(x).push(y);
    let h = a.len() as int / 2;
    assert(b[2 * h] == x && b[2 * h + 1] == y);
    assert(fold_seq(b, r) =~= fold_seq(a, r).push(fadd(x, fmul(r, fadd(x, y)))));
    assert(evens(b) =~= evens(a).push(x));
    assert(pair_sums(b) =~= pair_sums(a).push(fadd(x, y)));
    assert(fold_seq(Seq::empty(), r) =~= Seq::<F128>::empty());
}

/// One more element on either side adds its sum and its fold, and changes none before.
pub proof fn law_one_more_element(a: Seq<F128>, b: Seq<F128>, x: F128, y: F128, r: F128)
    requires
        a.len() == b.len(),
    ensures
        vadd(a.push(x), b.push(y)) == vadd(a, b).push(fadd(x, y)),
        bind_seq(a.push(x), b.push(y), r) == bind_seq(a, b, r).push(fadd(x, fmul(r, fadd(x, y)))),
        vadd(Seq::empty(), b) == Seq::<F128>::empty(),
        bind_seq(Seq::empty(), b, r) == Seq::<F128>::empty(),
{
    assert(vadd(a.push(x), b.push(y)) =~= vadd(a, b).push(fadd(x, y)));
    assert(bind_seq(a.push(x), b.push(y), r) =~= bind_seq(a, b, r).push(fadd(x, fmul(r, fadd(x, y)))));
    assert(vadd(Seq::empty(), b) =~= Seq::<F128>::empty());
    assert(bind_seq(Seq::empty(), b, r) =~= Seq::<F128>::empty());
}

/// A banked sum is the sum of products with the bank's own elements.
pub proof fn law_banked_sum_reads_its_bank(w: Seq<F128>, before: Seq<F128>, bank: Seq<F128>, after: Seq<F128>)
    requires
        w.len() == bank.len(),
    ensures
        dot_at(w, before + bank + after, before.len() as int, w.len()) == dot(w, bank),
{
    let src = before + bank + after;
    let at = before.len() as int;
    lemma_dot_at(w, src, at, w.len());
    assert(src.subrange(at, at + w.len()) =~= bank);
}

/// A fold with a scaled addend is the fold of the sum.
pub proof fn law_scaled_fold_is_the_fold_of_the_sum(
    src: Seq<F128>,
    addend: Seq<F128>,
    j: int,
    r: F128,
    scale: F128,
)
    ensures
        ({
            let even = fadd(src[2 * j], fmul(scale, addend[2 * j]));
            let odd = fadd(src[2 * j + 1], fmul(scale, addend[2 * j + 1]));
            lerp_scaled(src, addend, j, r, scale) == fadd(even, fmul(r, fadd(even, odd)))
        }),
{
    law_fold_linear(src[2 * j], src[2 * j + 1], addend[2 * j], addend[2 * j + 1], r, scale);
}

/// A sum of the first products is the sum of products of the first elements.
pub proof fn law_partial_sum_reads_the_first_elements(a: Seq<F128>, b: Seq<F128>, n: nat)
    requires
        n <= a.len(),
        n <= b.len(),
    ensures
        dot_upto(a, b, n) == dot(a.take(n as int), b.take(n as int)),
{
    lemma_dot_prefix(a, b, a.take(n as int), b.take(n as int), n);
}

/// Binding the first `n` elements of a quarter leaves the fold of the first parts, and the
/// rest behind it.
pub proof fn law_bound_prefix_is_a_fold_and_the_rest(q: Seq<F128>, before: Seq<F128>, hi: Seq<F128>, r: F128, n: int)
    requires
        bound_prefix(q, before, hi, r, n),
        0 <= n <= before.len(),
        n <= hi.len(),
    ensures
        q == bind_seq(before.take(n), hi.take(n), r) + before.skip(n),
{
    assert(q =~= bind_seq(before.take(n), hi.take(n), r) + before.skip(n));
}

} // verus!
