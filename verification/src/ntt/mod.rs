//! Butterflies of the additive NTT over GF(2^128).
//!
//! A butterfly with twiddle `t` takes `(u, v)` to `(u + t v, v + u + t v)`. A layer
//! applies one to every pair of rows that lie half a block apart, with one twiddle
//! for each block. Fused kernels run two or four layers while the rows are loaded.

use crate::field::gf2_128::ghash::{
    f128x4_loadu, f128x4_splat, f128x4_storeu, ghash_mul_x4, ghash_mul_x4_low_lhs, xor_x4, F128x4,
};
use crate::field::gf2_128::{fadd, fmul, fzero, law_fadd_zero, law_fmul_comm, law_fmul_zero, F128};
use vstd::prelude::*;

pub mod laws;

verus! {

/// The upper output of a butterfly.
pub open spec fn bf_top(u: F128, v: F128, t: F128) -> F128 {
    fadd(u, fmul(t, v))
}

/// The lower output of a butterfly.
pub open spec fn bf_bot(u: F128, v: F128, t: F128) -> F128 {
    fadd(v, bf_top(u, v, t))
}

/// One layer over the rows `x`: blocks of `2 * half` rows, block `s` with the
/// twiddle `tw[first + s]`.
pub open spec fn layer(x: Seq<F128>, half: int, first: int, tw: Seq<F128>) -> Seq<F128> {
    Seq::new(
        x.len(),
        |j: int|
            if j % (2 * half) < half {
                bf_top(x[j], x[j + half], tw[first + j / (2 * half)])
            } else {
                bf_bot(x[j - half], x[j], tw[first + j / (2 * half)])
            },
    )
}

/// Two layers over four rows.
pub open spec fn fused2(x: Seq<F128>, tw: Seq<F128>) -> Seq<F128> {
    layer(layer(x, 2, 0, tw), 1, 1, tw)
}

/// Four layers over sixteen rows.
#[verifier::opaque]
pub open spec fn fused4(x: Seq<F128>, tw: Seq<F128>) -> Seq<F128> {
    layer(layer(layer(layer(x, 8, 0, tw), 4, 1, tw), 2, 3, tw), 1, 7, tw)
}

/// Lane `l` of a sequence of vectors.
pub open spec fn lane_rows(v: Seq<F128x4>, l: int) -> Seq<F128> {
    Seq::new(v.len(), |i: int| v[i]@[l])
}

/// The first element of row `r` of part `i`, for parts of `part` rows of
/// `num_ntts` elements.
pub open spec fn row_start(i: int, part: int, num_ntts: int, r: int) -> int {
    (i * part + r) * num_ntts
}

/// Element `l` of row `r` of every part.
pub open spec fn column(x: Seq<F128>, parts: nat, part: int, num_ntts: int, r: int, l: int) -> Seq<F128> {
    Seq::new(parts, |i: int| x[row_start(i, part, num_ntts, r) + l])
}

/// Whether the first `lanes` elements of row `r` of each of sixteen parts of `d` are
/// the four layers of the columns of `d0`, and all others are as in `d0`.
pub open spec fn rows4_done(
    d0: Seq<F128>,
    d: Seq<F128>,
    tw: Seq<F128>,
    part: int,
    num_ntts: int,
    r: int,
    lanes: int,
) -> bool {
    &&& d.len() == d0.len()
    &&& forall|i: int, l: int|
        0 <= i < 16 && 0 <= l < lanes ==> #[trigger] d[row_start(i, part, num_ntts, r) + l] == fused4(
            column(d0, 16, part, num_ntts, r, l),
            tw,
        )[i]
    &&& forall|p: int|
        0 <= p < d.len() && (forall|i: int|
            0 <= i < 16 ==> !(#[trigger] row_start(i, part, num_ntts, r) <= p < row_start(i, part, num_ntts, r)
                + lanes)) ==> #[trigger] d[p] == d0[p]
}

/// Whether row `r` of each of four parts of `d` is two layers of the columns of
/// `src`, and all other elements are as in `d0`.
pub open spec fn rows2_done(
    src: Seq<F128>,
    d0: Seq<F128>,
    d: Seq<F128>,
    tw: Seq<F128>,
    part: int,
    num_ntts: int,
    r: int,
    lanes: int,
) -> bool {
    &&& d.len() == d0.len()
    &&& forall|i: int, l: int|
        0 <= i < 4 && 0 <= l < lanes ==> #[trigger] d[row_start(i, part, num_ntts, r) + l] == fused2(
            column(src, 4, part, num_ntts, r, l),
            tw,
        )[i]
    &&& forall|p: int|
        0 <= p < d.len() && (forall|i: int|
            0 <= i < 4 ==> !(#[trigger] row_start(i, part, num_ntts, r) <= p < row_start(i, part, num_ntts, r)
                + lanes)) ==> #[trigger] d[p] == d0[p]
}

/// Two layers written out.
pub proof fn law_fused2_is_four_butterflies(a: F128, b: F128, c: F128, d: F128, tw: Seq<F128>)
    ensures
        fused2(seq![a, b, c, d], tw) == ({
            let a1 = bf_top(a, c, tw[0]);
            let c1 = bf_bot(a, c, tw[0]);
            let b1 = bf_top(b, d, tw[0]);
            let d1 = bf_bot(b, d, tw[0]);
            seq![bf_top(a1, b1, tw[1]), bf_bot(a1, b1, tw[1]), bf_top(c1, d1, tw[2]), bf_bot(c1, d1, tw[2])]
        }),
{
    let x = seq![a, b, c, d];
    let y = layer(x, 2, 0, tw);
    assert(y.len() == 4);
    let a1 = bf_top(a, c, tw[0]);
    let c1 = bf_bot(a, c, tw[0]);
    let b1 = bf_top(b, d, tw[0]);
    let d1 = bf_bot(b, d, tw[0]);
    assert(fused2(x, tw) =~= seq![
        bf_top(a1, b1, tw[1]),
        bf_bot(a1, b1, tw[1]),
        bf_top(c1, d1, tw[2]),
        bf_bot(c1, d1, tw[2]),
    ]);
}

/// With zero twiddles on the first layer and on the left of the second, the first
/// row stays and the sums of rows remain.
pub proof fn law_sparse_is_dense_with_zeros(a: F128, b: F128, c: F128, d: F128, t: F128)
    ensures
        fused2(seq![a, b, c, d], seq![fzero(), fzero(), t]) == seq![
            a,
            fadd(b, a),
            bf_top(fadd(c, a), fadd(d, b), t),
            bf_bot(fadd(c, a), fadd(d, b), t),
        ],
{
    let tw = seq![fzero(), fzero(), t];
    law_fused2_is_four_butterflies(a, b, c, d, tw);
    lemma_zero_twiddle(a, c);
    lemma_zero_twiddle(b, d);
    lemma_zero_twiddle(a, b);
}

proof fn lemma_zero_twiddle(u: F128, v: F128)
    ensures
        bf_top(u, v, fzero()) == u,
        bf_bot(u, v, fzero()) == fadd(v, u),
{
    law_fmul_zero(v);
    law_fadd_zero(u);
}

/// A column of zeros stays one, so lanes that hold only zeros can be left out.
pub proof fn law_zero_columns_stay_zero(tw: Seq<F128>)
    ensures
        fused4(Seq::new(16, |i: int| fzero()), tw) == Seq::new(16, |i: int| fzero()),
{
    reveal(fused4);
    let z = Seq::new(16, |i: int| fzero());
    lemma_zero_layer(z, 8, 0, tw);
    lemma_zero_layer(z, 4, 1, tw);
    lemma_zero_layer(z, 2, 3, tw);
    lemma_zero_layer(z, 1, 7, tw);
}

proof fn lemma_zero_layer(z: Seq<F128>, half: int, first: int, tw: Seq<F128>)
    requires
        z == Seq::new(16, |i: int| fzero()),
        half == 8 || half == 4 || half == 2 || half == 1,
    ensures
        layer(z, half, first, tw) == z,
{
    assert forall|j: int| 0 <= j < 16 implies #[trigger] layer(z, half, first, tw)[j] == z[j] by {
        let t = tw[first + j / (2 * half)];
        law_fmul_comm(t, fzero());
        law_fmul_zero(t);
        law_fadd_zero(fzero());
    }
    assert(layer(z, half, first, tw) =~= z);
}

// ---- butterflies ----

/// `t * v` in every lane. A twiddle whose high word is zero takes the shorter
/// product where that is enabled.
fn twiddle_x4(t: F128, v: F128x4, low_enabled: bool) -> (p: F128x4)
    ensures
        forall|l: int| 0 <= l < 4 ==> #[trigger] p@[l] == fmul(t, v@[l]),
{
    let tw = f128x4_splat(t);
    if low_enabled && t.hi == 0 {
        let p = ghash_mul_x4_low_lhs(tw, v);
        proof {
            assert forall|l: int| 0 <= l < 4 implies #[trigger] p@[l] == fmul(t, v@[l]) by {
                assert(tw@[l] == t);
            }
        }
        p
    } else {
        let p = ghash_mul_x4(tw, v);
        proof {
            assert forall|l: int| 0 <= l < 4 implies #[trigger] p@[l] == fmul(t, v@[l]) by {
                assert(tw@[l] == t);
            }
        }
        p
    }
}

/// The butterfly of two vectors.
fn pair_x4(u: F128x4, v: F128x4, t: F128, low_enabled: bool) -> (r: (F128x4, F128x4))
    ensures
        forall|l: int| 0 <= l < 4 ==> #[trigger] r.0@[l] == bf_top(u@[l], v@[l], t),
        forall|l: int| 0 <= l < 4 ==> #[trigger] r.1@[l] == bf_bot(u@[l], v@[l], t),
{
    let p = twiddle_x4(t, v, low_enabled);
    let top = xor_x4(u, p);
    let bot = xor_x4(v, top);
    proof {
        assert forall|l: int| 0 <= l < 4 implies #[trigger] top@[l] == bf_top(u@[l], v@[l], t) by {
            assert(p@[l] == fmul(t, v@[l]));
        }
        assert forall|l: int| 0 <= l < 4 implies #[trigger] bot@[l] == bf_bot(u@[l], v@[l], t) by {
            assert(top@[l] == bf_top(u@[l], v@[l], t));
        }
    }
    (top, bot)
}

/// The butterfly of two elements.
fn pair(u: F128, v: F128, t: F128) -> (r: (F128, F128))
    ensures
        r.0 == bf_top(u, v, t),
        r.1 == bf_bot(u, v, t),
{
    let top = u + t * v;
    (top, v + top)
}

/// The butterfly of rows `u` and `w`, four lanes at a time.
fn butterfly_x4(v: &mut [F128x4; 16], u: usize, w: usize, t: F128, low_enabled: bool)
    requires
        u < w < 16,
    ensures
        forall|l: int|
            0 <= l < 4 ==> #[trigger] lane_rows(final(v)@, l) == lane_rows(old(v)@, l).update(
                u as int,
                bf_top(lane_rows(old(v)@, l)[u as int], lane_rows(old(v)@, l)[w as int], t),
            ).update(w as int, bf_bot(lane_rows(old(v)@, l)[u as int], lane_rows(old(v)@, l)[w as int], t)),
{
    let ghost v0 = v@;
    let (top, bot) = pair_x4(v[u], v[w], t, low_enabled);
    v[u] = top;
    v[w] = bot;
    proof {
        assert forall|l: int| 0 <= l < 4 implies #[trigger] lane_rows(v@, l) == lane_rows(v0, l).update(
            u as int,
            bf_top(lane_rows(v0, l)[u as int], lane_rows(v0, l)[w as int], t),
        ).update(w as int, bf_bot(lane_rows(v0, l)[u as int], lane_rows(v0, l)[w as int], t)) by {
            assert(top@[l] == bf_top(lane_rows(v0, l)[u as int], lane_rows(v0, l)[w as int], t));
            assert(bot@[l] == bf_bot(lane_rows(v0, l)[u as int], lane_rows(v0, l)[w as int], t));
            assert(lane_rows(v@, l) =~= lane_rows(v0, l).update(
                u as int,
                bf_top(lane_rows(v0, l)[u as int], lane_rows(v0, l)[w as int], t),
            ).update(w as int, bf_bot(lane_rows(v0, l)[u as int], lane_rows(v0, l)[w as int], t)));
        }
    }
}

/// The butterfly of rows `u` and `w`.
fn butterfly(v: &mut [F128; 16], u: usize, w: usize, t: F128)
    requires
        u < w < 16,
    ensures
        final(v)@ == old(v)@.update(u as int, bf_top(old(v)@[u as int], old(v)@[w as int], t)).update(
            w as int,
            bf_bot(old(v)@[u as int], old(v)@[w as int], t),
        ),
{
    let (top, bot) = pair(v[u], v[w], t);
    v[u] = top;
    v[w] = bot;
}

/// The layer with blocks of 16 rows, four lanes at a time.
fn stage8_x4(v: &mut [F128x4; 16], tw: &[F128; 15], low_enabled: bool)
    ensures
        forall|l: int| 0 <= l < 4 ==> #[trigger] lane_rows(final(v)@, l) == layer(lane_rows(old(v)@, l), 8, 0, tw@),
{
    let ghost v0 = v@;
    butterfly_x4(v, 0, 8, tw[0], low_enabled);
    let ghost v1 = v@;
    butterfly_x4(v, 1, 9, tw[0], low_enabled);
    let ghost v2 = v@;
    butterfly_x4(v, 2, 10, tw[0], low_enabled);
    let ghost v3 = v@;
    butterfly_x4(v, 3, 11, tw[0], low_enabled);
    let ghost v4 = v@;
    butterfly_x4(v, 4, 12, tw[0], low_enabled);
    let ghost v5 = v@;
    butterfly_x4(v, 5, 13, tw[0], low_enabled);
    let ghost v6 = v@;
    butterfly_x4(v, 6, 14, tw[0], low_enabled);
    let ghost v7 = v@;
    butterfly_x4(v, 7, 15, tw[0], low_enabled);
    proof {
        assert forall|l: int| 0 <= l < 4 implies #[trigger] lane_rows(v@, l) == layer(lane_rows(v0, l), 8, 0, tw@) by {
            assert(lane_rows(v1, l).len() == 16 && lane_rows(v2, l).len() == 16 && lane_rows(v3, l).len() == 16);
            assert(lane_rows(v4, l).len() == 16 && lane_rows(v5, l).len() == 16 && lane_rows(v6, l).len() == 16);
            assert(lane_rows(v7, l).len() == 16);
            assert(lane_rows(v@, l) =~= layer(lane_rows(v0, l), 8, 0, tw@));
        }
    }
}

/// The layer with blocks of 16 rows.
fn stage8(v: &mut [F128; 16], tw: &[F128; 15])
    ensures
        final(v)@ == layer(old(v)@, 8, 0, tw@),
{
    let ghost v0 = v@;
    butterfly(v, 0, 8, tw[0]);
    butterfly(v, 1, 9, tw[0]);
    butterfly(v, 2, 10, tw[0]);
    butterfly(v, 3, 11, tw[0]);
    butterfly(v, 4, 12, tw[0]);
    butterfly(v, 5, 13, tw[0]);
    butterfly(v, 6, 14, tw[0]);
    butterfly(v, 7, 15, tw[0]);
    assert(v@ =~= layer(v0, 8, 0, tw@));
}

/// The layer with blocks of 8 rows, four lanes at a time.
fn stage4_x4(v: &mut [F128x4; 16], tw: &[F128; 15], low_enabled: bool)
    ensures
        forall|l: int| 0 <= l < 4 ==> #[trigger] lane_rows(final(v)@, l) == layer(lane_rows(old(v)@, l), 4, 1, tw@),
{
    let ghost v0 = v@;
    butterfly_x4(v, 0, 4, tw[1], low_enabled);
    let ghost v1 = v@;
    butterfly_x4(v, 1, 5, tw[1], low_enabled);
    let ghost v2 = v@;
    butterfly_x4(v, 2, 6, tw[1], low_enabled);
    let ghost v3 = v@;
    butterfly_x4(v, 3, 7, tw[1], low_enabled);
    let ghost v4 = v@;
    butterfly_x4(v, 8, 12, tw[2], low_enabled);
    let ghost v5 = v@;
    butterfly_x4(v, 9, 13, tw[2], low_enabled);
    let ghost v6 = v@;
    butterfly_x4(v, 10, 14, tw[2], low_enabled);
    let ghost v7 = v@;
    butterfly_x4(v, 11, 15, tw[2], low_enabled);
    proof {
        assert forall|l: int| 0 <= l < 4 implies #[trigger] lane_rows(v@, l) == layer(lane_rows(v0, l), 4, 1, tw@) by {
            assert(lane_rows(v1, l).len() == 16 && lane_rows(v2, l).len() == 16 && lane_rows(v3, l).len() == 16);
            assert(lane_rows(v4, l).len() == 16 && lane_rows(v5, l).len() == 16 && lane_rows(v6, l).len() == 16);
            assert(lane_rows(v7, l).len() == 16);
            assert(lane_rows(v@, l) =~= layer(lane_rows(v0, l), 4, 1, tw@));
        }
    }
}

/// The layer with blocks of 8 rows.
fn stage4(v: &mut [F128; 16], tw: &[F128; 15])
    ensures
        final(v)@ == layer(old(v)@, 4, 1, tw@),
{
    let ghost v0 = v@;
    butterfly(v, 0, 4, tw[1]);
    butterfly(v, 1, 5, tw[1]);
    butterfly(v, 2, 6, tw[1]);
    butterfly(v, 3, 7, tw[1]);
    butterfly(v, 8, 12, tw[2]);
    butterfly(v, 9, 13, tw[2]);
    butterfly(v, 10, 14, tw[2]);
    butterfly(v, 11, 15, tw[2]);
    assert(v@ =~= layer(v0, 4, 1, tw@));
}

/// The layer with blocks of 4 rows, four lanes at a time.
fn stage2_x4(v: &mut [F128x4; 16], tw: &[F128; 15], low_enabled: bool)
    ensures
        forall|l: int| 0 <= l < 4 ==> #[trigger] lane_rows(final(v)@, l) == layer(lane_rows(old(v)@, l), 2, 3, tw@),
{
    let ghost v0 = v@;
    butterfly_x4(v, 0, 2, tw[3], low_enabled);
    let ghost v1 = v@;
    butterfly_x4(v, 1, 3, tw[3], low_enabled);
    let ghost v2 = v@;
    butterfly_x4(v, 4, 6, tw[4], low_enabled);
    let ghost v3 = v@;
    butterfly_x4(v, 5, 7, tw[4], low_enabled);
    let ghost v4 = v@;
    butterfly_x4(v, 8, 10, tw[5], low_enabled);
    let ghost v5 = v@;
    butterfly_x4(v, 9, 11, tw[5], low_enabled);
    let ghost v6 = v@;
    butterfly_x4(v, 12, 14, tw[6], low_enabled);
    let ghost v7 = v@;
    butterfly_x4(v, 13, 15, tw[6], low_enabled);
    proof {
        assert forall|l: int| 0 <= l < 4 implies #[trigger] lane_rows(v@, l) == layer(lane_rows(v0, l), 2, 3, tw@) by {
            assert(lane_rows(v1, l).len() == 16 && lane_rows(v2, l).len() == 16 && lane_rows(v3, l).len() == 16);
            assert(lane_rows(v4, l).len() == 16 && lane_rows(v5, l).len() == 16 && lane_rows(v6, l).len() == 16);
            assert(lane_rows(v7, l).len() == 16);
            assert(lane_rows(v@, l) =~= layer(lane_rows(v0, l), 2, 3, tw@));
        }
    }
}

/// The layer with blocks of 4 rows.
fn stage2(v: &mut [F128; 16], tw: &[F128; 15])
    ensures
        final(v)@ == layer(old(v)@, 2, 3, tw@),
{
    let ghost v0 = v@;
    butterfly(v, 0, 2, tw[3]);
    butterfly(v, 1, 3, tw[3]);
    butterfly(v, 4, 6, tw[4]);
    butterfly(v, 5, 7, tw[4]);
    butterfly(v, 8, 10, tw[5]);
    butterfly(v, 9, 11, tw[5]);
    butterfly(v, 12, 14, tw[6]);
    butterfly(v, 13, 15, tw[6]);
    assert(v@ =~= layer(v0, 2, 3, tw@));
}

/// The layer with blocks of 2 rows, four lanes at a time.
fn stage1_x4(v: &mut [F128x4; 16], tw: &[F128; 15], low_enabled: bool)
    ensures
        forall|l: int| 0 <= l < 4 ==> #[trigger] lane_rows(final(v)@, l) == layer(lane_rows(old(v)@, l), 1, 7, tw@),
{
    let ghost v0 = v@;
    butterfly_x4(v, 0, 1, tw[7], low_enabled);
    let ghost v1 = v@;
    butterfly_x4(v, 2, 3, tw[8], low_enabled);
    let ghost v2 = v@;
    butterfly_x4(v, 4, 5, tw[9], low_enabled);
    let ghost v3 = v@;
    butterfly_x4(v, 6, 7, tw[10], low_enabled);
    let ghost v4 = v@;
    butterfly_x4(v, 8, 9, tw[11], low_enabled);
    let ghost v5 = v@;
    butterfly_x4(v, 10, 11, tw[12], low_enabled);
    let ghost v6 = v@;
    butterfly_x4(v, 12, 13, tw[13], low_enabled);
    let ghost v7 = v@;
    butterfly_x4(v, 14, 15, tw[14], low_enabled);
    proof {
        assert forall|l: int| 0 <= l < 4 implies #[trigger] lane_rows(v@, l) == layer(lane_rows(v0, l), 1, 7, tw@) by {
            assert(lane_rows(v1, l).len() == 16 && lane_rows(v2, l).len() == 16 && lane_rows(v3, l).len() == 16);
            assert(lane_rows(v4, l).len() == 16 && lane_rows(v5, l).len() == 16 && lane_rows(v6, l).len() == 16);
            assert(lane_rows(v7, l).len() == 16);
            assert(lane_rows(v@, l) =~= layer(lane_rows(v0, l), 1, 7, tw@));
        }
    }
}

/// The layer with blocks of 2 rows.
fn stage1(v: &mut [F128; 16], tw: &[F128; 15])
    ensures
        final(v)@ == layer(old(v)@, 1, 7, tw@),
{
    let ghost v0 = v@;
    butterfly(v, 0, 1, tw[7]);
    butterfly(v, 2, 3, tw[8]);
    butterfly(v, 4, 5, tw[9]);
    butterfly(v, 6, 7, tw[10]);
    butterfly(v, 8, 9, tw[11]);
    butterfly(v, 10, 11, tw[12]);
    butterfly(v, 12, 13, tw[13]);
    butterfly(v, 14, 15, tw[14]);
    assert(v@ =~= layer(v0, 1, 7, tw@));
}

/// Four layers over sixteen rows, four lanes at a time.
fn fused4_x4(v: &mut [F128x4; 16], tw: &[F128; 15], low_enabled: bool)
    ensures
        forall|l: int| 0 <= l < 4 ==> #[trigger] lane_rows(final(v)@, l) == fused4(lane_rows(old(v)@, l), tw@),
{
    reveal(fused4);
    let ghost v0 = v@;
    stage8_x4(v, tw, low_enabled);
    let ghost v1 = v@;
    stage4_x4(v, tw, low_enabled);
    let ghost v2 = v@;
    stage2_x4(v, tw, low_enabled);
    let ghost v3 = v@;
    stage1_x4(v, tw, low_enabled);
    proof {
        assert forall|l: int| 0 <= l < 4 implies #[trigger] lane_rows(v@, l) == fused4(lane_rows(v0, l), tw@) by {
            assert(lane_rows(v1, l) == layer(lane_rows(v0, l), 8, 0, tw@));
            assert(lane_rows(v2, l) == layer(lane_rows(v1, l), 4, 1, tw@));
            assert(lane_rows(v3, l) == layer(lane_rows(v2, l), 2, 3, tw@));
        }
    }
}

/// Four layers over sixteen rows.
pub fn butterfly_fused_4layer(v: &mut [F128; 16], tw: &[F128; 15])
    ensures
        final(v)@ == fused4(old(v)@, tw@),
{
    reveal(fused4);
    stage8(v, tw);
    stage4(v, tw);
    stage2(v, tw);
    stage1(v, tw);
}

// ---- rows in place ----

/// Rows of different parts do not overlap, and lie within the parts.
proof fn lemma_rows(i: int, j: int, part: int, num_ntts: int, r: int, parts: int)
    requires
        0 <= i < parts,
        0 <= j < parts,
        0 <= r < part,
        0 <= num_ntts,
    ensures
        0 <= row_start(i, part, num_ntts, r),
        row_start(i, part, num_ntts, r) + num_ntts <= parts * part * num_ntts,
        i < j ==> row_start(i, part, num_ntts, r) + num_ntts <= row_start(j, part, num_ntts, r),
        num_ntts > 0 ==> i * part + r <= parts * part * num_ntts,
{
    assert(0 <= i * part) by (nonlinear_arith)
        requires
            0 <= i,
            0 <= part,
    ;
    assert(0 <= (i * part + r) * num_ntts) by (nonlinear_arith)
        requires
            0 <= i * part + r,
            0 <= num_ntts,
    ;
    assert(i * part + r + 1 <= parts * part) by (nonlinear_arith)
        requires
            0 <= i < parts,
            0 <= r < part,
    ;
    assert((i * part + r) * num_ntts + num_ntts <= parts * part * num_ntts) by (nonlinear_arith)
        requires
            i * part + r + 1 <= parts * part,
            0 <= num_ntts,
    ;
    if i < j {
        assert(i * part + r + 1 <= j * part + r) by (nonlinear_arith)
            requires
                i < j,
                0 <= r < part,
        ;
        assert((i * part + r) * num_ntts + num_ntts <= (j * part + r) * num_ntts) by (nonlinear_arith)
            requires
                i * part + r + 1 <= j * part + r,
                0 <= num_ntts,
        ;
    }
    if num_ntts > 0 {
        assert(i * part + r <= (i * part + r) * num_ntts) by (nonlinear_arith)
            requires
                0 <= i * part + r,
                num_ntts >= 1,
        ;
    }
}

/// Where row `r` of part `i` starts.
fn row_of(i: usize, part: usize, num_ntts: usize, r: usize, Ghost(parts): Ghost<int>, Ghost(len): Ghost<usize>) -> (s: usize)
    requires
        i < parts,
        r < part,
        0 < num_ntts,
        parts * part * num_ntts <= len,
    ensures
        s == row_start(i as int, part as int, num_ntts as int, r as int),
        s + num_ntts <= len,
{
    proof {
        lemma_rows(i as int, i as int, part as int, num_ntts as int, r as int, parts);
        assert(0 <= i * part) by (nonlinear_arith);
    }
    (i * part + r) * num_ntts
}

/// Element `l` of each row, for rows that start at `starts`.
spec fn col16(x: Seq<F128>, starts: Seq<usize>, l: int) -> Seq<F128> {
    Seq::new(16, |i: int| x[starts[i] + l])
}

/// Whether `starts` are sixteen rows of `num_ntts` elements in a slice of `len`.
spec fn rows_wf(starts: Seq<usize>, num_ntts: int, len: int) -> bool {
    &&& starts.len() == 16
    &&& forall|i: int| 0 <= i < 16 ==> 0 <= #[trigger] starts[i] && starts[i] + num_ntts <= len
    &&& forall|i: int, j: int| 0 <= i < j < 16 ==> #[trigger] starts[i] + num_ntts <= #[trigger] starts[j]
}

/// Whether the elements `lane..lane + wd` of each row have been replaced by their
/// four layers.
spec fn block_done(d0: Seq<F128>, d: Seq<F128>, starts: Seq<usize>, lane: int, wd: int, tw: Seq<F128>) -> bool {
    &&& d.len() == d0.len()
    &&& forall|i: int, l: int|
        0 <= i < 16 && lane <= l < lane + wd ==> #[trigger] d[starts[i] + l] == fused4(col16(d0, starts, l), tw)[i]
    &&& forall|p: int|
        0 <= p < d.len() && (forall|i: int|
            0 <= i < 16 ==> !(#[trigger] starts[i] + lane <= p < starts[i] + lane + wd)) ==> #[trigger] d[p] == d0[p]
}

/// Four lanes of sixteen rows.
fn row_block_x4(data: &mut [F128], starts: &[usize; 16], num_ntts: usize, lane: usize, tw: &[F128; 15], low_enabled: bool)
    requires
        rows_wf(starts@, num_ntts as int, old(data).len() as int),
        lane + 4 <= num_ntts,
    ensures
        block_done(old(data)@, final(data)@, starts@, lane as int, 4, tw@),
{
    let ghost d0 = data@;
    let zero = f128x4_splat(F128::zero());
    let mut v = [
        zero, zero, zero, zero, zero, zero, zero, zero, zero, zero, zero, zero, zero, zero, zero, zero,
    ];
    for i in 0..16usize
        invariant
            rows_wf(starts@, num_ntts as int, data.len() as int),
            lane + 4 <= num_ntts,
            data@ == d0,
            forall|k: int, l: int| 0 <= k < i && 0 <= l < 4 ==> #[trigger] v@[k]@[l] == d0[starts@[k] + (lane + l)],
    {
        assert(starts@[i as int] + num_ntts <= data.len());
        let x = f128x4_loadu(data, starts[i] + lane);
        v[i] = x;
        proof {
            assert forall|l: int| 0 <= l < 4 implies #[trigger] x@[l] == d0[starts@[i as int] + (lane + l)] by {
                assert(starts@[i as int] + (lane + l) == (starts@[i as int] + lane) + l);
            }
        }
    }
    let ghost v0 = v@;
    fused4_x4(&mut v, tw, low_enabled);
    for i in 0..16usize
        invariant
            rows_wf(starts@, num_ntts as int, data.len() as int),
            lane + 4 <= num_ntts,
            data@.len() == d0.len(),
            forall|k: int, l: int|
                0 <= k < i && lane <= l < lane + 4 ==> #[trigger] data@[starts@[k] + l] == v@[k]@[l - lane],
            forall|p: int|
                0 <= p < data@.len() && (forall|k: int|
                    0 <= k < i ==> !(#[trigger] starts@[k] + lane <= p < starts@[k] + lane + 4)) ==> #[trigger] data@[p]
                    == d0[p],
    {
        assert(starts@[i as int] + num_ntts <= data.len());
        let ghost before = data@;
        f128x4_storeu(data, starts[i] + lane, v[i]);
        proof {
            let at = starts@[i as int] + lane;
            assert forall|k: int, l: int| 0 <= k < i + 1 && lane <= l < lane + 4 implies #[trigger] data@[starts@[k]
                + l] == v@[k]@[l - lane] by {
                assert(starts@[k] + num_ntts <= data.len());
                if k < i {
                    assert(starts@[k] + num_ntts <= starts@[i as int]);
                    assert(before[starts@[k] + l] == v@[k]@[l - lane]);
                } else {
                    assert(starts@[k] + l - at == l - lane);
                }
            }
            assert forall|p: int|
                0 <= p < data@.len() && (forall|k: int|
                    0 <= k < i + 1 ==> !(#[trigger] starts@[k] + lane <= p < starts@[k] + lane + 4)) implies #[trigger]
            data@[p] == d0[p] by {
                assert(!(starts@[i as int] + lane <= p < starts@[i as int] + lane + 4));
                assert(before[p] == d0[p]);
            }
        }
    }
    proof {
        assert forall|i: int, l: int| 0 <= i < 16 && lane <= l < lane + 4 implies #[trigger] data@[starts@[i] + l]
            == fused4(col16(d0, starts@, l), tw@)[i] by {
            assert(lane_rows(v0, l - lane) =~= col16(d0, starts@, l)) by {
                assert forall|k: int| 0 <= k < 16 implies #[trigger] v0[k]@[l - lane] == d0[starts@[k] + l] by {
                    assert(lane + (l - lane) == l);
                }
            }
            assert(lane_rows(v@, l - lane) == fused4(lane_rows(v0, l - lane), tw@));
            assert(lane_rows(v@, l - lane)[i] == v@[i]@[l - lane]);
        }
    }
}

/// One lane of sixteen rows.
fn row_block_1(data: &mut [F128], starts: &[usize; 16], num_ntts: usize, lane: usize, tw: &[F128; 15])
    requires
        rows_wf(starts@, num_ntts as int, old(data).len() as int),
        lane < num_ntts,
    ensures
        block_done(old(data)@, final(data)@, starts@, lane as int, 1, tw@),
{
    let ghost d0 = data@;
    let mut v = [F128::zero(); 16];
    for i in 0..16usize
        invariant
            rows_wf(starts@, num_ntts as int, data.len() as int),
            lane < num_ntts,
            data@ == d0,
            forall|k: int| 0 <= k < i ==> #[trigger] v@[k] == d0[starts@[k] + lane],
    {
        assert(starts@[i as int] + num_ntts <= data.len());
        v[i] = data[starts[i] + lane];
    }
    assert(v@ =~= col16(d0, starts@, lane as int));
    butterfly_fused_4layer(&mut v, tw);
    for i in 0..16usize
        invariant
            rows_wf(starts@, num_ntts as int, data.len() as int),
            lane < num_ntts,
            data@.len() == d0.len(),
            forall|k: int| 0 <= k < i ==> data@[#[trigger] starts@[k] + lane] == v@[k],
            forall|p: int|
                0 <= p < data@.len() && (forall|k: int|
                    0 <= k < i ==> !(#[trigger] starts@[k] + lane <= p < starts@[k] + lane + 1)) ==> #[trigger] data@[p]
                    == d0[p],
    {
        assert(starts@[i as int] + num_ntts <= data.len());
        let ghost before = data@;
        data[starts[i] + lane] = v[i];
        proof {
            assert forall|k: int| 0 <= k < i + 1 implies data@[#[trigger] starts@[k] + lane] == v@[k] by {
                if k < i {
                    assert(starts@[k] + num_ntts <= starts@[i as int]);
                }
            }
            assert forall|p: int|
                0 <= p < data@.len() && (forall|k: int|
                    0 <= k < i + 1 ==> !(#[trigger] starts@[k] + lane <= p < starts@[k] + lane + 1)) implies #[trigger]
            data@[p] == d0[p] by {
                assert(!(starts@[i as int] + lane <= p < starts@[i as int] + lane + 1));
                assert(before[p] == d0[p]);
            }
        }
    }
    proof {
        assert forall|i: int, l: int| 0 <= i < 16 && lane <= l < lane + 1 implies #[trigger] data@[starts@[i] + l]
            == fused4(col16(d0, starts@, l), tw@)[i] by {
            assert(data@[starts@[i] + lane] == v@[i]);
        }
    }
}

/// Blocks of lanes add up.
proof fn lemma_blocks_append(
    d0: Seq<F128>,
    d1: Seq<F128>,
    d2: Seq<F128>,
    starts: Seq<usize>,
    num_ntts: int,
    lane: int,
    wd: int,
    tw: Seq<F128>,
)
    requires
        rows_wf(starts, num_ntts, d0.len() as int),
        0 <= lane,
        0 <= wd,
        lane + wd <= num_ntts,
        block_done(d0, d1, starts, 0, lane, tw),
        block_done(d1, d2, starts, lane, wd, tw),
    ensures
        block_done(d0, d2, starts, 0, lane + wd, tw),
{
    assert forall|i: int, l: int| 0 <= i < 16 && 0 <= l < lane + wd implies #[trigger] d2[starts[i] + l] == fused4(
        col16(d0, starts, l),
        tw,
    )[i] by {
        assert(starts[i] + num_ntts <= d0.len());
        if l < lane {
            assert forall|k: int| 0 <= k < 16 implies !(#[trigger] starts[k] + lane <= starts[i] + l < starts[k] + lane
                + wd) by {
                if k < i {
                    assert(starts[k] + num_ntts <= starts[i]);
                } else if i < k {
                    assert(starts[i] + num_ntts <= starts[k]);
                }
            }
            assert(d2[starts[i] + l] == d1[starts[i] + l]);
        } else {
            assert(col16(d1, starts, l) =~= col16(d0, starts, l)) by {
                assert forall|k: int| 0 <= k < 16 implies d1[#[trigger] starts[k] + l] == d0[starts[k] + l] by {
                    assert(starts[k] + num_ntts <= d0.len());
                    assert forall|h: int| 0 <= h < 16 implies !(#[trigger] starts[h] + 0 <= starts[k] + l < starts[h]
                        + 0 + lane) by {
                        if h < k {
                            assert(starts[h] + num_ntts <= starts[k]);
                        } else if k < h {
                            assert(starts[k] + num_ntts <= starts[h]);
                        }
                    }
                }
            }
        }
    }
    assert forall|p: int|
        0 <= p < d2.len() && (forall|i: int|
            0 <= i < 16 ==> !(#[trigger] starts[i] + 0 <= p < starts[i] + 0 + (lane + wd))) implies #[trigger] d2[p]
        == d0[p] by {
        assert forall|i: int| 0 <= i < 16 implies !(#[trigger] starts[i] + lane <= p < starts[i] + lane + wd) by {
            assert(!(starts[i] + 0 <= p < starts[i] + 0 + (lane + wd)));
        }
        assert(d2[p] == d1[p]);
        assert forall|i: int| 0 <= i < 16 implies !(#[trigger] starts[i] + 0 <= p < starts[i] + 0 + lane) by {
            assert(!(starts[i] + 0 <= p < starts[i] + 0 + (lane + wd)));
        }
    }
}

/// Four layers over the first `lanes` elements of row `r` of each of sixteen parts.
pub fn butterfly_fused_4layer_row_lanes(
    data: &mut [F128],
    sixteenth: usize,
    num_ntts: usize,
    r: usize,
    twiddles: &[F128; 15],
    lanes: usize,
    low_enabled: bool,
)
    requires
        r < sixteenth,
        lanes <= num_ntts,
        16 * sixteenth * num_ntts <= old(data).len(),
    ensures
        rows4_done(
            old(data)@,
            final(data)@,
            twiddles@,
            sixteenth as int,
            num_ntts as int,
            r as int,
            lanes as int,
        ),
{
    let ghost d0 = data@;
    if num_ntts == 0 {
        return;
    }
    let mut starts = [0usize; 16];
    let ghost len = data.len();
    for i in 0..16usize
        invariant
            r < sixteenth,
            0 < num_ntts,
            16 * sixteenth * num_ntts <= len,
            forall|k: int|
                0 <= k < i ==> #[trigger] starts@[k] == row_start(k, sixteenth as int, num_ntts as int, r as int),
    {
        starts[i] = row_of(i, sixteenth, num_ntts, r, Ghost(16int), Ghost(len));
    }
    proof {
        assert forall|i: int| 0 <= i < 16 implies 0 <= #[trigger] starts@[i] && starts@[i] + num_ntts <= len by {
            lemma_rows(i, i, sixteenth as int, num_ntts as int, r as int, 16);
        }
        assert forall|i: int, j: int| 0 <= i < j < 16 implies #[trigger] starts@[i] + num_ntts <= #[trigger] starts@[j] by {
            lemma_rows(i, j, sixteenth as int, num_ntts as int, r as int, 16);
        }
    }
    let lanes4: usize = lanes - lanes % 4;
    let mut lane: usize = 0;
    while lane < lanes4
        invariant
            rows_wf(starts@, num_ntts as int, data.len() as int),
            data.len() == d0.len(),
            lanes4 <= lanes <= num_ntts,
            lanes4 % 4 == 0,
            lane % 4 == 0,
            lane <= lanes4,
            block_done(d0, data@, starts@, 0, lane as int, twiddles@),
        decreases lanes4 - lane,
    {
        let ghost d1 = data@;
        row_block_x4(data, &starts, num_ntts, lane, twiddles, low_enabled);
        proof {
            lemma_blocks_append(d0, d1, data@, starts@, num_ntts as int, lane as int, 4, twiddles@);
        }
        lane += 4;
    }
    while lane < lanes
        invariant
            rows_wf(starts@, num_ntts as int, data.len() as int),
            data.len() == d0.len(),
            lane <= lanes <= num_ntts,
            block_done(d0, data@, starts@, 0, lane as int, twiddles@),
        decreases lanes - lane,
    {
        let ghost d1 = data@;
        row_block_1(data, &starts, num_ntts, lane, twiddles);
        proof {
            lemma_blocks_append(d0, d1, data@, starts@, num_ntts as int, lane as int, 1, twiddles@);
        }
        lane += 1;
    }
    proof {
        let part = sixteenth as int;
        let n = num_ntts as int;
        let rr = r as int;
        assert forall|i: int, l: int| 0 <= i < 16 && 0 <= l < lanes implies #[trigger] data@[row_start(i, part, n, rr)
            + l] == fused4(column(d0, 16, part, n, rr, l), twiddles@)[i] by {
            assert(starts@[i] == row_start(i, part, n, rr));
            assert(data@[starts@[i] + l] == fused4(col16(d0, starts@, l), twiddles@)[i]);
            assert(col16(d0, starts@, l) =~= column(d0, 16, part, n, rr, l));
        }
        assert forall|p: int|
            0 <= p < data@.len() && (forall|i: int|
                0 <= i < 16 ==> !(#[trigger] row_start(i, part, n, rr) <= p < row_start(i, part, n, rr)
                    + lanes)) implies #[trigger] data@[p] == d0[p] by {
            assert forall|i: int| 0 <= i < 16 implies !(#[trigger] starts@[i] + 0 <= p < starts@[i] + 0 + lanes) by {
                assert(!(row_start(i, part, n, rr) <= p < row_start(i, part, n, rr) + lanes));
            }
        }
    }
}

/// Four layers over row `r` of each of sixteen parts.
pub fn butterfly_fused_4layer_row(
    data: &mut [F128],
    sixteenth: usize,
    num_ntts: usize,
    r: usize,
    twiddles: &[F128; 15],
    low_enabled: bool,
)
    requires
        r < sixteenth,
        16 * sixteenth * num_ntts <= old(data).len(),
    ensures
        rows4_done(
            old(data)@,
            final(data)@,
            twiddles@,
            sixteenth as int,
            num_ntts as int,
            r as int,
            num_ntts as int,
        ),
{
    butterfly_fused_4layer_row_lanes(data, sixteenth, num_ntts, r, twiddles, num_ntts, low_enabled)
}

// ---- two rows, four rows ----

/// One layer over a pair of rows.
pub fn butterfly_row_pair(top: &mut [F128], bot: &mut [F128], twiddle: F128, low_enabled: bool)
    requires
        old(top).len() == old(bot).len(),
    ensures
        final(top).len() == old(top).len(),
        final(bot).len() == old(bot).len(),
        forall|i: int|
            0 <= i < old(top).len() ==> #[trigger] final(top)@[i] == bf_top(old(top)@[i], old(bot)@[i], twiddle),
        forall|i: int|
            0 <= i < old(top).len() ==> #[trigger] final(bot)@[i] == bf_bot(old(top)@[i], old(bot)@[i], twiddle),
{
    let ghost t0 = top@;
    let ghost b0 = bot@;
    let n: usize = top.len();
    let lanes: usize = n - n % 4;
    let mut i: usize = 0;
    while i < lanes
        invariant
            n == top.len(),
            n == bot.len(),
            t0.len() == n,
            b0.len() == n,
            lanes <= n,
            lanes % 4 == 0,
            i % 4 == 0,
            i <= lanes,
            forall|k: int| 0 <= k < i ==> #[trigger] top@[k] == bf_top(t0[k], b0[k], twiddle),
            forall|k: int| 0 <= k < i ==> #[trigger] bot@[k] == bf_bot(t0[k], b0[k], twiddle),
            forall|k: int| i <= k < n ==> #[trigger] top@[k] == t0[k],
            forall|k: int| i <= k < n ==> #[trigger] bot@[k] == b0[k],
        decreases lanes - i,
    {
        let u = f128x4_loadu(top, i);
        let v = f128x4_loadu(bot, i);
        let (new_top, new_bot) = pair_x4(u, v, twiddle, low_enabled);
        proof {
            assert forall|l: int| 0 <= l < 4 implies #[trigger] new_top@[l] == bf_top(t0[i + l], b0[i + l], twiddle)
                && new_bot@[l] == bf_bot(t0[i + l], b0[i + l], twiddle) by {
                assert(u@[l] == top@[i + l]);
                assert(v@[l] == bot@[i + l]);
            }
        }
        f128x4_storeu(top, i, new_top);
        f128x4_storeu(bot, i, new_bot);
        proof {
            assert forall|k: int| 0 <= k < i + 4 implies #[trigger] bot@[k] == bf_bot(t0[k], b0[k], twiddle) by {
                if k >= i {
                    assert(new_top@[k - i] == bf_top(t0[i + (k - i)], b0[i + (k - i)], twiddle));
                }
            }
        }
        i += 4;
    }
    while i < n
        invariant
            n == top.len(),
            n == bot.len(),
            t0.len() == n,
            b0.len() == n,
            i <= n,
            forall|k: int| 0 <= k < i ==> #[trigger] top@[k] == bf_top(t0[k], b0[k], twiddle),
            forall|k: int| 0 <= k < i ==> #[trigger] bot@[k] == bf_bot(t0[k], b0[k], twiddle),
            forall|k: int| i <= k < n ==> #[trigger] top@[k] == t0[k],
            forall|k: int| i <= k < n ==> #[trigger] bot@[k] == b0[k],
        decreases n - i,
    {
        let (x, y) = pair(top[i], bot[i], twiddle);
        top[i] = x;
        bot[i] = y;
        i += 1;
    }
}

/// Two layers over four vectors.
fn fused2_x4(
    a: F128x4,
    b: F128x4,
    c: F128x4,
    d: F128x4,
    tw: &[F128; 3],
    low_enabled: bool,
) -> (r: (F128x4, F128x4, F128x4, F128x4))
    ensures
        forall|l: int|
            0 <= l < 4 ==> #[trigger] seq![r.0@[l], r.1@[l], r.2@[l], r.3@[l]] == fused2(
                seq![a@[l], b@[l], c@[l], d@[l]],
                tw@,
            ),
{
    let (a1, c1) = pair_x4(a, c, tw[0], low_enabled);
    let (b1, d1) = pair_x4(b, d, tw[0], low_enabled);
    let (a2, b2) = pair_x4(a1, b1, tw[1], low_enabled);
    let (c2, d2) = pair_x4(c1, d1, tw[2], low_enabled);
    proof {
        assert forall|l: int| 0 <= l < 4 implies #[trigger] seq![a2@[l], b2@[l], c2@[l], d2@[l]] == fused2(
            seq![a@[l], b@[l], c@[l], d@[l]],
            tw@,
        ) by {
            law_fused2_is_four_butterflies(a@[l], b@[l], c@[l], d@[l], tw@);
            assert(a1@[l] == bf_top(a@[l], c@[l], tw@[0]) && c1@[l] == bf_bot(a@[l], c@[l], tw@[0]));
            assert(b1@[l] == bf_top(b@[l], d@[l], tw@[0]) && d1@[l] == bf_bot(b@[l], d@[l], tw@[0]));
            assert(a2@[l] == bf_top(a1@[l], b1@[l], tw@[1]) && b2@[l] == bf_bot(a1@[l], b1@[l], tw@[1]));
            assert(c2@[l] == bf_top(c1@[l], d1@[l], tw@[2]) && d2@[l] == bf_bot(c1@[l], d1@[l], tw@[2]));
        }
    }
    (a2, b2, c2, d2)
}

/// Two layers over four elements.
fn fused2_1(a: F128, b: F128, c: F128, d: F128, tw: &[F128; 3]) -> (r: (F128, F128, F128, F128))
    ensures
        seq![r.0, r.1, r.2, r.3] == fused2(seq![a, b, c, d], tw@),
{
    let (a1, c1) = pair(a, c, tw[0]);
    let (b1, d1) = pair(b, d, tw[0]);
    let (a2, b2) = pair(a1, b1, tw[1]);
    let (c2, d2) = pair(c1, d1, tw[2]);
    proof {
        law_fused2_is_four_butterflies(a, b, c, d, tw@);
    }
    (a2, b2, c2, d2)
}

/// Element `k` of four rows after two layers.
pub open spec fn quad(a: Seq<F128>, b: Seq<F128>, c: Seq<F128>, d: Seq<F128>, tw: Seq<F128>, k: int) -> Seq<F128> {
    fused2(seq![a[k], b[k], c[k], d[k]], tw)
}

/// Whether the elements before `n` of four rows have been replaced by their two
/// layers, and the others are as before.
spec fn quads_done(
    a0: Seq<F128>,
    b0: Seq<F128>,
    c0: Seq<F128>,
    d0: Seq<F128>,
    a: Seq<F128>,
    b: Seq<F128>,
    c: Seq<F128>,
    d: Seq<F128>,
    tw: Seq<F128>,
    n: int,
) -> bool {
    &&& a.len() == a0.len() && b.len() == a0.len() && c.len() == a0.len() && d.len() == a0.len()
    &&& b0.len() == a0.len() && c0.len() == a0.len() && d0.len() == a0.len()
    &&& forall|k: int| 0 <= k < n ==> #[trigger] a[k] == quad(a0, b0, c0, d0, tw, k)[0]
    &&& forall|k: int| 0 <= k < n ==> #[trigger] b[k] == quad(a0, b0, c0, d0, tw, k)[1]
    &&& forall|k: int| 0 <= k < n ==> #[trigger] c[k] == quad(a0, b0, c0, d0, tw, k)[2]
    &&& forall|k: int| 0 <= k < n ==> #[trigger] d[k] == quad(a0, b0, c0, d0, tw, k)[3]
    &&& forall|k: int| n <= k < a0.len() ==> #[trigger] a[k] == a0[k]
    &&& forall|k: int| n <= k < a0.len() ==> #[trigger] b[k] == b0[k]
    &&& forall|k: int| n <= k < a0.len() ==> #[trigger] c[k] == c0[k]
    &&& forall|k: int| n <= k < a0.len() ==> #[trigger] d[k] == d0[k]
}

/// Two layers over four rows in place.
pub fn butterfly_fused_2layer(
    a: &mut [F128],
    b: &mut [F128],
    c: &mut [F128],
    d: &mut [F128],
    t_outer: F128,
    t_inner_a: F128,
    t_inner_b: F128,
    low_enabled: bool,
)
    requires
        old(a).len() == old(b).len(),
        old(a).len() == old(c).len(),
        old(a).len() == old(d).len(),
    ensures
        final(a).len() == old(a).len(),
        final(b).len() == old(a).len(),
        final(c).len() == old(a).len(),
        final(d).len() == old(a).len(),
        forall|k: int|
            0 <= k < old(a).len() ==> #[trigger] final(a)@[k] == quad(
                old(a)@,
                old(b)@,
                old(c)@,
                old(d)@,
                seq![t_outer, t_inner_a, t_inner_b],
                k,
            )[0],
        forall|k: int|
            0 <= k < old(a).len() ==> #[trigger] final(b)@[k] == quad(
                old(a)@,
                old(b)@,
                old(c)@,
                old(d)@,
                seq![t_outer, t_inner_a, t_inner_b],
                k,
            )[1],
        forall|k: int|
            0 <= k < old(a).len() ==> #[trigger] final(c)@[k] == quad(
                old(a)@,
                old(b)@,
                old(c)@,
                old(d)@,
                seq![t_outer, t_inner_a, t_inner_b],
                k,
            )[2],
        forall|k: int|
            0 <= k < old(a).len() ==> #[trigger] final(d)@[k] == quad(
                old(a)@,
                old(b)@,
                old(c)@,
                old(d)@,
                seq![t_outer, t_inner_a, t_inner_b],
                k,
            )[3],
{
    let tw = [t_outer, t_inner_a, t_inner_b];
    assert(tw@ =~= seq![t_outer, t_inner_a, t_inner_b]);
    let ghost a0 = a@;
    let ghost b0 = b@;
    let ghost c0 = c@;
    let ghost d0 = d@;
    let n: usize = a.len();
    let lanes: usize = n - n % 4;
    let mut i: usize = 0;
    while i < lanes
        invariant
            n == a.len(),
            n == b.len(),
            n == c.len(),
            n == d.len(),
            n == a0.len(),
            lanes <= n,
            lanes % 4 == 0,
            i % 4 == 0,
            i <= lanes,
            quads_done(a0, b0, c0, d0, a@, b@, c@, d@, tw@, i as int),
        decreases lanes - i,
    {
        let va = f128x4_loadu(a, i);
        let vb = f128x4_loadu(b, i);
        let vc = f128x4_loadu(c, i);
        let vd = f128x4_loadu(d, i);
        let (ra, rb, rc, rd) = fused2_x4(va, vb, vc, vd, &tw, low_enabled);
        proof {
            assert forall|l: int| 0 <= l < 4 implies #[trigger] seq![ra@[l], rb@[l], rc@[l], rd@[l]] == quad(
                a0,
                b0,
                c0,
                d0,
                tw@,
                i + l,
            ) by {
                assert(va@[l] == a@[i + l] && vb@[l] == b@[i + l] && vc@[l] == c@[i + l] && vd@[l] == d@[i + l]);
            }
        }
        f128x4_storeu(a, i, ra);
        f128x4_storeu(b, i, rb);
        f128x4_storeu(c, i, rc);
        f128x4_storeu(d, i, rd);
        proof {
            assert forall|k: int| i <= k < i + 4 implies #[trigger] quad(a0, b0, c0, d0, tw@, k) == seq![
                a@[k],
                b@[k],
                c@[k],
                d@[k],
            ] by {
                let l = k - i;
                assert(seq![ra@[l], rb@[l], rc@[l], rd@[l]] == quad(a0, b0, c0, d0, tw@, i + l));
            }
        }
        i += 4;
    }
    while i < n
        invariant
            n == a.len(),
            n == b.len(),
            n == c.len(),
            n == d.len(),
            n == a0.len(),
            i <= n,
            quads_done(a0, b0, c0, d0, a@, b@, c@, d@, tw@, i as int),
        decreases n - i,
    {
        let (ra, rb, rc, rd) = fused2_1(a[i], b[i], c[i], d[i], &tw);
        proof {
            assert(seq![ra, rb, rc, rd] == quad(a0, b0, c0, d0, tw@, i as int));
            assert(seq![ra, rb, rc, rd][0] == ra && seq![ra, rb, rc, rd][1] == rb && seq![ra, rb, rc, rd][2] == rc
                && seq![ra, rb, rc, rd][3] == rd);
        }
        a[i] = ra;
        b[i] = rb;
        c[i] = rc;
        d[i] = rd;
        i += 1;
    }
}

// ---- rows out of place ----

/// Whether `s` are four rows of `num_ntts` elements in slices of `len`.
spec fn rows2_wf(s: Seq<usize>, num_ntts: int, len: int) -> bool {
    &&& s.len() == 4
    &&& s[0] + num_ntts <= s[1]
    &&& s[1] + num_ntts <= s[2]
    &&& s[2] + num_ntts <= s[3]
    &&& s[3] + num_ntts <= len
}

/// Element `l` of each of four rows.
spec fn col4(x: Seq<F128>, s: Seq<usize>, l: int) -> Seq<F128> {
    seq![x[s[0] + l], x[s[1] + l], x[s[2] + l], x[s[3] + l]]
}

/// Whether the first `lanes` elements of the four rows of `d` are two layers of
/// those of `src`.
spec fn copy_done(src: Seq<F128>, d0: Seq<F128>, d: Seq<F128>, s: Seq<usize>, lanes: int, tw: Seq<F128>) -> bool {
    &&& d.len() == d0.len()
    &&& forall|l: int|
        0 <= l < lanes ==> #[trigger] d[s[0] + l] == fused2(col4(src, s, l), tw)[0] && d[s[1] + l] == fused2(
            col4(src, s, l),
            tw,
        )[1] && d[s[2] + l] == fused2(col4(src, s, l), tw)[2] && d[s[3] + l] == fused2(col4(src, s, l), tw)[3]
    &&& forall|p: int|
        0 <= p < d.len() && !(s[0] <= p < s[0] + lanes) && !(s[1] <= p < s[1] + lanes) && !(s[2] <= p < s[2] + lanes)
            && !(s[3] <= p < s[3] + lanes) ==> #[trigger] d[p] == d0[p]
}

/// The starts of row `r` of four parts.
fn starts4(quarter: usize, num_ntts: usize, r: usize, Ghost(len): Ghost<usize>) -> (s: [usize; 4])
    requires
        r < quarter,
        0 < num_ntts,
        4 * quarter * num_ntts <= len,
    ensures
        rows2_wf(s@, num_ntts as int, len as int),
        forall|i: int| 0 <= i < 4 ==> #[trigger] s@[i] == row_start(i, quarter as int, num_ntts as int, r as int),
{
    proof {
        lemma_rows(0, 1, quarter as int, num_ntts as int, r as int, 4);
        lemma_rows(1, 2, quarter as int, num_ntts as int, r as int, 4);
        lemma_rows(2, 3, quarter as int, num_ntts as int, r as int, 4);
        lemma_rows(3, 3, quarter as int, num_ntts as int, r as int, 4);
    }
    [
        row_of(0, quarter, num_ntts, r, Ghost(4int), Ghost(len)),
        row_of(1, quarter, num_ntts, r, Ghost(4int), Ghost(len)),
        row_of(2, quarter, num_ntts, r, Ghost(4int), Ghost(len)),
        row_of(3, quarter, num_ntts, r, Ghost(4int), Ghost(len)),
    ]
}

/// What the starts say, over parts and rows.
proof fn lemma_copy_rows(
    src: Seq<F128>,
    d0: Seq<F128>,
    d: Seq<F128>,
    s: Seq<usize>,
    tw: Seq<F128>,
    part: int,
    num_ntts: int,
    r: int,
)
    requires
        copy_done(src, d0, d, s, num_ntts, tw),
        forall|i: int| 0 <= i < 4 ==> #[trigger] s[i] == row_start(i, part, num_ntts, r),
        s.len() == 4,
    ensures
        rows2_done(src, d0, d, tw, part, num_ntts, r, num_ntts),
{
    assert forall|i: int, l: int| 0 <= i < 4 && 0 <= l < num_ntts implies #[trigger] d[row_start(i, part, num_ntts, r)
        + l] == fused2(column(src, 4, part, num_ntts, r, l), tw)[i] by {
        assert(s[0] == row_start(0, part, num_ntts, r));
        assert(s[1] == row_start(1, part, num_ntts, r));
        assert(s[2] == row_start(2, part, num_ntts, r));
        assert(s[3] == row_start(3, part, num_ntts, r));
        assert(col4(src, s, l) =~= column(src, 4, part, num_ntts, r, l));
        assert(d[s[0] + l] == fused2(col4(src, s, l), tw)[0]);
    }
    assert forall|p: int|
        0 <= p < d.len() && (forall|i: int|
            0 <= i < 4 ==> !(#[trigger] row_start(i, part, num_ntts, r) <= p < row_start(i, part, num_ntts, r)
                + num_ntts)) implies #[trigger] d[p] == d0[p] by {
        assert(s[0] == row_start(0, part, num_ntts, r));
        assert(s[1] == row_start(1, part, num_ntts, r));
        assert(s[2] == row_start(2, part, num_ntts, r));
        assert(s[3] == row_start(3, part, num_ntts, r));
    }
}

/// Stores four lanes of each of the four rows.
fn store_quad_x4(
    dst: &mut [F128],
    s: &[usize; 4],
    num_ntts: usize,
    lane: usize,
    ra: F128x4,
    rb: F128x4,
    rc: F128x4,
    rd: F128x4,
    Ghost(src): Ghost<Seq<F128>>,
    Ghost(d0): Ghost<Seq<F128>>,
    Ghost(tw): Ghost<Seq<F128>>,
)
    requires
        rows2_wf(s@, num_ntts as int, old(dst).len() as int),
        lane + 4 <= num_ntts,
        copy_done(src, d0, old(dst)@, s@, lane as int, tw),
        forall|l: int|
            0 <= l < 4 ==> #[trigger] seq![ra@[l], rb@[l], rc@[l], rd@[l]] == fused2(col4(src, s@, lane + l), tw),
    ensures
        copy_done(src, d0, final(dst)@, s@, lane + 4, tw),
{
    let ghost before = dst@;
    f128x4_storeu(dst, s[0] + lane, ra);
    f128x4_storeu(dst, s[1] + lane, rb);
    f128x4_storeu(dst, s[2] + lane, rc);
    f128x4_storeu(dst, s[3] + lane, rd);
    proof {
        assert forall|l: int| 0 <= l < lane + 4 implies #[trigger] dst@[s@[0] + l] == fused2(col4(src, s@, l), tw)[0]
            && dst@[s@[1] + l] == fused2(col4(src, s@, l), tw)[1] && dst@[s@[2] + l] == fused2(
            col4(src, s@, l),
            tw,
        )[2] && dst@[s@[3] + l] == fused2(col4(src, s@, l), tw)[3] by {
            if l < lane {
                assert(before[s@[0] + l] == fused2(col4(src, s@, l), tw)[0]);
            } else {
                let k = l - lane;
                let q = seq![ra@[k], rb@[k], rc@[k], rd@[k]];
                assert(q == fused2(col4(src, s@, lane + k), tw));
                assert(q[0] == ra@[k] && q[1] == rb@[k] && q[2] == rc@[k] && q[3] == rd@[k]);
            }
        }
        assert forall|p: int|
            0 <= p < dst@.len() && !(s@[0] <= p < s@[0] + (lane + 4)) && !(s@[1] <= p < s@[1] + (lane + 4)) && !(s@[2]
                <= p < s@[2] + (lane + 4)) && !(s@[3] <= p < s@[3] + (lane + 4)) implies #[trigger] dst@[p] == d0[p] by {
            assert(before[p] == d0[p]);
        }
    }
}

/// Stores one lane of each of the four rows.
fn store_quad_1(
    dst: &mut [F128],
    s: &[usize; 4],
    num_ntts: usize,
    lane: usize,
    q: (F128, F128, F128, F128),
    Ghost(src): Ghost<Seq<F128>>,
    Ghost(d0): Ghost<Seq<F128>>,
    Ghost(tw): Ghost<Seq<F128>>,
)
    requires
        rows2_wf(s@, num_ntts as int, old(dst).len() as int),
        lane < num_ntts,
        copy_done(src, d0, old(dst)@, s@, lane as int, tw),
        seq![q.0, q.1, q.2, q.3] == fused2(col4(src, s@, lane as int), tw),
    ensures
        copy_done(src, d0, final(dst)@, s@, lane + 1, tw),
{
    let ghost before = dst@;
    dst[s[0] + lane] = q.0;
    dst[s[1] + lane] = q.1;
    dst[s[2] + lane] = q.2;
    dst[s[3] + lane] = q.3;
    proof {
        let w = seq![q.0, q.1, q.2, q.3];
        assert(w[0] == q.0 && w[1] == q.1 && w[2] == q.2 && w[3] == q.3);
        assert forall|l: int| 0 <= l < lane + 1 implies #[trigger] dst@[s@[0] + l] == fused2(col4(src, s@, l), tw)[0]
            && dst@[s@[1] + l] == fused2(col4(src, s@, l), tw)[1] && dst@[s@[2] + l] == fused2(
            col4(src, s@, l),
            tw,
        )[2] && dst@[s@[3] + l] == fused2(col4(src, s@, l), tw)[3] by {
            if l < lane {
                assert(before[s@[0] + l] == fused2(col4(src, s@, l), tw)[0]);
            }
        }
        assert forall|p: int|
            0 <= p < dst@.len() && !(s@[0] <= p < s@[0] + (lane + 1)) && !(s@[1] <= p < s@[1] + (lane + 1)) && !(s@[2]
                <= p < s@[2] + (lane + 1)) && !(s@[3] <= p < s@[3] + (lane + 1)) implies #[trigger] dst@[p] == d0[p] by {
            assert(before[p] == d0[p]);
        }
    }
}

/// Two layers over row `r` of each of four parts, from `src` to `dst`.
pub fn butterfly_fused_2layer_row_from(
    src: &[F128],
    dst: &mut [F128],
    quarter: usize,
    num_ntts: usize,
    r: usize,
    twiddles: &[F128; 3],
    low_enabled: bool,
)
    requires
        r < quarter,
        4 * quarter * num_ntts <= src.len(),
        4 * quarter * num_ntts <= old(dst).len(),
    ensures
        rows2_done(
            src@,
            old(dst)@,
            final(dst)@,
            twiddles@,
            quarter as int,
            num_ntts as int,
            r as int,
            num_ntts as int,
        ),
{
    let ghost d0 = dst@;
    if num_ntts == 0 {
        return;
    }
    let ghost len = if src.len() <= dst.len() {
        src.len()
    } else {
        dst.len()
    };
    let s = starts4(quarter, num_ntts, r, Ghost(len));
    let lanes: usize = num_ntts - num_ntts % 4;
    let mut lane: usize = 0;
    while lane < lanes
        invariant
            rows2_wf(s@, num_ntts as int, src.len() as int),
            rows2_wf(s@, num_ntts as int, dst.len() as int),
            lanes <= num_ntts,
            lanes % 4 == 0,
            lane % 4 == 0,
            lane <= lanes,
            copy_done(src@, d0, dst@, s@, lane as int, twiddles@),
        decreases lanes - lane,
    {
        let va = f128x4_loadu(src, s[0] + lane);
        let vb = f128x4_loadu(src, s[1] + lane);
        let vc = f128x4_loadu(src, s[2] + lane);
        let vd = f128x4_loadu(src, s[3] + lane);
        let (ra, rb, rc, rd) = fused2_x4(va, vb, vc, vd, twiddles, low_enabled);
        proof {
            assert forall|l: int| 0 <= l < 4 implies #[trigger] seq![ra@[l], rb@[l], rc@[l], rd@[l]] == fused2(
                col4(src@, s@, lane + l),
                twiddles@,
            ) by {
                assert(seq![va@[l], vb@[l], vc@[l], vd@[l]] =~= col4(src@, s@, lane + l));
            }
        }
        store_quad_x4(dst, &s, num_ntts, lane, ra, rb, rc, rd, Ghost(src@), Ghost(d0), Ghost(twiddles@));
        lane += 4;
    }
    while lane < num_ntts
        invariant
            rows2_wf(s@, num_ntts as int, src.len() as int),
            rows2_wf(s@, num_ntts as int, dst.len() as int),
            lane <= num_ntts,
            copy_done(src@, d0, dst@, s@, lane as int, twiddles@),
        decreases num_ntts - lane,
    {
        let q = fused2_1(src[s[0] + lane], src[s[1] + lane], src[s[2] + lane], src[s[3] + lane], twiddles);
        assert(col4(src@, s@, lane as int) =~= seq![
            src@[s@[0] + lane],
            src@[s@[1] + lane],
            src@[s@[2] + lane],
            src@[s@[3] + lane],
        ]);
        store_quad_1(dst, &s, num_ntts, lane, q, Ghost(src@), Ghost(d0), Ghost(twiddles@));
        lane += 1;
    }
    proof {
        lemma_copy_rows(src@, d0, dst@, s@, twiddles@, quarter as int, num_ntts as int, r as int);
    }
}

/// [`butterfly_fused_2layer_row_from`] for zero twiddles on the first layer and on
/// the left of the second: the first row is copied, and one product remains.
pub fn butterfly_fused_2layer_row_from_sparse(
    src: &[F128],
    dst: &mut [F128],
    quarter: usize,
    num_ntts: usize,
    r: usize,
    right_twiddle: F128,
    low_enabled: bool,
)
    requires
        r < quarter,
        4 * quarter * num_ntts <= src.len(),
        4 * quarter * num_ntts <= old(dst).len(),
    ensures
        rows2_done(
            src@,
            old(dst)@,
            final(dst)@,
            seq![fzero(), fzero(), right_twiddle],
            quarter as int,
            num_ntts as int,
            r as int,
            num_ntts as int,
        ),
{
    let ghost d0 = dst@;
    let ghost tw = seq![fzero(), fzero(), right_twiddle];
    if num_ntts == 0 {
        return;
    }
    let ghost len = if src.len() <= dst.len() {
        src.len()
    } else {
        dst.len()
    };
    let s = starts4(quarter, num_ntts, r, Ghost(len));
    let lanes: usize = num_ntts - num_ntts % 4;
    let mut lane: usize = 0;
    while lane < lanes
        invariant
            tw == seq![fzero(), fzero(), right_twiddle],
            rows2_wf(s@, num_ntts as int, src.len() as int),
            rows2_wf(s@, num_ntts as int, dst.len() as int),
            lanes <= num_ntts,
            lanes % 4 == 0,
            lane % 4 == 0,
            lane <= lanes,
            copy_done(src@, d0, dst@, s@, lane as int, tw),
        decreases lanes - lane,
    {
        let va = f128x4_loadu(src, s[0] + lane);
        let vb = f128x4_loadu(src, s[1] + lane);
        let vc = f128x4_loadu(src, s[2] + lane);
        let vd = f128x4_loadu(src, s[3] + lane);
        let c1 = xor_x4(vc, va);
        let d1 = xor_x4(vd, vb);
        let b1 = xor_x4(vb, va);
        let (c2, d2) = pair_x4(c1, d1, right_twiddle, low_enabled);
        proof {
            assert forall|l: int| 0 <= l < 4 implies #[trigger] seq![va@[l], b1@[l], c2@[l], d2@[l]] == fused2(
                col4(src@, s@, lane + l),
                tw,
            ) by {
                assert(seq![va@[l], vb@[l], vc@[l], vd@[l]] =~= col4(src@, s@, lane + l));
                law_sparse_is_dense_with_zeros(va@[l], vb@[l], vc@[l], vd@[l], right_twiddle);
                assert(c1@[l] == fadd(vc@[l], va@[l]));
                assert(d1@[l] == fadd(vd@[l], vb@[l]));
                assert(b1@[l] == fadd(vb@[l], va@[l]));
                assert(c2@[l] == bf_top(c1@[l], d1@[l], right_twiddle));
                assert(d2@[l] == bf_bot(c1@[l], d1@[l], right_twiddle));
            }
        }
        store_quad_x4(dst, &s, num_ntts, lane, va, b1, c2, d2, Ghost(src@), Ghost(d0), Ghost(tw));
        lane += 4;
    }
    while lane < num_ntts
        invariant
            tw == seq![fzero(), fzero(), right_twiddle],
            rows2_wf(s@, num_ntts as int, src.len() as int),
            rows2_wf(s@, num_ntts as int, dst.len() as int),
            lane <= num_ntts,
            copy_done(src@, d0, dst@, s@, lane as int, tw),
        decreases num_ntts - lane,
    {
        let a = src[s[0] + lane];
        let b = src[s[1] + lane];
        let c = src[s[2] + lane];
        let d = src[s[3] + lane];
        let (c2, d2) = pair(c + a, d + b, right_twiddle);
        proof {
            law_sparse_is_dense_with_zeros(a, b, c, d, right_twiddle);
            assert(col4(src@, s@, lane as int) =~= seq![a, b, c, d]);
        }
        store_quad_1(dst, &s, num_ntts, lane, (a, b + a, c2, d2), Ghost(src@), Ghost(d0), Ghost(tw));
        lane += 1;
    }
    proof {
        lemma_copy_rows(src@, d0, dst@, s@, tw, quarter as int, num_ntts as int, r as int);
    }
}

} // verus!
