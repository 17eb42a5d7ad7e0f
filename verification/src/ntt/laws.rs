//! What the layers do to rows.

use super::{
    bf_bot, bf_top, column, fused2, fused4, law_fused2_is_four_butterflies, layer, quad, row_start, rows2_done, rows4_done,
};
use crate::field::gf2_128::{fadd, fmul, law_fadd_assoc, law_fadd_comm, law_fadd_self, law_fadd_zero, F128};
use vstd::prelude::*;

verus! {

/// A butterfly can be undone: its outputs add up to the lower input, and the upper input
/// is the upper output plus the twiddle times the lower input.
pub proof fn law_butterfly_can_be_undone(u: F128, v: F128, t: F128)
    ensures
        fadd(bf_top(u, v, t), bf_bot(u, v, t)) == v,
        fadd(bf_top(u, v, t), fmul(t, v)) == u,
{
    let top = bf_top(u, v, t);
    law_fadd_comm(v, top);
    law_fadd_assoc(top, top, v);
    law_fadd_self(top);
    law_fadd_zero(v);
    law_fadd_assoc(u, fmul(t, v), fmul(t, v));
    law_fadd_self(fmul(t, v));
    law_fadd_zero(u);
}

/// A layer pairs the rows of each block `half` apart, and every pair of block `s` goes
/// through a butterfly with the twiddle of that block; from the outputs both inputs can be
/// had back.
pub proof fn law_layer_pairs_rows(x: Seq<F128>, half: int, first: int, tw: Seq<F128>, s: int, o: int)
    requires
        0 < half,
        0 <= s,
        0 <= o < half,
        2 * half * s + 2 * half <= x.len(),
    ensures
        ({
            let i = 2 * half * s + o;
            let y = layer(x, half, first, tw);
            &&& y.len() == x.len()
            &&& fadd(y[i], y[i + half]) == x[i + half]
            &&& fadd(y[i], fmul(tw[first + s], x[i + half])) == x[i]
        }),
{
    let i = 2 * half * s + o;
    let w = 2 * half;
    assert(s * w == 2 * half * s) by (nonlinear_arith)
        requires
            w == 2 * half,
    ;
    vstd::arithmetic::div_mod::lemma_fundamental_div_mod_converse(i, w, s, o);
    vstd::arithmetic::div_mod::lemma_fundamental_div_mod_converse(i + half, w, s, o + half);
    assert(0 <= 2 * half * s) by (nonlinear_arith)
        requires
            0 < half,
            0 <= s,
    ;
    law_butterfly_can_be_undone(x[i], x[i + half], tw[first + s]);
}

/// Element `k` of four rows goes through two layers with no other element: the first pairs
/// the rows two apart, the second those next to each other.
pub proof fn law_elements_do_not_mix(a: Seq<F128>, b: Seq<F128>, c: Seq<F128>, d: Seq<F128>, tw: Seq<F128>, k: int)
    ensures
        ({
            let a1 = fadd(a[k], fmul(tw[0], c[k]));
            let c1 = fadd(c[k], a1);
            let b1 = fadd(b[k], fmul(tw[0], d[k]));
            let d1 = fadd(d[k], b1);
            let a2 = fadd(a1, fmul(tw[1], b1));
            let c2 = fadd(c1, fmul(tw[2], d1));
            quad(a, b, c, d, tw, k) == seq![a2, fadd(b1, a2), c2, fadd(d1, c2)]
        }),
{
    law_fused2_is_four_butterflies(a[k], b[k], c[k], d[k], tw);
}

/// Every fourth row, from row `c` on.
pub open spec fn every_fourth(x: Seq<F128>, c: int) -> Seq<F128> {
    seq![x[c], x[c + 4], x[c + 8], x[c + 12]]
}

/// Four rows from row `g` on.
pub open spec fn four_from(x: Seq<F128>, g: int) -> Seq<F128> {
    seq![x[g], x[g + 1], x[g + 2], x[g + 3]]
}

proof fn lemma_first_two_layers(x: Seq<F128>, tw: Seq<F128>, c: int)
    requires
        x.len() == 16,
        0 <= c < 4,
    ensures
        every_fourth(layer(layer(x, 8, 0, tw), 4, 1, tw), c) == fused2(every_fourth(x, c), seq![tw[0], tw[1], tw[2]]),
{
    let t = seq![tw[0], tw[1], tw[2]];
    law_fused2_is_four_butterflies(x[c], x[c + 4], x[c + 8], x[c + 12], t);
    let y = layer(x, 8, 0, tw);
    let z = layer(y, 4, 1, tw);
    assert(y[c] == bf_top(x[c], x[c + 8], tw[0]));
    assert(y[c + 4] == bf_top(x[c + 4], x[c + 12], tw[0]));
    assert(y[c + 8] == bf_bot(x[c], x[c + 8], tw[0]));
    assert(y[c + 12] == bf_bot(x[c + 4], x[c + 12], tw[0]));
    assert(z[c] == bf_top(y[c], y[c + 4], tw[1]));
    assert(z[c + 4] == bf_bot(y[c], y[c + 4], tw[1]));
    assert(z[c + 8] == bf_top(y[c + 8], y[c + 12], tw[2]));
    assert(z[c + 12] == bf_bot(y[c + 8], y[c + 12], tw[2]));
    assert(every_fourth(z, c) =~= fused2(every_fourth(x, c), t));
}

proof fn lemma_last_two_layers(x: Seq<F128>, tw: Seq<F128>, g: int)
    requires
        x.len() == 16,
        0 <= g < 4,
    ensures
        four_from(layer(layer(x, 2, 3, tw), 1, 7, tw), 4 * g) == fused2(
            four_from(x, 4 * g),
            seq![tw[3 + g], tw[7 + 2 * g], tw[8 + 2 * g]],
        ),
{
    let t = seq![tw[3 + g], tw[7 + 2 * g], tw[8 + 2 * g]];
    let i = 4 * g;
    law_fused2_is_four_butterflies(x[i], x[i + 1], x[i + 2], x[i + 3], t);
    let y = layer(x, 2, 3, tw);
    let z = layer(y, 1, 7, tw);
    assert(y[i] == bf_top(x[i], x[i + 2], tw[3 + g]));
    assert(y[i + 1] == bf_top(x[i + 1], x[i + 3], tw[3 + g]));
    assert(y[i + 2] == bf_bot(x[i], x[i + 2], tw[3 + g]));
    assert(y[i + 3] == bf_bot(x[i + 1], x[i + 3], tw[3 + g]));
    assert(z[i] == bf_top(y[i], y[i + 1], tw[7 + 2 * g]));
    assert(z[i + 1] == bf_bot(y[i], y[i + 1], tw[7 + 2 * g]));
    assert(z[i + 2] == bf_top(y[i + 2], y[i + 3], tw[8 + 2 * g]));
    assert(z[i + 3] == bf_bot(y[i + 2], y[i + 3], tw[8 + 2 * g]));
    assert(four_from(z, i) =~= fused2(four_from(x, i), t));
}

/// Four layers over sixteen rows are two layers over every fourth row, with the first
/// three twiddles, and then two layers over each run of four, with the twiddle of the run
/// and the two below it.
pub proof fn law_four_layers_are_twice_two(x: Seq<F128>, mid: Seq<F128>, tw: Seq<F128>, g: int)
    requires
        x.len() == 16,
        mid.len() == 16,
        forall|c: int|
            0 <= c < 4 ==> #[trigger] every_fourth(mid, c) == fused2(every_fourth(x, c), seq![tw[0], tw[1], tw[2]]),
        0 <= g < 4,
    ensures
        four_from(fused4(x, tw), 4 * g) == fused2(
            four_from(mid, 4 * g),
            seq![tw[3 + g], tw[7 + 2 * g], tw[8 + 2 * g]],
        ),
        fused4(x, tw).len() == 16,
{
    reveal(fused4);
    let z = layer(layer(x, 8, 0, tw), 4, 1, tw);
    assert forall|i: int| 0 <= i < 16 implies #[trigger] z[i] == mid[i] by {
        let c = i % 4;
        lemma_first_two_layers(x, tw, c);
        assert(every_fourth(z, c) == every_fourth(mid, c));
        assert(every_fourth(z, c)[i / 4] == z[i]);
        assert(every_fourth(mid, c)[i / 4] == mid[i]);
    }
    assert(z =~= mid);
    lemma_last_two_layers(mid, tw, g);
}

proof fn lemma_other_row(i: int, part: int, num_ntts: int, r: int, lanes: int, q: int, l: int)
    requires
        0 <= r < part,
        0 <= i,
        0 <= lanes <= num_ntts,
        0 <= q,
        0 <= l < num_ntts,
        q % part != r || lanes <= l,
    ensures
        !(row_start(i, part, num_ntts, r) <= q * num_ntts + l < row_start(i, part, num_ntts, r) + lanes),
{
    let k = i * part + r;
    vstd::arithmetic::div_mod::lemma_fundamental_div_mod_converse(k, part, i, r);
    assert(k != q || lanes <= l);
    assert(k < q ==> k * num_ntts + num_ntts <= q * num_ntts) by (nonlinear_arith)
        requires
            0 <= num_ntts,
    ;
    assert(q < k ==> q * num_ntts + num_ntts <= k * num_ntts) by (nonlinear_arith)
        requires
            0 <= num_ntts,
    ;
}

/// Where a pass over sixteen parts lands: row `r` of part `i` holds output `i` of the four
/// layers over the rows `r` of all parts, lane by lane, and no other row or lane changes.
pub proof fn law_pass_over_sixteen_parts(
    d0: Seq<F128>,
    d: Seq<F128>,
    tw: Seq<F128>,
    part: int,
    num_ntts: int,
    r: int,
    lanes: int,
)
    requires
        0 <= r < part,
        0 < num_ntts,
        0 <= lanes <= num_ntts,
        rows4_done(d0, d, tw, part, num_ntts, r, lanes),
    ensures
        forall|i: int, l: int|
            0 <= i < 16 && 0 <= l < lanes ==> d[#[trigger] ((i * part + r) * num_ntts + l)] == fused4(
                Seq::new(16, |q: int| d0[(q * part + r) * num_ntts + l]),
                tw,
            )[i],
        forall|q: int, l: int|
            0 <= q && (q % part != r || lanes <= l) && 0 <= l < num_ntts && q * num_ntts + l < d0.len()
                ==> d[#[trigger] (q * num_ntts + l)] == d0[q * num_ntts + l],
{
    assert forall|i: int, l: int| 0 <= i < 16 && 0 <= l < lanes implies d[#[trigger] ((i * part + r) * num_ntts + l)]
        == fused4(Seq::new(16, |q: int| d0[(q * part + r) * num_ntts + l]), tw)[i] by {
        assert(d[row_start(i, part, num_ntts, r) + l] == fused4(column(d0, 16, part, num_ntts, r, l), tw)[i]);
        assert(column(d0, 16, part, num_ntts, r, l) =~= Seq::new(16, |q: int| d0[(q * part + r) * num_ntts + l]));
    }
    assert forall|q: int, l: int|
        0 <= q && (q % part != r || lanes <= l) && 0 <= l < num_ntts && q * num_ntts + l < d0.len()
        implies d[#[trigger] (q * num_ntts + l)] == d0[q * num_ntts + l] by {
        let p = q * num_ntts + l;
        assert(0 <= p) by (nonlinear_arith)
            requires
                p == q * num_ntts + l,
                0 <= q,
                0 < num_ntts,
                0 <= l,
        ;
        assert forall|i: int| 0 <= i < 16 implies !(#[trigger] row_start(i, part, num_ntts, r) <= p < row_start(
            i,
            part,
            num_ntts,
            r,
        ) + lanes) by {
            lemma_other_row(i, part, num_ntts, r, lanes, q, l);
        }
    }
}

/// The same of a pass of two layers over four parts, read from one slice and written to
/// another.
pub proof fn law_pass_over_four_parts(
    src: Seq<F128>,
    d0: Seq<F128>,
    d: Seq<F128>,
    tw: Seq<F128>,
    part: int,
    num_ntts: int,
    r: int,
)
    requires
        0 <= r < part,
        0 < num_ntts,
        rows2_done(src, d0, d, tw, part, num_ntts, r, num_ntts),
    ensures
        forall|i: int, l: int|
            0 <= i < 4 && 0 <= l < num_ntts ==> d[#[trigger] ((i * part + r) * num_ntts + l)] == fused2(
                Seq::new(4, |q: int| src[(q * part + r) * num_ntts + l]),
                tw,
            )[i],
        forall|q: int, l: int|
            0 <= q && q % part != r && 0 <= l < num_ntts && q * num_ntts + l < d0.len() ==> d[#[trigger] (q * num_ntts
                + l)] == d0[q * num_ntts + l],
{
    assert forall|i: int, l: int| 0 <= i < 4 && 0 <= l < num_ntts implies d[#[trigger] ((i * part + r) * num_ntts + l)]
        == fused2(Seq::new(4, |q: int| src[(q * part + r) * num_ntts + l]), tw)[i] by {
        assert(d[row_start(i, part, num_ntts, r) + l] == fused2(column(src, 4, part, num_ntts, r, l), tw)[i]);
        assert(column(src, 4, part, num_ntts, r, l) =~= Seq::new(4, |q: int| src[(q * part + r) * num_ntts + l]));
    }
    assert forall|q: int, l: int|
        0 <= q && q % part != r && 0 <= l < num_ntts && q * num_ntts + l < d0.len() implies d[#[trigger] (q * num_ntts
        + l)] == d0[q * num_ntts + l] by {
        let p = q * num_ntts + l;
        assert(0 <= p) by (nonlinear_arith)
            requires
                p == q * num_ntts + l,
                0 <= q,
                0 < num_ntts,
                0 <= l,
        ;
        assert forall|i: int| 0 <= i < 4 implies !(#[trigger] row_start(i, part, num_ntts, r) <= p < row_start(
            i,
            part,
            num_ntts,
            r,
        ) + num_ntts) by {
            lemma_other_row(i, part, num_ntts, r, num_ntts, q, l);
        }
    }
}

} // verus!
