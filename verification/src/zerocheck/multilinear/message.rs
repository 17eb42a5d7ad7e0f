//! Round messages accumulated without reduction.
//!
//! A plain message has two sums over pairs of folded values; a look-ahead
//! message has eight sums over groups of four folded values. Every sum is a
//! weighted sum of products and is reduced once, at the end.

use crate::field::f128_slice::wide::lemma_tail_step;
use crate::field::f128_slice::dot_upto;
use crate::field::gf2_128::ghash::{
    even_lanes, ghash_mul_unreduced_x86, ghash_mul_x4, odd_lanes, xor_x4, F128x4, F256Unreduced, WideGhashX4,
};
use crate::field::gf2_128::{
    fadd, fmul, fzero, law_fadd_assoc, law_fadd_zero, law_fmul_add_right, law_fmul_assoc, F128,
};
use vstd::prelude::*;

verus! {

// ---- plain messages ----

/// Products of the odd elements of adjacent pairs.
pub open spec fn odd_products(a: Seq<F128>, b: Seq<F128>) -> Seq<F128> {
    Seq::new((a.len() / 2) as nat, |i: int| fmul(a[2 * i + 1], b[2 * i + 1]))
}

/// Products of the sums of adjacent pairs.
pub open spec fn sum_products(a: Seq<F128>, b: Seq<F128>) -> Seq<F128> {
    Seq::new(
        (a.len() / 2) as nat,
        |i: int| fmul(fadd(a[2 * i], a[2 * i + 1]), fadd(b[2 * i], b[2 * i + 1])),
    )
}

/// The message at one: the weighted sum of the odd products.
pub open spec fn message_one(eq: Seq<F128>, a: Seq<F128>, b: Seq<F128>) -> F128 {
    dot_upto(eq, odd_products(a, b), eq.len())
}

/// The message at infinity: the weighted sum of the products of pair sums.
pub open spec fn message_inf(eq: Seq<F128>, a: Seq<F128>, b: Seq<F128>) -> F128 {
    dot_upto(eq, sum_products(a, b), eq.len())
}

/// The two running sums of a plain message.
#[derive(Clone, Copy, Debug)]
pub struct PairMessage {
    pub p1_wide: WideGhashX4,
    pub pinf_wide: WideGhashX4,
    pub p1_tail: F256Unreduced,
    pub pinf_tail: F256Unreduced,
}

impl PairMessage {
    /// The sum at one so far.
    pub open spec fn one(self) -> F128 {
        fadd(self.p1_tail.value(), self.p1_wide.total())
    }

    /// The sum at infinity so far.
    pub open spec fn inf(self) -> F128 {
        fadd(self.pinf_tail.value(), self.pinf_wide.total())
    }

    /// Both sums empty.
    pub fn new() -> (m: PairMessage)
        ensures
            m.one() == fzero(),
            m.inf() == fzero(),
    {
        proof {
            law_fadd_zero(fzero());
        }
        PairMessage {
            p1_wide: WideGhashX4::zero(),
            pinf_wide: WideGhashX4::zero(),
            p1_tail: F256Unreduced::zero(),
            pinf_tail: F256Unreduced::zero(),
        }
    }

    /// Adds four pairs: elements `8` by `8` in `lo` then `hi`, weights in `eq`.
    pub fn add_four(&mut self, eq: F128x4, a_lo: F128x4, a_hi: F128x4, b_lo: F128x4, b_hi: F128x4)
        ensures
            final(self).one() == fadd(
                old(self).one(),
                fadd(
                    fadd(
                        fmul(eq@[0], fmul(a_lo@[1], b_lo@[1])),
                        fmul(eq@[1], fmul(a_lo@[3], b_lo@[3])),
                    ),
                    fadd(
                        fmul(eq@[2], fmul(a_hi@[1], b_hi@[1])),
                        fmul(eq@[3], fmul(a_hi@[3], b_hi@[3])),
                    ),
                ),
            ),
            final(self).inf() == fadd(
                old(self).inf(),
                fadd(
                    fadd(
                        fmul(eq@[0], fmul(fadd(a_lo@[0], a_lo@[1]), fadd(b_lo@[0], b_lo@[1]))),
                        fmul(eq@[1], fmul(fadd(a_lo@[2], a_lo@[3]), fadd(b_lo@[2], b_lo@[3]))),
                    ),
                    fadd(
                        fmul(eq@[2], fmul(fadd(a_hi@[0], a_hi@[1]), fadd(b_hi@[0], b_hi@[1]))),
                        fmul(eq@[3], fmul(fadd(a_hi@[2], a_hi@[3]), fadd(b_hi@[2], b_hi@[3]))),
                    ),
                ),
            ),
    {
        let ghost before = *self;
        let a0 = even_lanes(a_lo, a_hi);
        let a1 = odd_lanes(a_lo, a_hi);
        let b0 = even_lanes(b_lo, b_hi);
        let b1 = odd_lanes(b_lo, b_hi);
        let g1 = ghash_mul_x4(a1, b1);
        let ga = xor_x4(a0, a1);
        let gb = xor_x4(b0, b1);
        let g_inf = ghash_mul_x4(ga, gb);
        proof {
            assert(g1@[0] == fmul(a_lo@[1], b_lo@[1]));
            assert(g1@[1] == fmul(a_lo@[3], b_lo@[3]));
            assert(g1@[2] == fmul(a_hi@[1], b_hi@[1]));
            assert(g1@[3] == fmul(a_hi@[3], b_hi@[3]));
            assert(g_inf@[0] == fmul(ga@[0], gb@[0]));
            assert(g_inf@[1] == fmul(ga@[1], gb@[1]));
            assert(g_inf@[2] == fmul(ga@[2], gb@[2]));
            assert(g_inf@[3] == fmul(ga@[3], gb@[3]));
        }
        self.p1_wide.mul_acc(eq, g1);
        self.pinf_wide.mul_acc(eq, g_inf);
        proof {
            law_fadd_assoc(
                before.p1_tail.value(),
                before.p1_wide.total(),
                fadd(
                    fadd(fmul(eq@[0], g1@[0]), fmul(eq@[1], g1@[1])),
                    fadd(fmul(eq@[2], g1@[2]), fmul(eq@[3], g1@[3])),
                ),
            );
            law_fadd_assoc(
                before.pinf_tail.value(),
                before.pinf_wide.total(),
                fadd(
                    fadd(fmul(eq@[0], g_inf@[0]), fmul(eq@[1], g_inf@[1])),
                    fadd(fmul(eq@[2], g_inf@[2]), fmul(eq@[3], g_inf@[3])),
                ),
            );
        }
    }

    /// Adds one pair.
    pub fn add_one(&mut self, eq: F128, a0: F128, a1: F128, b0: F128, b1: F128)
        ensures
            final(self).one() == fadd(old(self).one(), fmul(eq, fmul(a1, b1))),
            final(self).inf() == fadd(old(self).inf(), fmul(eq, fmul(fadd(a0, a1), fadd(b0, b1)))),
    {
        let p = ghash_mul_unreduced_x86(eq, a1 * b1);
        let q = ghash_mul_unreduced_x86(eq, (a0 + a1) * (b0 + b1));
        proof {
            lemma_tail_step(self.p1_tail.value(), self.p1_wide.total(), p.value());
            lemma_tail_step(self.pinf_tail.value(), self.pinf_wide.total(), q.value());
        }
        self.p1_tail = self.p1_tail.xor(p);
        self.pinf_tail = self.pinf_tail.xor(q);
    }

    /// Both sums, reduced.
    pub fn finish(self) -> (r: (F128, F128))
        ensures
            r.0 == self.one(),
            r.1 == self.inf(),
    {
        (self.p1_tail.xor(self.p1_wide.fold()).reduce(), self.pinf_tail.xor(self.pinf_wide.fold()).reduce())
    }
}

// ---- look-ahead messages ----

/// The combination of a group of four values that look-ahead sum `k` multiplies.
pub open spec fn form(k: int, x0: F128, x1: F128, x2: F128, x3: F128) -> F128 {
    if k == 0 {
        x1
    } else if k == 1 {
        fadd(x0, x1)
    } else if k == 2 {
        x3
    } else if k == 3 {
        fadd(x2, x3)
    } else if k == 4 {
        x2
    } else if k == 5 {
        fadd(x0, x2)
    } else if k == 6 {
        fadd(x1, x3)
    } else {
        fadd(fadd(x0, x2), fadd(x1, x3))
    }
}

/// Products of the combinations over the groups of four.
pub open spec fn form_products(k: int, a: Seq<F128>, b: Seq<F128>) -> Seq<F128> {
    Seq::new(
        (a.len() / 4) as nat,
        |u: int|
            fmul(
                form(k, a[4 * u], a[4 * u + 1], a[4 * u + 2], a[4 * u + 3]),
                form(k, b[4 * u], b[4 * u + 1], b[4 * u + 2], b[4 * u + 3]),
            ),
    )
}

/// The weights of the groups: the odd elements.
pub open spec fn odds(eq: Seq<F128>) -> Seq<F128> {
    Seq::new((eq.len() / 2) as nat, |u: int| eq[2 * u + 1])
}

/// Look-ahead sum `k` over the first `n` groups.
pub open spec fn lookahead_upto(k: int, eq: Seq<F128>, a: Seq<F128>, b: Seq<F128>, n: nat) -> F128 {
    dot_upto(odds(eq), form_products(k, a, b), n)
}

/// Look-ahead sum `k`: over all groups of four, the odd weight of the group
/// times the product of the group's combinations.
pub open spec fn lookahead(k: int, eq: Seq<F128>, a: Seq<F128>, b: Seq<F128>) -> F128 {
    lookahead_upto(k, eq, a, b, (eq.len() / 2) as nat)
}

proof fn lemma_form_scaled(k: int, w: F128, x0: F128, x1: F128, x2: F128, x3: F128)
    ensures
        form(k, fmul(w, x0), fmul(w, x1), fmul(w, x2), fmul(w, x3)) == fmul(w, form(k, x0, x1, x2, x3)),
{
    law_fmul_add_right(w, x0, x1);
    law_fmul_add_right(w, x2, x3);
    law_fmul_add_right(w, x0, x2);
    law_fmul_add_right(w, x1, x3);
    law_fmul_add_right(w, fadd(x0, x2), fadd(x1, x3));
}

/// The weighted product of one group.
pub open spec fn group_term(
    k: int,
    w: F128,
    a0: F128,
    a1: F128,
    a2: F128,
    a3: F128,
    b0: F128,
    b1: F128,
    b2: F128,
    b3: F128,
) -> F128 {
    fmul(w, fmul(form(k, a0, a1, a2, a3), form(k, b0, b1, b2, b3)))
}

/// Lane-wise combination `k`.
fn form_x4(k: usize, x0: F128x4, x1: F128x4, x2: F128x4, x3: F128x4) -> (r: F128x4)
    requires
        k < 8,
    ensures
        forall|l: int| 0 <= l < 4 ==> #[trigger] r@[l] == form(k as int, x0@[l], x1@[l], x2@[l], x3@[l]),
{
    if k == 0 {
        x1
    } else if k == 1 {
        xor_x4(x0, x1)
    } else if k == 2 {
        x3
    } else if k == 3 {
        xor_x4(x2, x3)
    } else if k == 4 {
        x2
    } else if k == 5 {
        xor_x4(x0, x2)
    } else if k == 6 {
        xor_x4(x1, x3)
    } else {
        let e = xor_x4(x0, x2);
        let o = xor_x4(x1, x3);
        let r = xor_x4(e, o);
        proof {
            assert forall|l: int| 0 <= l < 4 implies #[trigger] r@[l] == form(
                k as int,
                x0@[l],
                x1@[l],
                x2@[l],
                x3@[l],
            ) by {
                assert(e@[l] == fadd(x0@[l], x2@[l]));
                assert(o@[l] == fadd(x1@[l], x3@[l]));
            }
        }
        r
    }
}

/// Combination `k` of four values.
fn form_one(k: usize, x0: F128, x1: F128, x2: F128, x3: F128) -> (r: F128)
    requires
        k < 8,
    ensures
        r == form(k as int, x0, x1, x2, x3),
{
    if k == 0 {
        x1
    } else if k == 1 {
        x0 + x1
    } else if k == 2 {
        x3
    } else if k == 3 {
        x2 + x3
    } else if k == 4 {
        x2
    } else if k == 5 {
        x0 + x2
    } else if k == 6 {
        x1 + x3
    } else {
        (x0 + x2) + (x1 + x3)
    }
}

/// The eight running sums of a look-ahead message.
#[derive(Clone, Copy, Debug)]
pub struct LookaheadMessage {
    pub acc: [WideGhashX4; 8],
    pub tail: [F256Unreduced; 8],
}

/// The four groups' terms of sum `k`, added up.
pub open spec fn quad_term(
    k: int,
    w: Seq<F128>,
    a0: Seq<F128>,
    a1: Seq<F128>,
    a2: Seq<F128>,
    a3: Seq<F128>,
    b0: Seq<F128>,
    b1: Seq<F128>,
    b2: Seq<F128>,
    b3: Seq<F128>,
) -> F128 {
    fadd(
        fadd(
            group_term(k, w[0], a0[0], a1[0], a2[0], a3[0], b0[0], b1[0], b2[0], b3[0]),
            group_term(k, w[1], a0[1], a1[1], a2[1], a3[1], b0[1], b1[1], b2[1], b3[1]),
        ),
        fadd(
            group_term(k, w[2], a0[2], a1[2], a2[2], a3[2], b0[2], b1[2], b2[2], b3[2]),
            group_term(k, w[3], a0[3], a1[3], a2[3], a3[3], b0[3], b1[3], b2[3], b3[3]),
        ),
    )
}

impl LookaheadMessage {
    /// Sum `k` so far.
    pub open spec fn sum(self, k: int) -> F128 {
        fadd(self.tail@[k].value(), self.acc@[k].total())
    }

    /// All sums empty.
    pub fn new() -> (m: LookaheadMessage)
        ensures
            forall|k: int| 0 <= k < 8 ==> #[trigger] m.sum(k) == fzero(),
    {
        let z = WideGhashX4::zero();
        let t = F256Unreduced::zero();
        proof {
            law_fadd_zero(fzero());
        }
        LookaheadMessage { acc: [z, z, z, z, z, z, z, z], tail: [t, t, t, t, t, t, t, t] }
    }

    /// Adds four groups: lane `l` of `a0..a3` and `b0..b3` is group `l`, weighted by lane `l` of `w`.
    pub fn add_four(
        &mut self,
        w: F128x4,
        a0: F128x4,
        a1: F128x4,
        a2: F128x4,
        a3: F128x4,
        b0: F128x4,
        b1: F128x4,
        b2: F128x4,
        b3: F128x4,
    )
        ensures
            forall|k: int|
                0 <= k < 8 ==> #[trigger] final(self).sum(k) == fadd(
                    old(self).sum(k),
                    quad_term(k, w@, a0@, a1@, a2@, a3@, b0@, b1@, b2@, b3@),
                ),
    {
        let ghost before = *self;
        let a0w = ghash_mul_x4(w, a0);
        let a1w = ghash_mul_x4(w, a1);
        let a2w = ghash_mul_x4(w, a2);
        let a3w = ghash_mul_x4(w, a3);
        for k in 0..8
            invariant
                forall|l: int| 0 <= l < 4 ==> #[trigger] a0w@[l] == fmul(w@[l], a0@[l]),
                forall|l: int| 0 <= l < 4 ==> #[trigger] a1w@[l] == fmul(w@[l], a1@[l]),
                forall|l: int| 0 <= l < 4 ==> #[trigger] a2w@[l] == fmul(w@[l], a2@[l]),
                forall|l: int| 0 <= l < 4 ==> #[trigger] a3w@[l] == fmul(w@[l], a3@[l]),
                forall|j: int|
                    0 <= j < k ==> #[trigger] self.sum(j) == fadd(
                        before.sum(j),
                        quad_term(j, w@, a0@, a1@, a2@, a3@, b0@, b1@, b2@, b3@),
                    ),
                forall|j: int| k <= j < 8 ==> #[trigger] self.acc@[j] == before.acc@[j],
                self.tail@ == before.tail@,
        {
            let ghost prev = *self;
            let x = form_x4(k, a0w, a1w, a2w, a3w);
            let y = form_x4(k, b0, b1, b2, b3);
            let mut acc = self.acc[k];
            acc.mul_acc(x, y);
            self.acc[k] = acc;
            proof {
                let kk = k as int;
                assert forall|l: int| 0 <= l < 4 implies fmul(#[trigger] x@[l], y@[l]) == group_term(
                    kk,
                    w@[l],
                    a0@[l],
                    a1@[l],
                    a2@[l],
                    a3@[l],
                    b0@[l],
                    b1@[l],
                    b2@[l],
                    b3@[l],
                ) by {
                    assert(x@[l] == form(kk, a0w@[l], a1w@[l], a2w@[l], a3w@[l]));
                    lemma_form_scaled(kk, w@[l], a0@[l], a1@[l], a2@[l], a3@[l]);
                    law_fmul_assoc(
                        w@[l],
                        form(kk, a0@[l], a1@[l], a2@[l], a3@[l]),
                        form(kk, b0@[l], b1@[l], b2@[l], b3@[l]),
                    );
                }
                assert(prev.acc@[kk] == before.acc@[kk]);
                let q = quad_term(kk, w@, a0@, a1@, a2@, a3@, b0@, b1@, b2@, b3@);
                assert(acc.total() == fadd(before.acc@[kk].total(), q)) by {
                    assert(x@[0] == x@[0] && x@[1] == x@[1] && x@[2] == x@[2] && x@[3] == x@[3]);
                }
                law_fadd_assoc(before.tail@[kk].value(), before.acc@[kk].total(), q);
                assert forall|j: int| 0 <= j < k + 1 implies #[trigger] self.sum(j) == fadd(
                    before.sum(j),
                    quad_term(j, w@, a0@, a1@, a2@, a3@, b0@, b1@, b2@, b3@),
                ) by {
                    if j < k {
                        assert(self.acc@[j] == prev.acc@[j]);
                        assert(prev.sum(j) == self.sum(j));
                    }
                }
            }
        }
    }

    /// Adds one group.
    pub fn add_one(&mut self, w: F128, a: [F128; 4], b: [F128; 4])
        ensures
            forall|k: int|
                0 <= k < 8 ==> #[trigger] final(self).sum(k) == fadd(
                    old(self).sum(k),
                    group_term(k, w, a@[0], a@[1], a@[2], a@[3], b@[0], b@[1], b@[2], b@[3]),
                ),
    {
        let ghost before = *self;
        let a0w = w * a[0];
        let a1w = w * a[1];
        let a2w = w * a[2];
        let a3w = w * a[3];
        for k in 0..8
            invariant
                a0w == fmul(w, a@[0]),
                a1w == fmul(w, a@[1]),
                a2w == fmul(w, a@[2]),
                a3w == fmul(w, a@[3]),
                forall|j: int|
                    0 <= j < k ==> #[trigger] self.sum(j) == fadd(
                        before.sum(j),
                        group_term(j, w, a@[0], a@[1], a@[2], a@[3], b@[0], b@[1], b@[2], b@[3]),
                    ),
                forall|j: int| k <= j < 8 ==> #[trigger] self.tail@[j] == before.tail@[j],
                self.acc@ == before.acc@,
        {
            let ghost prev = *self;
            let x = form_one(k, a0w, a1w, a2w, a3w);
            let y = form_one(k, b[0], b[1], b[2], b[3]);
            let p = ghash_mul_unreduced_x86(x, y);
            self.tail[k] = self.tail[k].xor(p);
            proof {
                let kk = k as int;
                lemma_form_scaled(kk, w, a@[0], a@[1], a@[2], a@[3]);
                law_fmul_assoc(
                    w,
                    form(kk, a@[0], a@[1], a@[2], a@[3]),
                    form(kk, b@[0], b@[1], b@[2], b@[3]),
                );
                assert(prev.tail@[kk] == before.tail@[kk]);
                lemma_tail_step(before.tail@[kk].value(), before.acc@[kk].total(), p.value());
                assert forall|j: int| 0 <= j < k + 1 implies #[trigger] self.sum(j) == fadd(
                    before.sum(j),
                    group_term(j, w, a@[0], a@[1], a@[2], a@[3], b@[0], b@[1], b@[2], b@[3]),
                ) by {
                    if j < k {
                        assert(self.tail@[j] == prev.tail@[j]);
                        assert(prev.sum(j) == self.sum(j));
                    }
                }
            }
        }
    }

    /// All sums, reduced.
    pub fn finish(self) -> (r: [F128; 8])
        ensures
            forall|k: int| 0 <= k < 8 ==> #[trigger] r@[k] == self.sum(k),
    {
        let z = F128::zero();
        let mut out = [z, z, z, z, z, z, z, z];
        for i in 0..8
            invariant
                forall|k: int| 0 <= k < i ==> #[trigger] out@[k] == self.sum(k),
        {
            out[i] = self.tail[i].xor(self.acc[i].fold()).reduce();
        }
        out
    }
}

/// Four more groups of sum `k`: groups `n..n + 4` sit in the lanes.
pub proof fn lemma_lookahead_step4(
    k: int,
    eq: Seq<F128>,
    a: Seq<F128>,
    b: Seq<F128>,
    n: int,
    w: Seq<F128>,
    ga: Seq<Seq<F128>>,
    gb: Seq<Seq<F128>>,
)
    requires
        0 <= n,
        2 * (n + 4) <= eq.len(),
        4 * (n + 4) <= a.len(),
        a.len() == b.len(),
        forall|l: int| 0 <= l < 4 ==> #[trigger] w[l] == eq[2 * (n + l) + 1],
        forall|l: int, j: int| 0 <= l < 4 && 0 <= j < 4 ==> #[trigger] ga[j][l] == a[4 * (n + l) + j],
        forall|l: int, j: int| 0 <= l < 4 && 0 <= j < 4 ==> #[trigger] gb[j][l] == b[4 * (n + l) + j],
    ensures
        lookahead_upto(k, eq, a, b, (n + 4) as nat) == fadd(
            lookahead_upto(k, eq, a, b, n as nat),
            quad_term(k, w, ga[0], ga[1], ga[2], ga[3], gb[0], gb[1], gb[2], gb[3]),
        ),
{
    let e = odds(eq);
    let p = form_products(k, a, b);
    assert forall|l: int| 0 <= l < 4 implies fmul(#[trigger] e[n + l], p[n + l]) == group_term(
        k,
        w[l],
        ga[0][l],
        ga[1][l],
        ga[2][l],
        ga[3][l],
        gb[0][l],
        gb[1][l],
        gb[2][l],
        gb[3][l],
    ) by {
        assert(w[l] == eq[2 * (n + l) + 1]);
        assert(ga[0][l] == a[4 * (n + l) + 0] && ga[1][l] == a[4 * (n + l) + 1] && ga[2][l] == a[4 * (n + l)
            + 2] && ga[3][l] == a[4 * (n + l) + 3]);
        assert(gb[0][l] == b[4 * (n + l) + 0] && gb[1][l] == b[4 * (n + l) + 1] && gb[2][l] == b[4 * (n + l)
            + 2] && gb[3][l] == b[4 * (n + l) + 3]);
    }
    assert(e[n + 0] == e[n]);
    crate::field::f128_slice::lemma_dot_step4(e, p, n);
}

/// One more group of sum `k`.
pub proof fn lemma_lookahead_step1(k: int, eq: Seq<F128>, a: Seq<F128>, b: Seq<F128>, n: int)
    requires
        0 <= n,
        2 * (n + 1) <= eq.len(),
        4 * (n + 1) <= a.len(),
        a.len() == b.len(),
    ensures
        lookahead_upto(k, eq, a, b, (n + 1) as nat) == fadd(
            lookahead_upto(k, eq, a, b, n as nat),
            group_term(
                k,
                eq[2 * n + 1],
                a[4 * n],
                a[4 * n + 1],
                a[4 * n + 2],
                a[4 * n + 3],
                b[4 * n],
                b[4 * n + 1],
                b[4 * n + 2],
                b[4 * n + 3],
            ),
        ),
{
    assert(odds(eq)[n] == eq[2 * n + 1]);
}

} // verus!
