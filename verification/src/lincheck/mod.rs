//! Kernels of the product sumcheck and of the folds before it.

pub mod partial_fold;

use crate::field::f128_slice::wide::{bind_both_and_msg_split, bind_split_half, msg_split_half};
use crate::field::f128_slice::{bind_seq, dot, dot_upto, lerp, vadd};
use crate::field::gf2_128::{law_fadd_comm, F128};
use vstd::prelude::*;

verus! {

/// Elements that one task takes.
pub const SUMCHECK_WIDE_CHUNK: usize = 256;

/// Whether the four-lane loops are taken: where the machine has them and they
/// have not been switched off.
pub fn sumcheck_wide_enabled(has_vpclmulqdq: bool, switched_off: bool) -> (r: bool)
    ensures
        r == (has_vpclmulqdq && !switched_off),
{
    has_vpclmulqdq && !switched_off
}

/// The message of a round: the sum of products at one, and at infinity.
pub fn eval_round(clo: &[F128], chi: &[F128], zlo: &[F128], zhi: &[F128], wide: bool) -> (e: (F128, F128))
    requires
        clo.len() == chi.len(),
        zlo.len() == clo.len(),
        zhi.len() == clo.len(),
    ensures
        e.0 == dot(chi@, zhi@),
        e.1 == dot(vadd(chi@, clo@), vadd(zhi@, zlo@)),
{
    let n: usize = clo.len();
    if wide {
        return msg_split_half(chi, clo, zhi, zlo, n);
    }
    let mut e1 = F128::zero();
    let mut einf = F128::zero();
    for i in 0..n
        invariant
            n == clo.len(),
            n == chi.len(),
            n == zlo.len(),
            n == zhi.len(),
            e1 == dot_upto(chi@, zhi@, i as nat),
            einf == dot_upto(vadd(chi@, clo@), vadd(zhi@, zlo@), i as nat),
    {
        e1 = e1 + chi[i] * zhi[i];
        einf = einf + (chi[i] + clo[i]) * (zhi[i] + zlo[i]);
    }
    (e1, einf)
}

/// Folds the upper half into the lower one.
pub fn bind_halves(lo: &mut [F128], hi: &[F128], r: F128, wide: bool)
    requires
        old(lo).len() == hi.len(),
    ensures
        final(lo)@ == bind_seq(old(lo)@, hi@, r),
{
    if wide {
        bind_split_half(lo, hi, r);
        return;
    }
    let ghost before = lo@;
    let n: usize = lo.len();
    for i in 0..n
        invariant
            n == lo.len(),
            n == hi.len(),
            n == before.len(),
            forall|j: int| 0 <= j < i ==> #[trigger] lo@[j] == lerp(before[j], hi@[j], r),
            forall|j: int| i <= j < n ==> #[trigger] lo@[j] == before[j],
    {
        proof {
            law_fadd_comm(hi@[i as int], before[i as int]);
        }
        lo[i] = lo[i] + r * (hi[i] + lo[i]);
    }
    assert(lo@ =~= bind_seq(before, hi@, r));
}

/// Folds the upper halves of both tables into the lower ones, a quarter at a time,
/// and gives the message of the next round.
pub fn bind_both_eval(
    c0: &mut [F128],
    c1: &mut [F128],
    c2: &[F128],
    c3: &[F128],
    z0: &mut [F128],
    z1: &mut [F128],
    z2: &[F128],
    z3: &[F128],
    r: F128,
    wide: bool,
) -> (e: (F128, F128))
    requires
        old(c0).len() == old(c1).len(),
        old(c0).len() == c2.len(),
        old(c0).len() == c3.len(),
        old(c0).len() == old(z0).len(),
        old(c0).len() == old(z1).len(),
        old(c0).len() == z2.len(),
        old(c0).len() == z3.len(),
    ensures
        final(c0)@ == bind_seq(old(c0)@, c2@, r),
        final(c1)@ == bind_seq(old(c1)@, c3@, r),
        final(z0)@ == bind_seq(old(z0)@, z2@, r),
        final(z1)@ == bind_seq(old(z1)@, z3@, r),
        e.0 == dot(final(c1)@, final(z1)@),
        e.1 == dot(vadd(final(c1)@, final(c0)@), vadd(final(z1)@, final(z0)@)),
{
    let ghost a0 = c0@;
    let ghost a1 = c1@;
    let ghost b0 = z0@;
    let ghost b1 = z1@;
    let n: usize = c0.len();
    if wide {
        let e = bind_both_and_msg_split(c0, c1, c2, c3, z0, z1, z2, z3, r, n);
        proof {
            assert(c0@ =~= bind_seq(a0, c2@, r));
            assert(c1@ =~= bind_seq(a1, c3@, r));
            assert(z0@ =~= bind_seq(b0, z2@, r));
            assert(z1@ =~= bind_seq(b1, z3@, r));
        }
        return e;
    }
    let ghost n0 = bind_seq(a0, c2@, r);
    let ghost n1 = bind_seq(a1, c3@, r);
    let ghost y0 = bind_seq(b0, z2@, r);
    let ghost y1 = bind_seq(b1, z3@, r);
    let mut e1 = F128::zero();
    let mut einf = F128::zero();
    for i in 0..n
        invariant
            n == c0.len(),
            n == c1.len(),
            n == c2.len(),
            n == c3.len(),
            n == z0.len(),
            n == z1.len(),
            n == z2.len(),
            n == z3.len(),
            n == a0.len(),
            n == a1.len(),
            n == b0.len(),
            n == b1.len(),
            n0 == bind_seq(a0, c2@, r),
            n1 == bind_seq(a1, c3@, r),
            y0 == bind_seq(b0, z2@, r),
            y1 == bind_seq(b1, z3@, r),
            forall|j: int| 0 <= j < i ==> #[trigger] c0@[j] == n0[j],
            forall|j: int| 0 <= j < i ==> #[trigger] c1@[j] == n1[j],
            forall|j: int| 0 <= j < i ==> #[trigger] z0@[j] == y0[j],
            forall|j: int| 0 <= j < i ==> #[trigger] z1@[j] == y1[j],
            forall|j: int| i <= j < n ==> #[trigger] c0@[j] == a0[j],
            forall|j: int| i <= j < n ==> #[trigger] c1@[j] == a1[j],
            forall|j: int| i <= j < n ==> #[trigger] z0@[j] == b0[j],
            forall|j: int| i <= j < n ==> #[trigger] z1@[j] == b1[j],
            e1 == dot_upto(n1, y1, i as nat),
            einf == dot_upto(vadd(n1, n0), vadd(y1, y0), i as nat),
    {
        proof {
            law_fadd_comm(c2@[i as int], a0[i as int]);
            law_fadd_comm(c3@[i as int], a1[i as int]);
            law_fadd_comm(z2@[i as int], b0[i as int]);
            law_fadd_comm(z3@[i as int], b1[i as int]);
        }
        let lo = c0[i] + r * (c2[i] + c0[i]);
        let hi = c1[i] + r * (c3[i] + c1[i]);
        let zlo = z0[i] + r * (z2[i] + z0[i]);
        let zhi = z1[i] + r * (z3[i] + z1[i]);
        c0[i] = lo;
        c1[i] = hi;
        z0[i] = zlo;
        z1[i] = zhi;
        e1 = e1 + hi * zhi;
        einf = einf + (hi + lo) * (zhi + zlo);
    }
    proof {
        assert(c0@ =~= n0);
        assert(c1@ =~= n1);
        assert(z0@ =~= y0);
        assert(z1@ =~= y1);
    }
    (e1, einf)
}

} // verus!
