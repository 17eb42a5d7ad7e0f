//! The slice kernels one element at a time.

use super::{lerp, lerp2};
use crate::field::gf2_128::{fadd, F128};
use vstd::prelude::*;

verus! {

/// Element-wise sum into `dst`.
pub fn add_into(dst: &mut [F128], addend: &[F128])
    requires
        old(dst).len() == addend.len(),
    ensures
        final(dst).len() == old(dst).len(),
        forall|i: int|
            0 <= i < old(dst).len() ==> #[trigger] final(dst)@[i] == fadd(old(dst)@[i], addend@[i]),
{
    let ghost before = dst@;
    let n: usize = dst.len();
    for i in 0..n
        invariant
            n == before.len(),
            dst.len() == n,
            addend.len() == n,
            forall|j: int| 0 <= j < i ==> #[trigger] dst@[j] == fadd(before[j], addend@[j]),
            forall|j: int| i <= j < n ==> #[trigger] dst@[j] == before[j],
    {
        let v = dst[i];
        let e = addend[i];
        dst[i] = F128 { lo: v.lo ^ e.lo, hi: v.hi ^ e.hi };
    }
}

/// Folds adjacent pairs of `src`, from pair `base` on, into `dst[from..]`.
pub fn portable_tail(src: &[F128], base: usize, dst: &mut [F128], r: F128, from: usize)
    requires
        base <= src.len() / 2,
        old(dst).len() <= src.len() / 2 - base,
        from <= old(dst).len(),
    ensures
        final(dst).len() == old(dst).len(),
        forall|t: int| 0 <= t < from ==> #[trigger] final(dst)@[t] == old(dst)@[t],
        forall|t: int|
            from <= t < old(dst).len() ==> #[trigger] final(dst)@[t] == lerp(
                src@[2 * (base + t)],
                src@[2 * (base + t) + 1],
                r,
            ),
{
    let ghost before = dst@;
    let n: usize = dst.len();
    let mut t: usize = from;
    while t < n
        invariant
            n == before.len(),
            dst.len() == n,
            from <= t <= n,
            base <= src.len() / 2,
            n <= src.len() / 2 - base,
            forall|j: int| 0 <= j < from ==> #[trigger] dst@[j] == before[j],
            forall|j: int|
                from <= j < t ==> #[trigger] dst@[j] == lerp(
                    src@[2 * (base + j)],
                    src@[2 * (base + j) + 1],
                    r,
                ),
        decreases n - t,
    {
        let s: usize = 2 * (base + t);
        let even = src[s];
        dst[t] = even + r * (even + src[s + 1]);
        t = t + 1;
    }
}

/// Folds adjacent pairs of `src`, from pair `base` on, into `dst`.
pub fn fold_pairs(src: &[F128], base: usize, dst: &mut [F128], r: F128)
    requires
        base <= src.len() / 2,
        old(dst).len() <= src.len() / 2 - base,
    ensures
        final(dst).len() == old(dst).len(),
        forall|t: int|
            0 <= t < old(dst).len() ==> #[trigger] final(dst)@[t] == lerp(
                src@[2 * (base + t)],
                src@[2 * (base + t) + 1],
                r,
            ),
{
    portable_tail(src, base, dst, r, 0)
}

/// Folds adjacent quadruples of `src` into `dst[from..]`.
pub fn fold4_tail(src: &[F128], dst: &mut [F128], r0: F128, r1: F128, from: usize)
    requires
        src.len() == 4 * old(dst).len(),
        from <= old(dst).len(),
    ensures
        final(dst).len() == old(dst).len(),
        forall|t: int| 0 <= t < from ==> #[trigger] final(dst)@[t] == old(dst)@[t],
        forall|t: int|
            from <= t < old(dst).len() ==> #[trigger] final(dst)@[t] == lerp2(
                src@[4 * t],
                src@[4 * t + 1],
                src@[4 * t + 2],
                src@[4 * t + 3],
                r0,
                r1,
            ),
{
    let ghost before = dst@;
    let n: usize = dst.len();
    let mut t: usize = from;
    while t < n
        invariant
            n == before.len(),
            dst.len() == n,
            from <= t <= n,
            src.len() == 4 * n,
            forall|j: int| 0 <= j < from ==> #[trigger] dst@[j] == before[j],
            forall|j: int|
                from <= j < t ==> #[trigger] dst@[j] == lerp2(
                    src@[4 * j],
                    src@[4 * j + 1],
                    src@[4 * j + 2],
                    src@[4 * j + 3],
                    r0,
                    r1,
                ),
        decreases n - t,
    {
        let a0 = src[4 * t];
        let a1 = src[4 * t + 1];
        let a2 = src[4 * t + 2];
        let a3 = src[4 * t + 3];
        let low = a0 + r0 * (a0 + a1);
        let high = a2 + r0 * (a2 + a3);
        dst[t] = low + r1 * (low + high);
        t = t + 1;
    }
}

/// Folds adjacent quadruples: `r0` within pairs, then `r1` across them.
pub fn fold4_nested(src: &[F128], dst: &mut [F128], r0: F128, r1: F128)
    requires
        src.len() == 4 * old(dst).len(),
    ensures
        final(dst).len() == old(dst).len(),
        forall|t: int|
            0 <= t < old(dst).len() ==> #[trigger] final(dst)@[t] == lerp2(
                src@[4 * t],
                src@[4 * t + 1],
                src@[4 * t + 2],
                src@[4 * t + 3],
                r0,
                r1,
            ),
{
    fold4_tail(src, dst, r0, r1, 0)
}

} // verus!
