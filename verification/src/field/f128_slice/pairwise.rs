//! The slice kernels two lanes at a time, in tiles.

use super::{lerp, lerp2, portable};
use crate::field::gf2_128::ghash::ghash_mul_binius;
use crate::field::gf2_128::{fadd, fmul, F128};
use vstd::prelude::*;

verus! {

/// Source elements per tile.
pub const FOLD_TILE_F128: usize = 512;

/// Two products side by side.
fn ghash_mul_x2(x: [F128; 2], y: [F128; 2]) -> (r: [F128; 2])
    ensures
        r@[0] == fmul(x@[0], y@[0]),
        r@[1] == fmul(x@[1], y@[1]),
{
    [ghash_mul_binius(x[0], y[0]), ghash_mul_binius(x[1], y[1])]
}

/// Folds the two adjacent pairs `src[s..s + 4]`.
fn fold_two(src: &[F128], s: usize, r: F128) -> (q: [F128; 2])
    requires
        s + 4 <= src.len(),
    ensures
        q@[0] == lerp(src@[s as int], src@[s + 1], r),
        q@[1] == lerp(src@[s + 2], src@[s + 3], r),
{
    let even = [src[s], src[s + 2]];
    let odd = [src[s + 1], src[s + 3]];
    let diff = [even[0] + odd[0], even[1] + odd[1]];
    let prod = ghash_mul_x2([r, r], diff);
    [even[0] + prod[0], even[1] + prod[1]]
}

/// Folds adjacent pairs of `src`, from pair `base` on, into `dst`.
pub fn fold_pairs(src: &[F128], base: usize, dst: &mut [F128], r: F128)
    requires
        base <= src.len() / 2,
        old(dst).len() <= src.len() / 2 - base,
    ensures
        final(dst).len() == old(dst).len(),
        forall|t: int|
            0 <= t < old(dst).len() ==> #[trigger] final(dst)@[t] == lerp(
                src@[2 * (base + t)],
                src@[2 * (base + t) + 1],
                r,
            ),
{
    let pairs_per_tile: usize = FOLD_TILE_F128 / 2;
    let n_out: usize = dst.len();
    let mut t0: usize = 0;
    while t0 < n_out
        invariant
            pairs_per_tile == 256,
            dst@.len() == n_out,
            base <= src.len() / 2,
            n_out <= src.len() / 2 - base,
            t0 <= n_out,
            forall|j: int|
                0 <= j < t0 ==> #[trigger] dst@[j] == lerp(
                    src@[2 * (base + j)],
                    src@[2 * (base + j) + 1],
                    r,
                ),
        decreases n_out - t0,
    {
        let tile_out: usize = if n_out - t0 < pairs_per_tile {
            n_out - t0
        } else {
            pairs_per_tile
        };
        let even_pairs: usize = tile_out - tile_out % 2;
        let mut t: usize = 0;
        while t < even_pairs
            invariant
                dst@.len() == n_out,
                base <= src.len() / 2,
                n_out <= src.len() / 2 - base,
                tile_out <= n_out - t0,
                even_pairs == tile_out - tile_out % 2,
                t <= even_pairs,
                t % 2 == 0,
                forall|j: int|
                    0 <= j < t0 + t ==> #[trigger] dst@[j] == lerp(
                        src@[2 * (base + j)],
                        src@[2 * (base + j) + 1],
                        r,
                    ),
            decreases even_pairs - t,
        {
            let out = fold_two(src, 2 * (base + t0 + t), r);
            dst[t0 + t] = out[0];
            dst[t0 + t + 1] = out[1];
            t = t + 2;
        }
        if t < tile_out {
            let s: usize = 2 * (base + t0 + t);
            let even = src[s];
            let odd = src[s + 1];
            let prod = ghash_mul_x2([r, r], [even + odd, even + odd]);
            dst[t0 + t] = even + prod[0];
        }
        t0 = t0 + tile_out;
    }
}

/// Adds one scaled slice into another: `dst[i] += scale * addend[i]`.
pub fn add_scaled(dst: &mut [F128], addend: &[F128], scale: F128)
    requires
        old(dst).len() == addend.len(),
    ensures
        final(dst).len() == old(dst).len(),
        forall|i: int|
            0 <= i < old(dst).len() ==> #[trigger] final(dst)@[i] == fadd(
                old(dst)@[i],
                fmul(scale, addend@[i]),
            ),
{
    let ghost before = dst@;
    let n: usize = dst.len();
    let pairs: usize = n - n % 2;
    let mut i: usize = 0;
    while i < pairs
        invariant
            n == before.len(),
            dst@.len() == n,
            addend@.len() == n,
            pairs == n - n % 2,
            i <= pairs,
            i % 2 == 0,
            forall|j: int| 0 <= j < i ==> #[trigger] dst@[j] == fadd(before[j], fmul(scale, addend@[j])),
            forall|j: int| i <= j < n ==> #[trigger] dst@[j] == before[j],
        decreases pairs - i,
    {
        let prod = ghash_mul_x2([scale, scale], [addend[i], addend[i + 1]]);
        dst[i] = dst[i] + prod[0];
        dst[i + 1] = dst[i + 1] + prod[1];
        i = i + 2;
    }
    if i < n {
        dst[i] = dst[i] + scale * addend[i];
    }
}

/// One quadruple folded at `(r0, r1)`.
fn fold4_one(a0: F128, a1: F128, a2: F128, a3: F128, r0: F128, r1: F128) -> (v: F128)
    ensures
        v == lerp2(a0, a1, a2, a3, r0, r1),
{
    let p0 = ghash_mul_binius(r0, a0 + a1);
    let low = a0 + p0;
    let p1 = ghash_mul_binius(r0, a2 + a3);
    let high = a2 + p1;
    let p_out = ghash_mul_binius(r1, low + high);
    low + p_out
}

/// Folds adjacent quadruples: `r0` within pairs, then `r1` across them.
pub fn fold4_nested(src: &[F128], dst: &mut [F128], r0: F128, r1: F128)
    requires
        src.len() == 4 * old(dst).len(),
    ensures
        final(dst).len() == old(dst).len(),
        forall|t: int|
            0 <= t < old(dst).len() ==> #[trigger] final(dst)@[t] == lerp2(
                src@[4 * t],
                src@[4 * t + 1],
                src@[4 * t + 2],
                src@[4 * t + 3],
                r0,
                r1,
            ),
{
    let n: usize = dst.len();
    let pairs: usize = n - n % 2;
    let mut t: usize = 0;
    while t < pairs
        invariant
            dst@.len() == n,
            src.len() == 4 * n,
            pairs == n - n % 2,
            t <= pairs,
            t % 2 == 0,
            forall|j: int|
                0 <= j < t ==> #[trigger] dst@[j] == lerp2(
                    src@[4 * j],
                    src@[4 * j + 1],
                    src@[4 * j + 2],
                    src@[4 * j + 3],
                    r0,
                    r1,
                ),
        decreases pairs - t,
    {
        let s: usize = 4 * t;
        let out0 = fold4_one(src[s], src[s + 1], src[s + 2], src[s + 3], r0, r1);
        let out1 = fold4_one(src[s + 4], src[s + 5], src[s + 6], src[s + 7], r0, r1);
        dst[t] = out0;
        dst[t + 1] = out1;
        t = t + 2;
    }
    portable::fold4_tail(src, dst, r0, r1, t);
}

} // verus!
