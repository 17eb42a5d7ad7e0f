//! Products in GF(2^128) from 64 x 64 carry-less products.
//!
//! Every product here splits its factors into 64-bit words and recombines the
//! partial products. A partial result is a triple `(lo, mid, hi)` that stands for
//! `lo + x^64 * mid + x^128 * hi`; reduction evaluates that sum in the field.

use super::{
    coeff, fadd, fmul, fmul_upto, fzero, law_fadd_assoc, law_fadd_comm, law_fadd_self, lemma_fadd_swap4,
    law_fadd_zero, law_fmul_add_left, law_fmul_add_right, lemma_fmul_shift_left, lemma_fmul_shift_right,
    law_fmul_zero, lemma_times_x64, lemma_times_xn_add, lemma_times_xn_compose, lemma_times_xn_low, tap_hi, tap_lo,
    times_xn, F128,
};
use crate::bits::lemma_word_facts;
use vstd::prelude::*;

verus! {

// ---- carry-less words ----

/// The sum of `a` moved up by `i`, over the set bits `i < n` of `b`.
pub open spec fn clmul_upto(a: u64, b: u64, n: nat) -> F128
    decreases n,
{
    if n == 0 {
        fzero()
    } else {
        fadd(
            clmul_upto(a, b, (n - 1) as nat),
            if (b >> ((n - 1) as u64)) & 1 == 1 {
                F128 { lo: a << ((n - 1) as u64), hi: a >> ((65 - n) as u64) }
            } else {
                fzero()
            },
        )
    }
}

/// The 127-bit carry-less product of two words.
#[verifier::opaque]
pub open spec fn clmul(a: u64, b: u64) -> F128 {
    clmul_upto(a, b, 64)
}

/// The field element whose low word is `w`.
pub open spec fn low_word(w: u64) -> F128 {
    F128 { lo: w, hi: 0 }
}

proof fn lemma_clmul_upto(a: u64, b: u64, n: nat)
    requires
        n <= 64,
    ensures
        clmul_upto(a, b, n) == fmul_upto(low_word(a), low_word(b), n),
    decreases n,
{
    if n > 0 {
        lemma_clmul_upto(a, b, (n - 1) as nat);
        lemma_times_xn_low(a, (n - 1) as nat);
    }
}

proof fn lemma_no_high_terms(a: F128, b: u64, n: nat)
    requires
        64 <= n <= 128,
    ensures
        fmul_upto(a, low_word(b), n) == fmul_upto(a, low_word(b), 64),
    decreases n,
{
    if n > 64 {
        lemma_no_high_terms(a, b, (n - 1) as nat);
        let i = (n - 65) as u64;
        lemma_word_facts(0, i, 0, 0, 0, 0);
        assert(!coeff(low_word(b), (n - 1) as nat));
        law_fadd_zero(fmul_upto(a, low_word(b), 64));
    }
}

/// The carry-less product of two words is the field product: nothing wraps.
pub proof fn lemma_clmul(a: u64, b: u64)
    ensures
        clmul(a, b) == fmul(low_word(a), low_word(b)),
{
    reveal(clmul);
    reveal(fmul);
    lemma_clmul_upto(a, b, 64);
    lemma_no_high_terms(low_word(a), b, 128);
}

proof fn lemma_tap_bits(i: u64)
    by (bit_vector)
    ensures
        (0x87u64 >> 0) & 1 == 1,
        (0x87u64 >> 1) & 1 == 1,
        (0x87u64 >> 2) & 1 == 1,
        (0x87u64 >> 3) & 1 == 0,
        (0x87u64 >> 4) & 1 == 0,
        (0x87u64 >> 5) & 1 == 0,
        (0x87u64 >> 6) & 1 == 0,
        (0x87u64 >> 7) & 1 == 1,
        i >= 8 ==> (0x87u64 >> i) & 1 == 0,
{
}

proof fn lemma_clmul_tap_upto(h: u64, n: nat)
    requires
        8 <= n <= 64,
    ensures
        clmul_upto(h, 0x87, n) == (F128 { lo: tap_lo(h), hi: tap_hi(h) }),
    decreases n,
{
    lemma_tap_bits((n - 1) as u64);
    if n > 8 {
        lemma_clmul_tap_upto(h, (n - 1) as nat);
        law_fadd_zero(clmul_upto(h, 0x87, (n - 1) as nat));
    } else {
        reveal_with_fuel(clmul_upto, 9);
        assert(({
            let a = (((((((0u64 ^ (h << 0u64)) ^ (h << 1u64)) ^ (h << 2u64)) ^ 0) ^ 0) ^ 0) ^ 0) ^ (h << 7u64);
            let b = (((((((0u64 ^ (h >> 64u64)) ^ (h >> 63u64)) ^ (h >> 62u64)) ^ 0) ^ 0) ^ 0) ^ 0) ^ (h
                >> 57u64);
            &&& a == h ^ (h << 1) ^ (h << 2) ^ (h << 7)
            &&& b == (h >> 63) ^ (h >> 62) ^ (h >> 57)
        })) by (bit_vector);
    }
}

/// Carry-less product with the reduction taps.
pub proof fn lemma_clmul_tap(h: u64)
    ensures
        clmul(h, 0x87) == (F128 { lo: tap_lo(h), hi: tap_hi(h) }),
{
    reveal(clmul);
    lemma_clmul_tap_upto(h, 64);
}

/// Carry-less product of two words: the full 128-bit result.
pub fn pmull(a: u64, b: u64) -> (r: F128)
    ensures
        r == clmul(a, b),
{
    let mut acc = F128::zero();
    let mut i: u64 = 0;
    while i < 64
        invariant
            i <= 64,
            acc == clmul_upto(a, b, i as nat),
        decreases 64 - i,
    {
        let term = if (b >> i) & 1 == 1 {
            F128 { lo: a << i, hi: if i == 0 { 0 } else { a >> (64 - i) } }
        } else {
            F128::zero()
        };
        proof {
            lemma_word_facts(a, 0, 0, 0, 0, 0);
        }
        acc = acc + term;
        i = i + 1;
    }
    proof {
        reveal(clmul);
    }
    acc
}

// ---- splitting and recombining ----

/// What a triple of partial products stands for: `lo + x^64 * mid + x^128 * hi`.
pub open spec fn limb_value(lo: F128, mid: F128, hi: F128) -> F128 {
    fadd(fadd(lo, times_xn(mid, 64)), times_xn(hi, 128))
}

/// What four words stand for: `(r0, r1) + x^128 * (r2, r3)`.
pub open spec fn wide_value(r0: u64, r1: u64, r2: u64, r3: u64) -> F128 {
    fadd(F128 { lo: r0, hi: r1 }, times_xn(F128 { lo: r2, hi: r3 }, 128))
}

proof fn lemma_word_at_64(w: u64)
    ensures
        times_xn(low_word(w), 64) == (F128 { lo: 0, hi: w }),
{
    lemma_times_xn_low(w, 64);
    lemma_word_facts(w, 0, 0, 0, 0, 0);
}

proof fn lemma_split_words(a: F128)
    ensures
        a == fadd(low_word(a.lo), times_xn(low_word(a.hi), 64)),
{
    lemma_word_at_64(a.hi);
    law_fadd_zero(low_word(a.lo));
    law_fadd_zero(low_word(a.hi));
    assert(a.lo ^ 0 == a.lo);
    assert(0 ^ a.hi == a.hi);
}

/// The product as a triple of partial products.
pub proof fn lemma_fmul_limbs(a: F128, b: F128)
    ensures
        fmul(a, b) == limb_value(
            clmul(a.lo, b.lo),
            fadd(clmul(a.lo, b.hi), clmul(a.hi, b.lo)),
            clmul(a.hi, b.hi),
        ),
{
    let al = low_word(a.lo);
    let ah = low_word(a.hi);
    let bl = low_word(b.lo);
    let bh = low_word(b.hi);
    let ahx = times_xn(ah, 64);
    let bhx = times_xn(bh, 64);
    lemma_split_words(a);
    lemma_split_words(b);
    lemma_clmul(a.lo, b.lo);
    lemma_clmul(a.lo, b.hi);
    lemma_clmul(a.hi, b.lo);
    lemma_clmul(a.hi, b.hi);
    law_fmul_add_left(al, ahx, b);
    law_fmul_add_right(al, bl, bhx);
    law_fmul_add_right(ahx, bl, bhx);
    let ll = fmul(al, bl);
    let lh = fmul(al, bh);
    let hl = fmul(ah, bl);
    let hh = fmul(ah, bh);
    lemma_fmul_shift_right(al, bh, 64);
    lemma_fmul_shift_left(ah, bl, 64);
    lemma_fmul_shift_left(ah, bhx, 64);
    lemma_fmul_shift_right(ah, bh, 64);
    lemma_times_xn_compose(hh, 64, 64);
    lemma_times_xn_add(lh, hl, 64);
    let p = times_xn(lh, 64);
    let q = times_xn(hl, 64);
    let s = times_xn(hh, 128);
    assert(fmul(a, b) == fadd(fadd(ll, p), fadd(q, s)));
    law_fadd_assoc(fadd(ll, p), q, s);
    law_fadd_assoc(ll, p, q);
}

/// Four words laid out from a triple stand for the same value as the triple.
pub proof fn lemma_wide_of_limbs(lo: F128, mid: F128, hi: F128)
    ensures
        wide_value(lo.lo, lo.hi ^ mid.lo, hi.lo ^ mid.hi, hi.hi) == limb_value(lo, mid, hi),
{
    let ml = low_word(mid.lo);
    let mh = low_word(mid.hi);
    lemma_split_words(mid);
    lemma_times_xn_add(ml, times_xn(mh, 64), 64);
    lemma_times_xn_compose(mh, 64, 64);
    lemma_word_at_64(mid.lo);
    let up = F128 { lo: 0, hi: mid.lo };
    let over = times_xn(mh, 128);
    assert(times_xn(mid, 64) == fadd(up, over));
    law_fadd_zero(lo);
    law_fadd_zero(hi);
    assert(fadd(lo, up) == (F128 { lo: lo.lo, hi: lo.hi ^ mid.lo })) by {
        assert(lo.lo ^ 0 == lo.lo);
    }
    assert(fadd(hi, mh) == (F128 { lo: hi.lo ^ mid.hi, hi: hi.hi })) by {
        assert(hi.hi ^ 0 == hi.hi);
    }
    lemma_times_xn_add(hi, mh, 128);
    let hx = times_xn(hi, 128);
    law_fadd_assoc(lo, up, over);
    law_fadd_assoc(fadd(lo, up), over, hx);
    law_fadd_comm(over, hx);
}

/// A triple evaluated in two steps of `x^64`.
pub proof fn lemma_limb_two_steps(lo: F128, mid: F128, hi: F128)
    ensures
        fadd(lo, times_xn(fadd(mid, times_xn(hi, 64)), 64)) == limb_value(lo, mid, hi),
{
    lemma_times_xn_add(mid, times_xn(hi, 64), 64);
    lemma_times_xn_compose(hi, 64, 64);
    law_fadd_assoc(lo, times_xn(mid, 64), times_xn(hi, 128));
}

/// Triples add up part by part.
pub proof fn lemma_limb_add(a: F128, b: F128, c: F128, d: F128, e: F128, f: F128)
    ensures
        limb_value(fadd(a, d), fadd(b, e), fadd(c, f)) == fadd(limb_value(a, b, c), limb_value(d, e, f)),
{
    lemma_times_xn_add(b, e, 64);
    lemma_times_xn_add(c, f, 128);
    lemma_fadd_swap4(a, d, times_xn(b, 64), times_xn(e, 64));
    lemma_fadd_swap4(
        fadd(a, times_xn(b, 64)),
        fadd(d, times_xn(e, 64)),
        times_xn(c, 128),
        times_xn(f, 128),
    );
}

/// The middle limb by one product of sums.
pub proof fn law_karatsuba(a: F128, b: F128)
    ensures
        fadd(
            fadd(clmul(a.lo ^ a.hi, b.lo ^ b.hi), clmul(a.lo, b.lo)),
            clmul(a.hi, b.hi),
        ) == fadd(clmul(a.lo, b.hi), clmul(a.hi, b.lo)),
{
    let al = low_word(a.lo);
    let ah = low_word(a.hi);
    let bl = low_word(b.lo);
    let bh = low_word(b.hi);
    law_fadd_zero(fzero());
    assert(0u64 ^ 0u64 == 0);
    assert(low_word(a.lo ^ a.hi) == fadd(al, ah));
    assert(low_word(b.lo ^ b.hi) == fadd(bl, bh));
    lemma_clmul(a.lo ^ a.hi, b.lo ^ b.hi);
    lemma_clmul(a.lo, b.lo);
    lemma_clmul(a.lo, b.hi);
    lemma_clmul(a.hi, b.lo);
    lemma_clmul(a.hi, b.hi);
    law_fmul_add_left(al, ah, fadd(bl, bh));
    law_fmul_add_right(al, bl, bh);
    law_fmul_add_right(ah, bl, bh);
    let ll = fmul(al, bl);
    let lh = fmul(al, bh);
    let hl = fmul(ah, bl);
    let hh = fmul(ah, bh);
    law_fadd_comm(fadd(ll, lh), fadd(hl, hh));
    // ((hl + hh) + (ll + lh)) + ll + hh
    law_fadd_comm(ll, lh);
    law_fadd_assoc(fadd(hl, hh), fadd(lh, ll), ll);
    law_fadd_assoc(lh, ll, ll);
    law_fadd_self(ll);
    law_fadd_zero(lh);
    // (hl + hh) + lh + hh
    law_fadd_comm(fadd(hl, hh), lh);
    law_fadd_assoc(lh, fadd(hl, hh), hh);
    law_fadd_assoc(hl, hh, hh);
    law_fadd_self(hh);
    law_fadd_zero(hl);
}

/// `x^64 * v`, by one carry-less product with the taps.
fn shift64(v: F128) -> (r: F128)
    ensures
        r == times_xn(v, 64),
{
    let red = pmull(v.hi, 0x87);
    proof {
        lemma_times_x64(v);
        lemma_clmul_tap(v.hi);
        law_fadd_zero(red);
        assert(0 ^ red.lo == red.lo);
    }
    F128 { lo: 0, hi: v.lo } + red
}

// ---- scalar products ----

/// Reduces four words to the field element they stand for, by shifts alone.
pub fn ghash_reduce(r0: u64, r1: u64, r2: u64, r3: u64) -> (r: F128)
    ensures
        r == wide_value(r0, r1, r2, r3),
{
    let folded = r2 ^ ((r3 >> 63) ^ (r3 >> 62) ^ (r3 >> 57));
    let up_lo = r3 ^ (r3 << 1) ^ (r3 << 2) ^ (r3 << 7);
    let lo = folded ^ (folded << 1) ^ (folded << 2) ^ (folded << 7);
    let hi = up_lo ^ ((folded >> 63) ^ (folded >> 62) ^ (folded >> 57));
    proof {
        let v = F128 { lo: r2, hi: r3 };
        lemma_times_x64(v);
        lemma_times_x64(times_xn(v, 64));
        lemma_times_xn_compose(v, 64, 64);
    }
    F128 { lo: r0 ^ lo, hi: r1 ^ hi }
}

/// `a * b` for a factor `b` with a zero high word.
pub fn ghash_mul_low_rhs(a: F128, b_lo: u64) -> (r: F128)
    ensures
        r == fmul(a, low_word(b_lo)),
{
    let p0 = pmull(a.lo, b_lo);
    let q = pmull(a.hi, b_lo);
    proof {
        let b = low_word(b_lo);
        lemma_fmul_limbs(a, b);
        lemma_clmul(a.lo, 0);
        lemma_clmul(a.hi, 0);
        law_fmul_zero(low_word(a.lo));
        law_fmul_zero(low_word(a.hi));
        law_fadd_zero(q);
        lemma_wide_of_limbs(p0, q, fzero());
        assert(0 ^ q.hi == q.hi);
    }
    ghash_reduce(p0.lo, p0.hi ^ q.lo, q.hi, 0)
}

/// Four partial products, one reduction by shifts.
pub fn ghash_mul_schoolbook(a: F128, b: F128) -> (r: F128)
    ensures
        r == fmul(a, b),
{
    let p_ll = pmull(a.lo, b.lo);
    let p_lh = pmull(a.lo, b.hi);
    let p_hl = pmull(a.hi, b.lo);
    let p_hh = pmull(a.hi, b.hi);
    let cross = p_lh + p_hl;
    proof {
        lemma_fmul_limbs(a, b);
        lemma_wide_of_limbs(p_ll, cross, p_hh);
    }
    ghash_reduce(p_ll.lo, p_ll.hi ^ cross.lo, p_hh.lo ^ cross.hi, p_hh.hi)
}

/// Four partial products, reduced in two steps of `x^64`.
pub fn ghash_mul_binius(a: F128, b: F128) -> (r: F128)
    ensures
        r == fmul(a, b),
{
    let t0 = pmull(a.lo, b.lo);
    let t1a = pmull(a.lo, b.hi);
    let t1b = pmull(a.hi, b.lo);
    let t2 = pmull(a.hi, b.hi);
    let t1 = t1a + t1b;
    proof {
        lemma_fmul_limbs(a, b);
        lemma_limb_two_steps(t0, t1, t2);
    }
    let t1 = t1 + shift64(t2);
    t0 + shift64(t1)
}

/// Three partial products, reduced in two steps of `x^64`.
pub fn ghash_mul_karatsuba_vec(a: F128, b: F128) -> (r: F128)
    ensures
        r == fmul(a, b),
{
    let p0 = pmull(a.lo, b.lo);
    let p1 = pmull(a.hi, b.hi);
    let pm = pmull(a.lo ^ a.hi, b.lo ^ b.hi);
    let t1 = (pm + p0) + p1;
    proof {
        law_karatsuba(a, b);
        lemma_fmul_limbs(a, b);
        lemma_limb_two_steps(p0, t1, p1);
    }
    let t1 = t1 + shift64(p1);
    p0 + shift64(t1)
}

/// Three partial products, one reduction by shifts.
pub fn ghash_mul_karatsuba(a: F128, b: F128) -> (r: F128)
    ensures
        r == fmul(a, b),
{
    let p0 = pmull(a.lo, b.lo);
    let p1 = pmull(a.hi, b.hi);
    let pm = pmull(a.lo ^ a.hi, b.lo ^ b.hi);
    let cross_lo = pm.lo ^ p0.lo ^ p1.lo;
    let cross_hi = pm.hi ^ p0.hi ^ p1.hi;
    proof {
        law_karatsuba(a, b);
        lemma_fmul_limbs(a, b);
        lemma_wide_of_limbs(p0, F128 { lo: cross_lo, hi: cross_hi }, p1);
    }
    ghash_reduce(p0.lo, p0.hi ^ cross_lo, p1.lo ^ cross_hi, p1.hi)
}

proof fn lemma_barrett(r2: u64, r3: u64)
    by (bit_vector)
    ensures
        ({
            let ov = (r3 >> 63) ^ (r3 >> 62) ^ (r3 >> 57);
            let f = r2 ^ ov;
            &&& f ^ (f << 1) ^ (f << 2) ^ (f << 7) == (r2 ^ (r2 << 1) ^ (r2 << 2) ^ (r2 << 7)) ^ (ov ^ (ov
                << 1) ^ (ov << 2) ^ (ov << 7))
            &&& (f >> 63) ^ (f >> 62) ^ (f >> 57) == (r2 >> 63) ^ (r2 >> 62) ^ (r2 >> 57)
        }),
{
}

/// Three partial products, reduced by two carry-less products with the taps
/// and a shifted correction for what overflows.
pub fn ghash_mul_karatsuba_barrett(a: F128, b: F128) -> (r: F128)
    ensures
        r == fmul(a, b),
{
    let d0 = pmull(a.lo, b.lo);
    let d2 = pmull(a.hi, b.hi);
    let dm = pmull(a.lo ^ a.hi, b.lo ^ b.hi);
    let d1 = (dm + d0) + d2;
    let lo_lo = d0.lo;
    let lo_hi = d0.hi ^ d1.lo;
    let hi_lo = d2.lo ^ d1.hi;
    let hi_hi = d2.hi;
    let r_hi = pmull(hi_hi, 0x87);
    let r_lo = pmull(hi_lo, 0x87);
    let ov = r_hi.hi;
    let corr = ov ^ (ov << 1) ^ (ov << 2) ^ (ov << 7);
    proof {
        law_karatsuba(a, b);
        lemma_fmul_limbs(a, b);
        lemma_wide_of_limbs(d0, d1, d2);
        lemma_clmul_tap(hi_hi);
        lemma_clmul_tap(hi_lo);
        let v = F128 { lo: hi_lo, hi: hi_hi };
        lemma_times_x64(v);
        lemma_times_x64(times_xn(v, 64));
        lemma_times_xn_compose(v, 64, 64);
        lemma_barrett(hi_lo, hi_hi);
        let base = F128 { lo: lo_lo, hi: lo_hi };
        law_fadd_assoc(base, F128 { lo: r_lo.lo, hi: r_lo.hi }, F128 { lo: corr, hi: r_hi.lo });
        law_fadd_comm(F128 { lo: r_lo.lo, hi: r_lo.hi }, F128 { lo: corr, hi: r_hi.lo });
        let s = fadd(F128 { lo: r_lo.lo, hi: r_lo.hi }, F128 { lo: corr, hi: r_hi.lo });
        assert(times_xn(v, 128) == s);
    }
    F128 { lo: lo_lo ^ r_lo.lo ^ corr, hi: lo_hi ^ r_lo.hi ^ r_hi.lo }
}

/// Four independent products, their partial products interleaved.
pub fn ghash_mul_pclmulqdq_x4(xs: [F128; 4], ys: [F128; 4]) -> (r: [F128; 4])
    ensures
        forall|i: int| 0 <= i < 4 ==> #[trigger] r@[i] == fmul(xs@[i], ys@[i]),
{
    let pm0 = pmull(xs[0].lo ^ xs[0].hi, ys[0].lo ^ ys[0].hi);
    let pm1 = pmull(xs[1].lo ^ xs[1].hi, ys[1].lo ^ ys[1].hi);
    let pm2 = pmull(xs[2].lo ^ xs[2].hi, ys[2].lo ^ ys[2].hi);
    let pm3 = pmull(xs[3].lo ^ xs[3].hi, ys[3].lo ^ ys[3].hi);
    let pl0 = pmull(xs[0].lo, ys[0].lo);
    let pl1 = pmull(xs[1].lo, ys[1].lo);
    let pl2 = pmull(xs[2].lo, ys[2].lo);
    let pl3 = pmull(xs[3].lo, ys[3].lo);
    let ph0 = pmull(xs[0].hi, ys[0].hi);
    let ph1 = pmull(xs[1].hi, ys[1].hi);
    let ph2 = pmull(xs[2].hi, ys[2].hi);
    let ph3 = pmull(xs[3].hi, ys[3].hi);
    let c0 = (pm0 + pl0) + ph0;
    let c1 = (pm1 + pl1) + ph1;
    let c2 = (pm2 + pl2) + ph2;
    let c3 = (pm3 + pl3) + ph3;
    proof {
        law_karatsuba(xs@[0], ys@[0]);
        law_karatsuba(xs@[1], ys@[1]);
        law_karatsuba(xs@[2], ys@[2]);
        law_karatsuba(xs@[3], ys@[3]);
        lemma_fmul_limbs(xs@[0], ys@[0]);
        lemma_fmul_limbs(xs@[1], ys@[1]);
        lemma_fmul_limbs(xs@[2], ys@[2]);
        lemma_fmul_limbs(xs@[3], ys@[3]);
        lemma_wide_of_limbs(pl0, c0, ph0);
        lemma_wide_of_limbs(pl1, c1, ph1);
        lemma_wide_of_limbs(pl2, c2, ph2);
        lemma_wide_of_limbs(pl3, c3, ph3);
    }
    [
        ghash_reduce(pl0.lo, pl0.hi ^ c0.lo, ph0.lo ^ c0.hi, ph0.hi),
        ghash_reduce(pl1.lo, pl1.hi ^ c1.lo, ph1.lo ^ c1.hi, ph1.hi),
        ghash_reduce(pl2.lo, pl2.hi ^ c2.lo, ph2.lo ^ c2.hi, ph2.hi),
        ghash_reduce(pl3.lo, pl3.hi ^ c3.lo, ph3.lo ^ c3.hi, ph3.hi),
    ]
}

/// One product through the four-wide routine.
pub fn ghash_mul_pclmulqdq(a: F128, b: F128) -> (r: F128)
    ensures
        r == fmul(a, b),
{
    let res = ghash_mul_pclmulqdq_x4([a, a, a, a], [b, b, b, b]);
    res[0]
}

// ---- unreduced products ----

/// A product, or a sum of products, before reduction: the four words of a
/// polynomial of degree below 256.
#[derive(Clone, Copy, Debug, PartialEq, Eq, Structural)]
pub struct F256Unreduced {
    pub r0: u64,
    pub r1: u64,
    pub r2: u64,
    pub r3: u64,
}

impl F256Unreduced {
    /// The field element that the four words stand for.
    pub open spec fn value(self) -> F128 {
        wide_value(self.r0, self.r1, self.r2, self.r3)
    }

    /// The zero polynomial.
    pub fn zero() -> (r: F256Unreduced)
        ensures
            r == (F256Unreduced { r0: 0, r1: 0, r2: 0, r3: 0 }),
            r.value() == fzero(),
    {
        proof {
            lemma_limb_zero();
            lemma_wide_of_limbs(fzero(), fzero(), fzero());
            assert(0u64 ^ 0u64 == 0) by {
                law_fadd_zero(fzero());
            }
        }
        F256Unreduced { r0: 0, r1: 0, r2: 0, r3: 0 }
    }

    /// Sum of two polynomials.
    pub fn xor(self, other: F256Unreduced) -> (r: F256Unreduced)
        ensures
            r == (F256Unreduced {
                r0: self.r0 ^ other.r0,
                r1: self.r1 ^ other.r1,
                r2: self.r2 ^ other.r2,
                r3: self.r3 ^ other.r3,
            }),
            r.value() == fadd(self.value(), other.value()),
    {
        proof {
            lemma_wide_add(self, other);
        }
        F256Unreduced {
            r0: self.r0 ^ other.r0,
            r1: self.r1 ^ other.r1,
            r2: self.r2 ^ other.r2,
            r3: self.r3 ^ other.r3,
        }
    }

    /// The field element that the four words stand for.
    pub fn reduce(self) -> (r: F128)
        ensures
            r == self.value(),
    {
        ghash_reduce(self.r0, self.r1, self.r2, self.r3)
    }
}

/// The XOR of two unreduced polynomials, word by word.
pub open spec fn wide_xor(a: F256Unreduced, b: F256Unreduced) -> F256Unreduced {
    F256Unreduced { r0: a.r0 ^ b.r0, r1: a.r1 ^ b.r1, r2: a.r2 ^ b.r2, r3: a.r3 ^ b.r3 }
}

/// Deferring the reduction changes nothing: reducing a sum of unreduced products
/// gives the sum of the reduced ones.
pub proof fn lemma_wide_add(a: F256Unreduced, b: F256Unreduced)
    ensures
        wide_xor(a, b).value() == fadd(a.value(), b.value()),
{
    let al = F128 { lo: a.r0, hi: a.r1 };
    let bl = F128 { lo: b.r0, hi: b.r1 };
    let ah = F128 { lo: a.r2, hi: a.r3 };
    let bh = F128 { lo: b.r2, hi: b.r3 };
    lemma_times_xn_add(ah, bh, 128);
    lemma_fadd_swap4(al, bl, times_xn(ah, 128), times_xn(bh, 128));
}

proof fn lemma_limb_zero()
    ensures
        limb_value(fzero(), fzero(), fzero()) == fzero(),
{
    lemma_fmul_limbs(fzero(), fzero());
    law_fmul_zero(fzero());
    lemma_clmul(0, 0);
    law_fmul_zero(low_word(0));
    law_fadd_zero(fzero());
}

/// The four partial products recombined, not reduced.
pub fn ghash_mul_unreduced_x86(a: F128, b: F128) -> (r: F256Unreduced)
    ensures
        r == (F256Unreduced {
            r0: clmul(a.lo, b.lo).lo,
            r1: clmul(a.lo, b.lo).hi ^ (clmul(a.lo, b.hi).lo ^ clmul(a.hi, b.lo).lo),
            r2: clmul(a.hi, b.hi).lo ^ (clmul(a.lo, b.hi).hi ^ clmul(a.hi, b.lo).hi),
            r3: clmul(a.hi, b.hi).hi,
        }),
        r.value() == fmul(a, b),
{
    let p_ll = pmull(a.lo, b.lo);
    let p_lh = pmull(a.lo, b.hi);
    let p_hl = pmull(a.hi, b.lo);
    let p_hh = pmull(a.hi, b.hi);
    let cross = p_lh + p_hl;
    proof {
        lemma_fmul_limbs(a, b);
        lemma_wide_of_limbs(p_ll, cross, p_hh);
    }
    F256Unreduced { r0: p_ll.lo, r1: p_ll.hi ^ cross.lo, r2: p_hh.lo ^ cross.hi, r3: p_hh.hi }
}

// ---- four lanes ----

/// Four field elements side by side.
#[derive(Clone, Copy, Debug)]
pub struct F128x4 {
    pub lanes: [F128; 4],
}

impl View for F128x4 {
    type V = Seq<F128>;

    open spec fn view(&self) -> Seq<F128> {
        self.lanes@
    }
}

/// The sum of the four lanes.
pub open spec fn lane_sum(v: Seq<F128>) -> F128 {
    fadd(fadd(v[0], v[1]), fadd(v[2], v[3]))
}

/// Loads `src[at..at + 4]`.
pub fn f128x4_loadu(src: &[F128], at: usize) -> (r: F128x4)
    requires
        at + 4 <= src.len(),
    ensures
        r@ == src@.subrange(at as int, at + 4),
{
    let r = F128x4 { lanes: [src[at], src[at + 1], src[at + 2], src[at + 3]] };
    assert(r@ =~= src@.subrange(at as int, at + 4));
    r
}

/// Four elements as lanes, the first one lowest.
pub fn f128x4_set(a: F128, b: F128, c: F128, d: F128) -> (r: F128x4)
    ensures
        r@ == seq![a, b, c, d],
{
    let r = F128x4 { lanes: [a, b, c, d] };
    assert(r@ =~= seq![a, b, c, d]);
    r
}

/// One element in every lane.
pub fn f128x4_splat(a: F128) -> (r: F128x4)
    ensures
        r@ == seq![a, a, a, a],
{
    f128x4_set(a, a, a, a)
}

/// Stores the lanes to `dst[at..at + 4]`.
pub fn f128x4_storeu(dst: &mut [F128], at: usize, v: F128x4)
    requires
        at + 4 <= old(dst).len(),
    ensures
        final(dst).len() == old(dst).len(),
        forall|i: int|
            0 <= i < old(dst).len() ==> #[trigger] final(dst)@[i] == (if at <= i < at + 4 {
                v@[i - at]
            } else {
                old(dst)@[i]
            }),
{
    dst[at] = v.lanes[0];
    dst[at + 1] = v.lanes[1];
    dst[at + 2] = v.lanes[2];
    dst[at + 3] = v.lanes[3];
}

/// Lanes 0 and 2 of `lo`, then of `hi`.
pub fn even_lanes(lo: F128x4, hi: F128x4) -> (r: F128x4)
    ensures
        r@ == seq![lo@[0], lo@[2], hi@[0], hi@[2]],
{
    f128x4_set(lo.lanes[0], lo.lanes[2], hi.lanes[0], hi.lanes[2])
}

/// Lanes 1 and 3 of `lo`, then of `hi`.
pub fn odd_lanes(lo: F128x4, hi: F128x4) -> (r: F128x4)
    ensures
        r@ == seq![lo@[1], lo@[3], hi@[1], hi@[3]],
{
    f128x4_set(lo.lanes[1], lo.lanes[3], hi.lanes[1], hi.lanes[3])
}

/// The 4 x 4 transpose: lane `j` of result `k` is lane `k` of argument `j`.
pub fn transpose4_lanes(a0: F128x4, a1: F128x4, a2: F128x4, a3: F128x4) -> (r: [F128x4; 4])
    ensures
        forall|k: int|
            0 <= k < 4 ==> #[trigger] r@[k]@ == seq![a0@[k], a1@[k], a2@[k], a3@[k]],
{
    let r = [
        f128x4_set(a0.lanes[0], a1.lanes[0], a2.lanes[0], a3.lanes[0]),
        f128x4_set(a0.lanes[1], a1.lanes[1], a2.lanes[1], a3.lanes[1]),
        f128x4_set(a0.lanes[2], a1.lanes[2], a2.lanes[2], a3.lanes[2]),
        f128x4_set(a0.lanes[3], a1.lanes[3], a2.lanes[3], a3.lanes[3]),
    ];
    r
}

/// Lane-wise sum.
pub fn xor_x4(x: F128x4, y: F128x4) -> (r: F128x4)
    ensures
        forall|i: int| 0 <= i < 4 ==> #[trigger] r@[i] == fadd(x@[i], y@[i]),
{
    F128x4 {
        lanes: [
            x.lanes[0] + y.lanes[0],
            x.lanes[1] + y.lanes[1],
            x.lanes[2] + y.lanes[2],
            x.lanes[3] + y.lanes[3],
        ],
    }
}

/// Lane-wise carry-less products of one chosen word of each factor.
fn clmul_x4(x: F128x4, x_high: bool, y: F128x4, y_high: bool) -> (r: F128x4)
    ensures
        forall|i: int|
            0 <= i < 4 ==> #[trigger] r@[i] == clmul(
                if x_high { x@[i].hi } else { x@[i].lo },
                if y_high { y@[i].hi } else { y@[i].lo },
            ),
{
    let mut lanes = [F128::zero(), F128::zero(), F128::zero(), F128::zero()];
    for i in 0..4
        invariant
            forall|j: int|
                0 <= j < i ==> #[trigger] lanes@[j] == clmul(
                    if x_high { x@[j].hi } else { x@[j].lo },
                    if y_high { y@[j].hi } else { y@[j].lo },
                ),
    {
        let a = if x_high { x.lanes[i].hi } else { x.lanes[i].lo };
        let b = if y_high { y.lanes[i].hi } else { y.lanes[i].lo };
        lanes[i] = pmull(a, b);
    }
    F128x4 { lanes }
}

/// One reduction step per lane: `t0 + x^64 * t1`.
fn gf2_128_reduce_x4(t0: F128x4, t1: F128x4) -> (r: F128x4)
    ensures
        forall|i: int| 0 <= i < 4 ==> #[trigger] r@[i] == fadd(t0@[i], times_xn(t1@[i], 64)),
{
    F128x4 {
        lanes: [
            t0.lanes[0] + shift64(t1.lanes[0]),
            t0.lanes[1] + shift64(t1.lanes[1]),
            t0.lanes[2] + shift64(t1.lanes[2]),
            t0.lanes[3] + shift64(t1.lanes[3]),
        ],
    }
}

/// Reduces a triple of accumulators lane by lane.
pub fn ghash_reduce_acc_x4(lo: F128x4, mid: F128x4, hi: F128x4) -> (r: F128x4)
    ensures
        forall|i: int| 0 <= i < 4 ==> #[trigger] r@[i] == limb_value(lo@[i], mid@[i], hi@[i]),
{
    let t1 = gf2_128_reduce_x4(mid, hi);
    let r = gf2_128_reduce_x4(lo, t1);
    proof {
        assert forall|i: int| 0 <= i < 4 implies #[trigger] r@[i] == limb_value(lo@[i], mid@[i], hi@[i]) by {
            assert(t1@[i] == fadd(mid@[i], times_xn(hi@[i], 64)));
            lemma_limb_two_steps(lo@[i], mid@[i], hi@[i]);
        }
    }
    r
}

/// Lane-wise product.
pub fn ghash_mul_x4(x: F128x4, y: F128x4) -> (r: F128x4)
    ensures
        forall|i: int| 0 <= i < 4 ==> #[trigger] r@[i] == fmul(x@[i], y@[i]),
{
    let t1a = clmul_x4(x, true, y, false);
    let t1b = clmul_x4(x, false, y, true);
    let t1 = xor_x4(t1a, t1b);
    let t2 = clmul_x4(x, true, y, true);
    let t0 = clmul_x4(x, false, y, false);
    let r = ghash_reduce_acc_x4(t0, t1, t2);
    proof {
        assert forall|i: int| 0 <= i < 4 implies #[trigger] r@[i] == fmul(x@[i], y@[i]) by {
            lemma_fmul_limbs(x@[i], y@[i]);
            assert(t1@[i] == fadd(t1a@[i], t1b@[i]));
            assert(t1a@[i] == clmul(x@[i].hi, y@[i].lo));
            assert(t1b@[i] == clmul(x@[i].lo, y@[i].hi));
            assert(t2@[i] == clmul(x@[i].hi, y@[i].hi));
            assert(t0@[i] == clmul(x@[i].lo, y@[i].lo));
            law_fadd_comm(t1a@[i], t1b@[i]);
        }
    }
    r
}

proof fn lemma_fmul_low_left(a: u64, b: F128)
    ensures
        fmul(low_word(a), b) == fadd(clmul(a, b.lo), times_xn(clmul(a, b.hi), 64)),
{
    lemma_split_words(b);
    law_fmul_add_right(low_word(a), low_word(b.lo), times_xn(low_word(b.hi), 64));
    lemma_fmul_shift_right(low_word(a), low_word(b.hi), 64);
    lemma_clmul(a, b.lo);
    lemma_clmul(a, b.hi);
}

/// Lane-wise product with left factors whose high words are zero.
pub fn ghash_mul_x4_low_lhs(x: F128x4, y: F128x4) -> (r: F128x4)
    ensures
        forall|i: int| 0 <= i < 4 ==> #[trigger] r@[i] == fmul(low_word(x@[i].lo), y@[i]),
        forall|i: int| 0 <= i < 4 && x@[i].hi == 0 ==> #[trigger] r@[i] == fmul(x@[i], y@[i]),
{
    let t1 = clmul_x4(x, false, y, true);
    let t0 = clmul_x4(x, false, y, false);
    let r = gf2_128_reduce_x4(t0, t1);
    proof {
        assert forall|i: int| 0 <= i < 4 implies #[trigger] r@[i] == fmul(low_word(x@[i].lo), y@[i]) by {
            assert(t1@[i] == clmul(x@[i].lo, y@[i].hi));
            assert(t0@[i] == clmul(x@[i].lo, y@[i].lo));
            lemma_fmul_low_left(x@[i].lo, y@[i]);
        }
        assert forall|i: int| 0 <= i < 4 && x@[i].hi == 0 implies #[trigger] r@[i] == fmul(x@[i], y@[i]) by {
            assert(x@[i] == low_word(x@[i].lo));
        }
    }
    r
}

/// Lane-wise `x^64 * t`.
pub fn ghash_shift64_x4(t: F128x4) -> (r: F128x4)
    ensures
        forall|i: int| 0 <= i < 4 ==> #[trigger] r@[i] == times_xn(t@[i], 64),
{
    let z = f128x4_splat(F128::zero());
    let r = gf2_128_reduce_x4(z, t);
    proof {
        assert forall|i: int| 0 <= i < 4 implies #[trigger] r@[i] == times_xn(t@[i], 64) by {
            assert(z@[i] == fzero());
            law_fadd_zero(times_xn(t@[i], 64));
        }
    }
    r
}

proof fn lemma_fmul_split(v: F128, t: F128)
    ensures
        fmul(v, t) == fadd(
            fadd(clmul(v.lo, t.lo), clmul(v.hi, times_xn(t, 64).lo)),
            times_xn(fadd(clmul(v.lo, t.hi), clmul(v.hi, times_xn(t, 64).hi)), 64),
        ),
{
    let vl = low_word(v.lo);
    let vh = low_word(v.hi);
    let tx = times_xn(t, 64);
    lemma_split_words(v);
    law_fmul_add_left(vl, times_xn(vh, 64), t);
    lemma_fmul_shift_left(vh, t, 64);
    lemma_fmul_shift_right(vh, t, 64);
    assert(fmul(v, t) == fadd(fmul(vl, t), fmul(vh, tx)));
    lemma_fmul_low_left(v.lo, t);
    lemma_fmul_low_left(v.hi, tx);
    let a = clmul(v.lo, t.lo);
    let b = times_xn(clmul(v.lo, t.hi), 64);
    let c = clmul(v.hi, tx.lo);
    let d = times_xn(clmul(v.hi, tx.hi), 64);
    lemma_fadd_swap4(a, b, c, d);
    lemma_times_xn_add(clmul(v.lo, t.hi), clmul(v.hi, tx.hi), 64);
}

/// Lane-wise `v * t`, given `t_x64 = x^64 * t`: one reduction step.
pub fn ghash_mul_x4_split(v: F128x4, t: F128x4, t_x64: F128x4) -> (r: F128x4)
    requires
        forall|i: int| 0 <= i < 4 ==> #[trigger] t_x64@[i] == times_xn(t@[i], 64),
    ensures
        forall|i: int| 0 <= i < 4 ==> #[trigger] r@[i] == fmul(v@[i], t@[i]),
{
    let a = clmul_x4(v, false, t, false);
    let b = clmul_x4(v, true, t_x64, false);
    let c = clmul_x4(v, false, t, true);
    let d = clmul_x4(v, true, t_x64, true);
    let lo = xor_x4(a, b);
    let hi = xor_x4(c, d);
    let r = gf2_128_reduce_x4(lo, hi);
    proof {
        assert forall|i: int| 0 <= i < 4 implies #[trigger] r@[i] == fmul(v@[i], t@[i]) by {
            lemma_fmul_split(v@[i], t@[i]);
            assert(t_x64@[i] == times_xn(t@[i], 64));
            assert(lo@[i] == fadd(a@[i], b@[i]));
            assert(hi@[i] == fadd(c@[i], d@[i]));
            assert(a@[i] == clmul(v@[i].lo, t@[i].lo));
            assert(b@[i] == clmul(v@[i].hi, t_x64@[i].lo));
            assert(c@[i] == clmul(v@[i].lo, t@[i].hi));
            assert(d@[i] == clmul(v@[i].hi, t_x64@[i].hi));
        }
    }
    r
}

/// The sum of the four lanes.
pub fn xor4_lanes(v: F128x4) -> (r: F128)
    ensures
        r == lane_sum(v@),
{
    (v.lanes[0] + v.lanes[1]) + (v.lanes[2] + v.lanes[3])
}

/// Four lanes of products accumulated without reduction.
#[derive(Clone, Copy, Debug)]
pub struct WideGhashX4 {
    pub lo: F128x4,
    pub hi: F128x4,
    pub mid: F128x4,
}

impl WideGhashX4 {
    /// The field element that lane `i` stands for.
    pub open spec fn lane(self, i: int) -> F128 {
        limb_value(self.lo@[i], self.mid@[i], self.hi@[i])
    }

    /// The sum over the four lanes.
    pub open spec fn total(self) -> F128 {
        fadd(fadd(self.lane(0), self.lane(1)), fadd(self.lane(2), self.lane(3)))
    }

    /// All lanes zero.
    pub fn zero() -> (r: WideGhashX4)
        ensures
            r.lo@ == seq![fzero(), fzero(), fzero(), fzero()],
            r.mid@ == seq![fzero(), fzero(), fzero(), fzero()],
            r.hi@ == seq![fzero(), fzero(), fzero(), fzero()],
            forall|i: int| 0 <= i < 4 ==> #[trigger] r.lane(i) == fzero(),
            r.total() == fzero(),
    {
        let z = f128x4_splat(F128::zero());
        proof {
            lemma_limb_zero();
            law_fadd_zero(fzero());
        }
        WideGhashX4 { lo: z, hi: z, mid: z }
    }

    /// Adds the lane-wise product `x * y`.
    pub fn mul_acc(&mut self, x: F128x4, y: F128x4)
        ensures
            forall|i: int|
                0 <= i < 4 ==> #[trigger] final(self).lo@[i] == fadd(
                    old(self).lo@[i],
                    clmul(x@[i].lo, y@[i].lo),
                ),
            forall|i: int|
                0 <= i < 4 ==> #[trigger] final(self).hi@[i] == fadd(
                    old(self).hi@[i],
                    clmul(x@[i].hi, y@[i].hi),
                ),
            forall|i: int|
                0 <= i < 4 ==> #[trigger] final(self).mid@[i] == fadd(
                    old(self).mid@[i],
                    fadd(clmul(x@[i].lo, y@[i].hi), clmul(x@[i].hi, y@[i].lo)),
                ),
            forall|i: int|
                0 <= i < 4 ==> #[trigger] final(self).lane(i) == fadd(
                    old(self).lane(i),
                    fmul(x@[i], y@[i]),
                ),
            final(self).total() == fadd(
                old(self).total(),
                fadd(
                    fadd(fmul(x@[0], y@[0]), fmul(x@[1], y@[1])),
                    fadd(fmul(x@[2], y@[2]), fmul(x@[3], y@[3])),
                ),
            ),
    {
        let ghost before = *self;
        let ll = clmul_x4(x, false, y, false);
        let hh = clmul_x4(x, true, y, true);
        let lh = clmul_x4(x, false, y, true);
        let hl = clmul_x4(x, true, y, false);
        let m = xor_x4(lh, hl);
        self.lo = xor_x4(self.lo, ll);
        self.hi = xor_x4(self.hi, hh);
        self.mid = xor_x4(self.mid, m);
        proof {
            assert forall|i: int| 0 <= i < 4 implies self.lo@[i] == fadd(
                before.lo@[i],
                clmul(x@[i].lo, y@[i].lo),
            ) && self.hi@[i] == fadd(before.hi@[i], clmul(x@[i].hi, y@[i].hi)) && self.mid@[i] == fadd(
                before.mid@[i],
                fadd(clmul(x@[i].lo, y@[i].hi), clmul(x@[i].hi, y@[i].lo)),
            ) && #[trigger] self.lane(i) == fadd(before.lane(i), fmul(x@[i], y@[i])) by {
                assert(ll@[i] == clmul(x@[i].lo, y@[i].lo));
                assert(hh@[i] == clmul(x@[i].hi, y@[i].hi));
                assert(lh@[i] == clmul(x@[i].lo, y@[i].hi));
                assert(hl@[i] == clmul(x@[i].hi, y@[i].lo));
                assert(m@[i] == fadd(lh@[i], hl@[i]));
                lemma_fmul_limbs(x@[i], y@[i]);
                lemma_limb_add(before.lo@[i], before.mid@[i], before.hi@[i], ll@[i], m@[i], hh@[i]);
            }
            assert(self.total() == fadd(
                before.total(),
                fadd(
                    fadd(fmul(x@[0], y@[0]), fmul(x@[1], y@[1])),
                    fadd(fmul(x@[2], y@[2]), fmul(x@[3], y@[3])),
                ),
            )) by {
                let p = |i: int| fmul(x@[i], y@[i]);
                assert(self.lane(0) == fadd(before.lane(0), p(0)));
                assert(self.lane(1) == fadd(before.lane(1), p(1)));
                assert(self.lane(2) == fadd(before.lane(2), p(2)));
                assert(self.lane(3) == fadd(before.lane(3), p(3)));
                lemma_fadd_swap4(before.lane(0), p(0), before.lane(1), p(1));
                lemma_fadd_swap4(before.lane(2), p(2), before.lane(3), p(3));
                lemma_fadd_swap4(
                    fadd(before.lane(0), before.lane(1)),
                    fadd(p(0), p(1)),
                    fadd(before.lane(2), before.lane(3)),
                    fadd(p(2), p(3)),
                );
            }
            assert forall|i: int| 0 <= i < 4 implies #[trigger] self.lo@[i] == fadd(
                before.lo@[i],
                clmul(x@[i].lo, y@[i].lo),
            ) by {
                assert(self.lane(i) == self.lane(i));
            }
            assert forall|i: int| 0 <= i < 4 implies #[trigger] self.hi@[i] == fadd(
                before.hi@[i],
                clmul(x@[i].hi, y@[i].hi),
            ) by {
                assert(self.lane(i) == self.lane(i));
            }
            assert forall|i: int| 0 <= i < 4 implies #[trigger] self.mid@[i] == fadd(
                before.mid@[i],
                fadd(clmul(x@[i].lo, y@[i].hi), clmul(x@[i].hi, y@[i].lo)),
            ) by {
                assert(self.lane(i) == self.lane(i));
            }
        }
    }

    /// Reduces lane by lane.
    pub fn reduce_lanes(self) -> (r: F128x4)
        ensures
            forall|i: int| 0 <= i < 4 ==> #[trigger] r@[i] == self.lane(i),
    {
        ghash_reduce_acc_x4(self.lo, self.mid, self.hi)
    }

    /// The sum over the four lanes, not reduced.
    pub fn fold(self) -> (r: F256Unreduced)
        ensures
            r == (F256Unreduced {
                r0: lane_sum(self.lo@).lo,
                r1: lane_sum(self.lo@).hi ^ lane_sum(self.mid@).lo,
                r2: lane_sum(self.hi@).lo ^ lane_sum(self.mid@).hi,
                r3: lane_sum(self.hi@).hi,
            }),
            r.value() == self.total(),
    {
        let lo = xor4_lanes(self.lo);
        let hi = xor4_lanes(self.hi);
        let mid = xor4_lanes(self.mid);
        proof {
            lemma_wide_of_limbs(lo, mid, hi);
            let l = self.lo@;
            let m = self.mid@;
            let h = self.hi@;
            lemma_limb_add(l[0], m[0], h[0], l[1], m[1], h[1]);
            lemma_limb_add(l[2], m[2], h[2], l[3], m[3], h[3]);
            lemma_limb_add(
                fadd(l[0], l[1]),
                fadd(m[0], m[1]),
                fadd(h[0], h[1]),
                fadd(l[2], l[3]),
                fadd(m[2], m[3]),
                fadd(h[2], h[3]),
            );
        }
        F256Unreduced { r0: lo.lo, r1: lo.hi ^ mid.lo, r2: hi.lo ^ mid.hi, r3: hi.hi }
    }
}

// ---- instruction support ----

/// Whether the carry-less multiply instruction can be used, and what to remember.
///
/// `cached` is `1` for yes, `2` for no, anything else for not yet known; `ecx` is
/// the feature word of the processor, whose bit 1 announces the instruction.
pub fn runtime_pclmulqdq(cached: u8, ecx: u32) -> (r: (bool, u8))
    ensures
        cached == 1 ==> r == (true, 1u8),
        cached == 2 ==> r == (false, 2u8),
        cached != 1 && cached != 2 ==> r.0 == (ecx & 2 != 0) && r.1 == (if r.0 {
            1u8
        } else {
            2u8
        }),
{
    if cached == 1 {
        return (true, 1);
    }
    if cached == 2 {
        return (false, 2);
    }
    let supported = ecx & 2 != 0;
    (supported, if supported { 1 } else { 2 })
}

} // verus!
