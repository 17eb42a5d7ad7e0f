//! Tests of the field and of the folds over slices of it.

use flock::field::f128_slice::{fold16_banked, fold4_nested, fold64_banked, fold_pairs, pairwise, portable, wide};
use flock::field::gf2_128::ghash::{
    ghash_mul_binius, ghash_mul_karatsuba, ghash_mul_karatsuba_barrett, ghash_mul_karatsuba_vec, ghash_mul_low_rhs,
    ghash_mul_pclmulqdq, ghash_mul_schoolbook,
};
use flock::field::gf2_128::F128;
use flock::field::gf2_8::{gf8_reduce, F8};

struct Xorshift(u64);

impl Xorshift {
    fn next(&mut self) -> u64 {
        self.0 ^= self.0 << 13;
        self.0 ^= self.0 >> 7;
        self.0 ^= self.0 << 17;
        self.0
    }

    fn element(&mut self) -> F128 {
        let lo = self.next();
        let hi = self.next();
        F128 { lo, hi }
    }
}

#[test]
fn fold16_banked_matches_scalar_reduced_sum() {
    let mut rng = Xorshift(0x5eed_f01d_16u64);
    for n in [1usize, 3, 4, 5, 8, 13, 64, 257] {
        let src: Vec<F128> = (0..16 * n).map(|_| rng.element()).collect();
        let w: [F128; 16] = core::array::from_fn(|_| rng.element());
        let mut got = vec![F128::zero(); n];
        fold16_banked(&src, &mut got, &w);
        for t in 0..n {
            let mut want = F128::zero();
            for b in 0..16 {
                want = want + w[b] * src[16 * t + b];
            }
            assert_eq!(got[t], want, "n={n} t={t}");
        }
    }
    let src: Vec<F128> = (0..16 * 8).map(|i| F128 { lo: i as u64 * 7 + 1, hi: (i as u64) << 40 }).collect();
    for b0 in 0..16 {
        let mut w = [F128::zero(); 16];
        w[b0] = F128::one();
        let mut got = vec![F128::zero(); 8];
        fold16_banked(&src, &mut got, &w);
        for t in 0..8 {
            assert_eq!(got[t], src[16 * t + b0]);
        }
    }
    let w = [F128::one(); 16];
    let mut got = vec![F128::zero(); 8];
    fold16_banked(&src, &mut got, &w);
    for t in 0..8 {
        let want = src[16 * t..16 * t + 16].iter().fold(F128::zero(), |a, &b| a + b);
        assert_eq!(got[t], want);
    }
}

#[test]
fn fold64_banked_matches_scalar_reduced_sum() {
    let mut rng = Xorshift(0xF064_BA6E_D5E5_7A11u64);
    for n in [1usize, 3, 4, 5, 8, 13, 64, 257] {
        let src: Vec<F128> = (0..64 * n).map(|_| rng.element()).collect();
        let w: [F128; 64] = core::array::from_fn(|_| rng.element());
        let mut got = vec![F128::zero(); n];
        fold64_banked(&src, &mut got, &w);
        for t in 0..n {
            let mut want = F128::zero();
            for bank in 0..64 {
                want = want + w[bank] * src[64 * t + bank];
            }
            assert_eq!(got[t], want, "n={n} t={t}");
        }
    }
}

#[test]
fn selected_fold_matches_portable_with_offset_and_tail() {
    let mut rng = Xorshift(0x243f_6a88_85a3_08d3);
    let src: Vec<F128> = (0..30).map(|_| rng.element()).collect();
    let r = rng.element();
    let mut expected = vec![F128::zero(); 9];
    let mut actual = vec![F128::zero(); 9];
    portable::fold_pairs(&src, 3, &mut expected, r);
    fold_pairs(&src, 3, &mut actual, r);
    assert_eq!(actual, expected);
    let mut cached = vec![F128::zero(); 9];
    wide::fold_pairs_cached(&src, 3, &mut cached, r);
    assert_eq!(cached, expected);
    let mut pairs = vec![F128::zero(); 9];
    pairwise::fold_pairs(&src, 3, &mut pairs, r);
    assert_eq!(pairs, expected);
}

#[test]
fn portable_fold_pairs_matches_two_mul() {
    let mut rng = Xorshift(0x9e37_79b9_7f4a_7c15);
    let src: Vec<F128> = (0..40).map(|_| rng.element()).collect();
    let r = rng.element();
    let one_plus_r = F128::one() + r;
    for &(base, n) in &[(0usize, 20usize), (3, 9), (1, 1), (5, 7)] {
        let mut got = vec![F128::zero(); n];
        portable::fold_pairs(&src, base, &mut got, r);
        for t in 0..n {
            let s = 2 * (base + t);
            let expect = src[s] * one_plus_r + src[s + 1] * r;
            assert_eq!(got[t], expect, "base={base} t={t}");
        }
    }
}

#[test]
fn selected_fold4_nested_matches_scalar_and_two_pass_pairs() {
    let mut rng = Xorshift(0xA5A5_C0DE_F00D_1234);
    let src: Vec<F128> = (0..44).map(|_| rng.element()).collect();
    let r0 = rng.element();
    let r1 = rng.element();
    for n in [1usize, 3, 4, 5, 7, 8, 11] {
        let mut got = vec![F128::zero(); n];
        let mut portable_got = vec![F128::zero(); n];
        fold4_nested(&src[..4 * n], &mut got, r0, r1);
        portable::fold4_nested(&src[..4 * n], &mut portable_got, r0, r1);
        assert_eq!(got, portable_got, "portable n={n}");
        for t in 0..n {
            let a0 = src[4 * t];
            let a1 = src[4 * t + 1];
            let a2 = src[4 * t + 2];
            let a3 = src[4 * t + 3];
            let low = a0 + r0 * (a0 + a1);
            let high = a2 + r0 * (a2 + a3);
            let expect = low + r1 * (low + high);
            assert_eq!(got[t], expect, "scalar n={n} t={t}");
        }
        let mut mid = vec![F128::zero(); 2 * n];
        let mut via_pairs = vec![F128::zero(); n];
        fold_pairs(&src[..4 * n], 0, &mut mid, r0);
        fold_pairs(&mid, 0, &mut via_pairs, r1);
        assert_eq!(got, via_pairs, "two-pass pairs n={n}");
    }
}

/// A bit-by-bit product modulo `x^128 + x^7 + x^2 + x + 1`.
fn naive_product(a: F128, b: F128) -> F128 {
    let mut acc = 0u128;
    let mut shifted = ((a.hi as u128) << 64) | a.lo as u128;
    let by = ((b.hi as u128) << 64) | b.lo as u128;
    for i in 0..128 {
        if (by >> i) & 1 == 1 {
            acc ^= shifted;
        }
        let top = shifted >> 127;
        shifted <<= 1;
        if top == 1 {
            shifted ^= 0x87;
        }
    }
    F128 { lo: acc as u64, hi: (acc >> 64) as u64 }
}

#[test]
fn every_product_form_is_the_field_product() {
    let mut rng = Xorshift(0x0123_4567_89ab_cdef);
    for _ in 0..50 {
        let a = rng.element();
        let b = rng.element();
        let want = naive_product(a, b);
        assert_eq!(a * b, want);
        assert_eq!(ghash_mul_schoolbook(a, b), want);
        assert_eq!(ghash_mul_binius(a, b), want);
        assert_eq!(ghash_mul_karatsuba_vec(a, b), want);
        assert_eq!(ghash_mul_karatsuba(a, b), want);
        assert_eq!(ghash_mul_karatsuba_barrett(a, b), want);
        assert_eq!(ghash_mul_pclmulqdq(a, b), want);
        assert_eq!(ghash_mul_low_rhs(a, b.lo), naive_product(a, F128 { lo: b.lo, hi: 0 }));
    }
    let x127 = F128 { lo: 0, hi: 1 << 63 };
    let x = F128 { lo: 2, hi: 0 };
    assert_eq!(x127 * x, F128 { lo: 0x87, hi: 0 });
}

#[test]
fn byte_field_examples() {
    assert_eq!(F8(0x53).mul(F8(0xca)), F8(0x01));
    assert_eq!(F8(0x80).mul(F8(0x02)), F8(0x1b));
    assert_eq!(gf8_reduce(0x0100), 0x1b);
    assert_eq!(gf8_reduce(0x00ff), 0xff);
    assert_eq!(gf8_reduce(0x4000), 0x9a);
}

#[test]
fn add_into_sums_elements() {
    let mut rng = Xorshift(0xadd1);
    let a: Vec<F128> = (0..7).map(|_| rng.element()).collect();
    let b: Vec<F128> = (0..7).map(|_| rng.element()).collect();
    let mut got = a.clone();
    portable::add_into(&mut got, &b);
    for t in 0..7 {
        assert_eq!(got[t], a[t] + b[t]);
    }
    portable::add_into(&mut got, &b);
    assert_eq!(got, a);
}
