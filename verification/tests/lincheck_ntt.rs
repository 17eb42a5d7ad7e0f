//! Tests of the partial folds, of the sum-check rounds, of the transforms and of
//! the slice operations behind them.

use flock::field::f128_slice::{add_scaled, fold_two_and_msg_in_place, wide};
use flock::field::gf2_128::ghash::{
    f128x4_set, ghash_mul_unreduced_x86, ghash_mul_x4, ghash_mul_x4_low_lhs, ghash_mul_x4_split, ghash_shift64_x4,
    runtime_pclmulqdq, WideGhashX4,
};
use flock::field::gf2_128::F128;
use flock::lincheck::partial_fold::{partial_fold_packed_z_x86_gfni_padded, partial_fold_packed_z_x86_tiled_padded};
use flock::lincheck::{bind_both_eval, bind_halves, eval_round, sumcheck_wide_enabled};
use flock::ntt::{
    butterfly_fused_2layer, butterfly_fused_2layer_row_from, butterfly_fused_2layer_row_from_sparse,
    butterfly_fused_4layer, butterfly_fused_4layer_row, butterfly_fused_4layer_row_lanes, butterfly_row_pair,
};

struct Xorshift(u64);

impl Xorshift {
    fn next(&mut self) -> u64 {
        self.0 ^= self.0 << 13;
        self.0 ^= self.0 >> 7;
        self.0 ^= self.0 << 17;
        self.0
    }

    fn element(&mut self) -> F128 {
        let lo = self.next();
        let hi = self.next();
        F128 { lo, hi }
    }

    fn elements(&mut self, n: usize) -> Vec<F128> {
        (0..n).map(|_| self.element()).collect()
    }
}

fn partial_fold(z: &[u8], k: usize, useful: usize, eq: &[F128]) -> Vec<F128> {
    (0..k)
        .map(|c| {
            let mut sum = F128::zero();
            if c < useful {
                for s in 0..eq.len() / 8 {
                    for t in 0..8 {
                        if (z[s * k + c] >> t) & 1 == 1 {
                            sum = sum + eq[8 * s + t];
                        }
                    }
                }
            }
            sum
        })
        .collect()
}

#[test]
fn partial_folds_agree_and_skip_padding() {
    let mut rng = Xorshift(0xabcd_0123_4567_89ef);
    for (m, k_log, useful) in [(12usize, 6usize, 64usize), (14, 7, 100), (16, 8, 193), (18, 6, 40), (17, 9, 512)] {
        let k = 1usize << k_log;
        let mut z: Vec<u8> = (0..(1usize << m) / 8).map(|_| rng.next() as u8).collect();
        let stripes = z.len() / k;
        for s in 0..stripes {
            for c in useful..k {
                z[s * k + c] = 0;
            }
        }
        let eq = rng.elements(1 << (m - k_log));
        let want = partial_fold(&z, k, useful, &eq);
        assert_eq!(partial_fold_packed_z_x86_gfni_padded(&z, m, k_log, useful, &eq), want, "m={m} k_log={k_log}");
        assert_eq!(partial_fold_packed_z_x86_tiled_padded(&z, m, k_log, useful, &eq), want, "m={m} k_log={k_log}");
    }
}

#[test]
fn narrow_rows_fold_in_tiles() {
    let mut rng = Xorshift(0x7777_1111_2222_3333);
    let z: Vec<u8> = (0..(1usize << 10) / 8).map(|_| rng.next() as u8).collect();
    let eq = rng.elements(1 << 7);
    assert_eq!(partial_fold_packed_z_x86_tiled_padded(&z, 10, 3, 8, &eq), partial_fold(&z, 8, 8, &eq));
}

fn dot(a: &[F128], b: &[F128]) -> F128 {
    a.iter().zip(b).fold(F128::zero(), |s, (x, y)| s + *x * *y)
}

fn sums(a: &[F128], b: &[F128]) -> Vec<F128> {
    a.iter().zip(b).map(|(x, y)| *x + *y).collect()
}

fn bound(lo: &[F128], hi: &[F128], r: F128) -> Vec<F128> {
    lo.iter().zip(hi).map(|(x, y)| *x + r * (*x + *y)).collect()
}

#[test]
fn sum_check_rounds_agree_in_both_forms() {
    let mut rng = Xorshift(0x2222_3333_4444_5555);
    for n in [0usize, 1, 3, 4, 8, 13, 40] {
        let v: Vec<Vec<F128>> = (0..8).map(|_| rng.elements(n)).collect();
        let r = rng.element();
        for wide in [false, true] {
            let e = eval_round(&v[0], &v[1], &v[2], &v[3], wide);
            assert_eq!(e.0, dot(&v[1], &v[3]));
            assert_eq!(e.1, dot(&sums(&v[1], &v[0]), &sums(&v[3], &v[2])));
            let mut lo = v[0].clone();
            bind_halves(&mut lo, &v[1], r, wide);
            assert_eq!(lo, bound(&v[0], &v[1], r));
            let (mut c0, mut c1, mut z0, mut z1) = (v[0].clone(), v[1].clone(), v[4].clone(), v[5].clone());
            let e = bind_both_eval(&mut c0, &mut c1, &v[2], &v[3], &mut z0, &mut z1, &v[6], &v[7], r, wide);
            assert_eq!(c0, bound(&v[0], &v[2], r));
            assert_eq!(c1, bound(&v[1], &v[3], r));
            assert_eq!(z0, bound(&v[4], &v[6], r));
            assert_eq!(z1, bound(&v[5], &v[7], r));
            assert_eq!(e.0, dot(&c1, &z1));
            assert_eq!(e.1, dot(&sums(&c1, &c0), &sums(&z1, &z0)));
        }
    }
    assert!(sumcheck_wide_enabled(true, false));
    assert!(!sumcheck_wide_enabled(true, true));
    assert!(!sumcheck_wide_enabled(false, false));
}

#[test]
fn slices_fold_in_place_and_accumulate() {
    let mut rng = Xorshift(0x9090_8080_7070_6060);
    for n in [0usize, 4, 8, 12, 40] {
        let f = rng.elements(n);
        let b = rng.elements(n);
        let r = rng.element();
        let (mut f2, mut b2) = (f.clone(), b.clone());
        let u = fold_two_and_msg_in_place(&mut f2, &mut b2, r);
        let fold = |v: &[F128]| -> Vec<F128> { v.chunks(2).map(|p| p[0] + r * (p[0] + p[1])).collect() };
        assert_eq!(f2, fold(&f));
        assert_eq!(b2, fold(&b));
        let mut want = (F128::zero(), F128::zero());
        for i in 0..f2.len() / 2 {
            want.0 = want.0 + f2[2 * i] * b2[2 * i];
            want.1 = want.1 + (f2[2 * i] + f2[2 * i + 1]) * (b2[2 * i] + b2[2 * i + 1]);
        }
        assert_eq!(u, want);
        let mut d = f.clone();
        add_scaled(&mut d, &b, r);
        assert_eq!(d, f.iter().zip(&b).map(|(x, y)| *x + r * *y).collect::<Vec<_>>());
    }
    let src = rng.elements(26);
    let add = rng.elements(26);
    let (r, s) = (rng.element(), rng.element());
    let mut plain = vec![F128::zero(); 11];
    let mut cached = vec![F128::zero(); 11];
    wide::fold_pairs_with_scaled_addend(&src, &add, 2, &mut plain, r, s);
    wide::fold_pairs_with_scaled_addend_cached(&src, &add, 2, &mut cached, r, s);
    assert_eq!(plain, cached);
    let x = |i: usize| src[i] + s * add[i];
    assert_eq!(plain[3], x(10) + r * (x(10) + x(11)));
}

#[test]
fn wide_products_are_products() {
    let mut rng = Xorshift(0x3333_2222_1111_0000);
    let a = rng.elements(4);
    let b = rng.elements(4);
    let (x, y) = (f128x4_set(a[0], a[1], a[2], a[3]), f128x4_set(b[0], b[1], b[2], b[3]));
    let p = ghash_mul_x4(x, y);
    let split = ghash_mul_x4_split(x, y, ghash_shift64_x4(y));
    let low = ghash_mul_x4_low_lhs(x, y);
    let mut acc = WideGhashX4::zero();
    acc.mul_acc(x, y);
    acc.mul_acc(y, y);
    let lanes = acc.reduce_lanes();
    let mut total = F128::zero();
    for i in 0..4 {
        assert_eq!(p.lanes[i], a[i] * b[i]);
        assert_eq!(split.lanes[i], a[i] * b[i]);
        assert_eq!(low.lanes[i], F128 { lo: a[i].lo, hi: 0 } * b[i]);
        assert_eq!(lanes.lanes[i], a[i] * b[i] + b[i] * b[i]);
        assert_eq!(ghash_mul_unreduced_x86(a[i], b[i]).reduce(), a[i] * b[i]);
        total = total + lanes.lanes[i];
    }
    assert_eq!(acc.fold().reduce(), total);
    assert_eq!(runtime_pclmulqdq(0, 2), (true, 1));
    assert_eq!(runtime_pclmulqdq(0, 1), (false, 2));
    assert_eq!(runtime_pclmulqdq(2, 2), (false, 2));
}

fn layers(x: &mut [F128], tw: &[F128]) {
    let mut half = x.len() / 2;
    let mut first = 0;
    while half > 0 {
        for j in 0..x.len() {
            if j % (2 * half) < half {
                let t = tw[first + j / (2 * half)];
                let u = x[j] + t * x[j + half];
                x[j + half] = x[j + half] + u;
                x[j] = u;
            }
        }
        first = 2 * first + 1;
        half /= 2;
    }
}

#[test]
fn fused_layers_are_single_layers() {
    let mut rng = Xorshift(0x4444_5555_6666_7777);
    let tw: [F128; 15] = std::array::from_fn(|_| rng.element());
    let mut v: [F128; 16] = std::array::from_fn(|_| rng.element());
    let mut want = v;
    butterfly_fused_4layer(&mut v, &tw);
    layers(&mut want, &tw);
    assert_eq!(v, want);
}

#[test]
fn row_transforms_touch_their_rows_only() {
    let mut rng = Xorshift(0x8888_9999_aaaa_bbbb);
    let small: [F128; 15] = std::array::from_fn(|i| F128 { lo: rng.next() >> i, hi: 0 });
    let big: [F128; 15] = std::array::from_fn(|_| rng.element());
    for (part, num, lanes) in [(2usize, 5usize, 5usize), (1, 8, 6), (3, 4, 4)] {
        for tw in [&small, &big] {
            for low in [false, true] {
                let data = rng.elements(16 * part * num);
                for r in 0..part {
                    let mut got = data.clone();
                    if lanes == num {
                        butterfly_fused_4layer_row(&mut got, part, num, r, tw, low);
                    } else {
                        butterfly_fused_4layer_row_lanes(&mut got, part, num, r, tw, lanes, low);
                    }
                    let mut want = data.clone();
                    for l in 0..lanes {
                        let mut col: Vec<F128> = (0..16).map(|i| data[(i * part + r) * num + l]).collect();
                        layers(&mut col, tw);
                        for i in 0..16 {
                            want[(i * part + r) * num + l] = col[i];
                        }
                    }
                    assert_eq!(got, want, "part={part} num={num} r={r} low={low}");
                }
            }
        }
    }
}

#[test]
fn two_layer_transforms_agree() {
    let mut rng = Xorshift(0xcccc_dddd_eeee_ffff);
    for n in [1usize, 4, 7, 9] {
        for low in [false, true] {
            let tw = [rng.element(), F128 { lo: rng.next(), hi: 0 }, rng.element()];
            let rows: Vec<Vec<F128>> = (0..4).map(|_| rng.elements(n)).collect();
            let (mut a, mut b, mut c, mut d) = (rows[0].clone(), rows[1].clone(), rows[2].clone(), rows[3].clone());
            butterfly_fused_2layer(&mut a, &mut b, &mut c, &mut d, tw[0], tw[1], tw[2], low);
            for k in 0..n {
                let mut x = [rows[0][k], rows[1][k], rows[2][k], rows[3][k]];
                layers(&mut x, &tw);
                assert_eq!(x, [a[k], b[k], c[k], d[k]]);
            }
            let (mut top, mut bot) = (rows[0].clone(), rows[1].clone());
            butterfly_row_pair(&mut top, &mut bot, tw[1], low);
            for k in 0..n {
                let mut x = [rows[0][k], rows[1][k]];
                layers(&mut x, &[tw[1]]);
                assert_eq!(x, [top[k], bot[k]]);
            }
            let src = rng.elements(4 * 2 * n);
            let keep = rng.elements(4 * 2 * n);
            for (twiddles, sparse) in [(tw, false), ([F128::zero(), F128::zero(), tw[2]], true)] {
                let mut got = keep.clone();
                if sparse {
                    butterfly_fused_2layer_row_from_sparse(&src, &mut got, 2, n, 1, tw[2], low);
                } else {
                    butterfly_fused_2layer_row_from(&src, &mut got, 2, n, 1, &twiddles, low);
                }
                let mut want = keep.clone();
                for l in 0..n {
                    let mut x: Vec<F128> = (0..4).map(|i| src[(i * 2 + 1) * n + l]).collect();
                    layers(&mut x, &twiddles);
                    for i in 0..4 {
                        want[(i * 2 + 1) * n + l] = x[i];
                    }
                }
                assert_eq!(got, want, "n={n} sparse={sparse}");
            }
        }
    }
}
