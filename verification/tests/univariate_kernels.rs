//! Tests of the leaf kernels, of their accumulation and of the padded producer.

use flock::field::gf2_128::F128;
use flock::field::gf2_8::F8;
use flock::zerocheck::univariate_skip_optimized::inv_table::InvNttTableByteSingleGf8;
use flock::zerocheck::univariate_skip_optimized::kernels::{
    accumulate_c_banks, accumulate_c_banks_scalar, accumulate_convert_ab, accumulate_convert_with_s_hat_v,
    bit_transpose_64bytes, shift_reduce_inner_ab_x86_avx512, shift_reduce_inner_ab_x86_sse,
};
use flock::zerocheck::univariate_skip_optimized::pad_skip::{
    precompute_round1_ab_inner_windows_padded, store_class, BMedPadPlan, PaddingSpec,
};

#[test]
fn accumulate_c_banks_avx512_matches_scalar() {
    let mut c_block = [0u8; 16 * 64];
    for (i, byte) in c_block.iter_mut().enumerate() {
        *byte = (i as u8).wrapping_mul(0x9d).rotate_left((i & 7) as u32) ^ (i >> 3) as u8;
    }
    let mut mask_tables = [F128::zero(); 512];
    for (i, value) in mask_tables.iter_mut().enumerate() {
        let x = i as u64;
        *value = F128 {
            lo: x.wrapping_mul(0x9e37_79b9_7f4a_7c15) ^ 0x0123_4567_89ab_cdef,
            hi: x.rotate_left(29).wrapping_mul(0xd6e8_feb8_6659_fd93) ^ 0xfedc_ba98_7654_3210,
        };
    }
    for n_b_med in 0..=16 {
        let mut scalar = [[F128::zero(); 64]; 8];
        for (bank_index, bank) in scalar.iter_mut().enumerate() {
            for (lane, value) in bank.iter_mut().enumerate() {
                *value = F128 {
                    lo: ((bank_index * 64 + lane) as u64).wrapping_mul(0xa24b_aed4_963e_e407),
                    hi: ((lane * 8 + bank_index) as u64).wrapping_mul(0x9fb2_1c65_1e98_df25),
                };
            }
        }
        let before = scalar;
        let mut simd = scalar;
        accumulate_c_banks_scalar(&c_block, n_b_med, &mask_tables, &mut scalar);
        accumulate_c_banks(&c_block, n_b_med, &mask_tables, &mut simd);
        assert_eq!(simd, scalar, "n_b_med={n_b_med}");
        let mask: usize = (0..n_b_med).map(|b| (((c_block[64 * b + 5] >> 3) & 1) as usize) << b).sum();
        let want = before[3][5] + (mask_tables[mask & 0xff] + mask_tables[256 + (mask >> 8)]);
        assert_eq!(scalar[3][5], want, "n_b_med={n_b_med}");
    }
}

#[test]
fn bit_transpose_moves_every_bit() {
    let input: [u8; 64] = std::array::from_fn(|i| (i as u8).wrapping_mul(0x35) ^ 0x5c);
    let mut output = [0u8; 64];
    bit_transpose_64bytes(&input, &mut output);
    for j in 0..8 {
        for i in 0..8 {
            for q in 0..8 {
                assert_eq!((output[8 * j + i] >> q) & 1, (input[8 * q + j] >> i) & 1);
            }
        }
    }
}

fn table() -> InvNttTableByteSingleGf8 {
    InvNttTableByteSingleGf8::new(&std::array::from_fn(|t| {
        std::array::from_fn(|i| ((i * 37 + t * 101 + 3) as u8).rotate_left(t as u32))
    }))
}

fn leaf(t: &InvNttTableByteSingleGf8, a: &[u8], b: &[u8]) -> [u8; 64] {
    let mut acc = [0u8; 64];
    let mut x = [F8(0); 64];
    let mut y = [F8(0); 64];
    for k in 0..8 {
        t.apply(&a[8 * k..8 * k + 8], &mut x);
        t.apply(&b[8 * k..8 * k + 8], &mut y);
        for i in 0..64 {
            acc[i] ^= x[i].mul(y[i]).mul(F8(1 << k)).0;
        }
    }
    acc
}

#[test]
fn both_leaf_kernels_compute_the_window() {
    let t = table();
    let a: Vec<u8> = (0..4096).map(|i| (i * 7 + i / 256) as u8).collect();
    let b: Vec<u8> = (0..4096).map(|i| (i * 13 + 5 + i / 64) as u8).collect();
    for (base, b_med) in [(0usize, 0usize), (1024, 3), (3072, 15)] {
        let at = base + 64 * b_med;
        let want = leaf(&t, &a[at..at + 64], &b[at..at + 64]);
        let mut narrow = [0u8; 64];
        let mut wide = [0u8; 64];
        let mut x = [F8(0); 64];
        let mut y = [F8(0); 64];
        shift_reduce_inner_ab_x86_sse(&a, &b, &t, base, b_med, &mut narrow, &mut x, &mut y);
        shift_reduce_inner_ab_x86_avx512(&a, &b, &t, base, b_med, &mut wide);
        assert_eq!(narrow, want);
        assert_eq!(wide, want);
    }
}

#[test]
fn conversions_sum_table_entries() {
    let convert: Vec<F128> = (0..4096u64).map(|i| F128 { lo: i * i + 1, hi: i << 20 }).collect();
    let ab: [[u8; 64]; 16] = std::array::from_fn(|b| std::array::from_fn(|l| (b * 17 + l * 3) as u8));
    let c: [[u8; 64]; 16] = std::array::from_fn(|b| std::array::from_fn(|l| (b * 5 + l * 11 + 1) as u8));
    let eq = F128 { lo: 0x1234_5678, hi: 0x9abc_def0_1122_3344 };
    for n in [0usize, 1, 7, 16] {
        let start: [F128; 64] = std::array::from_fn(|l| F128 { lo: l as u64, hi: 9 });
        let mut p = start;
        accumulate_convert_ab(&ab, n, &convert, eq, &mut p);
        let mut q = start;
        let mut c0 = start;
        let mut c1 = start;
        accumulate_convert_with_s_hat_v(&ab, &c, n, &convert, eq, &mut q, &mut c0, &mut c1);
        assert_eq!(p, q);
        for l in 0..64 {
            let sum = |f: &dyn Fn(usize) -> usize| (0..n).fold(F128::zero(), |s, b| s + convert[256 * b + f(b)]);
            assert_eq!(p[l], start[l] + sum(&|b| ab[b][l] as usize) * eq);
            assert_eq!(c0[l], start[l] + sum(&|b| (c[b][l] & 0x55) as usize) * eq);
            assert_eq!(c1[l], start[l] + sum(&|b| (c[b][l] & 0xaa) as usize) * eq);
        }
    }
}

#[test]
fn the_ranked_shape_skips_one_window_in_thirty_two() {
    let plan = BMedPadPlan::new(&PaddingSpec { k_log: 14, useful_bits: 15409 });
    assert_eq!(plan.counts, vec![16u8, 15]);
    assert!(!plan.is_dense());
    assert_eq!(plan.within(7), 1);
    assert_eq!(plan.n_b_med(6), 16);
    assert_eq!(plan.n_b_med(7), 15);
    assert!(BMedPadPlan::new(&PaddingSpec { k_log: 14, useful_bits: 16384 }).is_dense());
    assert_eq!(BMedPadPlan::new(&PaddingSpec { k_log: 15, useful_bits: 8193 }).counts, vec![16u8, 1, 0, 0]);
    assert!(BMedPadPlan::new(&PaddingSpec { k_log: 10, useful_bits: 1 }).is_dense());
}

#[test]
fn the_padded_producer_is_dense_where_it_is_read() {
    let t = table();
    let a: Vec<u8> = (0..4096).map(|i| (i * 7 + i / 256) as u8).collect();
    let b: Vec<u8> = (0..4096).map(|i| (i * 13 + 5 + i / 64) as u8).collect();
    let plan = BMedPadPlan::new(&PaddingSpec { k_log: 14, useful_bits: 15409 });
    for (nt_out, residue, nt) in [(false, 16usize, 0u8), (true, 0, 2), (true, 16, 1), (true, 8, 0)] {
        assert_eq!(store_class(nt_out, residue), nt);
        for wide in [false, true] {
            let mut out = vec![0xEEu8; 4096];
            precompute_round1_ab_inner_windows_padded(
                &a, &b, &mut out, &t, nt_out, residue, &plan, 3, wide,
            );
            for w in 0..64 {
                let at = 64 * w;
                let outer = 3 + w / 16;
                let got = &out[at..at + 64];
                if w % 16 < plan.n_b_med(outer) {
                    assert_eq!(got, &leaf(&t, &a[at..at + 64], &b[at..at + 64])[..], "window {w}");
                } else if nt == 1 {
                    assert!(got.iter().all(|&x| x == 0));
                } else {
                    assert!(got.iter().all(|&x| x == 0xEE));
                }
            }
        }
    }
}
