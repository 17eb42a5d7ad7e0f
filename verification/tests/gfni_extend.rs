//! Tests of the row extension and of the fused product.

use flock::bytes64::{qword_transpose, Bytes64};
use flock::field::gf2_8::{gf8_reduce, F8};
use flock::zerocheck::univariate_skip_optimized::gfni_extend::{
    build_extend_mats, build_extend_mats_vslice, extend64_planes, extend64_rows, flock_probe_gfni_extend64_planes,
    flock_probe_gfni_extend64_rows, flock_probe_gfni_fused_ab8, flock_probe_incumbent_ab8,
    flock_probe_incumbent_extend64, fold_butterfly, fold_final, fold_join, fold_k_reference, fold_pair, fused_ab8,
    gfni_octa_all, input_planes, broadcast_slice, out_plane, out_plane_v, prepare_extend_mats,
    round1_ab_inner_octa_gfni, urm_gfni_extend_enabled, CachedMats, EXTEND_ROWS,
};
use flock::zerocheck::univariate_skip_optimized::inv_table::{InvNttTableByteSingleGf8, CHUNKS, ELL};

fn inverse(x: F8) -> F8 {
    (1..=255u8).map(F8).find(|y| x.mul(*y) == F8(1)).unwrap()
}

/// The extension from the domain `0..64` to `64..128`: unit column `t` holds the
/// Lagrange polynomial of the point `t` at the points `64 + i`.
fn table() -> InvNttTableByteSingleGf8 {
    let cols: [[u8; 64]; 8] = std::array::from_fn(|t| {
        std::array::from_fn(|i| {
            let x = 64 + i as u8;
            let mut num = F8(1);
            let mut den = F8(1);
            for s in 0..64u8 {
                if s as usize != t {
                    num = num.mul(F8(x ^ s));
                    den = den.mul(F8(t as u8 ^ s));
                }
            }
            num.mul(inverse(den)).0
        })
    });
    InvNttTableByteSingleGf8::new(&cols)
}

fn rng(state: &mut u64) -> u64 {
    let mut x = *state;
    x ^= x >> 12;
    x ^= x << 25;
    x ^= x >> 27;
    *state = x;
    x.wrapping_mul(0x2545_F491_4F6C_DD1D)
}

fn random_rows(seed: u64) -> [u8; EXTEND_ROWS * CHUNKS] {
    let mut s = seed | 1;
    std::array::from_fn(|_| rng(&mut s) as u8)
}

fn oracle(t: &InvNttTableByteSingleGf8, src: &[u8; EXTEND_ROWS * CHUNKS]) -> Vec<u8> {
    let mut out = vec![0u8; EXTEND_ROWS * ELL];
    let mut col = [F8(0); ELL];
    for r in 0..EXTEND_ROWS {
        t.apply(&src[r * CHUNKS..r * CHUNKS + CHUNKS], &mut col);
        for i in 0..ELL {
            out[r * ELL + i] = col[i].0;
        }
    }
    out
}

#[test]
fn mats_reproduce_the_whole_table() {
    let t = table();
    let mats = build_extend_mats(&t);
    for w in 0..256usize {
        let broadcast = Bytes64([w as u8; 64]);
        for i_prime in 0..ELL {
            let got = broadcast.affine(mats[i_prime]).0[0];
            assert_eq!(got, t.data[w * ELL + i_prime], "w={w} i'={i_prime}");
        }
    }
}

#[test]
fn the_table_interpolates() {
    let t = table();
    let mut out = [F8(0); ELL];
    for chunk in 0..8usize {
        for bit in 0..8usize {
            let mut row = [0u8; 8];
            row[chunk] = 1 << bit;
            t.apply(&row, &mut out);
            let point = (8 * chunk + bit) as u8;
            for i in 0..ELL {
                let x = 64 + i as u8;
                let mut num = F8(1);
                let mut den = F8(1);
                for s in 0..64u8 {
                    if s != point {
                        num = num.mul(F8(x ^ s));
                        den = den.mul(F8(point ^ s));
                    }
                }
                assert_eq!(out[i], num.mul(inverse(den)), "point={point} i={i}");
            }
        }
    }
}

#[test]
fn extend64_rows_matches_apply() {
    let t = table();
    let mats = build_extend_mats(&t);
    for seed in [1u64, 0xC0FF_EE42, 0xDEAD_BEEF_1234_5678] {
        let src = random_rows(seed);
        let want = oracle(&t, &src);
        let mut got = vec![0u8; EXTEND_ROWS * ELL];
        extend64_rows(&src, &mats, &mut got);
        assert_eq!(got, want, "seed={seed:#x}");
    }
}

#[test]
fn extend64_planes_is_the_transpose_of_rows() {
    let t = table();
    let mats = build_extend_mats(&t);
    let src = random_rows(0x5EED_1234);
    let want = oracle(&t, &src);
    let mut planes = vec![0u8; EXTEND_ROWS * ELL];
    extend64_planes(&src, &mats, &mut planes);
    for r in 0..EXTEND_ROWS {
        for i in 0..ELL {
            assert_eq!(planes[i * ELL + r], want[r * ELL + i], "r={r} i={i}");
        }
    }
}

#[test]
fn perturbed_matrix_fails_the_oracle() {
    let t = table();
    let good = build_extend_mats(&t);
    let src = random_rows(0xA5A5_5A5A);
    let want = oracle(&t, &src);
    let mut caught = 0usize;
    for (idx, bit) in [(0usize, 0u32), (17, 31), (63, 63)] {
        let mut bad = good;
        bad[idx] ^= 1u64 << bit;
        let mut got = vec![0u8; EXTEND_ROWS * ELL];
        extend64_rows(&src, &bad, &mut got);
        assert_ne!(got, want, "flipping bit {bit} of mats[{idx}] left the output unchanged");
        caught += 1;
    }
    assert_eq!(caught, 3);
    let mut got = vec![0u8; EXTEND_ROWS * ELL];
    extend64_rows(&src, &good, &mut got);
    assert_eq!(got, want);
}

#[test]
fn v_slice_schedule_matches_the_plain_one() {
    let t = table();
    let mats = build_extend_mats(&t);
    let src = random_rows(0x1357_9BDF);
    let p = input_planes(&src);
    for v in 0..8 {
        let mv = broadcast_slice(&std::array::from_fn(|w| mats[8 * w + v]));
        for u in 0..8 {
            assert_eq!(out_plane_v(&p, &mv, u), out_plane(&p, &mats, 8 * u + v), "u={u} v={v}");
        }
    }
}

fn window_oracle(t: &InvNttTableByteSingleGf8, a: &[u8], b: &[u8]) -> [u8; ELL] {
    let mut acc = [0u16; ELL];
    let mut a_col = [F8(0); ELL];
    let mut b_col = [F8(0); ELL];
    for k in 0..8 {
        t.apply(&a[k * CHUNKS..k * CHUNKS + CHUNKS], &mut a_col);
        t.apply(&b[k * CHUNKS..k * CHUNKS + CHUNKS], &mut b_col);
        for lane in 0..ELL {
            acc[lane] ^= (a_col[lane].mul(b_col[lane]).0 as u16) << k;
        }
    }
    std::array::from_fn(|lane| gf8_reduce(acc[lane]))
}

fn fused(a: &[u8; 512], b: &[u8; 512], mats: &[[u64; 8]; 8]) -> [[u8; ELL]; 8] {
    fused_ab8(a, b, mats).map(|w| w.0)
}

#[test]
fn fused_ab8_matches_the_shift_reduce_leaf() {
    let t = table();
    let mats = build_extend_mats_vslice(&t);
    for seed in [3u64, 0x9E37_79B9_7F4A_7C15, 0x0BAD_C0DE] {
        let a = random_rows(seed);
        let b = random_rows(seed ^ 0xFFFF_FFFF);
        let got = fused(&a, &b, &mats);
        for j in 0..8 {
            let want = window_oracle(&t, &a[j * 64..j * 64 + 64], &b[j * 64..j * 64 + 64]);
            assert_eq!(got[j], want, "seed={seed:#x} window={j}");
        }
    }
}

#[test]
fn fused_ab8_negative_controls() {
    let t = table();
    let good = build_extend_mats_vslice(&t);
    let a = random_rows(0x2468_ACE0);
    let b = random_rows(0x1357_9BDF);
    let want: [[u8; ELL]; 8] =
        std::array::from_fn(|j| window_oracle(&t, &a[j * 64..j * 64 + 64], &b[j * 64..j * 64 + 64]));
    assert_eq!(fused(&a, &b, &good), want, "unperturbed fused pipeline must match");
    for (idx, bit) in [(0usize, 5u32), (41, 17), (63, 62)] {
        let mut bad = good;
        bad[idx / 8][idx % 8] ^= 1u64 << bit;
        assert_ne!(fused(&a, &b, &bad), want, "mats[{idx}] bit {bit} flip left output unchanged");
    }
    let mut a_swapped = a;
    for i in 0..64 {
        a_swapped.swap(i, 64 + i);
    }
    assert_ne!(fused(&a_swapped, &b, &good), want, "swapping windows 0 and 1 of a left output unchanged");
    let mut a_krev = a;
    for k in 0..4 {
        for byte in 0..CHUNKS {
            a_krev.swap(k * CHUNKS + byte, (7 - k) * CHUNKS + byte);
        }
    }
    assert_ne!(fused(&a_krev, &b, &good)[0], want[0], "reversing K-row order left window 0 unchanged");
}

#[test]
fn octa_scatter_addressing_and_live_mask() {
    let t = table();
    let mats = build_extend_mats_vslice(&t);
    let a = random_rows(0xC0DE_1234);
    let b = random_rows(0x5678_BEEF);
    const STRIDE: usize = 192;
    for live in [0xffu32, 0x00, 0x01, 0x80, 0b1010_1010, 0b0101_0101, 0x0f] {
        let mut buf = vec![0xAAu8; 8 * STRIDE];
        round1_ab_inner_octa_gfni(&a, &b, &mut buf, 0, STRIDE, live, &mats);
        for j in 0..8 {
            let got = &buf[j * STRIDE..j * STRIDE + ELL];
            if live & (1 << j) == 0 {
                assert!(got.iter().all(|&x| x == 0xAA), "live={live:#x} wrote dead {j}");
            } else {
                let want = window_oracle(&t, &a[j * 64..j * 64 + 64], &b[j * 64..j * 64 + 64]);
                assert_eq!(got, &want[..], "live={live:#x} window={j}");
            }
            assert!(
                buf[j * STRIDE + ELL..(j + 1) * STRIDE].iter().all(|&x| x == 0xAA),
                "live={live:#x} window={j} wrote past 64 bytes"
            );
        }
    }
}

#[test]
fn fold_butterfly_matches_transpose_then_xor() {
    let mut st = 0xF01D_u64;
    for _ in 0..64 {
        let s: [Bytes64; 8] = std::array::from_fn(|_| Bytes64(std::array::from_fn(|_| rng(&mut st) as u8)));
        let got = fold_final(
            fold_join(fold_pair(s[0], s[1]), fold_pair(s[2], s[3])),
            fold_join(fold_pair(s[4], s[5]), fold_pair(s[6], s[7])),
        );
        assert_eq!(got, fold_k_reference(s));
        assert_eq!(got, fold_butterfly(s));
        for u in 0..8 {
            let want = (0..8).fold(0u64, |acc, m| acc ^ s[u].qword(m));
            assert_eq!(got.qword(u), want, "u={u}");
        }
    }
}

#[test]
fn mulb_model_is_the_field_product() {
    for x in 0..=255u8 {
        let xv = Bytes64([x; 64]);
        for y in 0..=255u8 {
            let got = xv.mulb(Bytes64([y; 64])).0[0];
            assert_eq!(got, F8(x).mul(F8(y)).0, "x={x} y={y}");
        }
    }
}

#[test]
fn instruction_model_semantics() {
    let bt: [u8; 64] = std::array::from_fn(|i| (8 * (i % 8) + i / 8) as u8);
    let v = Bytes64(std::array::from_fn(|i| i as u8));
    let tr = v.permb(&bt);
    for j in 0..8 {
        for q in 0..8 {
            assert_eq!(tr.0[8 * j + q], (8 * q + j) as u8);
        }
    }
    assert_eq!(tr.permb(&bt), v);
    assert_eq!(tr, v.byte_transpose());

    let ident = u64::from_le_bytes([1, 2, 4, 8, 16, 32, 64, 128]).swap_bytes();
    assert_eq!(v.affine(ident), v);

    let t: [Bytes64; 8] =
        std::array::from_fn(|i| Bytes64::from_qwords(std::array::from_fn(|j| (8 * i + j) as u64)));
    let p = qword_transpose(t);
    for j in 0..8 {
        for i in 0..8 {
            assert_eq!(p[j].qword(i), (8 * i + j) as u64);
        }
    }
}

#[test]
fn mats_depend_only_on_the_unit_columns() {
    let t = table();
    let mats = build_extend_mats(&t);
    for (i_prime, m) in mats.iter().enumerate() {
        for bit in 0..8usize {
            let probe = Bytes64([1u8 << bit; 64]).affine(*m);
            assert_eq!(probe.0[0], t.data[(1usize << bit) * ELL + i_prime]);
        }
    }
    let mut changed = table();
    changed.data[3 * ELL] ^= 1;
    assert_eq!(build_extend_mats(&changed), mats);
}

#[test]
fn entry_points_agree_with_the_table_forms() {
    let t = table();
    let mats = build_extend_mats(&t);
    let slices = build_extend_mats_vslice(&t);
    let a = random_rows(11);
    let b = random_rows(12);
    let mut rows = [0u8; 4096];
    let mut planes = [0u8; 4096];
    let mut looked_up = [0u8; 4096];
    flock_probe_gfni_extend64_rows(&a, &mats, &mut rows);
    flock_probe_gfni_extend64_planes(&a, &mats, &mut planes);
    flock_probe_incumbent_extend64(&a, &t, &mut looked_up);
    assert_eq!(rows[..], looked_up[..]);
    assert_eq!(planes[64 * 5 + 9], rows[64 * 9 + 5]);
    let mut fast = [[0u8; 64]; 8];
    let mut slow = [[0u8; 64]; 8];
    flock_probe_gfni_fused_ab8(&a, &b, &slices, &mut fast);
    flock_probe_incumbent_ab8(&a, &b, &t, &mut slow);
    assert_eq!(fast, slow);
}

#[test]
fn the_matrix_cache_serves_one_table() {
    let t = table();
    let mut cache: Option<CachedMats> = None;
    assert!(prepare_extend_mats(&t, false, &mut cache).is_none());
    assert!(cache.is_none());
    let first = prepare_extend_mats(&t, true, &mut cache);
    assert_eq!(first, Some(build_extend_mats_vslice(&t)));
    assert_eq!(prepare_extend_mats(&t, true, &mut cache), first);
    let other = InvNttTableByteSingleGf8::new(&[[7u8; 64]; 8]);
    assert!(prepare_extend_mats(&other, true, &mut cache).is_none());
    let mut odd = table();
    odd.k = 5;
    assert!(prepare_extend_mats(&odd, true, &mut cache).is_none());
    assert!(urm_gfni_extend_enabled(false) && !urm_gfni_extend_enabled(true));
    assert!(gfni_octa_all(true) && !gfni_octa_all(false));
}
