//! Tests of the packed witness rows.

use flock::blake3_core::blake3_compress;
use flock::lanes::{
    permt2d, shuffle_quarters, tr8, Lanes, TR8Z_IDX1_HI, TR8Z_IDX1_LO, TR8Z_IDX2_HI, TR8Z_IDX2_LO, TR8Z_SHUF_HI,
    TR8Z_SHUF_LO,
};
use flock::r1cs_hashes::blake3_witgen16::{build_hexa_witness_ab_stream_elide, HexaInputs};
use flock::r1cs_hashes::blake3_witgen8::{
    build_octa_witness_ab_stream_elide, dump_range, dump_range_nt, dump_range_nt_win, tr8_chunk, tr8z_chunk_pair,
};
use flock::r1cs_hashes::{
    Compression, DUMP_CHUNKS, ELIDE_B_PREFIX_CHUNKS, ELIDE_B_TAIL_CHUNK, ELIDE_ZERO_CHUNK, OUT_HI_BASE, U32_PER_BLOCK,
    USEFUL_BITS,
};
use flock::seed_pipe::generator::{gen_block, generator_init};

struct Rng(u64);

impl Rng {
    fn next_u32(&mut self) -> u32 {
        self.0 = self.0.wrapping_add(0x9E3779B97F4A7C15);
        let mut z = self.0;
        z = (z ^ (z >> 30)).wrapping_mul(0xBF58476D1CE4E5B9);
        z = (z ^ (z >> 27)).wrapping_mul(0x94D049BB133111EB);
        (z ^ (z >> 31)) as u32
    }
}

#[test]
fn witgen8_tr8_is_8x8_u32_transpose() {
    let rows: [Lanes<8>; 8] =
        core::array::from_fn(|i| Lanes { lanes: core::array::from_fn(|j| (1000 * i + j) as u32) });
    let t = tr8(rows);
    for j in 0..8 {
        for i in 0..8 {
            assert_eq!(t[j].lanes[i], (1000 * i + j) as u32, "t[{j}] lane {i}");
        }
    }
    let back = tr8(t);
    for i in 0..8 {
        assert_eq!(back[i].lanes, rows[i].lanes, "row {i}");
    }
}

#[test]
fn witgen8_tr8z_network_model_is_pair_transpose() {
    let mut rng = Rng(0x7852_0001);
    for _ in 0..64 {
        let m: [[u32; 8]; 16] = core::array::from_fn(|_| core::array::from_fn(|_| rng.next_u32()));
        let z: [Lanes<16>; 8] = core::array::from_fn(|k| Lanes {
            lanes: core::array::from_fn(|d| if d < 8 { m[2 * k][d] } else { m[2 * k + 1][d - 8] }),
        });
        let p: [Lanes<16>; 4] = core::array::from_fn(|i| permt2d(z[2 * i], &TR8Z_IDX1_LO, z[2 * i + 1]));
        let q: [Lanes<16>; 4] = core::array::from_fn(|i| permt2d(z[2 * i], &TR8Z_IDX1_HI, z[2 * i + 1]));
        let s = [
            permt2d(p[0], &TR8Z_IDX2_LO, p[1]),
            permt2d(p[0], &TR8Z_IDX2_HI, p[1]),
            permt2d(q[0], &TR8Z_IDX2_LO, q[1]),
            permt2d(q[0], &TR8Z_IDX2_HI, q[1]),
            permt2d(p[2], &TR8Z_IDX2_LO, p[3]),
            permt2d(p[2], &TR8Z_IDX2_HI, p[3]),
            permt2d(q[2], &TR8Z_IDX2_LO, q[3]),
            permt2d(q[2], &TR8Z_IDX2_HI, q[3]),
        ];
        for c in 0..8 {
            let imm = if c % 2 == 0 { TR8Z_SHUF_LO } else { TR8Z_SHUF_HI };
            let out = shuffle_quarters(s[c / 2], s[c / 2 + 4], imm);
            for d in 0..16 {
                assert_eq!(out.lanes[d], m[d][c], "column {c} lane {d}");
            }
        }
    }
}

#[test]
fn witgen8_tr8z_pair_matches_two_tr8() {
    let mut rng = Rng(0x7852_0002);
    for _ in 0..64 {
        let stage: Vec<Lanes<8>> =
            (0..16).map(|_| Lanes { lanes: core::array::from_fn(|_| rng.next_u32()) }).collect();
        let ta = tr8_chunk(&stage, 0);
        let tb = tr8_chunk(&stage, 8);
        let t = tr8z_chunk_pair(&stage, 0);
        for r in 0..8 {
            assert_eq!(t[r].lanes[..8], ta[r].lanes, "pair row {r} low half");
            assert_eq!(t[r].lanes[8..], tb[r].lanes, "pair row {r} high half");
        }
    }
}

#[test]
fn witgen8_paired_nt_dumps_match_temporal_reference() {
    const WORDS: usize = 8 * U32_PER_BLOCK;
    let mut rng = Rng(0x7852_0003);
    let stage: Vec<Lanes<8>> =
        (0..U32_PER_BLOCK).map(|_| Lanes { lanes: core::array::from_fn(|_| rng.next_u32()) }).collect();
    let cases = [
        (0, DUMP_CHUNKS),
        (ELIDE_B_PREFIX_CHUNKS, DUMP_CHUNKS),
        (0, ELIDE_ZERO_CHUNK),
        (0, ELIDE_B_TAIL_CHUNK),
        (ELIDE_B_PREFIX_CHUNKS, ELIDE_B_TAIL_CHUNK),
        (3, DUMP_CHUNKS - 3),
    ];
    let mk = |seed: u64| -> Vec<u32> {
        let mut r = Rng(seed);
        (0..WORDS).map(|_| r.next_u32()).collect()
    };
    for (case, &(g0, g1)) in cases.iter().enumerate() {
        for paired in [false, true] {
            let seed = 0x7852_1000 + case as u64;
            let mut dst = mk(seed);
            let mut reference = mk(seed);
            let mut dst_w = mk(seed);
            let mut win = mk(seed ^ 1);
            let mut win_ref = mk(seed ^ 2);
            dump_range_nt(&stage, &mut dst, g0, g1, paired);
            dump_range_nt_win(&stage, &mut dst_w, &mut win, g0, g1, paired);
            dump_range(&stage, &mut reference, g0, g1);
            dump_range(&stage, &mut win_ref, 0, DUMP_CHUNKS);
            assert_eq!(dst, reference, "nt dump, g0={g0} g1={g1}");
            assert_eq!(dst_w, reference, "win dump dst, g0={g0} g1={g1}");
            assert_eq!(win, win_ref, "win dump window, g0={g0} g1={g1}");
        }
    }
}

fn bits(words: &[u32], at: usize, width: usize) -> u32 {
    (0..width).fold(0, |acc, i| acc | (((words[(at + i) / 32] >> ((at + i) % 32)) & 1) << i))
}

/// The rows of one block, against the compression it describes.
fn check_block(c: &Compression, z: &[u32], a: &[u32], b: &[u32]) {
    let out = blake3_compress(&c.0, &c.1, c.2, c.3, c.4);
    for w in 0..U32_PER_BLOCK {
        assert_eq!(z[w], a[w] & b[w], "word {w}");
    }
    for w in 0..8 {
        assert_eq!(z[w], c.0[w], "cv word {w}");
        assert_eq!(z[8 + w], out[w], "output word {w}");
        assert_eq!(bits(z, OUT_HI_BASE + 32 * w, 32), out[8 + w], "upper output word {w}");
    }
    assert_eq!(bits(z, 512, 1), 1);
    for w in 0..16 {
        assert_eq!(bits(z, 513 + 32 * w, 32), c.1[w], "message word {w}");
    }
    assert_eq!(bits(z, 1025, 32), c.2 as u32);
    assert_eq!(bits(z, 1057, 32), (c.2 >> 32) as u32);
    assert_eq!(bits(z, 1089, 32), c.3);
    assert_eq!(bits(z, 1121, 32), c.4);
    for p in USEFUL_BITS..32 * U32_PER_BLOCK {
        assert_eq!(bits(z, p, 1), 0, "padding bit {p}");
        assert_eq!(bits(a, p, 1), 0, "padding bit {p}");
    }
}

#[test]
fn octa_rows_describe_their_compressions() {
    let init = generator_init(3, 77);
    let cs: Vec<Compression> = (0..8).map(|i| gen_block(init, i)).collect();
    let refs: [&Compression; 8] = core::array::from_fn(|i| &cs[i]);
    let mut plain: Option<(Vec<u32>, Vec<u32>, Vec<u32>)> = None;
    for fused in [false, true] {
        for pairs in [false, true] {
            let mut z = vec![0u32; 8 * U32_PER_BLOCK];
            let mut a = z.clone();
            let mut b = z.clone();
            let mut win_a = z.clone();
            let mut win_b = z.clone();
            build_octa_witness_ab_stream_elide(
                refs, &mut z, &mut a, &mut b, fused, &mut win_a, &mut win_b, [false; 3], fused, pairs,
            );
            for i in 0..8 {
                let r = i * U32_PER_BLOCK..(i + 1) * U32_PER_BLOCK;
                check_block(&cs[i], &z[r.clone()], &a[r.clone()], &b[r]);
            }
            if fused {
                assert_eq!(win_a, a);
                assert_eq!(win_b, b);
            }
            match &plain {
                None => plain = Some((z, a, b)),
                Some(p) => assert_eq!(*p, (z, a, b)),
            }
        }
    }
}

#[test]
fn elision_leaves_whole_blocks_whole() {
    let init = generator_init(3, 5);
    let cs: Vec<Compression> = (0..8).map(|i| gen_block(init, i)).collect();
    let refs: [&Compression; 8] = core::array::from_fn(|i| &cs[i]);
    let other: Vec<Compression> = (8..16).map(|i| gen_block(init, i)).collect();
    let other_refs: [&Compression; 8] = core::array::from_fn(|i| &other[i]);
    let mut z = vec![0u32; 8 * U32_PER_BLOCK];
    let mut a = z.clone();
    let mut b = z.clone();
    let (mut wa, mut wb): (Vec<u32>, Vec<u32>) = (vec![], vec![]);
    build_octa_witness_ab_stream_elide(
        refs, &mut z, &mut a, &mut b, false, &mut wa, &mut wb, [false; 3], false, false,
    );
    build_octa_witness_ab_stream_elide(
        other_refs, &mut z, &mut a, &mut b, false, &mut wa, &mut wb, [true; 3], true, true,
    );
    for i in 0..8 {
        let r = i * U32_PER_BLOCK..(i + 1) * U32_PER_BLOCK;
        check_block(&other[i], &z[r.clone()], &a[r.clone()], &b[r]);
    }
}

#[test]
fn hexa_rows_are_those_of_two_octas() {
    let init = generator_init(4, 9);
    let cs: Vec<Compression> = (0..16).map(|i| gen_block(init, i)).collect();
    let n = 16 * U32_PER_BLOCK;
    let (mut z, mut a, mut b) = (vec![0u32; n], vec![0u32; n], vec![0u32; n]);
    build_hexa_witness_ab_stream_elide(
        HexaInputs::Blocks(core::array::from_fn(|i| &cs[i])), &mut z, &mut a, &mut b, [false; 3],
    );
    let (mut z2, mut a2, mut b2) = (vec![0u32; n], vec![0u32; n], vec![0u32; n]);
    build_hexa_witness_ab_stream_elide(HexaInputs::closed(init, 0), &mut z2, &mut a2, &mut b2, [false; 3]);
    assert_eq!(z, z2);
    assert_eq!(a, a2);
    assert_eq!(b, b2);
    for i in 0..16 {
        let r = i * U32_PER_BLOCK..(i + 1) * U32_PER_BLOCK;
        check_block(&cs[i], &z[r.clone()], &a[r.clone()], &b[r]);
    }
}
