//! Tests of the eight-way compression.

use flock::bits::HashMany8Inputs;
use flock::blake3_core::{blake3_compress, BLAKE3_IV};
use flock::blake3_hash_many8::{hash_many8, hash_many8_scalar, BLOCK_LEN, DEGREE, OUT_LEN_WORDS};

struct Rng(u64);

impl Rng {
    fn nx(&mut self) -> u64 {
        self.0 = self.0.wrapping_add(0x9E37_79B9_7F4A_7C15);
        let mut z = self.0;
        z = (z ^ (z >> 30)).wrapping_mul(0xBF58_476D_1CE4_E5B9);
        z = (z ^ (z >> 27)).wrapping_mul(0x94D0_49BB_1331_11EB);
        z ^ (z >> 31)
    }
}

fn random_inputs(seed: u64) -> HashMany8Inputs<'static> {
    let mut rng = Rng(seed);
    let cvs_storage: [[u32; 8]; DEGREE] = std::array::from_fn(|_| std::array::from_fn(|_| rng.nx() as u32));
    let msgs_storage: [[u8; BLOCK_LEN]; DEGREE] = std::array::from_fn(|_| {
        let mut buf = [0u8; BLOCK_LEN];
        for chunk in buf.chunks_exact_mut(4) {
            let v = rng.nx() as u32;
            chunk.copy_from_slice(&v.to_le_bytes());
        }
        buf
    });
    let counter: [u64; DEGREE] = std::array::from_fn(|_| rng.nx() & 0xFFFF_FFFF);
    let block_len: [u32; DEGREE] = [BLOCK_LEN as u32; DEGREE];
    let flags: [u32; DEGREE] = std::array::from_fn(|i| {
        (11u32 | if i & 1 == 0 { 1 << 4 } else { 0 }) | if i & 2 == 0 { 1 << 5 } else { 0 }
    });
    let cvs: &'static [[u32; 8]; DEGREE] = Box::leak(Box::new(cvs_storage));
    let msgs: &'static [[u8; BLOCK_LEN]; DEGREE] = Box::leak(Box::new(msgs_storage));
    HashMany8Inputs::new(
        std::array::from_fn(|i| &msgs[i]),
        std::array::from_fn(|i| &cvs[i]),
        counter,
        block_len,
        flags,
    )
}

#[test]
fn hash_many8_avx2_matches_scalar() {
    for seed in 0..16u64 {
        let inputs = random_inputs(seed);
        let got = hash_many8(&inputs, true);
        let want = hash_many8_scalar(&inputs);
        for lane in 0..DEGREE {
            assert_eq!(
                got[lane], want[lane],
                "AVX2 batched disagrees with scalar at seed={seed} lane={lane}"
            );
        }
    }
}

#[test]
fn hash_many8_scalar_matches_blake3_compress() {
    for seed in 0..16u64 {
        let inputs = random_inputs(seed);
        let got = hash_many8_scalar(&inputs);
        for lane in 0..DEGREE {
            let mut m = [0u32; 16];
            let bytes = inputs.blocks[lane];
            for w in 0..16 {
                let off = w * 4;
                m[w] = u32::from_le_bytes([bytes[off], bytes[off + 1], bytes[off + 2], bytes[off + 3]]);
            }
            let st = blake3_compress(
                inputs.chaining_values[lane],
                &m,
                inputs.counter[lane],
                inputs.block_len[lane],
                inputs.flags[lane],
            );
            let mut want = [0u32; OUT_LEN_WORDS];
            want.copy_from_slice(&st[..OUT_LEN_WORDS]);
            assert_eq!(
                got[lane], want,
                "scalar batched disagrees with blake3_compress at seed={seed} lane={lane}"
            );
        }
    }
}

#[test]
fn dispatch_returns_8_chaining_values() {
    let inputs = random_inputs(0xC0FFEE);
    for avx2 in [false, true] {
        let out = hash_many8(&inputs, avx2);
        assert_eq!(out.len(), DEGREE);
        for lane in 0..DEGREE {
            assert_eq!(out[lane].len(), OUT_LEN_WORDS);
        }
        let scalar = hash_many8_scalar(&inputs);
        for lane in 0..DEGREE {
            assert_eq!(out[lane], scalar[lane], "dispatch disagreed with scalar at lane={lane}");
        }
    }
}

#[test]
fn iv_constants_match_sha256() {
    const SHA256_IV: [u32; 8] = [
        0x6a09e667, 0xbb67ae85, 0x3c6ef372, 0xa54ff53a, 0x510e527f, 0x9b05688c, 0x1f83d9ab, 0x5be0cd19,
    ];
    assert_eq!(BLAKE3_IV, SHA256_IV);
}
