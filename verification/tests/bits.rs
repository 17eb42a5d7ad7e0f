//! Tests of the bit transposes and of the interleaved layout.

use flock::bits::{
    interleaved8_block_into, transpose_8_u64s_to_64_bytes_scalar, transpose_8x8_bits, Interleaved8Block,
};
use flock::bytes64::transpose_8_u64s_to_64_bytes;

struct Rng(u64);

impl Rng {
    fn next(&mut self) -> u64 {
        self.0 = self.0.wrapping_add(0x9E3779B97F4A7C15);
        let mut z = self.0;
        z = (z ^ (z >> 30)).wrapping_mul(0xBF58476D1CE4E5B9);
        z = (z ^ (z >> 27)).wrapping_mul(0x94D049BB133111EB);
        z ^ (z >> 31)
    }
}

#[test]
fn transpose_8_u64s_matches_scalar() {
    let mut rng = Rng(0x1234_5678_9ABC_DEF0u64);
    for _ in 0..100 {
        let lanes: [u64; 8] = std::array::from_fn(|_| rng.next());
        for wide in [false, true] {
            let mut fast = [0u8; 64];
            let mut oracle = [0u8; 64];
            transpose_8_u64s_to_64_bytes(&lanes, &mut fast, wide);
            transpose_8_u64s_to_64_bytes_scalar(&lanes, &mut oracle);
            assert_eq!(fast, oracle);
        }
    }
    for lanes in [[0u64; 8], [u64::MAX; 8], std::array::from_fn(|i| 1u64 << i)] {
        for wide in [false, true] {
            let mut fast = [0u8; 64];
            let mut oracle = [0u8; 64];
            transpose_8_u64s_to_64_bytes(&lanes, &mut fast, wide);
            transpose_8_u64s_to_64_bytes_scalar(&lanes, &mut oracle);
            assert_eq!(fast, oracle, "lanes={lanes:?}");
        }
    }
}

#[test]
fn transpose_is_involution() {
    let mut state = 0x9E37_79B9_7F4A_7C15u64;
    for _ in 0..256 {
        state = state.wrapping_mul(0x2545_F491_4F6C_DD1D).rotate_left(31);
        assert_eq!(transpose_8x8_bits(transpose_8x8_bits(state)), state);
    }
}

#[test]
fn matches_naive() {
    let mut state = 0x1234_5678_9ABC_DEF0u64;
    for _ in 0..256 {
        state = state.wrapping_mul(0x2545_F491_4F6C_DD1D).rotate_left(17);
        let got = transpose_8x8_bits(state);
        let mut want = 0u64;
        for r in 0..8 {
            for c in 0..8 {
                if (state >> (r * 8 + c)) & 1 == 1 {
                    want |= 1u64 << (c * 8 + r);
                }
            }
        }
        assert_eq!(got, want, "input={state:016x}");
    }
}

#[test]
fn interleaved8_layout_is_correct() {
    let mut rng = Rng(0xB1A3_4E11);
    let blocks_storage: [[u8; 64]; 8] = std::array::from_fn(|_| std::array::from_fn(|_| rng.next() as u32 as u8));
    let blocks_refs: [&[u8; 64]; 8] = std::array::from_fn(|i| &blocks_storage[i]);
    let mut buf = Interleaved8Block::uninit();
    interleaved8_block_into(&mut buf, &blocks_refs);
    let got = buf.as_bytes();
    for byte in 0..64 {
        for lane in 0..8 {
            assert_eq!(
                got[byte * 8 + lane], blocks_storage[lane][byte],
                "transposed mismatch at byte={byte} lane={lane}"
            );
        }
    }
}

#[test]
fn interleaved_bytes_can_be_written() {
    let mut buf = Interleaved8Block::uninit();
    buf.as_bytes_mut()[511] = 7;
    assert_eq!(buf.as_bytes()[511], 7);
    assert_eq!(buf.as_bytes().len(), 512);
}
