//! Tests of the node and root kernels.

use flock::compression::flags;
use flock::compression::{
    compress, compress_node, compress_root, permute, resolve_g_macro_unroll, GMacroUnroll, KernelKnobs, CHUNK_END,
    CHUNK_START, G_MACRO_UNROLL_DEFAULT, IV, PARENT,
};

fn u32x8_from(bytes: &[u8; 32]) -> [u32; 8] {
    std::array::from_fn(|i| u32::from_le_bytes(bytes[4 * i..4 * i + 4].try_into().unwrap()))
}

#[test]
fn dual_kernels_agree_on_zero_block() {
    let cv = [0u32; 8];
    let m = [0u32; 16];
    let root = compress(&cv, &m, CHUNK_START | CHUNK_END, true);
    let node = compress(&cv, &m, 0, false);
    let _ = u32x8_from(&[0u8; 32]);
    assert_eq!(root.len(), 8);
    assert_eq!(node.len(), 8);
}

#[test]
fn kernel_knobs_reflect_features() {
    let knobs = KernelKnobs::current();
    assert_eq!(knobs.g_macro_unroll, resolve_g_macro_unroll());
}

#[test]
fn flags_do_not_reach_the_kernels() {
    let cv: [u32; 8] = std::array::from_fn(|i| i as u32);
    let m: [u32; 16] = std::array::from_fn(|i| 3 * i as u32 + 1);
    let want = compress_node(&cv, &m, PARENT);
    assert_eq!(compress_root(&cv, &m, 0), want);
    assert_eq!(compress(&cv, &m, 0, false), want);
    assert_eq!(compress(&cv, &m, CHUNK_START, true), want);
    assert_ne!(want, cv);
}

#[test]
fn permute_mixes_the_halves() {
    let mut state: [u32; 16] = std::array::from_fn(|i| 1 << i);
    permute(&mut state);
    assert_eq!(state[0], 1 | (1 << 8));
    assert_eq!(state[8], (1 << 8) ^ IV[0]);
}

#[test]
fn configuration_of_this_build() {
    let knobs = KernelKnobs::current();
    assert!(!knobs.specialize_root && !knobs.inline_message_schedule && !knobs.avx2_rotate_via_pshufb);
    assert_eq!(knobs.g_macro_unroll, G_MACRO_UNROLL_DEFAULT);
    assert_eq!(G_MACRO_UNROLL_DEFAULT, GMacroUnroll::Round);
    assert_eq!(flags::PARENT | flags::ROOT | flags::CHUNK_START | flags::CHUNK_END, 15);
}
