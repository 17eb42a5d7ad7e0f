//! Tests of the sixteen-way hashes.

use blake3::hazmat::{merge_subtrees_non_root, HasherExt, Mode};
use flock::merkle::{hash16_leaves, hash16_parents, BLAKE3_CHUNK_END, BLAKE3_CHUNK_START};

#[test]
fn hash16_parents_matches_scalar() {
    let n: usize = 16;
    let mut children: Vec<u8> = Vec::with_capacity(n * 64);
    for i in 0..n {
        for k in 0..64 {
            children.push(((i * 73 + k * 19) & 0xff) as u8);
        }
    }
    let inputs: [&[u8]; 16] = std::array::from_fn(|i| &children[i * 64..]);
    let mut batched = vec![0u8; n * 32];
    hash16_parents(&inputs, &mut batched);
    for i in 0..n {
        let l: [u8; 32] = children[i * 64..i * 64 + 32].try_into().unwrap();
        let r: [u8; 32] = children[i * 64 + 32..i * 64 + 64].try_into().unwrap();
        let scalar = merge_subtrees_non_root(&l, &r, Mode::Hash);
        assert_eq!(&batched[i * 32..(i + 1) * 32], &scalar[..], "parent {i}");
    }
}

#[test]
fn hash16_leaves_matches_scalar_64() {
    let n: usize = 16;
    let data: Vec<u8> = (0..n * 64).map(|i| (i & 0xff) as u8).collect();
    let inputs: [&[u8]; 16] = std::array::from_fn(|i| &data[i * 64..]);
    let mut batched = vec![0u8; n * 32];
    hash16_leaves::<64>(&inputs, BLAKE3_CHUNK_START, BLAKE3_CHUNK_END, &mut batched);
    for i in 0..n {
        let leaf = &data[i * 64..(i + 1) * 64];
        let scalar = blake3::Hasher::new().update(leaf).finalize_non_root();
        assert_eq!(&batched[i * 32..(i + 1) * 32], &scalar[..], "leaf {i}");
    }
}

#[test]
fn hash16_leaves_matches_scalar_128() {
    let n: usize = 16;
    let data: Vec<u8> = (0..n * 128).map(|i| (i & 0xff) as u8).collect();
    let inputs: [&[u8]; 16] = std::array::from_fn(|i| &data[i * 128..]);
    let mut batched = vec![0u8; n * 32];
    hash16_leaves::<128>(&inputs, BLAKE3_CHUNK_START, BLAKE3_CHUNK_END, &mut batched);
    for i in 0..n {
        let leaf = &data[i * 128..(i + 1) * 128];
        let scalar = blake3::Hasher::new().update(leaf).finalize_non_root();
        assert_eq!(&batched[i * 32..(i + 1) * 32], &scalar[..], "leaf {i}");
    }
}
