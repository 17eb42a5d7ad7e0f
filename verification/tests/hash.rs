//! Tests of the compression function and of the names of hash functions.

use blake3::platform::Platform;
use flock::blake3_core::{block_to_words, compress_in_place_portable, compress_inner};
use flock::hash::{compress_upstream, finalize_root_bytes, HashKind, UnknownHash};

const ALL: [HashKind; 2] = [HashKind::Sha256, HashKind::Blake3];

const START: [u32; 8] = [
    0x6A09E667, 0xBB67AE85, 0x3C6EF372, 0xA54FF53A, 0x510E527F, 0x9B05688C, 0x1F83D9AB, 0x5BE0CD19,
];

#[test]
fn parses_and_round_trips() {
    for kind in ALL {
        assert_eq!(HashKind::parse(kind.as_str()).unwrap(), kind);
        assert_eq!(kind.to_string(), kind.as_str());
    }
    assert_eq!(HashKind::parse("BLAKE3").unwrap(), HashKind::Blake3);
    assert_eq!(HashKind::parse("sha-256").unwrap(), HashKind::Sha256);
    assert_eq!(HashKind::parse("  blake3 ").unwrap(), HashKind::Blake3);
    assert_eq!(HashKind::default(), HashKind::Sha256);
    assert!(HashKind::parse("keccak").is_err());
    assert!(HashKind::parse("").is_err());
}

#[test]
fn unknown_names_give_the_error() {
    assert_eq!(HashKind::parse("sha 256"), Err(UnknownHash));
    assert_eq!(HashKind::parse("blake3x"), Err(UnknownHash));
    assert_eq!(HashKind::parse("\u{2003}Sha256\n"), Ok(HashKind::Sha256));
}

#[test]
fn compress_inner_matches_upstream_on_every_block() {
    let platform = Platform::detect();
    let varied: [u8; 64] = std::array::from_fn(|i| ((i / 4) as u32).wrapping_mul(0x9E37_79B9).to_le_bytes()[i % 4]);
    let blocks: [[u8; 64]; 3] = [varied, [0u8; 64], [0xFFu8; 64]];
    for block in &blocks {
        for counter in [0u64, 1, 0xFFFF_FFFF_FFFF_FFFF, 0xDEAD_BEEF_CAFE_F00D] {
            for flags in [0u8, 1, 2, 1 | 2, 1 | 2 | 4, 1 | 2 | 8] {
                for block_len in [0u8, 1, 32, 63, 64] {
                    let mut cv_ref = START;
                    platform.compress_in_place(&mut cv_ref, block, block_len, counter, flags);
                    for bmi2 in [false, true] {
                        let mut cv_ours = START;
                        compress_inner(&mut cv_ours, block, block_len, counter, flags, bmi2);
                        assert_eq!(
                            cv_ours, cv_ref,
                            "block_len={block_len} counter=0x{counter:016x} flags=0x{flags:02x}"
                        );
                    }
                }
            }
        }
    }
}

#[test]
fn compress_in_place_portable_matches_upstream() {
    let platform = Platform::detect();
    let block = [0u8; 64];
    let mut cv_ref = START;
    platform.compress_in_place(&mut cv_ref, &block, 64, 0, 0);
    let mut cv_ours = START;
    compress_in_place_portable(&mut cv_ours, &block, 64, 0, 0);
    assert_eq!(cv_ours, cv_ref);
}

#[test]
fn block_to_words_matches_from_le_bytes() {
    let block: [u8; 64] = std::array::from_fn(|i| (i as u8).wrapping_mul(37).wrapping_add(11));
    let words_ref: [u32; 16] =
        std::array::from_fn(|i| u32::from_le_bytes(block[i * 4..i * 4 + 4].try_into().unwrap()));
    assert_eq!(block_to_words(&block), words_ref);
}

#[test]
fn the_outside_compression_is_this_one() {
    let block: [u8; 64] = std::array::from_fn(|i| i as u8);
    let mut a = START;
    let mut b = START;
    compress_upstream(&mut a, &block, 64, 3, 11);
    compress_inner(&mut b, &block, 64, 3, 11, true);
    assert_eq!(a, b);
    assert_ne!(a, START);
}

#[test]
fn root_bytes_are_the_compressed_words() {
    let bytes = finalize_root_bytes(START, 0, 1 | 2 | 8);
    assert_eq!(bytes[..], blake3::hash(b"").as_bytes()[..]);
}
