//! Tests of the seed expansion and of the pipeline's decisions.

use flock::r1cs_hashes::Compression;
use flock::seed_pipe::blocks::{
    blocks_eq, blocks_eq_serial, blocks_for_seed, blocks_matched, fill_compressions_par, generate_compressions_par,
    prefaulted_blocks, verify_generator_at_warmup,
};
use flock::seed_pipe::generator::{gen_block, generator_init, WARMUP_SEED};
use flock::seed_pipe::line::{
    parse_seed, read_line_step, write_all_step, write_start, ReadEvent, ReadStep, WriteStep,
};
use flock::seed_pipe::pipe::{
    after_forward, after_line, arm_begins, arm_step, blocks_step, is_ranked_worker, result_step, AfterForward,
    AfterLine, ArmAction, ArmEvent, ArmState, BlocksStep, Collected, Outcome, ResultStep, BENCH_DOMAIN,
};
use flock::settings::{
    prefetch_ahead, vpclmulqdq_runtime, FOLD16_PF_AHEAD, FOLD_AVX2_PF_AHEAD, FOLD_PAIRS_PF_AHEAD,
};

struct Rng(u64);

impl Rng {
    fn next_u32(&mut self) -> u32 {
        self.0 = self.0.wrapping_add(0x9E37_79B9_7F4A_7C15);
        let mut z = self.0;
        z = (z ^ (z >> 30)).wrapping_mul(0xBF58_476D_1CE4_E5B9);
        z = (z ^ (z >> 27)).wrapping_mul(0x94D0_49BB_1331_11EB);
        (z ^ (z >> 31)) as u32
    }
}

fn reference(log2_size: u32, seed: u64) -> Vec<Compression> {
    let count = 1usize << log2_size;
    let mut rng = Rng(seed ^ u64::from(log2_size).rotate_left(29));
    (0..count)
        .map(|_| {
            let cv = std::array::from_fn(|_| rng.next_u32());
            let message = std::array::from_fn(|_| rng.next_u32());
            let counter = u64::from(rng.next_u32());
            (cv, message, counter, 64, 11)
        })
        .collect()
}

#[test]
fn seed_pipe_matches_reference_generator() {
    for &log2 in &[8u32, 12, 13] {
        for &seed in &[0u64, 1, 0x00C0_FFEE_BEEF_D15C, u64::MAX, 0x5DEE_CE66_D_u64] {
            assert_eq!(generate_compressions_par(log2, seed), reference(log2, seed), "log2={log2} seed={seed}");
        }
    }
}

#[test]
fn seed_pipe_matches_reference_at_ranked_size() {
    for &seed in &[0x1234_5678_9ABC_DEF0u64, WARMUP_SEED, 424242, u64::MAX] {
        assert_eq!(generate_compressions_par(18, seed), reference(18, seed), "seed={seed}");
    }
}

#[test]
fn seed_pipe_prefaulted_fill_matches_reference() {
    let mut buf = prefaulted_blocks(1 << 12);
    fill_compressions_par(&mut buf, 12, 0xDEAD_BEEF);
    assert_eq!(buf, reference(12, 0xDEAD_BEEF));
    assert_eq!(gen_block(generator_init(12, 0xDEAD_BEEF), 77), reference(12, 0xDEAD_BEEF)[77]);
}

#[test]
fn seed_pipe_block_comparison_is_exact() {
    let a = generate_compressions_par(10, 7);
    let mut b = a.clone();
    assert!(blocks_eq(&a, &b));
    assert!(blocks_eq_serial(&a, &b));
    b[900].1[3] ^= 1;
    assert!(!blocks_eq(&a, &b));
    assert!(!blocks_eq_serial(&a, &b));
    assert!(!blocks_eq(&a, &a[..a.len() - 1]));
    assert!(!blocks_eq_serial(&a, &a[..a.len() - 1]));
}

#[test]
fn comparison_reaches_every_chunk() {
    let a = generate_compressions_par(14, 7);
    for at in [0usize, 8191, 8192, 16383] {
        let mut b = a.clone();
        b[at].4 ^= 1;
        assert!(!blocks_eq(&a, &b), "at={at}");
    }
    assert!(blocks_eq(&a, &a));
    assert!(blocks_eq(&[], &[]));
}

#[test]
fn seed_pipe_stays_disarmed_outside_the_ranked_worker() {
    let ranked = is_ranked_worker(1, Some("seed_pipe-0123456789abcdef"));
    assert!(!ranked);
    assert_eq!(blocks_step(false, false, false), BlocksStep::Decline);
    assert!(!verify_generator_at_warmup(8, &generate_compressions_par(8, WARMUP_SEED), false, ranked));
}

#[test]
fn the_ranked_worker_is_known_by_name_and_arguments() {
    assert!(is_ranked_worker(4, Some("flock-benchmark-worker")));
    assert!(is_ranked_worker(4, Some("flock-benchmark-worker-x86")));
    assert!(!is_ranked_worker(3, Some("flock-benchmark-worker")));
    assert!(!is_ranked_worker(5, Some("flock-benchmark-worker")));
    assert!(!is_ranked_worker(4, Some("flock-benchmark-worke")));
    assert!(!is_ranked_worker(4, None));
    assert!(arm_begins(false, true, false));
    assert!(!arm_begins(true, true, false));
    assert!(!arm_begins(false, false, false));
    assert!(!arm_begins(false, true, true));
    assert_eq!(&BENCH_DOMAIN, b"flock-bench-v0");
}

#[test]
fn the_warm_up_verifies_the_generator() {
    let good = generate_compressions_par(8, WARMUP_SEED);
    assert!(verify_generator_at_warmup(8, &good, false, true));
    assert!(!verify_generator_at_warmup(8, &good, true, true));
    assert!(!verify_generator_at_warmup(7, &good, false, true));
    assert!(!verify_generator_at_warmup(8, &generate_compressions_par(8, 1), false, true));
}

#[test]
fn scratch_of_another_size_is_replaced() {
    assert_eq!(blocks_for_seed(prefaulted_blocks(256), 8, 42), reference(8, 42));
    assert_eq!(blocks_for_seed(prefaulted_blocks(3), 8, 42), reference(8, 42));
}

fn read(chunks: &[&[u8]]) -> Option<Vec<u8>> {
    let mut line = Vec::new();
    for c in chunks {
        match read_line_step(line, ReadEvent::Bytes(c.to_vec())) {
            ReadStep::More(l) => line = l,
            ReadStep::Done(l) => return l,
        }
    }
    match read_line_step(line, ReadEvent::End) {
        ReadStep::More(_) => unreachable!(),
        ReadStep::Done(l) => l,
    }
}

#[test]
fn seed_pipe_line_io_roundtrip() {
    let sent = b"424242\n";
    let mut pipe: Vec<u8> = Vec::new();
    let mut step = write_start(sent.len());
    while let WriteStep::More(pos) = step {
        let n = (sent.len() - pos).min(3);
        pipe.extend_from_slice(&sent[pos..pos + n]);
        step = write_all_step(sent.len(), pos, n as isize);
    }
    assert_eq!(step, WriteStep::Done);
    let line = read(&[&pipe]).expect("line");
    assert_eq!(line, b"424242\n");
}

#[test]
fn reading_keeps_all_it_read() {
    assert_eq!(read(&[b"12", b"34\n56", b"never"]), Some(b"1234\n56".to_vec()));
    assert_eq!(read(&[b"12"]), Some(b"12".to_vec()));
    assert_eq!(read(&[]), None);
    let long = [b'7'; 256];
    assert_eq!(read(&[&long, b"more"]), Some(long.to_vec()));
    assert!(matches!(read_line_step(vec![1, 2], ReadEvent::Failed), ReadStep::Done(None)));
    assert_eq!(write_all_step(5, 2, 0), WriteStep::Failed);
    assert_eq!(write_all_step(5, 2, -1), WriteStep::Failed);
    assert_eq!(write_all_step(5, 2, 3), WriteStep::Done);
    assert_eq!(write_start(0), WriteStep::Done);
}

#[test]
fn seeds_are_parsed_as_numbers() {
    assert_eq!(parse_seed(b"424242\n"), Some(424242));
    assert_eq!(parse_seed(b"  +7\t"), Some(7));
    assert_eq!(parse_seed("\u{3000}8\u{a0}".as_bytes()), Some(8));
    assert_eq!(parse_seed(b"18446744073709551615"), Some(u64::MAX));
    assert_eq!(parse_seed(b"18446744073709551616"), None);
    assert_eq!(parse_seed(b"000000000000000000000000000001"), Some(1));
    assert_eq!(parse_seed(b"99999999999999999999x"), None);
    assert_eq!(parse_seed(b"-1"), None);
    assert_eq!(parse_seed(b"+"), None);
    assert_eq!(parse_seed(b""), None);
    assert_eq!(parse_seed(b"1 2"), None);
    assert_eq!(parse_seed(b"12\xff"), None);
    for s in ["0", "12", "+12", " 3\n", "x", "1_0", "\u{0661}", "18446744073709551615", "18446744073709551616"] {
        assert_eq!(parse_seed(s.as_bytes()), s.trim().parse::<u64>().ok(), "{s}");
    }
}

#[test]
fn lines_are_forwarded_before_they_are_read() {
    assert!(matches!(after_line(Some(b"junk".to_vec())), AfterLine::Forward(l) if l == b"junk"));
    assert!(matches!(after_line(None), AfterLine::CloseAndGiveUp));
    assert_eq!(after_forward(b"17\n", true), AfterForward::Prove(17));
    assert_eq!(after_forward(b"junk", true), AfterForward::GiveUp);
    assert_eq!(after_forward(b"17\n", false), AfterForward::CloseAndGiveUp);
}

#[test]
fn failed_arming_closes_what_it_opened() {
    let (s, todo) = arm_step(ArmState::Duplicating, ArmEvent::Duplicated(5));
    assert_eq!((s, todo), (ArmState::Piping { stdin_fd: 5 }, vec![ArmAction::MakePipe]));
    let (_, todo) = arm_step(ArmState::Duplicating, ArmEvent::Duplicated(-1));
    assert_eq!(todo, vec![ArmAction::ClearArmed]);
    let (_, todo) = arm_step(s, ArmEvent::NoPipe);
    assert_eq!(todo, vec![ArmAction::Close(5), ArmAction::ClearArmed]);
    let (s, todo) = arm_step(s, ArmEvent::Piped { read_end: 6, write_end: 7 });
    assert_eq!(todo, vec![ArmAction::Splice(6)]);
    let (_, todo) = arm_step(s, ArmEvent::Spliced(false));
    assert_eq!(
        todo,
        vec![ArmAction::Close(5), ArmAction::Close(6), ArmAction::Close(7), ArmAction::ClearArmed]
    );
    let (s, todo) = arm_step(s, ArmEvent::Spliced(true));
    assert_eq!(todo, vec![ArmAction::Close(6), ArmAction::Spawn]);
    let (d, todo) = arm_step(s, ArmEvent::Spawned(false));
    assert_eq!(d, ArmState::Disarmed);
    assert_eq!(
        todo,
        vec![ArmAction::Restore(5), ArmAction::Close(5), ArmAction::Close(7), ArmAction::ClearArmed]
    );
    let (s, todo) = arm_step(s, ArmEvent::Spawned(true));
    assert_eq!((s, todo), (ArmState::Armed { stdin_fd: 5, write_end: 7 }, vec![]));
}

#[test]
fn only_matching_proofs_are_adopted() {
    assert_eq!(blocks_step(true, false, false), BlocksStep::Wait);
    assert_eq!(blocks_step(true, true, false), BlocksStep::Compare);
    assert_eq!(blocks_step(true, true, true), BlocksStep::Decline);
    assert_eq!(result_step(false, false, false), ResultStep::Wait);
    assert_eq!(result_step(true, true, false), ResultStep::Adopt);
    assert_eq!(result_step(false, true, false), ResultStep::Decline);
    assert_eq!(result_step(true, true, true), ResultStep::Decline);
    let a = generate_compressions_par(6, 3);
    let mut b = a.clone();
    assert!(blocks_matched(false, &a, &b));
    assert!(blocks_matched(true, &a, &b));
    b[10].0[0] ^= 1;
    assert!(!blocks_matched(false, &a, &b));
    assert!(blocks_matched(true, &a, &b));
    b[63].0[0] ^= 1;
    assert!(!blocks_matched(true, &a, &b));
    assert!(!blocks_matched(true, &a, &a[..63]));
    assert!(blocks_matched(true, &[], &[]));
}

#[test]
fn settings_are_read_as_numbers() {
    assert_eq!(prefetch_ahead(false, None, FOLD_PAIRS_PF_AHEAD), 256);
    assert_eq!(prefetch_ahead(true, Some("8"), FOLD16_PF_AHEAD), 0);
    assert_eq!(prefetch_ahead(false, Some("8"), FOLD16_PF_AHEAD), 8);
    assert_eq!(prefetch_ahead(false, Some(" 8"), FOLD16_PF_AHEAD), 512);
    assert_eq!(prefetch_ahead(false, Some("x"), FOLD_AVX2_PF_AHEAD), 4);
    assert_eq!(vpclmulqdq_runtime(255, 0x10400), (true, 1));
    assert_eq!(vpclmulqdq_runtime(255, 0x10000), (false, 0));
    assert_eq!(vpclmulqdq_runtime(0, 0x10400), (false, 0));
    assert_eq!(vpclmulqdq_runtime(1, 0), (true, 1));
}

#[test]
fn a_proof_is_handed_out_once() {
    let mut o: Outcome<u32> = Outcome::new();
    assert!(matches!(o.collect(true), Collected::Wait));
    o.finish(7);
    assert!(matches!(o.collect(true), Collected::Adopt(7)));
    assert!(matches!(o.collect(true), Collected::Wait));
    let mut unmatched: Outcome<u32> = Outcome::new();
    unmatched.finish(8);
    assert!(matches!(unmatched.collect(false), Collected::Decline));
    assert!(matches!(unmatched.collect(true), Collected::Wait));
    let mut dead: Outcome<u32> = Outcome::new();
    dead.give_up();
    assert!(matches!(dead.collect(true), Collected::Decline));
    dead.finish(9);
    assert!(matches!(dead.collect(true), Collected::Decline));
    assert!(dead.result.is_none() && dead.dead);
}
