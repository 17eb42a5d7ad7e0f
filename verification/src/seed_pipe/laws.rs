//! What the generator draws, what a seed line says, and how arming and adoption run.

use super::blocks::{are_generated, eq_chunk, same_blocks, zero_inputs};
use super::generator::{draw, generated, init_of, law_state_has_closed_form, mixed, mod64, rng_state};
use super::line::{
    decimal, is_complete, joined, line_of, number_in, seed_in, unsigned, write_first, write_next, WriteStep,
};
use super::pipe::{
    adopted, answers, arm_actions, arm_next, outcome_next, result_plan, seed_of, starts_with, ArmAction, ArmEvent,
    ArmState, Outcome, OutcomeEvent, ResultStep,
};
use crate::bits::lemma_word_facts;
use crate::hash::{is_space, law_trimming_ignores_spaces};
use crate::r1cs_hashes::Compression;
use vstd::prelude::*;
use vstd::utf8::{encode_utf8, encode_utf8_decode_utf8, encode_utf8_valid_utf8, valid_utf8};

verus! {

// ---- the generator ----

/// What the state is mixed to: two rounds of an XOR with itself shifted down and a product
/// modulo `2^64`, and the low word of a last such XOR.
pub proof fn law_mixing_multiplies_modulo(z: u64)
    ensures
        ({
            let z1 = ((z ^ (z >> 30)) * 0xBF58_476D_1CE4_E5B9) % 0x1_0000_0000_0000_0000;
            let z2 = ((z1 as u64 ^ (z1 as u64 >> 27)) * 0x94D0_49BB_1331_11EB) % 0x1_0000_0000_0000_0000;
            mixed(z) == (z2 as u64 ^ (z2 as u64 >> 31)) as u32
        }),
{
}

/// Every block takes the next twenty-five draws: eight words of chaining value, sixteen of
/// message and one for the counter. Draw number `d` mixes the initial state plus `d + 1`
/// times the step.
pub proof fn law_blocks_take_consecutive_draws(init: u64, i: int, w: int)
    requires
        0 <= i,
    ensures
        0 <= w < 8 ==> generated(init, i).cv[w] == mixed(
            ((init + (25 * i + w + 1) * 0x9E37_79B9_7F4A_7C15) % 0x1_0000_0000_0000_0000) as u64,
        ),
        0 <= w < 16 ==> generated(init, i).message[w] == mixed(
            ((init + (25 * i + w + 9) * 0x9E37_79B9_7F4A_7C15) % 0x1_0000_0000_0000_0000) as u64,
        ),
        generated(init, i).counter == mixed(
            ((init + (25 * i + 25) * 0x9E37_79B9_7F4A_7C15) % 0x1_0000_0000_0000_0000) as u64,
        ),
        generated(init, i).cv.len() == 8,
        generated(init, i).message.len() == 16,
        generated(init, i).block_len == 64,
        generated(init, i).flags == 11,
{
    reveal(mod64);
    if 0 <= w < 8 {
        lemma_draw(init, 25 * i + w);
    }
    if 0 <= w < 16 {
        lemma_draw(init, 25 * i + 8 + w);
    }
    lemma_draw(init, 25 * i + 24);
}

proof fn lemma_draw(init: u64, d: int)
    requires
        0 <= d,
    ensures
        draw(init, d) == mixed(((init + (d + 1) * 0x9E37_79B9_7F4A_7C15) % 0x1_0000_0000_0000_0000) as u64),
{
    reveal(mod64);
    law_state_has_closed_form(init, (d + 1) as nat);
    assert(rng_state(init, (d + 1) as nat) == mod64(init + (d + 1) * 0x9E37_79B9_7F4A_7C15));
}

/// The initial state is the seed XORed with the size times `2^29`.
pub proof fn law_initial_state_mixes_size_and_seed(log2_size: u32, seed: u64)
    ensures
        init_of(log2_size, seed) ^ seed == log2_size * 0x2000_0000,
{
    let turned = ((log2_size as u64) << 29) | ((log2_size as u64) >> 35);
    lemma_word_facts(seed, turned, log2_size, 0, 0, 0);
}

/// Every block of a generated vector is the block of that number, word by word.
pub proof fn law_generated_vectors_hold_every_block(v: Seq<Compression>, init: u64, i: int)
    requires
        are_generated(v, init),
        0 <= i < v.len(),
    ensures
        v[i].0@ == generated(init, i).cv,
        v[i].1@ == generated(init, i).message,
        v[i].2 == generated(init, i).counter,
        v[i].3 == 64,
        v[i].4 == 11,
{
    assert(crate::r1cs_hashes::inputs_of(v[i]) == generated(init, i));
}

/// Vectors of the same blocks agree in every word of every block, and differ in none of
/// their chunks; a vector with one word changed is not the same.
pub proof fn law_same_blocks_agree_in_every_word(a: Seq<Compression>, b: Seq<Compression>)
    ensures
        same_blocks(a, b) <==> a.len() == b.len() && forall|i: int|
            0 <= i < a.len() ==> (#[trigger] a[i]).0@ == b[i].0@ && a[i].1@ == b[i].1@ && a[i].2 == b[i].2 && a[i].3
                == b[i].3 && a[i].4 == b[i].4,
{
    if same_blocks(a, b) {
        assert forall|i: int| 0 <= i < a.len() implies (#[trigger] a[i]).0@ == b[i].0@ && a[i].1@ == b[i].1@ && a[i].2
            == b[i].2 && a[i].3 == b[i].3 && a[i].4 == b[i].4 by {
            assert(crate::r1cs_hashes::inputs_of(a[i]) == crate::r1cs_hashes::inputs_of(b[i]));
        }
    }
}

/// The chunks that are compared cover the vector: block `i` is block `i % 8192` of chunk
/// `i / 8192`.
pub proof fn law_chunks_cover_the_vector(v: Seq<Compression>, i: int)
    requires
        0 <= i < v.len(),
    ensures
        i % 8192 < eq_chunk(v, i / 8192).len() <= 8192,
        eq_chunk(v, i / 8192)[i % 8192] == v[i],
{
}

// ---- the seed line ----

/// A line is complete at its first newline, and at 256 bytes without one.
pub proof fn law_line_ends_at_a_newline_or_the_limit(line: Seq<u8>, more: Seq<u8>)
    ensures
        is_complete((line + seq![10u8]) + more),
        line.len() >= 256 ==> is_complete(line),
        line.len() < 256 && !line.contains(10u8) ==> !is_complete(line),
{
    let s = (line + seq![10u8]) + more;
    assert(s[line.len() as int] == 10u8);
}

/// There is no line exactly if nothing but empty reads came before the end.
pub proof fn law_line_is_missing_only_where_nothing_was_read(chunks: Seq<Seq<u8>>)
    ensures
        line_of(chunks, 0) is None <==> forall|i: int| 0 <= i < chunks.len() ==> (#[trigger] chunks[i]).len() == 0,
{
    lemma_line_from(chunks, 0);
}

proof fn lemma_line_from(chunks: Seq<Seq<u8>>, n: nat)
    requires
        n <= chunks.len(),
        joined(chunks, n).len() == 0,
    ensures
        line_of(chunks, n) is None <==> forall|i: int| n <= i < chunks.len() ==> (#[trigger] chunks[i]).len() == 0,
    decreases chunks.len() - n,
{
    assert(!is_complete(joined(chunks, n)));
    if n < chunks.len() {
        let next = joined(chunks, n + 1);
        assert(next == joined(chunks, n) + chunks[n as int]);
        if next.len() == 0 {
            lemma_line_from(chunks, n + 1);
        } else {
            assert(chunks[n as int].len() > 0);
            lemma_line_is_some(chunks, n + 1);
        }
    }
}

proof fn lemma_line_is_some(chunks: Seq<Seq<u8>>, n: nat)
    requires
        0 < n <= chunks.len(),
        joined(chunks, n).len() > 0,
    ensures
        line_of(chunks, n) is Some,
    decreases chunks.len() - n,
{
    if !is_complete(joined(chunks, n)) && n < chunks.len() {
        assert(joined(chunks, n + 1) == joined(chunks, n) + chunks[n as int]);
        lemma_line_is_some(chunks, n + 1);
    }
}

/// Writing goes on behind the bytes that were taken until all are; it fails only where a
/// write took none.
pub proof fn law_writing_goes_on_until_all_is_taken(len: usize, pos: usize, written: isize)
    requires
        pos <= len,
        written <= len - pos,
    ensures
        write_first(len) == WriteStep::Done <==> len == 0,
        len > 0 ==> write_first(len) == WriteStep::More(0),
        write_next(len, pos, written) == WriteStep::Failed <==> written <= 0,
        write_next(len, pos, written) == WriteStep::Done <==> written > 0 && pos + written == len,
        0 < written < len - pos ==> write_next(len, pos, written) == WriteStep::More((pos + written) as usize),
{
}

/// A digit writes its value; one more digit behind a number makes ten times the number
/// plus the digit, as long as that fits; and beyond that there is no number.
pub proof fn law_numbers_are_read_digit_by_digit(t: Seq<char>, c: char)
    requires
        '0' <= c <= '9',
    ensures
        number_in(seq![c]) == Some((c as int - 48) as u64),
        number_in(t) matches Some(n) ==> number_in(t.push(c)) == (if 10 * n + (c as int - 48) <= u64::MAX {
            Some((10 * n + (c as int - 48)) as u64)
        } else {
            None
        }),
{
    let one = seq![c];
    assert(unsigned(one) == one);
    assert(one.drop_last() =~= Seq::<char>::empty());
    assert(decimal(one.drop_last()) == 0);
    assert(decimal(one) == c as int - 48);
    if number_in(t) is Some {
        let d = unsigned(t);
        let e = unsigned(t.push(c));
        assert(e =~= d.push(c));
        assert(e.drop_last() =~= d);
        assert(forall|i: int| 0 <= i < e.len() ==> super::line::is_digit(#[trigger] e[i])) by {
            assert forall|i: int| 0 <= i < e.len() implies super::line::is_digit(#[trigger] e[i]) by {
                if i < d.len() {
                    assert(super::line::is_digit(d[i]));
                }
            }
        }
    }
}

/// One plus sign in front changes nothing; nothing else but digits is a number.
pub proof fn law_only_digits_are_numbers(t: Seq<char>, i: int)
    ensures
        number_in(Seq::empty()) is None,
        number_in(seq!['+']) is None,
        t.len() > 0 && t[0] != '+' ==> number_in(seq!['+'] + t) == number_in(t),
        0 < i < t.len() && !('0' <= t[i] <= '9') ==> number_in(t) is None,
        t.len() > 0 && t[0] != '+' && !('0' <= t[0] <= '9') ==> number_in(t) is None,
{
    let p = seq!['+'] + t;
    assert(p.subrange(1, p.len() as int) =~= t);
    assert(seq!['+'].subrange(1, 1).len() == 0);
    let d = unsigned(t);
    if 0 < i < t.len() && !('0' <= t[i] <= '9') {
        let k = if t[0] == '+' {
            i - 1
        } else {
            i
        };
        assert(d[k] == t[i]);
        assert(!super::line::is_digit(d[k]));
    }
    if t.len() > 0 && t[0] != '+' && !('0' <= t[0] <= '9') {
        assert(!super::line::is_digit(d[0]));
    }
}

/// White space around a seed does not change it.
pub proof fn law_seed_ignores_surrounding_spaces(before: Seq<char>, s: Seq<char>, after: Seq<char>)
    requires
        forall|i: int| 0 <= i < before.len() ==> is_space(#[trigger] before[i]),
        forall|i: int| 0 <= i < after.len() ==> is_space(#[trigger] after[i]),
    ensures
        seed_in(before + s + after) == seed_in(s),
{
    law_trimming_ignores_spaces(before, s, after);
}

// ---- arming and adoption ----

/// A string starts with another exactly if it is that string and something behind it.
pub proof fn law_prefix_comes_first(p: Seq<char>, rest: Seq<char>, s: Seq<char>)
    ensures
        starts_with(p + rest, p),
        starts_with(s, p) ==> s == p + s.skip(p.len() as int),
{
    assert((p + rest).subrange(0, p.len() as int) =~= p);
    if starts_with(s, p) {
        assert(s =~= s.subrange(0, p.len() as int) + s.skip(p.len() as int));
    }
}

/// Where every step succeeds, arming makes a pipe, splices its read end in, closes it and
/// starts the thread, and ends armed with the duplicate and the write end.
pub proof fn law_arming_runs_through(fd: i32, read_end: i32, write_end: i32)
    requires
        fd >= 0,
    ensures
        ({
            let s0 = ArmState::Duplicating;
            let e0 = ArmEvent::Duplicated(fd);
            let s1 = arm_next(s0, e0);
            let e1 = ArmEvent::Piped { read_end, write_end };
            let s2 = arm_next(s1, e1);
            let e2 = ArmEvent::Spliced(true);
            let s3 = arm_next(s2, e2);
            let e3 = ArmEvent::Spawned(true);
            &&& answers(s0, e0) && answers(s1, e1) && answers(s2, e2) && answers(s3, e3)
            &&& arm_next(s3, e3) == ArmState::Armed { stdin_fd: fd, write_end }
            &&& arm_actions(s0, e0) == seq![ArmAction::MakePipe]
            &&& arm_actions(s1, e1) == seq![ArmAction::Splice(read_end)]
            &&& arm_actions(s2, e2) == seq![ArmAction::Close(read_end), ArmAction::Spawn]
            &&& arm_actions(s3, e3) == Seq::<ArmAction>::empty()
        }),
{
}

/// Whether the event reports that a step failed.
pub open spec fn is_failure(event: ArmEvent) -> bool {
    match event {
        ArmEvent::Duplicated(fd) => fd < 0,
        ArmEvent::NoPipe => true,
        ArmEvent::Spliced(ok) => !ok,
        ArmEvent::Spawned(ok) => !ok,
        ArmEvent::Piped { .. } => false,
    }
}

/// A failed step disarms, and gives the switch back last; a step that succeeds does not.
pub proof fn law_failures_disarm(state: ArmState, event: ArmEvent)
    requires
        answers(state, event),
    ensures
        is_failure(event) <==> arm_next(state, event) == ArmState::Disarmed,
        is_failure(event) ==> arm_actions(state, event).len() > 0 && arm_actions(state, event).last()
            == ArmAction::ClearArmed,
        !is_failure(event) ==> !arm_actions(state, event).contains(ArmAction::ClearArmed),
{
    if !is_failure(event) {
        let a = arm_actions(state, event);
        assert forall|i: int| 0 <= i < a.len() implies a[i] != ArmAction::ClearArmed by {}
    }
}

/// A failed step closes every descriptor that arming holds, and puts the standard input
/// back, before closing its duplicate, where it had been replaced.
pub proof fn law_failures_close_what_arming_holds(stdin_fd: i32, read_end: i32, write_end: i32)
    ensures
        arm_actions(ArmState::Piping { stdin_fd }, ArmEvent::NoPipe).contains(ArmAction::Close(stdin_fd)),
        ({
            let a = arm_actions(ArmState::Splicing { stdin_fd, read_end, write_end }, ArmEvent::Spliced(false));
            &&& a.contains(ArmAction::Close(stdin_fd))
            &&& a.contains(ArmAction::Close(read_end))
            &&& a.contains(ArmAction::Close(write_end))
            &&& !a.contains(ArmAction::Restore(stdin_fd))
        }),
        ({
            let a = arm_actions(ArmState::Spawning { stdin_fd, write_end }, ArmEvent::Spawned(false));
            &&& a[0] == ArmAction::Restore(stdin_fd)
            &&& a.contains(ArmAction::Close(stdin_fd))
            &&& a.contains(ArmAction::Close(write_end))
        }),
{
    let p = arm_actions(ArmState::Piping { stdin_fd }, ArmEvent::NoPipe);
    assert(p[0] == ArmAction::Close(stdin_fd));
    let a = arm_actions(ArmState::Splicing { stdin_fd, read_end, write_end }, ArmEvent::Spliced(false));
    assert(a[0] == ArmAction::Close(stdin_fd));
    assert(a[1] == ArmAction::Close(read_end));
    assert(a[2] == ArmAction::Close(write_end));
    let b = arm_actions(ArmState::Spawning { stdin_fd, write_end }, ArmEvent::Spawned(false));
    assert(b[1] == ArmAction::Close(stdin_fd));
    assert(b[2] == ArmAction::Close(write_end));
}

/// A finished proof is kept until a caller collects it; the first caller whose blocks
/// match gets that proof, and nobody after it.
pub proof fn law_finished_proof_goes_to_the_first_match<T>(o: Outcome<T>, out: T)
    requires
        !o.dead,
    ensures
        ({
            let done = outcome_next(o, OutcomeEvent::Finish(out));
            let collected = outcome_next(done, OutcomeEvent::Collect(true));
            &&& !done.dead
            &&& adopted(done, OutcomeEvent::Collect(true)) == Some(out)
            &&& adopted(collected, OutcomeEvent::Collect(true)) is None
            &&& adopted(outcome_next(done, OutcomeEvent::Collect(false)), OutcomeEvent::Collect(true)) is None
        }),
        o.result is None ==> outcome_next(o, OutcomeEvent::Collect(true)) == o,
        outcome_next(o, OutcomeEvent::GiveUp).dead,
        outcome_next(o, OutcomeEvent::GiveUp).result == o.result,
{
}

/// A caller waits exactly while the proof is neither ready nor given up, and takes it
/// exactly if it is ready, not given up, and of the caller's blocks.
pub proof fn law_only_a_ready_match_is_taken(matched: bool, ready: bool, dead: bool)
    ensures
        result_plan(matched, ready, dead) == ResultStep::Wait <==> !ready && !dead,
        result_plan(matched, ready, dead) == ResultStep::Adopt <==> ready && !dead && matched,
{
}

/// A line of text says the seed of its characters; a line that is no text says none.
pub proof fn law_seed_line_is_text(text: Seq<char>, bytes: Seq<u8>)
    ensures
        seed_of(encode_utf8(text)) == seed_in(text),
        !valid_utf8(bytes) ==> seed_of(bytes) is None,
{
    encode_utf8_valid_utf8(text);
    encode_utf8_decode_utf8(text);
}

/// A block of zeros has no bit set anywhere.
pub proof fn law_zero_block_is_zero(w: int)
    ensures
        zero_inputs().cv.len() == 8,
        zero_inputs().message.len() == 16,
        0 <= w < 8 ==> zero_inputs().cv[w] == 0,
        0 <= w < 16 ==> zero_inputs().message[w] == 0,
        zero_inputs().counter == 0,
        zero_inputs().block_len == 0,
        zero_inputs().flags == 0,
{
}

} // verus!
