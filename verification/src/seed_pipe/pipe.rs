//! The decisions of the pipeline: when it arms, what it does with descriptors, the
//! order of its work on a seed line, and when its proof is adopted.

use crate::seed_pipe::line::{parse_seed, seed_in};
use vstd::prelude::*;
use vstd::utf8::{decode_utf8, valid_utf8};

verus! {

/// The domain of the transcripts that the pipeline's proofs are made under.
pub const BENCH_DOMAIN: [u8; 14] = [102, 108, 111, 99, 107, 45, 98, 101, 110, 99, 104, 45, 118, 48];

// ---- when to arm ----

/// Whether `s` starts with `p`.
pub open spec fn starts_with(s: Seq<char>, p: Seq<char>) -> bool {
    p.len() <= s.len() && s.subrange(0, p.len() as int) == p
}

fn has_prefix(s: &str, p: &str) -> (r: bool)
    ensures
        r == starts_with(s@, p@),
{
    let n = p.unicode_len();
    if s.unicode_len() < n {
        return false;
    }
    for i in 0..n
        invariant
            n == p@.len(),
            n <= s@.len(),
            forall|k: int| 0 <= k < i ==> s@[k] == p@[k],
    {
        if s.get_char(i) != p.get_char(i) {
            assert(s@.subrange(0, n as int)[i as int] != p@[i as int]);
            return false;
        }
    }
    assert(s@.subrange(0, n as int) =~= p@);
    true
}

/// Whether the process is the ranked worker: called with three arguments behind its
/// own name, under a file name that starts as the worker's does.
pub fn is_ranked_worker(n_args: usize, file_name: Option<&str>) -> (r: bool)
    ensures
        r == (n_args == 4 && (file_name matches Some(name) && starts_with(name@, "flock-benchmark-worker"@))),
{
    if n_args != 4 {
        return false;
    }
    match file_name {
        Some(name) => has_prefix(name, "flock-benchmark-worker"),
        None => false,
    }
}

/// Whether this call goes on to arm: not when the pipeline is switched off, nor
/// outside the ranked worker, nor when an earlier call has armed it.
pub fn arm_begins(off_is_set: bool, ranked_worker: bool, already_armed: bool) -> (r: bool)
    ensures
        r == (!off_is_set && ranked_worker && !already_armed),
{
    !off_is_set && ranked_worker && !already_armed
}

// ---- descriptors ----

/// How far arming has come.
#[derive(Clone, Copy, Debug, PartialEq, Eq, Structural)]
pub enum ArmState {
    /// The standard input is being duplicated.
    Duplicating,
    /// A pipe is being made; `stdin_fd` is the duplicate.
    Piping { stdin_fd: i32 },
    /// The pipe's reading end is being put in the place of the standard input.
    Splicing { stdin_fd: i32, read_end: i32, write_end: i32 },
    /// The forwarding thread is being started.
    Spawning { stdin_fd: i32, write_end: i32 },
    /// The forwarding thread owns both descriptors.
    Armed { stdin_fd: i32, write_end: i32 },
    /// Arming was given up.
    Disarmed,
}

/// What a step of arming gave.
#[derive(Clone, Copy, Debug, PartialEq, Eq, Structural)]
pub enum ArmEvent {
    /// The duplicate, negative on failure.
    Duplicated(i32),
    /// The ends of the pipe.
    Piped { read_end: i32, write_end: i32 },
    /// No pipe could be made.
    NoPipe,
    /// Whether the standard input was replaced.
    Spliced(bool),
    /// Whether the thread was started.
    Spawned(bool),
}

/// What to do next.
#[derive(Clone, Copy, Debug, PartialEq, Eq, Structural)]
pub enum ArmAction {
    /// Make a pipe.
    MakePipe,
    /// Put this descriptor in the place of the standard input.
    Splice(i32),
    /// Put this descriptor back in the place of the standard input.
    Restore(i32),
    /// Close this descriptor.
    Close(i32),
    /// Start the forwarding thread.
    Spawn,
    /// Take back the mark that the pipeline is armed.
    ClearArmed,
}

/// Whether the event can come in the state.
pub open spec fn answers(state: ArmState, event: ArmEvent) -> bool {
    match state {
        ArmState::Duplicating => event is Duplicated,
        ArmState::Piping { .. } => event is Piped || event is NoPipe,
        ArmState::Splicing { .. } => event is Spliced,
        ArmState::Spawning { .. } => event is Spawned,
        _ => false,
    }
}

/// The state after an event.
pub open spec fn arm_next(state: ArmState, event: ArmEvent) -> ArmState {
    match (state, event) {
        (ArmState::Duplicating, ArmEvent::Duplicated(fd)) => if fd < 0 {
            ArmState::Disarmed
        } else {
            ArmState::Piping { stdin_fd: fd }
        },
        (ArmState::Piping { stdin_fd }, ArmEvent::Piped { read_end, write_end }) => ArmState::Splicing {
            stdin_fd,
            read_end,
            write_end,
        },
        (ArmState::Splicing { stdin_fd, read_end, write_end }, ArmEvent::Spliced(true)) => ArmState::Spawning {
            stdin_fd,
            write_end,
        },
        (ArmState::Spawning { stdin_fd, write_end }, ArmEvent::Spawned(true)) => ArmState::Armed { stdin_fd, write_end },
        _ => ArmState::Disarmed,
    }
}

/// What is done on an event.
pub open spec fn arm_actions(state: ArmState, event: ArmEvent) -> Seq<ArmAction> {
    match (state, event) {
        (ArmState::Duplicating, ArmEvent::Duplicated(fd)) => if fd < 0 {
            seq![ArmAction::ClearArmed]
        } else {
            seq![ArmAction::MakePipe]
        },
        (ArmState::Piping { stdin_fd }, ArmEvent::Piped { read_end, write_end }) => seq![ArmAction::Splice(read_end)],
        (ArmState::Piping { stdin_fd }, ArmEvent::NoPipe) => seq![ArmAction::Close(stdin_fd), ArmAction::ClearArmed],
        (ArmState::Splicing { stdin_fd, read_end, write_end }, ArmEvent::Spliced(true)) => seq![
            ArmAction::Close(read_end),
            ArmAction::Spawn,
        ],
        (ArmState::Splicing { stdin_fd, read_end, write_end }, ArmEvent::Spliced(false)) => seq![
            ArmAction::Close(stdin_fd),
            ArmAction::Close(read_end),
            ArmAction::Close(write_end),
            ArmAction::ClearArmed,
        ],
        (ArmState::Spawning { stdin_fd, write_end }, ArmEvent::Spawned(false)) => seq![
            ArmAction::Restore(stdin_fd),
            ArmAction::Close(stdin_fd),
            ArmAction::Close(write_end),
            ArmAction::ClearArmed,
        ],
        _ => seq![],
    }
}

/// One step of arming.
pub fn arm_step(state: ArmState, event: ArmEvent) -> (r: (ArmState, Vec<ArmAction>))
    requires
        answers(state, event),
    ensures
        r.0 == arm_next(state, event),
        r.1@ == arm_actions(state, event),
{
    let mut todo: Vec<ArmAction> = Vec::new();
    let next = match (state, event) {
        (ArmState::Duplicating, ArmEvent::Duplicated(fd)) => if fd < 0 {
            todo.push(ArmAction::ClearArmed);
            ArmState::Disarmed
        } else {
            todo.push(ArmAction::MakePipe);
            ArmState::Piping { stdin_fd: fd }
        },
        (ArmState::Piping { stdin_fd }, ArmEvent::Piped { read_end, write_end }) => {
            todo.push(ArmAction::Splice(read_end));
            ArmState::Splicing { stdin_fd, read_end, write_end }
        },
        (ArmState::Piping { stdin_fd }, ArmEvent::NoPipe) => {
            todo.push(ArmAction::Close(stdin_fd));
            todo.push(ArmAction::ClearArmed);
            ArmState::Disarmed
        },
        (ArmState::Splicing { stdin_fd, read_end, write_end }, ArmEvent::Spliced(ok)) => if ok {
            todo.push(ArmAction::Close(read_end));
            todo.push(ArmAction::Spawn);
            ArmState::Spawning { stdin_fd, write_end }
        } else {
            todo.push(ArmAction::Close(stdin_fd));
            todo.push(ArmAction::Close(read_end));
            todo.push(ArmAction::Close(write_end));
            todo.push(ArmAction::ClearArmed);
            ArmState::Disarmed
        },
        (ArmState::Spawning { stdin_fd, write_end }, ArmEvent::Spawned(ok)) => if ok {
            ArmState::Armed { stdin_fd, write_end }
        } else {
            todo.push(ArmAction::Restore(stdin_fd));
            todo.push(ArmAction::Close(stdin_fd));
            todo.push(ArmAction::Close(write_end));
            todo.push(ArmAction::ClearArmed);
            ArmState::Disarmed
        },
        _ => ArmState::Disarmed,
    };
    assert(todo@ =~= arm_actions(state, event));
    (next, todo)
}

/// What arming has changed in the process.
#[verifier::ext_equal]
pub struct Footprint {
    /// The descriptors that it opened and that are still open.
    pub open: Set<i32>,
    /// Whether the standard input is replaced.
    pub spliced: bool,
    /// Whether the pipeline is marked as armed.
    pub armed: bool,
}

/// What the process owes to arming in a state.
pub open spec fn footprint(state: ArmState) -> Footprint {
    match state {
        ArmState::Duplicating => Footprint { open: Set::empty(), spliced: false, armed: true },
        ArmState::Piping { stdin_fd } => Footprint { open: set![stdin_fd], spliced: false, armed: true },
        ArmState::Splicing { stdin_fd, read_end, write_end } => Footprint {
            open: set![stdin_fd, read_end, write_end],
            spliced: false,
            armed: true,
        },
        ArmState::Spawning { stdin_fd, write_end } => Footprint {
            open: set![stdin_fd, write_end],
            spliced: true,
            armed: true,
        },
        ArmState::Armed { stdin_fd, write_end } => Footprint {
            open: set![stdin_fd, write_end],
            spliced: true,
            armed: true,
        },
        ArmState::Disarmed => Footprint { open: Set::empty(), spliced: false, armed: false },
    }
}

/// The process after a step gave `event`.
pub open spec fn after_event(f: Footprint, event: ArmEvent) -> Footprint {
    match event {
        ArmEvent::Duplicated(fd) => if fd < 0 {
            f
        } else {
            Footprint { open: f.open.insert(fd), ..f }
        },
        ArmEvent::Piped { read_end, write_end } => Footprint { open: f.open.insert(read_end).insert(write_end), ..f },
        ArmEvent::Spliced(true) => Footprint { spliced: true, ..f },
        _ => f,
    }
}

/// The process after an action.
pub open spec fn after_action(f: Footprint, action: ArmAction) -> Footprint {
    match action {
        ArmAction::Close(fd) => Footprint { open: f.open.remove(fd), ..f },
        ArmAction::Restore(_) => Footprint { spliced: false, ..f },
        ArmAction::ClearArmed => Footprint { armed: false, ..f },
        _ => f,
    }
}

/// The process after the first `n` actions.
pub open spec fn after_actions(f: Footprint, actions: Seq<ArmAction>, n: nat) -> Footprint
    decreases n,
{
    if n == 0 {
        f
    } else {
        after_action(after_actions(f, actions, (n - 1) as nat), actions[n - 1])
    }
}

/// Whether the descriptors of a state differ from each other.
pub open spec fn are_distinct(state: ArmState) -> bool {
    match state {
        ArmState::Splicing { stdin_fd, read_end, write_end } => stdin_fd != read_end && stdin_fd != write_end && read_end
            != write_end,
        ArmState::Spawning { stdin_fd, write_end } => stdin_fd != write_end,
        ArmState::Armed { stdin_fd, write_end } => stdin_fd != write_end,
        _ => true,
    }
}

/// Whether the descriptors that an event brings are new.
pub open spec fn is_fresh(state: ArmState, event: ArmEvent) -> bool {
    match event {
        ArmEvent::Piped { read_end, write_end } => read_end != write_end && !footprint(state).open.contains(read_end)
            && !footprint(state).open.contains(write_end),
        _ => true,
    }
}

/// Every step leaves the process as its state says. In particular a step that gives
/// up has closed all that was opened and left the standard input in its place.
pub proof fn law_arming_accounts_for_descriptors(state: ArmState, event: ArmEvent)
    requires
        answers(state, event),
        are_distinct(state),
        is_fresh(state, event),
    ensures
        are_distinct(arm_next(state, event)),
        after_actions(
            after_event(footprint(state), event),
            arm_actions(state, event),
            arm_actions(state, event).len(),
        ) == footprint(arm_next(state, event)),
{
    reveal_with_fuel(after_actions, 5);
    let f = after_event(footprint(state), event);
    let todo = arm_actions(state, event);
    let g = after_actions(f, todo, todo.len());
    let want = footprint(arm_next(state, event));
    assert(g.open =~= want.open);
    assert(g =~= want);
}

// ---- the work on a seed line ----

/// What to do once reading has ended.
pub enum AfterLine {
    /// Pass these bytes on.
    Forward(Vec<u8>),
    /// Close the pipe, so that the reader sees the end of its input, and give up.
    CloseAndGiveUp,
}

/// A line is passed on before anything else is done with it, and whole.
pub fn after_line(line: Option<Vec<u8>>) -> (r: AfterLine)
    ensures
        match line {
            Some(l) => r matches AfterLine::Forward(bytes) && bytes@ == l@,
            None => r is CloseAndGiveUp,
        },
{
    match line {
        Some(l) => AfterLine::Forward(l),
        None => AfterLine::CloseAndGiveUp,
    }
}

/// What to do once a line was passed on, or could not be.
#[derive(Clone, Copy, Debug, PartialEq, Eq, Structural)]
pub enum AfterForward {
    /// Close the pipe and give up.
    CloseAndGiveUp,
    /// Give up; the reader has its line.
    GiveUp,
    /// Prove for this seed.
    Prove(u64),
}

/// The seed that the bytes of a line hold.
pub open spec fn seed_of(line: Seq<u8>) -> Option<u64> {
    if valid_utf8(line) {
        seed_in(decode_utf8(line))
    } else {
        None
    }
}

/// A line that was passed on is proved for when it holds a seed.
pub fn after_forward(line: &[u8], forwarded: bool) -> (r: AfterForward)
    ensures
        r == (if !forwarded {
            AfterForward::CloseAndGiveUp
        } else {
            match seed_of(line@) {
                Some(seed) => AfterForward::Prove(seed),
                None => AfterForward::GiveUp,
            }
        }),
        // The reader has its whole line, or sees the end of its input.
        forwarded || r == AfterForward::CloseAndGiveUp,
{
    if !forwarded {
        return AfterForward::CloseAndGiveUp;
    }
    match parse_seed(line) {
        Some(seed) => AfterForward::Prove(seed),
        None => AfterForward::GiveUp,
    }
}

// ---- adoption ----

/// What the caller does about the speculative blocks.
#[derive(Clone, Copy, Debug, PartialEq, Eq, Structural)]
pub enum BlocksStep {
    /// Prove normally.
    Decline,
    /// Wait for a signal and look again.
    Wait,
    /// Compare the blocks.
    Compare,
}

/// The blocks are waited for while the pipeline is armed and alive.
pub fn blocks_step(armed: bool, blocks_ready: bool, dead: bool) -> (r: BlocksStep)
    ensures
        r == (if !armed {
            BlocksStep::Decline
        } else if !blocks_ready && !dead {
            BlocksStep::Wait
        } else if dead {
            BlocksStep::Decline
        } else {
            BlocksStep::Compare
        }),
{
    if !armed {
        BlocksStep::Decline
    } else if !blocks_ready && !dead {
        BlocksStep::Wait
    } else if dead {
        BlocksStep::Decline
    } else {
        BlocksStep::Compare
    }
}

/// What the caller does about the speculative proof.
#[derive(Clone, Copy, Debug, PartialEq, Eq, Structural)]
pub enum ResultStep {
    /// Prove normally.
    Decline,
    /// Wait for a signal and look again.
    Wait,
    /// Take the proof.
    Adopt,
}

/// What is done about a proof that is ready or not, in a pipeline that is alive or not.
pub open spec fn result_plan(matched: bool, result_ready: bool, dead: bool) -> ResultStep {
    if !result_ready && !dead {
        ResultStep::Wait
    } else if dead || !matched {
        ResultStep::Decline
    } else {
        ResultStep::Adopt
    }
}

/// The proof is waited for whether or not it will be taken, and taken only when it
/// was made from the caller's blocks and the pipeline is alive.
pub fn result_step(matched: bool, result_ready: bool, dead: bool) -> (r: ResultStep)
    ensures
        r == result_plan(matched, result_ready, dead),
        // No second proof starts while the first one runs.
        r == ResultStep::Decline ==> result_ready || dead,
        r == ResultStep::Adopt ==> result_ready && matched,
{
    if !result_ready && !dead {
        ResultStep::Wait
    } else if dead || !matched {
        ResultStep::Decline
    } else {
        ResultStep::Adopt
    }
}

/// How the speculative run ended, as far as it has; `T` is what a proof is.
pub struct Outcome<T> {
    /// The proof, until a caller collects it.
    pub result: Option<T>,
    /// Whether the pipeline was given up.
    pub dead: bool,
}

/// What a caller gets of the speculative proof.
pub enum Collected<T> {
    /// Nothing yet: wait for a signal and look again.
    Wait,
    /// Nothing: prove normally.
    Decline,
    /// The proof.
    Adopt(T),
}

/// What happens to an outcome.
pub enum OutcomeEvent<T> {
    /// The speculative run ends with this proof.
    Finish(T),
    /// The pipeline is given up.
    GiveUp,
    /// A caller, whose blocks match or do not, collects.
    Collect(bool),
}

/// The outcome after an event. Collecting takes the proof out, whether it is adopted
/// or not.
pub open spec fn outcome_next<T>(o: Outcome<T>, event: OutcomeEvent<T>) -> Outcome<T> {
    match event {
        OutcomeEvent::Finish(out) => Outcome { result: Some(out), dead: o.dead },
        OutcomeEvent::GiveUp => Outcome { result: o.result, dead: true },
        OutcomeEvent::Collect(matched) => if result_plan(matched, o.result is Some, o.dead) == ResultStep::Wait {
            o
        } else {
            Outcome { result: None, dead: o.dead }
        },
    }
}

/// The proof that an event hands out.
pub open spec fn adopted<T>(o: Outcome<T>, event: OutcomeEvent<T>) -> Option<T> {
    match event {
        OutcomeEvent::Collect(matched) => if result_plan(matched, o.result is Some, o.dead) == ResultStep::Adopt {
            o.result
        } else {
            None
        },
        _ => None,
    }
}

impl<T> Outcome<T> {
    /// Nothing has ended yet.
    pub fn new() -> (o: Outcome<T>)
        ensures
            o.result is None,
            !o.dead,
    {
        Outcome { result: None, dead: false }
    }

    /// The speculative run ends with a proof.
    pub fn finish(&mut self, out: T)
        ensures
            *final(self) == outcome_next(*old(self), OutcomeEvent::Finish(out)),
    {
        self.result = Some(out);
    }

    /// The pipeline is given up.
    pub fn give_up(&mut self)
        ensures
            *final(self) == outcome_next(*old(self), OutcomeEvent::GiveUp),
    {
        self.dead = true;
    }

    /// Collects the proof once the run has ended: it is handed out when the caller's
    /// blocks match and the pipeline is alive, and it is gone afterwards in any case.
    pub fn collect(&mut self, matched: bool) -> (r: Collected<T>)
        ensures
            *final(self) == outcome_next(*old(self), OutcomeEvent::Collect(matched)),
            match result_plan(matched, old(self).result is Some, old(self).dead) {
                ResultStep::Wait => r is Wait,
                ResultStep::Decline => r is Decline,
                ResultStep::Adopt => r == Collected::Adopt(old(self).result->Some_0),
            },
            r matches Collected::Adopt(out) ==> adopted(*old(self), OutcomeEvent::Collect(matched)) == Some(out),
            r !is Adopt ==> adopted(*old(self), OutcomeEvent::Collect(matched)) is None,
            // What was handed out is not there any more.
            r is Adopt ==> final(self).result is None,
    {
        match result_step(matched, self.result.is_some(), self.dead) {
            ResultStep::Wait => Collected::Wait,
            ResultStep::Decline => {
                self.result = None;
                Collected::Decline
            },
            ResultStep::Adopt => match self.result.take() {
                Some(out) => Collected::Adopt(out),
                None => Collected::Decline,
            },
        }
    }
}

/// Whether the outcomes `os` follow each other by the events `es`.
pub open spec fn is_run<T>(os: Seq<Outcome<T>>, es: Seq<OutcomeEvent<T>>) -> bool {
    &&& os.len() == es.len() + 1
    &&& forall|i: int| 0 <= i < es.len() ==> os[i + 1] == outcome_next(os[i], #[trigger] es[i])
}

/// A proof that is there has come from a run that ended.
proof fn lemma_result_was_finished<T>(os: Seq<Outcome<T>>, es: Seq<OutcomeEvent<T>>, from: int, n: int)
    requires
        is_run(os, es),
        0 <= from <= n <= es.len(),
        os[from].result is None,
        os[n].result is Some,
    ensures
        exists|f: int| from <= f < n && #[trigger] es[f] == OutcomeEvent::Finish(os[n].result->Some_0),
    decreases n - from,
{
    if from < n {
        let e = es[n - 1];
        assert(os[n - 1 + 1] == outcome_next(os[n - 1], e));
        if e is Finish {
            assert(es[n - 1] == OutcomeEvent::Finish(os[n].result->Some_0));
        } else {
            lemma_result_was_finished(os, es, from, n - 1);
        }
    }
}

/// Whatever callers do, a proof that is handed out is that of a speculative run that
/// has ended, and a run that ends once is handed out at most once.
pub proof fn law_result_is_adopted_at_most_once<T>(os: Seq<Outcome<T>>, es: Seq<OutcomeEvent<T>>, i: int, j: int)
    requires
        is_run(os, es),
        os[0].result is None,
        forall|a: int, b: int|
            0 <= a < es.len() && 0 <= b < es.len() && #[trigger] es[a] is Finish && #[trigger] es[b] is Finish ==> a == b,
        0 <= i < es.len(),
        0 <= j < es.len(),
        adopted(os[i], es[i]) is Some,
        adopted(os[j], es[j]) is Some,
    ensures
        i == j,
        exists|f: int| 0 <= f < i && #[trigger] es[f] == OutcomeEvent::Finish(adopted(os[i], es[i])->Some_0),
{
    lemma_result_was_finished(os, es, 0, i);
    lemma_result_was_finished(os, es, 0, j);
    if i < j {
        lemma_handed_out_twice(os, es, i, j);
    } else if j < i {
        lemma_handed_out_twice(os, es, j, i);
    }
}

/// Between two proofs that are handed out a second run has ended.
proof fn lemma_handed_out_twice<T>(os: Seq<Outcome<T>>, es: Seq<OutcomeEvent<T>>, i: int, j: int)
    requires
        is_run(os, es),
        os[0].result is None,
        0 <= i < j < es.len(),
        adopted(os[i], es[i]) is Some,
        adopted(os[j], es[j]) is Some,
    ensures
        exists|a: int, b: int|
            0 <= a < b < es.len() && #[trigger] es[a] is Finish && #[trigger] es[b] is Finish,
{
    lemma_result_was_finished(os, es, 0, i);
    let a = choose|f: int| 0 <= f < i && #[trigger] es[f] == OutcomeEvent::Finish(os[i].result->Some_0);
    assert(os[i + 1] == outcome_next(os[i], es[i]));
    lemma_result_was_finished(os, es, i + 1, j);
    let b = choose|f: int| i + 1 <= f < j && #[trigger] es[f] == OutcomeEvent::Finish(os[j].result->Some_0);
    assert(es[a] is Finish && es[b] is Finish);
}

/// A caller whose blocks do not match, or who comes to a pipeline that was given up,
/// is handed nothing.
pub proof fn law_nothing_is_adopted_on_a_mismatch<T>(o: Outcome<T>, matched: bool)
    requires
        o.dead || !matched,
    ensures
        adopted(o, OutcomeEvent::Collect(matched)) is None,
{
}

} // verus!
