//! The mathematical model of the language: bracket matching on the program
//! text, and a small-step transition function on machine states.
//!
//! The executable engine in [`crate::interpreter`] states its contracts over
//! these definitions.

use vstd::prelude::*;

use crate::InterpreterError;
use crate::TAPE_SIZE;

verus! {

/// Net count of loop-start symbols minus loop-end symbols among the first `i`
/// characters of `p`: the nesting depth of the position just after them.
pub open spec fn depth(p: Seq<char>, i: int) -> int
    decreases i,
{
    if i <= 0 {
        0
    } else {
        depth(p, i - 1) + bracket_delta(p[i - 1])
    }
}

/// What one character contributes to the nesting depth.
pub open spec fn bracket_delta(c: char) -> int {
    if c == '[' {
        1
    } else if c == ']' {
        -1
    } else {
        0
    }
}

/// The loop-start at index `i` and the loop-end at index `j` form a pair under
/// strict nesting: the depth rises at `i`, returns to its old value just after
/// `j`, and stays strictly above it in between.
pub open spec fn bracket_matches(p: Seq<char>, i: int, j: int) -> bool {
    &&& 0 <= i < j < p.len()
    &&& p[i] == '['
    &&& p[j] == ']'
    &&& depth(p, j) == depth(p, i) + 1
    &&& forall|k: int| i < k <= j ==> depth(p, k) >= depth(p, i) + 1
}

/// Every bracket of `p` has a counterpart: the depth never drops below zero
/// and returns to zero at the end.
pub open spec fn balanced(p: Seq<char>) -> bool {
    &&& forall|k: int| 0 <= k <= p.len() ==> depth(p, k) >= 0
    &&& depth(p, p.len() as int) == 0
}

/// `j` is the first loop-end with no pending loop-start: the depth goes
/// negative just after `j` and nowhere earlier.
pub open spec fn unmatched_close_at(p: Seq<char>, j: int) -> bool {
    &&& 0 <= j < p.len()
    &&& depth(p, j + 1) < 0
    &&& forall|k: int| 0 <= k < j ==> #[trigger] depth(p, k + 1) >= 0
}

/// `i` is the outermost loop-start never closed: it opens at depth zero and
/// the depth never returns to zero afterwards.
pub open spec fn unmatched_open_at(p: Seq<char>, i: int) -> bool {
    &&& 0 <= i < p.len()
    &&& p[i] == '['
    &&& depth(p, i) == 0
    &&& forall|k: int| i < k <= p.len() ==> depth(p, k) >= 1
}

pub open spec fn has_unmatched_close(p: Seq<char>) -> bool {
    exists|j: int| unmatched_close_at(p, j)
}

/// The index named by an `UnmatchedBracket` error: the first excess loop-end
/// if there is one, else the outermost loop-start left open.
pub open spec fn reported_bracket_error(p: Seq<char>, ix: int) -> bool {
    if has_unmatched_close(p) {
        unmatched_close_at(p, ix)
    } else {
        unmatched_open_at(p, ix)
    }
}

/// The loop-end paired with the loop-start at `i`.
pub open spec fn close_of(p: Seq<char>, i: int) -> int {
    choose|j: int| bracket_matches(p, i, j)
}

/// The loop-start paired with the loop-end at `j`.
pub open spec fn open_of(p: Seq<char>, j: int) -> int {
    choose|i: int| bracket_matches(p, i, j)
}

/// A bracket map is correct for `p` when it sends every loop-start to its
/// matching loop-end and every loop-end to its matching loop-start.
pub open spec fn map_ok(p: Seq<char>, m: Seq<usize>) -> bool {
    &&& m.len() == p.len()
    &&& forall|i: int|
        #![auto]
        0 <= i < p.len() && p[i] == '[' ==> bracket_matches(p, i, m[i] as int)
    &&& forall|j: int|
        #![auto]
        0 <= j < p.len() && p[j] == ']' ==> bracket_matches(p, m[j] as int, j)
}

/// A cell value after the increment instruction: one more, wrapping at 256.
pub open spec fn inc_cell(b: u8) -> u8 {
    if b == 255 {
        0
    } else {
        (b + 1) as u8
    }
}

/// A cell value after the decrement instruction: one less, wrapping below 0.
pub open spec fn dec_cell(b: u8) -> u8 {
    if b == 0 {
        255
    } else {
        (b - 1) as u8
    }
}

/// The mutable part of the machine: the tape, the tape cursor, and the
/// program pointer.
#[verifier::ext_equal]
pub struct MachineState {
    pub tape: Seq<u8>,
    pub cursor: int,
    pub pp: int,
}

/// The tape has its fixed size, and the cursor points at one of its cells.
pub open spec fn state_inv(s: MachineState) -> bool {
    &&& s.tape.len() == TAPE_SIZE
    &&& 0 <= s.cursor < TAPE_SIZE
    &&& 0 <= s.pp
}

/// The cell under the cursor.
pub open spec fn cell_at(s: MachineState) -> u8 {
    s.tape[s.cursor]
}

/// What one instruction does, seen from outside the machine.
pub enum Effect {
    /// The program pointer has run past the end: the run is over.
    Halt,
    /// An internal step to the given next state, with no input or output.
    Step(MachineState),
    /// The output instruction: emit the byte, then continue in the given state.
    Emit(u8, MachineState),
    /// The input instruction: a byte must be supplied before the machine moves.
    ReadInput,
}

/// The effect of the instruction under the program pointer of `s`.
///
/// Unrecognized characters are comments: they step to the next instruction
/// and change nothing else.  The bracket instructions presuppose a matched
/// program; on one whose brackets do not pair, the jump target is not
/// specified (and the engine refuses to run such a program).
pub open spec fn instruction_effect(p: Seq<char>, s: MachineState) -> Effect {
    if !(0 <= s.pp < p.len()) {
        Effect::Halt
    } else {
        let c = p[s.pp];
        if c == '>' {
            Effect::Step(
                MachineState { cursor: (s.cursor + 1) % (TAPE_SIZE as int), pp: s.pp + 1, ..s },
            )
        } else if c == '<' {
            Effect::Step(
                MachineState {
                    cursor: (s.cursor + TAPE_SIZE - 1) % (TAPE_SIZE as int),
                    pp: s.pp + 1,
                    ..s
                },
            )
        } else if c == '+' {
            Effect::Step(
                MachineState { tape: s.tape.update(s.cursor, inc_cell(cell_at(s))), pp: s.pp + 1, ..s },
            )
        } else if c == '-' {
            Effect::Step(
                MachineState { tape: s.tape.update(s.cursor, dec_cell(cell_at(s))), pp: s.pp + 1, ..s },
            )
        } else if c == '.' {
            Effect::Emit(cell_at(s), MachineState { pp: s.pp + 1, ..s })
        } else if c == ',' {
            Effect::ReadInput
        } else if c == '[' {
            if cell_at(s) == 0 {
                Effect::Step(MachineState { pp: close_of(p, s.pp) + 1, ..s })
            } else {
                Effect::Step(MachineState { pp: s.pp + 1, ..s })
            }
        } else if c == ']' {
            if cell_at(s) != 0 {
                Effect::Step(MachineState { pp: open_of(p, s.pp) + 1, ..s })
            } else {
                Effect::Step(MachineState { pp: s.pp + 1, ..s })
            }
        } else {
            Effect::Step(MachineState { pp: s.pp + 1, ..s })
        }
    }
}

/// The machine after the input instruction reads the byte `b`.
pub open spec fn consume_input(s: MachineState, b: u8) -> MachineState {
    MachineState { tape: s.tape.update(s.cursor, b), pp: s.pp + 1, ..s }
}

/// A machine state together with the input not yet read and the output
/// produced so far.
#[verifier::ext_equal]
pub struct Execution {
    pub state: MachineState,
    pub input: Seq<u8>,
    pub output: Seq<u8>,
}

/// Where a run stands after some number of steps.
pub enum Progress {
    /// More instructions remain.
    Running(Execution),
    /// The program pointer ran past the end.
    Done(Execution),
    /// The run stopped with the given error.
    Failed(Execution, InterpreterError),
}

/// One small step of a run: the instruction's effect, with input taken from
/// and output appended to the buffers.  An input instruction with no input
/// left fails with `InputExhausted`.
pub open spec fn io_step(p: Seq<char>, e: Execution) -> Progress {
    match instruction_effect(p, e.state) {
        Effect::Halt => Progress::Done(e),
        Effect::Step(s2) => Progress::Running(Execution { state: s2, ..e }),
        Effect::Emit(b, s2) => Progress::Running(
            Execution { state: s2, output: e.output.push(b), ..e },
        ),
        Effect::ReadInput => if e.input.len() == 0 {
            Progress::Failed(e, InterpreterError::InputExhausted)
        } else {
            Progress::Running(
                Execution { state: consume_input(e.state, e.input[0]), input: e.input.skip(1), ..e },
            )
        },
    }
}

/// `n` small steps of a run, stopping early at `Done` or `Failed`.
pub open spec fn run_steps(p: Seq<char>, e: Execution, n: nat) -> Progress
    decreases n,
{
    if n == 0 {
        Progress::Running(e)
    } else {
        match io_step(p, e) {
            Progress::Running(e2) => run_steps(p, e2, (n - 1) as nat),
            finished => finished,
        }
    }
}

/// The execution a run starts from: the machine as it stands, but with the
/// program pointer at zero, the given input still unread, and no output yet.
pub open spec fn start_execution(s: MachineState, input: Seq<u8>) -> Execution {
    Execution { state: MachineState { pp: 0, ..s }, input, output: Seq::empty() }
}

/// After `n` steps from `e` the run is over, the machine in state `s`, having
/// produced the output `out`.
pub open spec fn reaches_done(
    p: Seq<char>,
    e: Execution,
    n: nat,
    s: MachineState,
    out: Seq<u8>,
) -> bool {
    match run_steps(p, e, n) {
        Progress::Done(e2) => e2.state == s && e2.output == out,
        _ => false,
    }
}

/// After `n` steps from `e` the run stops with the error `err`, the machine in
/// state `s`.
pub open spec fn reaches_failure(
    p: Seq<char>,
    e: Execution,
    n: nat,
    s: MachineState,
    err: InterpreterError,
) -> bool {
    match run_steps(p, e, n) {
        Progress::Failed(e2, e_err) => e2.state == s && e_err == err,
        _ => false,
    }
}

/// A loop-start has at most one matching loop-end.
pub proof fn lemma_match_close_unique(p: Seq<char>, i: int, j1: int, j2: int)
    requires
        bracket_matches(p, i, j1),
        bracket_matches(p, i, j2),
    ensures
        j1 == j2,
{
    if j1 < j2 {
        assert(depth(p, j1 + 1) == depth(p, i));
        assert(depth(p, j1 + 1) >= depth(p, i) + 1);
    }
    if j2 < j1 {
        assert(depth(p, j2 + 1) == depth(p, i));
        assert(depth(p, j2 + 1) >= depth(p, i) + 1);
    }
}

/// A loop-end has at most one matching loop-start.
pub proof fn lemma_match_open_unique(p: Seq<char>, i1: int, i2: int, j: int)
    requires
        bracket_matches(p, i1, j),
        bracket_matches(p, i2, j),
    ensures
        i1 == i2,
{
    if i1 < i2 {
        assert(depth(p, i2) >= depth(p, i1) + 1);
        assert(depth(p, i2) == depth(p, i1));
    }
    if i2 < i1 {
        assert(depth(p, i1) >= depth(p, i2) + 1);
        assert(depth(p, i1) == depth(p, i2));
    }
}

/// `close_of` names the matching loop-end whenever one exists.
pub proof fn lemma_close_of(p: Seq<char>, i: int, j: int)
    requires
        bracket_matches(p, i, j),
    ensures
        close_of(p, i) == j,
{
    assert(bracket_matches(p, i, close_of(p, i)));
    lemma_match_close_unique(p, i, close_of(p, i), j);
}

/// `open_of` names the matching loop-start whenever one exists.
pub proof fn lemma_open_of(p: Seq<char>, i: int, j: int)
    requires
        bracket_matches(p, i, j),
    ensures
        open_of(p, j) == i,
{
    assert(bracket_matches(p, open_of(p, j), j));
    lemma_match_open_unique(p, open_of(p, j), i, j);
}

/// Unfolding `run_steps` from the back: one more step applied to a run still
/// in progress is one `io_step` of where it stood.
pub proof fn lemma_run_steps_extend(p: Seq<char>, e: Execution, n: nat, cur: Execution)
    requires
        run_steps(p, e, n) == Progress::Running(cur),
    ensures
        run_steps(p, e, n + 1) == io_step(p, cur),
    decreases n,
{
    if n == 0 {
        assert(cur == e);
        match io_step(p, e) {
            Progress::Running(e2) => {
                assert(run_steps(p, e, 1) == run_steps(p, e2, 0));
            },
            Progress::Done(e2) => {
                assert(run_steps(p, e, 1) == Progress::Done(e2));
            },
            Progress::Failed(e2, err) => {
                assert(run_steps(p, e, 1) == Progress::Failed(e2, err));
            },
        }
    } else {
        match io_step(p, e) {
            Progress::Running(e2) => {
                lemma_run_steps_extend(p, e2, (n - 1) as nat, cur);
            },
            _ => {
                assert(false);
            },
        }
    }
}

} // verus!
