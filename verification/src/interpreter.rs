//! The executable engine: the interpreter type, bracket resolution, and
//! stepwise execution, each verified against the model in
//! [`crate::semantics`].

use vstd::prelude::*;

use crate::semantics::{
    balanced, bracket_matches, consume_input, depth, has_unmatched_close, instruction_effect,
    io_step, lemma_close_of, lemma_open_of, lemma_run_steps_extend, map_ok, reaches_done,
    reaches_failure, reported_bracket_error, run_steps, start_execution, unmatched_close_at,
    unmatched_open_at, Effect, Execution, MachineState, Progress,
};
use crate::InterpreterError;
use crate::TAPE_SIZE;

verus! {

/// An element of the pending-bracket stack: a loop-start seen before
/// position `i`, standing at nesting level `t`, not yet closed by `i`.
spec fn stack_entry_ok(p: Seq<char>, st: Seq<usize>, t: int, i: int) -> bool {
    let s = st[t] as int;
    &&& 0 <= s < i
    &&& p[s] == '['
    &&& depth(p, s) == t
    &&& forall|k: int| s < k <= i ==> depth(p, k) >= t + 1
}

/// The loop-start at `j` is closed somewhere in `p[..i]`: the depth comes
/// back down to its level at some position after `j` and no later than `i`.
spec fn closed_by(p: Seq<char>, j: int, i: int) -> bool {
    exists|k: int| j < k <= i && depth(p, k) <= depth(p, j)
}

/// A loop-start not yet closed stands on the pending stack, in the slot of
/// its own nesting level.
proof fn lemma_pending_open_on_stack(p: Seq<char>, st: Seq<usize>, i: int, j: int)
    requires
        0 <= j < i,
        p[j] == '[',
        !closed_by(p, j, i),
        0 <= depth(p, j) < st.len(),
        stack_entry_ok(p, st, depth(p, j), i),
    ensures
        st[depth(p, j)] as int == j,
{
    let t = depth(p, j);
    let s = st[t] as int;
    if s < j {
        // `j` lies in `(s, i]`, where the entry keeps the depth above `t`.
        assert(depth(p, j) >= t + 1);
    }
    if j < s {
        // `s` lies in `(j, i]` and would close `j`, which stays open.
        assert(j < s <= i && depth(p, s) <= depth(p, j));
        assert(closed_by(p, j, i));
    }
}

/// What one call of [`Interpreter::step`] asks of its caller.
#[derive(Clone, Copy, Debug, PartialEq, Eq)]
pub enum StepEvent {
    /// An instruction ran; nothing crossed the machine's boundary.
    Progressed,
    /// The output instruction ran: the byte is to be written to the output
    /// channel.
    Output(u8),
    /// The program pointer stands at an input instruction: supply a byte with
    /// [`Interpreter::feed_input`] before stepping again.
    NeedInput,
    /// The program pointer has run past the end: the run is over.
    Halted,
}

/// What [`Interpreter::run`] promises when the program halted: the program is
/// balanced, the program pointer stands past the end, and within the budget
/// the model's small-step semantics arrive at exactly this machine state and
/// output.
pub open spec fn run_completed(
    pre: Interpreter,
    post: Interpreter,
    input: Seq<u8>,
    max_steps: usize,
    out: Seq<u8>,
) -> bool {
    &&& balanced(pre.program@)
    &&& post.program_pointer == post.program@.len()
    &&& exists|n: nat|
        n <= max_steps && reaches_done(
            pre.program@,
            start_execution(pre.state(), input),
            n,
            post.state(),
            out,
        )
}

/// What [`Interpreter::run`] promises when the budget ran out: after exactly
/// `max_steps` steps the model's run is still in progress, the machine
/// standing exactly where the interpreter stopped.
pub open spec fn run_out_of_steps(
    pre: Interpreter,
    post: Interpreter,
    input: Seq<u8>,
    max_steps: usize,
) -> bool {
    &&& balanced(pre.program@)
    &&& match run_steps(pre.program@, start_execution(pre.state(), input), max_steps as nat) {
        Progress::Running(e2) => e2.state == post.state(),
        _ => false,
    }
}

/// What [`Interpreter::run`] promises when it fails: an `UnmatchedBracket`
/// names the offending index and precedes any mutation, and `InputExhausted`
/// is reached by the model's run on that input.  `run` itself never reports
/// `OutputFailure`: its output goes to a buffer that cannot reject a byte.
pub open spec fn run_failed(
    pre: Interpreter,
    post: Interpreter,
    input: Seq<u8>,
    e: InterpreterError,
) -> bool {
    match e {
        InterpreterError::UnmatchedBracket(ix) => {
            &&& !balanced(pre.program@)
            &&& reported_bracket_error(pre.program@, ix as int)
            &&& post.tape@ == pre.tape@
            &&& post.tape_pointer == pre.tape_pointer
            &&& post.program_pointer == pre.program_pointer
        },
        InterpreterError::InputExhausted => {
            &&& balanced(pre.program@)
            &&& exists|n: nat|
                reaches_failure(
                    pre.program@,
                    start_execution(pre.state(), input),
                    n,
                    post.state(),
                    InterpreterError::InputExhausted,
                )
        },
        InterpreterError::OutputFailure => false,
    }
}

/// A Brainfuck interpreter.
///
/// Instantiate one with [`Interpreter::new`] or
/// [`Interpreter::from_program_str`], then run the program with
/// [`Interpreter::run`], or drive it one instruction at a time with
/// [`Interpreter::step`] and [`Interpreter::feed_input`].
pub struct Interpreter {
    /// The fixed-size memory the program operates on, one byte per cell.
    pub tape: Vec<u8>,
    /// The index of the currently selected cell, always within the tape.
    pub tape_pointer: usize,
    /// The program: one character per instruction, immutable once loaded.
    pub program: Vec<char>,
    /// The index of the next instruction to execute.
    pub program_pointer: usize,
    /// Precomputed bracket map, rebuilt by every call to `run`.
    ///
    /// At the index of each loop bracket it holds the index of the matching
    /// counterpart, so loops jump in constant time during execution.
    pub bracket_map: Vec<usize>,
}

impl Interpreter {
    /// The tape has its fixed size and the cursor points at one of its cells.
    pub open spec fn wf(self) -> bool {
        &&& self.tape@.len() == TAPE_SIZE
        &&& self.tape_pointer < TAPE_SIZE
    }

    /// The machine state this interpreter is in, as the model sees it.
    pub open spec fn state(self) -> MachineState {
        MachineState {
            tape: self.tape@,
            cursor: self.tape_pointer as int,
            pp: self.program_pointer as int,
        }
    }

    /// Fit to execute: well formed, the bracket map correct for the program,
    /// and the program pointer at an instruction or just past the end.
    pub open spec fn ready(self) -> bool {
        &&& self.wf()
        &&& map_ok(self.program@, self.bracket_map@)
        &&& self.program_pointer <= self.program@.len()
    }

    /// Return a new, empty interpreter: an all-zero tape, both pointers at
    /// zero, and no program.
    pub fn new() -> (r: Interpreter)
        ensures
            r.wf(),
            r.tape@ == Seq::new(TAPE_SIZE as nat, |i: int| 0u8),
            r.tape_pointer == 0,
            r.program@ == Seq::<char>::empty(),
            r.program_pointer == 0,
            r.bracket_map@ == Seq::<usize>::empty(),
    {
        let mut tape: Vec<u8> = Vec::new();
        let mut i: usize = 0;
        while i < TAPE_SIZE
            invariant
                i <= TAPE_SIZE,
                tape@.len() == i,
                forall|k: int| 0 <= k < i ==> tape@[k] == 0u8,
            decreases TAPE_SIZE - i,
        {
            tape.push(0);
            i += 1;
        }
        proof {
            assert(tape@ =~= Seq::new(TAPE_SIZE as nat, |i: int| 0u8));
        }
        Interpreter {
            tape,
            tape_pointer: 0,
            program: Vec::new(),
            program_pointer: 0,
            bracket_map: Vec::new(),
        }
    }

    /// Return an empty interpreter with a program preloaded: every character
    /// of `program`, in order, is one instruction.
    pub fn from_program_str(program: &str) -> (r: Interpreter)
        ensures
            r.wf(),
            r.tape@ == Seq::new(TAPE_SIZE as nat, |i: int| 0u8),
            r.tape_pointer == 0,
            r.program@ == program@,
            r.program_pointer == 0,
            r.bracket_map@ == Seq::<usize>::empty(),
    {
        let mut interpreter = Interpreter::new();
        let n = program.unicode_len();
        let mut chars: Vec<char> = Vec::new();
        let mut i: usize = 0;
        while i < n
            invariant
                i <= n,
                n == program@.len(),
                chars@.len() == i,
                forall|k: int| 0 <= k < i ==> chars@[k] == program@[k],
            decreases n - i,
        {
            chars.push(program.get_char(i));
            i += 1;
        }
        proof {
            assert(chars@ =~= program@);
        }
        interpreter.program = chars;
        interpreter
    }

    /// Compute the loop bracket map.
    ///
    /// On success the program is balanced and the map pairs every loop
    /// bracket with its counterpart.  Otherwise the program has a bracket
    /// with no counterpart, and the error names the offending index: the
    /// first loop-end with no pending loop-start, or, when every loop-end
    /// pairs, the outermost loop-start never closed.  No other field changes
    /// either way.
    pub fn compute_bracket_map(&mut self) -> (r: Result<(), InterpreterError>)
        requires
            old(self).wf(),
        ensures
            final(self).wf(),
            final(self).tape@ == old(self).tape@,
            final(self).tape_pointer == old(self).tape_pointer,
            final(self).program@ == old(self).program@,
            final(self).program_pointer == old(self).program_pointer,
            match r {
                Ok(()) => balanced(old(self).program@) && map_ok(
                    final(self).program@,
                    final(self).bracket_map@,
                ),
                Err(e) => {
                    &&& final(self).bracket_map@ == old(self).bracket_map@
                    &&& !balanced(old(self).program@)
                    &&& match e {
                        InterpreterError::UnmatchedBracket(ix) => reported_bracket_error(
                            old(self).program@,
                            ix as int,
                        ),
                        _ => false,
                    }
                },
            },
    {
        let ghost p = self.program@;
        let n = self.program.len();

        let mut map: Vec<usize> = Vec::new();
        let mut fill: usize = 0;
        while fill < n
            invariant
                fill <= n,
                map@.len() == fill,
            decreases n - fill,
        {
            map.push(0);
            fill += 1;
        }

        let mut stack: Vec<usize> = Vec::new();
        let mut i: usize = 0;
        while i < n
            invariant
                i <= n,
                n == p.len(),
                self.program@ == p,
                self.wf(),
                self.tape@ == old(self).tape@,
                self.tape_pointer == old(self).tape_pointer,
                self.program_pointer == old(self).program_pointer,
                self.bracket_map@ == old(self).bracket_map@,
                map@.len() == n,
                forall|k: int| 0 <= k <= i ==> depth(p, k) >= 0,
                stack@.len() == depth(p, i as int),
                forall|t: int| 0 <= t < stack@.len() ==> stack_entry_ok(p, stack@, t, i as int),
                forall|j: int|
                    #![auto]
                    0 <= j < i && p[j] == ']' ==> bracket_matches(p, map@[j] as int, j),
                forall|j: int|
                    #![auto]
                    0 <= j < i && p[j] == '[' && closed_by(p, j, i as int) ==> bracket_matches(
                        p,
                        j,
                        map@[j] as int,
                    ),
            decreases n - i,
        {
            let ch = self.program[i];
            let ghost i1: int = i as int + 1;
            let ghost stack0 = stack@;
            let ghost map0 = map@;
            if ch == '[' {
                stack.push(i);
                proof {
                    assert(depth(p, i + 1) == depth(p, i as int) + 1);
                    assert forall|t: int| 0 <= t < stack@.len() implies stack_entry_ok(
                        p,
                        stack@,
                        t,
                        i1,
                    ) by {
                        if t < stack0.len() {
                            assert(stack_entry_ok(p, stack0, t, i as int));
                            assert(stack@[t] == stack0[t]);
                        } else {
                            assert(stack@[t] == i);
                        }
                    }
                    assert forall|j: int|
                        #![auto]
                        0 <= j < i1 && p[j] == '[' && closed_by(p, j, i1) implies
                        bracket_matches(p, j, map@[j] as int) by {
                        let k = choose|k: int| j < k <= i1 && depth(p, k) <= depth(p, j);
                        if k == i1 {
                            // the depth just rose, so position `i` already closed `j`
                            assert(j < i);
                            assert(j < i <= i && depth(p, i as int) <= depth(p, j));
                            assert(closed_by(p, j, i as int));
                        } else {
                            assert(closed_by(p, j, i as int));
                        }
                    }
                }
            } else if ch == ']' {
                if stack.len() == 0 {
                    proof {
                        assert(depth(p, i as int) == 0);
                        assert(depth(p, i + 1) == -1);
                        assert(unmatched_close_at(p, i as int));
                        assert(has_unmatched_close(p));
                        assert(!balanced(p)) by {
                            assert(0 <= i + 1 <= p.len() && depth(p, i + 1) < 0);
                        }
                    }
                    return Err(InterpreterError::UnmatchedBracket(i));
                }
                let top = stack.len() - 1;
                let open_index = stack[top];
                stack.truncate(top);
                proof {
                    assert(stack_entry_ok(p, stack0, top as int, i as int));
                }
                map[open_index] = i;
                map[i] = open_index;
                proof {
                    assert(depth(p, i + 1) == depth(p, i as int) - 1);
                    assert(bracket_matches(p, open_index as int, i as int));
                    assert forall|t: int| 0 <= t < stack@.len() implies stack_entry_ok(
                        p,
                        stack@,
                        t,
                        i1,
                    ) by {
                        assert(stack_entry_ok(p, stack0, t, i as int));
                        assert(stack@[t] == stack0[t]);
                    }
                    assert forall|j: int|
                        #![auto]
                        0 <= j < i1 && p[j] == ']' implies bracket_matches(
                        p,
                        map@[j] as int,
                        j,
                    ) by {
                        if j < i {
                            assert(map@[j] == map0[j]);
                            assert(bracket_matches(p, map0[j] as int, j));
                        }
                    }
                    assert forall|j: int|
                        #![auto]
                        0 <= j < i1 && p[j] == '[' && closed_by(p, j, i1) implies
                        bracket_matches(p, j, map@[j] as int) by {
                        if j == open_index as int {
                            assert(map@[j] == i);
                        } else if closed_by(p, j, i as int) {
                            assert(map@[j] == map0[j]);
                            assert(bracket_matches(p, j, map0[j] as int));
                        } else {
                            // newly closed only now: the depth at `i + 1` came
                            // down to the level of `j`, so `j` was the top of
                            // the pending stack, i.e. `open_index` after all
                            assert(j < i);
                            let k = choose|k: int| j < k <= i1 && depth(p, k) <= depth(p, j);
                            assert(k == i1);
                            assert(j < i as int <= i && !(depth(p, i as int) <= depth(p, j)));
                            assert(depth(p, j) <= top as int);
                            assert(depth(p, j) >= top as int);
                            lemma_pending_open_on_stack(p, stack0, i as int, j);
                            assert(false);
                        }
                    }
                }
            } else {
                proof {
                    assert(depth(p, i + 1) == depth(p, i as int));
                    assert forall|t: int| 0 <= t < stack@.len() implies stack_entry_ok(
                        p,
                        stack@,
                        t,
                        i1,
                    ) by {
                        assert(stack_entry_ok(p, stack0, t, i as int));
                    }
                    assert forall|j: int|
                        #![auto]
                        0 <= j < i1 && p[j] == '[' && closed_by(p, j, i1) implies
                        bracket_matches(p, j, map@[j] as int) by {
                        let k = choose|k: int| j < k <= i1 && depth(p, k) <= depth(p, j);
                        if k == i1 {
                            assert(j < i as int <= i && depth(p, i as int) <= depth(p, j));
                            assert(closed_by(p, j, i as int));
                        } else {
                            assert(closed_by(p, j, i as int));
                        }
                    }
                }
            }
            i += 1;
        }

        if stack.len() > 0 {
            let first_open = stack[0];
            proof {
                assert(stack_entry_ok(p, stack@, 0, n as int));
                assert(unmatched_open_at(p, first_open as int));
                assert(!has_unmatched_close(p)) by {
                    if has_unmatched_close(p) {
                        let j = choose|j: int| unmatched_close_at(p, j);
                        assert(depth(p, j + 1) >= 0);
                    }
                }
                assert(!balanced(p)) by {
                    assert(depth(p, n as int) == stack@.len());
                }
            }
            return Err(InterpreterError::UnmatchedBracket(first_open));
        }
        proof {
            assert(balanced(p));
            assert forall|j: int|
                #![auto]
                0 <= j < n && p[j] == '[' implies bracket_matches(p, j, map@[j] as int) by {
                assert(j < n as int <= n && depth(p, n as int) <= depth(p, j));
                assert(closed_by(p, j, n as int));
            }
            assert(map_ok(p, map@));
        }
        self.bracket_map = map;
        Ok(())
    }

    /// Execute the single instruction under the program pointer.
    ///
    /// The returned event says what happened, and the contract ties it to the
    /// instruction's effect in the model: the machine moves exactly as
    /// [`instruction_effect`] says.  On [`StepEvent::Output`] the caller is to
    /// deliver the byte; on [`StepEvent::NeedInput`] the machine has not moved
    /// and waits for [`Interpreter::feed_input`].
    pub fn step(&mut self) -> (e: StepEvent)
        requires
            old(self).ready(),
        ensures
            final(self).ready(),
            final(self).program@ == old(self).program@,
            final(self).bracket_map@ == old(self).bracket_map@,
            match e {
                StepEvent::Halted => instruction_effect(old(self).program@, old(self).state())
                    == Effect::Halt && final(self).state() == old(self).state(),
                StepEvent::Progressed => instruction_effect(old(self).program@, old(self).state())
                    == Effect::Step(final(self).state()),
                StepEvent::Output(b) => instruction_effect(old(self).program@, old(self).state())
                    == Effect::Emit(b, final(self).state()),
                StepEvent::NeedInput => instruction_effect(old(self).program@, old(self).state())
                    == Effect::ReadInput && final(self).state() == old(self).state(),
            },
    {
        let ghost p = self.program@;
        if self.program_pointer >= self.program.len() {
            return StepEvent::Halted;
        }
        let instruction = self.program[self.program_pointer];
        if instruction == '>' {
            self.tape_pointer = (self.tape_pointer + 1) % TAPE_SIZE;
            self.program_pointer += 1;
            StepEvent::Progressed
        } else if instruction == '<' {
            self.tape_pointer = (self.tape_pointer + TAPE_SIZE - 1) % TAPE_SIZE;
            self.program_pointer += 1;
            StepEvent::Progressed
        } else if instruction == '+' {
            let v = self.tape[self.tape_pointer];
            let incremented = if v == 255 {
                0
            } else {
                v + 1
            };
            self.tape[self.tape_pointer] = incremented;
            self.program_pointer += 1;
            StepEvent::Progressed
        } else if instruction == '-' {
            let v = self.tape[self.tape_pointer];
            let decremented = if v == 0 {
                255
            } else {
                v - 1
            };
            self.tape[self.tape_pointer] = decremented;
            self.program_pointer += 1;
            StepEvent::Progressed
        } else if instruction == '.' {
            let emitted = self.tape[self.tape_pointer];
            self.program_pointer += 1;
            StepEvent::Output(emitted)
        } else if instruction == ',' {
            StepEvent::NeedInput
        } else if instruction == '[' {
            let v = self.tape[self.tape_pointer];
            if v == 0 {
                let target = self.bracket_map[self.program_pointer];
                proof {
                    lemma_close_of(p, self.program_pointer as int, target as int);
                }
                self.program_pointer = target + 1;
            } else {
                self.program_pointer += 1;
            }
            StepEvent::Progressed
        } else if instruction == ']' {
            let v = self.tape[self.tape_pointer];
            if v != 0 {
                let target = self.bracket_map[self.program_pointer];
                proof {
                    lemma_open_of(p, target as int, self.program_pointer as int);
                }
                self.program_pointer = target + 1;
            } else {
                self.program_pointer += 1;
            }
            StepEvent::Progressed
        } else {
            self.program_pointer += 1;
            StepEvent::Progressed
        }
    }

    /// Supply the byte a pending input instruction asked for: it is stored in
    /// the current cell and the machine moves to the next instruction.
    pub fn feed_input(&mut self, b: u8)
        requires
            old(self).ready(),
            old(self).program_pointer < old(self).program@.len(),
            old(self).program@[old(self).program_pointer as int] == ',',
        ensures
            final(self).ready(),
            final(self).program@ == old(self).program@,
            final(self).bracket_map@ == old(self).bracket_map@,
            final(self).state() == consume_input(old(self).state(), b),
    {
        self.tape[self.tape_pointer] = b;
        let n = self.program.len();
        proof {
            assert(self.program_pointer < n);
        }
        self.program_pointer += 1;
    }

    /// Run the program against the given input bytes and return the output
    /// bytes.
    ///
    /// The bracket map is recomputed first and execution starts at program
    /// pointer zero.  Each input instruction consumes the next byte of
    /// `input`; each output instruction appends one byte to the output.  At
    /// most `max_steps` instructions execute: a verified loop must terminate,
    /// and nothing bounds how long a program of this language may run, so the
    /// caller sets the budget.  The result is exactly where the model's
    /// small-step semantics arrive from that start:
    ///
    /// - `Ok(Some(output))` when the program pointer runs past the end within
    ///   the budget;
    /// - `Ok(None)` when `max_steps` instructions have run and more remain:
    ///   the machine stands exactly where the model says after `max_steps`
    ///   steps;
    /// - `Err(UnmatchedBracket)` when the brackets do not pair, before any
    ///   instruction executes: tape, cursor and program pointer untouched;
    /// - `Err(InputExhausted)` when an input instruction finds `input` used
    ///   up: the tape keeps its last-mutated state.
    pub fn run(&mut self, input: &Vec<u8>, max_steps: usize) -> (r: Result<
        Option<Vec<u8>>,
        InterpreterError,
    >)
        requires
            old(self).wf(),
        ensures
            final(self).wf(),
            final(self).program@ == old(self).program@,
            match r {
                Ok(out_opt) => match out_opt {
                    Some(out) => run_completed(*old(self), *final(self), input@, max_steps, out@),
                    None => run_out_of_steps(*old(self), *final(self), input@, max_steps),
                },
                Err(e) => run_failed(*old(self), *final(self), input@, e),
            },
    {
        match self.compute_bracket_map() {
            Ok(()) => {},
            Err(e) => {
                return Err(e);
            },
        }
        self.program_pointer = 0;
        let ghost p = self.program@;
        let ghost start = start_execution(old(self).state(), input@);
        let mut output: Vec<u8> = Vec::new();
        let mut next_input: usize = 0;
        let mut steps: usize = 0;
        proof {
            assert(input@.skip(0) =~= input@);
            assert(start == Execution {
                state: self.state(),
                input: input@.skip(0),
                output: output@,
            });
        }
        while steps < max_steps
            invariant
                self.ready(),
                self.program@ == p,
                p == old(self).program@,
                start == start_execution(old(self).state(), input@),
                balanced(p),
                next_input <= input@.len(),
                steps <= max_steps,
                run_steps(p, start, steps as nat) == Progress::Running(
                    Execution {
                        state: self.state(),
                        input: input@.skip(next_input as int),
                        output: output@,
                    },
                ),
            decreases max_steps - steps,
        {
            let ghost cur = Execution {
                state: self.state(),
                input: input@.skip(next_input as int),
                output: output@,
            };
            let event = self.step();
            match event {
                StepEvent::Halted => {
                    proof {
                        lemma_run_steps_extend(p, start, steps as nat, cur);
                        assert(io_step(p, cur) == Progress::Done(cur));
                        assert(reaches_done(p, start, (steps + 1) as nat, self.state(), output@));
                        assert(self.state().pp == p.len());
                    }
                    return Ok(Some(output));
                },
                StepEvent::Progressed => {
                    proof {
                        lemma_run_steps_extend(p, start, steps as nat, cur);
                        assert(io_step(p, cur) == Progress::Running(
                            Execution { state: self.state(), input: cur.input, output: cur.output },
                        ));
                    }
                    steps += 1;
                },
                StepEvent::Output(b) => {
                    output.push(b);
                    proof {
                        lemma_run_steps_extend(p, start, steps as nat, cur);
                        assert(io_step(p, cur) == Progress::Running(
                            Execution { state: self.state(), input: cur.input, output: output@ },
                        ));
                    }
                    steps += 1;
                },
                StepEvent::NeedInput => {
                    if next_input < input.len() {
                        let b = input[next_input];
                        next_input += 1;
                        proof {
                            assert(p[self.state().pp] == ',');
                        }
                        self.feed_input(b);
                        proof {
                            lemma_run_steps_extend(p, start, steps as nat, cur);
                            assert(cur.input[0] == b);
                            assert(cur.input.skip(1) =~= input@.skip(next_input as int));
                            assert(io_step(p, cur) == Progress::Running(
                                Execution {
                                    state: self.state(),
                                    input: input@.skip(next_input as int),
                                    output: output@,
                                },
                            ));
                        }
                        steps += 1;
                    } else {
                        proof {
                            lemma_run_steps_extend(p, start, steps as nat, cur);
                            assert(cur.input.len() == 0);
                            assert(io_step(p, cur) == Progress::Failed(
                                cur,
                                InterpreterError::InputExhausted,
                            ));
                            assert(reaches_failure(
                                old(self).program@,
                                start_execution(old(self).state(), input@),
                                (steps + 1) as nat,
                                self.state(),
                                InterpreterError::InputExhausted,
                            ));
                        }
                        return Err(InterpreterError::InputExhausted);
                    }
                },
            }
        }
        Ok(None)
    }
}

} // verus!
