//! General properties of the language's semantics, each stated over the model
//! in [`crate::semantics`] and proved once and for all.

use vstd::prelude::*;

use vstd::arithmetic::div_mod::{
    lemma_add_mod_noop, lemma_mod_add_multiples_vanish, lemma_mod_bound, lemma_mod_twice,
    lemma_small_mod,
};

use crate::semantics::{
    bracket_matches, cell_at, consume_input, dec_cell, inc_cell, instruction_effect, io_step,
    lemma_close_of, lemma_open_of, reaches_done, run_steps, state_inv, Effect, Execution,
    MachineState, Progress,
};
use crate::TAPE_SIZE;

verus! {

/// Increment and decrement are inverse on a cell, modulo 256: applying one
/// and then the other restores the cell's prior value.
pub proof fn lemma_increment_decrement_inverse(b: u8)
    ensures
        dec_cell(inc_cell(b)) == b,
        inc_cell(dec_cell(b)) == b,
{
}

/// Running an increment instruction and then a decrement instruction (or the
/// other way round) leaves tape, cursor, input and output as they were, with
/// the program pointer two further on.
pub proof fn lemma_increment_decrement_cancel(p: Seq<char>, e: Execution)
    requires
        state_inv(e.state),
        e.state.pp + 1 < p.len(),
        (p[e.state.pp] == '+' && p[e.state.pp + 1] == '-') || (p[e.state.pp] == '-'
            && p[e.state.pp + 1] == '+'),
    ensures
        match io_step(p, e) {
            Progress::Running(e1) => match io_step(p, e1) {
                Progress::Running(e2) => {
                    &&& e2.state.tape == e.state.tape
                    &&& e2.state.cursor == e.state.cursor
                    &&& e2.state.pp == e.state.pp + 2
                    &&& e2.input == e.input
                    &&& e2.output == e.output
                },
                _ => false,
            },
            _ => false,
        },
{
    let s = e.state;
    let first = if p[s.pp] == '+' {
        inc_cell(cell_at(s))
    } else {
        dec_cell(cell_at(s))
    };
    let t1 = s.tape.update(s.cursor, first);
    let s1 = MachineState { tape: t1, pp: s.pp + 1, ..s };
    assert(io_step(p, e) == Progress::Running(Execution { state: s1, ..e }));
    assert(t1[s.cursor] == first);
    let second = if p[s.pp + 1] == '-' {
        dec_cell(first)
    } else {
        inc_cell(first)
    };
    assert(second == cell_at(s));
    let t2 = t1.update(s.cursor, second);
    assert(t2 =~= s.tape);
}

/// A program made only of the two cursor-move instructions.
pub open spec fn moves_only(p: Seq<char>) -> bool {
    forall|i: int| 0 <= i < p.len() ==> p[i] == '>' || p[i] == '<'
}

/// What one character moves the cursor by.
pub open spec fn move_delta(c: char) -> int {
    if c == '>' {
        1
    } else if c == '<' {
        -1
    } else {
        0
    }
}

/// The net cursor displacement of a program: moves right minus moves left.
pub open spec fn net_displacement(p: Seq<char>) -> int
    decreases p.len(),
{
    if p.len() == 0 {
        0
    } else {
        move_delta(p[0]) + net_displacement(p.skip(1))
    }
}

/// From any position inside a program of only cursor moves, the run completes,
/// touches neither tape nor output, and leaves the cursor at its old place
/// plus the remaining net displacement, modulo the tape size.
proof fn lemma_moves_run_from(p: Seq<char>, e: Execution)
    requires
        moves_only(p),
        state_inv(e.state),
        e.state.pp <= p.len(),
    ensures
        ({
            let target = MachineState {
                tape: e.state.tape,
                cursor: (e.state.cursor + net_displacement(p.skip(e.state.pp))) % (TAPE_SIZE as int),
                pp: p.len() as int,
            };
            exists|n: nat| reaches_done(p, e, n, target, e.output)
        }),
    decreases p.len() - e.state.pp,
{
    let ts = TAPE_SIZE as int;
    let s = e.state;
    let rest = p.skip(s.pp);
    if s.pp == p.len() {
        assert(instruction_effect(p, s) == Effect::Halt);
        assert(rest.len() == 0);
        assert(net_displacement(rest) == 0);
        lemma_small_mod(s.cursor as nat, TAPE_SIZE as nat);
        let target = MachineState { tape: s.tape, cursor: (s.cursor + 0) % ts, pp: p.len() as int };
        assert(s =~= target);
        assert(run_steps(p, e, 1) == Progress::Done(e));
        assert(reaches_done(p, e, 1, target, e.output));
    } else {
        let c = p[s.pp];
        assert(c == '>' || c == '<');
        let moved = if c == '>' {
            s.cursor + 1
        } else {
            s.cursor + ts - 1
        };
        let s2 = MachineState { cursor: moved % ts, pp: s.pp + 1, ..s };
        let e2 = Execution { state: s2, ..e };
        assert(io_step(p, e) == Progress::Running(e2));
        lemma_mod_bound(moved, ts);
        lemma_moves_run_from(p, e2);
        let rest2 = p.skip(s.pp + 1);
        assert(rest[0] == c && rest.skip(1) =~= rest2);
        assert(net_displacement(rest) == move_delta(c) + net_displacement(rest2));
        let target2 = MachineState {
            tape: s.tape,
            cursor: (s2.cursor + net_displacement(rest2)) % ts,
            pp: p.len() as int,
        };
        let n2 = choose|n: nat| reaches_done(p, e2, n, target2, e.output);
        assert(reaches_done(p, e2, n2, target2, e.output));
        assert(run_steps(p, e, n2 + 1) == run_steps(p, e2, n2));
        // (moved % ts + d) % ts == (moved + d) % ts
        let d = net_displacement(rest2);
        lemma_mod_twice(moved, ts);
        lemma_add_mod_noop(moved % ts, d, ts);
        lemma_add_mod_noop(moved, d, ts);
        assert((moved % ts + d) % ts == (moved + d) % ts);
        if c == '<' {
            // dropping one full tape length does not change the residue
            lemma_mod_add_multiples_vanish(s.cursor - 1 + d, ts);
            assert(moved + d == ts + (s.cursor - 1 + d));
        }
        assert(target2.cursor == (s.cursor + net_displacement(rest)) % ts);
        assert(reaches_done(
            p,
            e,
            n2 + 1,
            MachineState {
                tape: s.tape,
                cursor: (s.cursor + net_displacement(rest)) % ts,
                pp: p.len() as int,
            },
            e.output,
        ));
    }
}

/// Over any program of only cursor-move instructions, a run from the start
/// completes with the tape cursor at the net displacement plus its starting
/// place, modulo the tape size — in particular always within the tape.
pub proof fn lemma_moves_net_displacement(p: Seq<char>, e: Execution)
    requires
        moves_only(p),
        state_inv(e.state),
        e.state.pp == 0,
    ensures
        ({
            let target = MachineState {
                tape: e.state.tape,
                cursor: (e.state.cursor + net_displacement(p)) % (TAPE_SIZE as int),
                pp: p.len() as int,
            };
            exists|n: nat| reaches_done(p, e, n, target, e.output)
        }),
        0 <= (e.state.cursor + net_displacement(p)) % (TAPE_SIZE as int) < TAPE_SIZE,
{
    lemma_moves_run_from(p, e);
    assert(p.skip(0) =~= p);
    lemma_mod_bound(e.state.cursor + net_displacement(p), TAPE_SIZE as int);
}

/// A loop runs exactly while its guard cell is non-zero at evaluation time:
/// at a loop-start a zero cell jumps past the matching loop-end and a
/// non-zero cell enters the body; at a loop-end a non-zero cell jumps back to
/// just after the matching loop-start and a zero cell leaves the loop.
pub proof fn lemma_loop_guard(p: Seq<char>, s: MachineState, i: int, j: int)
    requires
        bracket_matches(p, i, j),
        s.pp == i || s.pp == j,
    ensures
        s.pp == i && cell_at(s) == 0 ==> instruction_effect(p, s) == Effect::Step(
            MachineState { pp: j + 1, ..s },
        ),
        s.pp == i && cell_at(s) != 0 ==> instruction_effect(p, s) == Effect::Step(
            MachineState { pp: i + 1, ..s },
        ),
        s.pp == j && cell_at(s) != 0 ==> instruction_effect(p, s) == Effect::Step(
            MachineState { pp: i + 1, ..s },
        ),
        s.pp == j && cell_at(s) == 0 ==> instruction_effect(p, s) == Effect::Step(
            MachineState { pp: j + 1, ..s },
        ),
{
    lemma_close_of(p, i, j);
    lemma_open_of(p, i, j);
}

/// An output instruction followed immediately by an input instruction, with
/// the input stream wired to hand back the byte just written, reproduces that
/// byte exactly: it is appended to the output and read back into the cell,
/// which keeps its value.
pub proof fn lemma_output_input_round_trip(p: Seq<char>, e: Execution)
    requires
        state_inv(e.state),
        e.state.pp + 1 < p.len(),
        p[e.state.pp] == '.',
        p[e.state.pp + 1] == ',',
        e.input.len() > 0,
        e.input[0] == cell_at(e.state),
    ensures
        match io_step(p, e) {
            Progress::Running(e1) => match io_step(p, e1) {
                Progress::Running(e2) => {
                    &&& e2.output == e.output.push(cell_at(e.state))
                    &&& e2.state.tape == e.state.tape
                    &&& e2.state.cursor == e.state.cursor
                    &&& e2.state.pp == e.state.pp + 2
                    &&& cell_at(e2.state) == cell_at(e.state)
                },
                _ => false,
            },
            _ => false,
        },
{
    let s = e.state;
    let s1 = MachineState { pp: s.pp + 1, ..s };
    let e1 = Execution { state: s1, output: e.output.push(cell_at(s)), ..e };
    assert(io_step(p, e) == Progress::Running(e1));
    assert(instruction_effect(p, s1) == Effect::ReadInput);
    let s2 = consume_input(s1, e.input[0]);
    assert(s2.tape =~= s.tape);
}

} // verus!
