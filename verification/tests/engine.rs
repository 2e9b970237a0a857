//! Cursor arithmetic, cell wrapping, loop guards, byte input and output, the
//! error cases, and the stepwise interface.

use brainfuck::interpreter::StepEvent;
use brainfuck::{Interpreter, InterpreterError, TAPE_SIZE};

fn run_with_input(program: &str, input: Vec<u8>) -> (Interpreter, Vec<u8>) {
    let mut interpreter = Interpreter::from_program_str(program);
    let output = match interpreter.run(&input, 1_000_000) {
        Ok(Some(output)) => output,
        Ok(None) => panic!("step budget exhausted"),
        Err(_) => panic!("program failed"),
    };
    (interpreter, output)
}

#[test]
fn cursor_lands_on_net_displacement() {
    let (interpreter, _) = run_with_input(">>><<", Vec::new());
    assert_eq!(interpreter.tape_pointer, 1);
    let (interpreter, _) = run_with_input("<<", Vec::new());
    assert_eq!(interpreter.tape_pointer, TAPE_SIZE - 2);
}

#[test]
fn increment_then_decrement_restores_cell() {
    let (interpreter, _) = run_with_input("+-", Vec::new());
    assert_eq!(interpreter.tape[0], 0);
    let (interpreter, _) = run_with_input("-+", Vec::new());
    assert_eq!(interpreter.tape[0], 0);
}

#[test]
fn loop_runs_while_guard_non_zero() {
    let (interpreter, _) = run_with_input("+++++[->+<]", Vec::new());
    assert_eq!(interpreter.tape[0], 0);
    assert_eq!(interpreter.tape[1], 5);
}

#[test]
fn decrement_zero_wraps_to_255() {
    let (interpreter, _) = run_with_input("-", Vec::new());
    assert_eq!(interpreter.tape[0], 255);
}

#[test]
fn increment_255_wraps_to_zero() {
    let mut program = String::new();
    for _ in 0..256 {
        program.push('+');
    }
    let (interpreter, _) = run_with_input(&program, Vec::new());
    assert_eq!(interpreter.tape[0], 0);
}

#[test]
fn unmatched_loop_end_fails_before_any_mutation() {
    let mut interpreter = Interpreter::from_program_str("+++]");
    let result = interpreter.run(&Vec::new(), 1_000_000);
    assert!(matches!(
        result,
        Err(InterpreterError::UnmatchedBracket(3))
    ));
    assert_eq!(interpreter.tape[0], 0);
    assert_eq!(interpreter.tape_pointer, 0);
}

#[test]
fn first_excess_loop_end_is_reported() {
    let mut interpreter = Interpreter::from_program_str("[]]]");
    let result = interpreter.run(&Vec::new(), 1_000_000);
    assert!(matches!(
        result,
        Err(InterpreterError::UnmatchedBracket(2))
    ));
}

#[test]
fn unclosed_loop_start_is_an_error() {
    let mut interpreter = Interpreter::from_program_str("[[]");
    let result = interpreter.run(&Vec::new(), 1_000_000);
    assert!(matches!(
        result,
        Err(InterpreterError::UnmatchedBracket(0))
    ));
}

#[test]
fn output_collects_bytes() {
    let (_, output) = run_with_input("++++.+.", Vec::new());
    assert_eq!(output, vec![4, 5]);
}

#[test]
fn input_reads_bytes_in_order() {
    let (interpreter, _) = run_with_input(",>,", vec![11, 22]);
    assert_eq!(interpreter.tape[0], 11);
    assert_eq!(interpreter.tape[1], 22);
}

#[test]
fn input_exhausted_fails() {
    let mut interpreter = Interpreter::from_program_str(",");
    let result = interpreter.run(&Vec::new(), 1_000_000);
    assert!(matches!(result, Err(InterpreterError::InputExhausted)));
}

#[test]
fn output_input_round_trip() {
    // The input stream is wired to hand back the byte the program writes.
    let (interpreter, output) = run_with_input("+++.>,", vec![3]);
    assert_eq!(output, vec![3]);
    assert_eq!(interpreter.tape[0], 3);
    assert_eq!(interpreter.tape[1], 3);
}

#[test]
fn comments_are_skipped() {
    let (interpreter, output) = run_with_input("+ one\n+ two\n. stop", Vec::new());
    assert_eq!(interpreter.tape[0], 2);
    assert_eq!(output, vec![2]);
}

#[test]
fn empty_program_finishes_in_one_step() {
    // Noticing the end of the program is itself one step, so a budget of
    // zero reports an unfinished run even here.
    let mut interpreter = Interpreter::new();
    let result = interpreter.run(&Vec::new(), 0);
    assert!(matches!(result, Ok(None)));
    let result = interpreter.run(&Vec::new(), 1);
    assert!(matches!(result, Ok(Some(ref output)) if output.is_empty()));
}

#[test]
fn step_budget_runs_out_on_endless_loop() {
    let mut interpreter = Interpreter::from_program_str("+[]");
    let result = interpreter.run(&Vec::new(), 1000);
    assert!(matches!(result, Ok(None)));
}

#[test]
fn stepwise_execution_reports_events() {
    let mut interpreter = Interpreter::from_program_str("+.,");
    assert!(interpreter.compute_bracket_map().is_ok());
    assert_eq!(interpreter.step(), StepEvent::Progressed);
    assert_eq!(interpreter.step(), StepEvent::Output(1));
    assert_eq!(interpreter.step(), StepEvent::NeedInput);
    interpreter.feed_input(9);
    assert_eq!(interpreter.step(), StepEvent::Halted);
    assert_eq!(interpreter.tape[0], 9);
}
