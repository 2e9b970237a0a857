//! The interpreter run end to end on small programs.

use brainfuck::{Interpreter, TAPE_SIZE};

fn run(program: &str) -> Interpreter {
    let mut interpreter = Interpreter::from_program_str(program);
    let result = interpreter.run(&Vec::new(), 1_000_000);
    assert!(matches!(result, Ok(Some(_))));
    interpreter
}

#[test]
fn move_tape_pointer() {
    let interpreter = run(">><");
    assert_eq!(interpreter.tape_pointer, 1);
}

#[test]
fn move_tape_pointer_wrap() {
    let interpreter = run("<");
    assert_eq!(interpreter.tape_pointer, TAPE_SIZE - 1);
}

#[test]
fn increment_decrement() {
    let interpreter = run("+++--");
    assert_eq!(interpreter.tape[0], 1);
}

#[test]
fn wrap_increment_decrement() {
    let interpreter = run("->[+]");
    assert_eq!(interpreter.tape[0], 255);
    assert_eq!(interpreter.tape[1], 0);
}

#[test]
fn loops() {
    let interpreter = run("+++++[->+<]++");
    assert_eq!(interpreter.tape[0], 2);
    assert_eq!(interpreter.tape[1], 5);
}

#[test]
fn skip_loop_if_zero() {
    let interpreter = run("[+++]");
    assert_eq!(interpreter.tape[0], 0);
}

#[test]
fn unmatched_loop_error() {
    let mut interpreter = Interpreter::from_program_str("]");
    assert!(interpreter.run(&Vec::new(), 1_000_000).is_err());
}

#[test]
fn nested_loops() {
    let interpreter = run("++[->+[-++[->+[-]++[->+[-]]]]]");
    assert_eq!(interpreter.tape[0], 1);
    assert_eq!(interpreter.tape[1], 1);
    assert_eq!(interpreter.tape[2], 1);
    assert_eq!(interpreter.tape[3], 0);
    assert_eq!(interpreter.tape_pointer, 3);
}
