use rust_regex::engine::codegen::generate_code;
use rust_regex::engine::evaluator::{eval, EvalError};
use rust_regex::engine::parser::parse;
use rust_regex::engine::Instruction;

fn chars(s: &str) -> Vec<char> {
    s.chars().collect()
}

#[test]
fn accept_ignores_what_is_left() {
    let prog = [Instruction::Char('a'), Instruction::Match];
    assert_eq!(eval(&prog, &chars("a")), Ok(true));
    assert_eq!(eval(&prog, &chars("abc")), Ok(true));
    assert_eq!(eval(&prog, &chars("")), Ok(false));
    assert_eq!(eval(&prog, &chars("b")), Ok(false));
    assert_eq!(eval(&[Instruction::Match], &chars("")), Ok(true));
}

#[test]
fn leaving_the_program_is_an_error() {
    assert_eq!(eval(&[], &chars("")), Err(EvalError::InvalidPC));
    assert_eq!(eval(&[], &chars("abc")), Err(EvalError::InvalidPC));
    assert_eq!(eval(&[Instruction::Jump(5)], &chars("")), Err(EvalError::InvalidPC));
    assert_eq!(eval(&[Instruction::Char('a')], &chars("a")), Err(EvalError::InvalidPC));
    assert_eq!(eval(&[Instruction::Char('a')], &chars("b")), Ok(false));
    assert_eq!(
        eval(&[Instruction::Split(1, 9), Instruction::Char('a'), Instruction::Match], &chars("b")),
        Err(EvalError::InvalidPC)
    );
}

#[test]
fn first_branch_is_tried_first() {
    // the first branch succeeds, so the bad second address is never visited
    let prog = [Instruction::Split(1, 9), Instruction::Char('a'), Instruction::Match];
    assert_eq!(eval(&prog, &chars("a")), Ok(true));
    // the bad first address is met before the good second one
    let prog = [Instruction::Split(9, 1), Instruction::Match];
    assert_eq!(eval(&prog, &chars("a")), Err(EvalError::InvalidPC));
}

#[test]
fn split_backtracks() {
    let prog = [
        Instruction::Split(1, 3),
        Instruction::Char('a'),
        Instruction::Jump(4),
        Instruction::Char('b'),
        Instruction::Match,
    ];
    assert_eq!(eval(&prog, &chars("a")), Ok(true));
    assert_eq!(eval(&prog, &chars("b")), Ok(true));
    assert_eq!(eval(&prog, &chars("c")), Ok(false));
}

#[test]
fn idle_cycles_fail() {
    assert_eq!(eval(&[Instruction::Jump(0)], &chars("abc")), Ok(false));
    assert_eq!(
        eval(&[Instruction::Jump(1), Instruction::Jump(0), Instruction::Match], &chars("")),
        Ok(false)
    );
    assert_eq!(
        eval(&[Instruction::Split(0, 1), Instruction::Match], &chars("")),
        Ok(true)
    );
    assert_eq!(
        eval(&[Instruction::Split(0, 0), Instruction::Match], &chars("")),
        Ok(false)
    );
}

#[test]
fn long_chains_of_jumps_are_followed() {
    let mut prog = Vec::new();
    for i in 0..100 {
        prog.push(Instruction::Jump(i + 1));
    }
    prog.push(Instruction::Match);
    assert_eq!(eval(&prog, &chars("")), Ok(true));
}

#[test]
fn loop_consumes_repeatedly() {
    let prog = generate_code(&parse("(ab)+c").unwrap()).unwrap();
    assert_eq!(eval(&prog, &chars("abc")), Ok(true));
    assert_eq!(eval(&prog, &chars("abababc")), Ok(true));
    assert_eq!(eval(&prog, &chars("ababab")), Ok(false));
    assert_eq!(eval(&prog, &chars("c")), Ok(false));
}
