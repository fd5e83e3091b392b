use rust_regex::engine::codegen::generate_code;
use rust_regex::engine::parser::{parse, AST};
use rust_regex::engine::Instruction;

fn compile(expr: &str) -> Vec<Instruction> {
    generate_code(&parse(expr).unwrap()).unwrap()
}

fn targets_are_valid(prog: &[Instruction]) -> bool {
    prog.iter().all(|ins| match ins {
        Instruction::Split(a, b) => *a < prog.len() && *b < prog.len(),
        Instruction::Jump(t) => *t < prog.len(),
        _ => true,
    })
}

#[test]
fn literal() {
    assert_eq!(
        generate_code(&AST::Char('a')),
        Ok(vec![Instruction::Char('a'), Instruction::Match])
    );
    assert_eq!(
        compile("abc"),
        vec![
            Instruction::Char('a'),
            Instruction::Char('b'),
            Instruction::Char('c'),
            Instruction::Match
        ]
    );
}

#[test]
fn one_or_more() {
    assert_eq!(
        compile("a+"),
        vec![Instruction::Char('a'), Instruction::Split(0, 2), Instruction::Match]
    );
    assert_eq!(
        compile("xa+"),
        vec![
            Instruction::Char('x'),
            Instruction::Char('a'),
            Instruction::Split(1, 3),
            Instruction::Match
        ]
    );
}

#[test]
fn zero_or_more() {
    assert_eq!(
        compile("a*"),
        vec![
            Instruction::Split(1, 3),
            Instruction::Char('a'),
            Instruction::Jump(0),
            Instruction::Match
        ]
    );
    assert_eq!(
        compile("x(ab)*"),
        vec![
            Instruction::Char('x'),
            Instruction::Split(2, 5),
            Instruction::Char('a'),
            Instruction::Char('b'),
            Instruction::Jump(1),
            Instruction::Match
        ]
    );
}

#[test]
fn optional() {
    assert_eq!(
        compile("a?"),
        vec![Instruction::Split(1, 2), Instruction::Char('a'), Instruction::Match]
    );
    assert_eq!(
        compile("abc?"),
        vec![
            Instruction::Char('a'),
            Instruction::Char('b'),
            Instruction::Split(3, 4),
            Instruction::Char('c'),
            Instruction::Match
        ]
    );
}

#[test]
fn alternation() {
    assert_eq!(
        compile("a|b"),
        vec![
            Instruction::Split(1, 3),
            Instruction::Char('a'),
            Instruction::Jump(4),
            Instruction::Char('b'),
            Instruction::Match
        ]
    );
    assert_eq!(
        compile("a|b|c"),
        vec![
            Instruction::Split(1, 3),
            Instruction::Char('a'),
            Instruction::Jump(7),
            Instruction::Split(4, 6),
            Instruction::Char('b'),
            Instruction::Jump(7),
            Instruction::Char('c'),
            Instruction::Match
        ]
    );
}

#[test]
fn nested_loops() {
    assert_eq!(
        compile("(a*)*"),
        vec![
            Instruction::Split(1, 5),
            Instruction::Split(2, 4),
            Instruction::Char('a'),
            Instruction::Jump(1),
            Instruction::Jump(0),
            Instruction::Match
        ]
    );
    assert_eq!(
        compile("(a|b)+"),
        vec![
            Instruction::Split(1, 3),
            Instruction::Char('a'),
            Instruction::Jump(4),
            Instruction::Char('b'),
            Instruction::Split(0, 5),
            Instruction::Match
        ]
    );
}

#[test]
fn empty_sequence_compiles_to_nothing() {
    assert_eq!(generate_code(&AST::Sequence(vec![])), Ok(vec![Instruction::Match]));
    assert_eq!(
        compile("a()b"),
        vec![Instruction::Char('a'), Instruction::Char('b'), Instruction::Match]
    );
}

#[test]
fn every_parsed_pattern_compiles_to_a_valid_program() {
    let patterns = [
        "a", "abc", "a+", "a*", "a?", "a|b", "a|b|c", "(abc)*", "(abc)+", "(abc)?", "abc|def",
        "(a*)*", "(a?)+", "((a|b)*c)+d?", "a(b(c(d)*)*)*", "\\(a\\)", "x(a|b|c)*y|z+",
        "a?a?a?aaa", "(((a)))", "a()b",
    ];
    for p in patterns {
        let ast = parse(p).unwrap();
        let prog = generate_code(&ast);
        assert!(prog.is_ok(), "{}", p);
        let prog = prog.unwrap();
        assert!(targets_are_valid(&prog), "{}", p);
        assert_eq!(prog.last(), Some(&Instruction::Match), "{}", p);
    }
}
