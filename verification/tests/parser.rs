use rust_regex::engine::parser::{
    chars_of, parse, parse_escape, parse_or, parse_plus_star_question, ParseError, AST, PSQ,
};

fn lit(c: char) -> AST {
    AST::Char(c)
}

fn word(s: &str) -> AST {
    AST::Sequence(s.chars().map(AST::Char).collect())
}

fn or(l: AST, r: AST) -> AST {
    AST::Or(Box::new(l), Box::new(r))
}

#[test]
fn literals_form_a_sequence() {
    assert_eq!(parse("abc"), Ok(word("abc")));
    assert_eq!(parse("a"), Ok(AST::Sequence(vec![lit('a')])));
}

#[test]
fn postfix_operators_wrap_the_last_atom() {
    assert_eq!(
        parse("ab+"),
        Ok(AST::Sequence(vec![lit('a'), AST::Plus(Box::new(lit('b')))]))
    );
    assert_eq!(
        parse("ab*"),
        Ok(AST::Sequence(vec![lit('a'), AST::Star(Box::new(lit('b')))]))
    );
    assert_eq!(
        parse("abc?"),
        Ok(AST::Sequence(vec![lit('a'), lit('b'), AST::Question(Box::new(lit('c')))]))
    );
    assert_eq!(
        parse("a+*"),
        Ok(AST::Sequence(vec![AST::Star(Box::new(AST::Plus(Box::new(lit('a')))))]))
    );
}

#[test]
fn alternation_nests_to_the_right() {
    assert_eq!(parse("abc|def"), Ok(or(word("abc"), word("def"))));
    assert_eq!(parse("a|b|c"), Ok(or(word("a"), or(word("b"), word("c")))));
    assert_eq!(
        parse("a|b|c|d"),
        Ok(or(word("a"), or(word("b"), or(word("c"), word("d")))))
    );
}

#[test]
fn groups_become_atoms() {
    assert_eq!(
        parse("(abc)*"),
        Ok(AST::Sequence(vec![AST::Star(Box::new(word("abc")))]))
    );
    assert_eq!(
        parse("x(a|b)y"),
        Ok(AST::Sequence(vec![lit('x'), or(word("a"), word("b")), lit('y')]))
    );
    assert_eq!(
        parse("((a))"),
        Ok(AST::Sequence(vec![AST::Sequence(vec![AST::Sequence(vec![lit('a')])])]))
    );
    assert_eq!(
        parse("a|(b|c)d"),
        Ok(or(word("a"), AST::Sequence(vec![or(word("b"), word("c")), lit('d')])))
    );
}

#[test]
fn empty_group_contributes_nothing() {
    assert_eq!(parse("a()b"), Ok(word("ab")));
    assert_eq!(parse("()"), Err(ParseError::Empty));
    assert_eq!(parse("()*"), Err(ParseError::NoPrev(2)));
    assert_eq!(parse("a|()"), Err(ParseError::NoPrev(4)));
}

#[test]
fn group_may_not_end_on_an_empty_branch() {
    assert_eq!(parse("(a|)"), Err(ParseError::NoPrev(3)));
    assert_eq!(parse("(a|)b"), Err(ParseError::NoPrev(3)));
    assert_eq!(parse("x(a|b|)"), Err(ParseError::NoPrev(6)));
    assert_eq!(parse("((a|))"), Err(ParseError::NoPrev(4)));
    assert_eq!(parse("(a|())"), Err(ParseError::NoPrev(5)));
    assert_eq!(parse("a|)"), Err(ParseError::InvalidRightParen(2)));
}

fn has_no_empty_sequence(ast: &AST) -> bool {
    match ast {
        AST::Char(_) => true,
        AST::Plus(a) | AST::Star(a) | AST::Question(a) => has_no_empty_sequence(a),
        AST::Or(a, b) => has_no_empty_sequence(a) && has_no_empty_sequence(b),
        AST::Sequence(v) => !v.is_empty() && v.iter().all(has_no_empty_sequence),
    }
}

#[test]
fn parsed_sequences_have_children() {
    let patterns = [
        "a", "abc", "a|b", "a|b|c", "(a)", "((a))", "a()b", "()a", "a()", "(a|b)c", "(a()|b)",
        "x(a|b|c)*y|z+", "(()a)", "a(()())b", "\\(\\)", "(a(b(c)))", "a+*?", "(a|b)+|c",
    ];
    for p in patterns {
        let ast = parse(p).unwrap();
        assert!(has_no_empty_sequence(&ast), "{}", p);
    }
}

#[test]
fn escapes() {
    assert_eq!(parse("\\\\"), Ok(word("\\")));
    assert_eq!(parse("\\(\\)\\*\\+\\?\\|"), Ok(word("()*+?|")));
    assert_eq!(parse("a\\*+"), Ok(AST::Sequence(vec![lit('a'), AST::Plus(Box::new(lit('*')))])));
    assert_eq!(parse("\\a"), Err(ParseError::InvalidEscape(1, 'a')));
    assert_eq!(parse("ab\\n"), Err(ParseError::InvalidEscape(3, 'n')));
    assert_eq!(parse("a\\"), Ok(word("a")));
    assert_eq!(parse("\\"), Err(ParseError::Empty));
}

#[test]
fn every_error_variant() {
    assert_eq!(parse("a\\b"), Err(ParseError::InvalidEscape(2, 'b')));
    assert_eq!(parse("ab)"), Err(ParseError::InvalidRightParen(2)));
    assert_eq!(parse("a(*"), Err(ParseError::NoPrev(2)));
    assert_eq!(parse("a(b"), Err(ParseError::NoRightParen(3)));
    assert_eq!(parse(""), Err(ParseError::Empty));
}

#[test]
fn missing_atom_positions() {
    assert_eq!(parse("+b"), Err(ParseError::NoPrev(0)));
    assert_eq!(parse("*b"), Err(ParseError::NoPrev(0)));
    assert_eq!(parse("?b"), Err(ParseError::NoPrev(0)));
    assert_eq!(parse("|b"), Err(ParseError::NoPrev(0)));
    assert_eq!(parse("a||b"), Err(ParseError::NoPrev(2)));
    assert_eq!(parse("a|"), Err(ParseError::NoPrev(2)));
    assert_eq!(parse("ab|+"), Err(ParseError::NoPrev(3)));
    assert_eq!(parse("(|a)"), Err(ParseError::NoPrev(1)));
}

#[test]
fn unclosed_groups_report_the_length() {
    assert_eq!(parse("(abc"), Err(ParseError::NoRightParen(4)));
    assert_eq!(parse("((a)"), Err(ParseError::NoRightParen(4)));
    assert_eq!(parse("(a|"), Err(ParseError::NoRightParen(3)));
    assert_eq!(parse("abc)"), Err(ParseError::InvalidRightParen(3)));
    assert_eq!(parse("(a))"), Err(ParseError::InvalidRightParen(3)));
}

#[test]
fn positions_are_character_offsets() {
    assert_eq!(parse("éé)"), Err(ParseError::InvalidRightParen(2)));
    assert_eq!(parse("(éé"), Err(ParseError::NoRightParen(3)));
    assert_eq!(parse("日|"), Err(ParseError::NoPrev(2)));
}

#[test]
fn parse_escape_accepts_the_seven_operators() {
    for c in ['\\', '(', ')', '*', '+', '?', '|'] {
        assert_eq!(parse_escape(5, c), Ok(AST::Char(c)));
    }
    assert_eq!(parse_escape(5, 'a'), Err(ParseError::InvalidEscape(5, 'a')));
    assert_eq!(parse_escape(0, '.'), Err(ParseError::InvalidEscape(0, '.')));
}

#[test]
fn postfix_on_a_vector() {
    let mut seq = vec![lit('a'), lit('b')];
    assert_eq!(parse_plus_star_question(&mut seq, PSQ::Plus, 2), Ok(()));
    assert_eq!(seq, vec![lit('a'), AST::Plus(Box::new(lit('b')))]);
    assert_eq!(parse_plus_star_question(&mut seq, PSQ::Star, 3), Ok(()));
    assert_eq!(seq, vec![lit('a'), AST::Star(Box::new(AST::Plus(Box::new(lit('b')))))]);
    let mut one = vec![lit('x')];
    assert_eq!(parse_plus_star_question(&mut one, PSQ::Question, 1), Ok(()));
    assert_eq!(one, vec![AST::Question(Box::new(lit('x')))]);
    let mut empty: Vec<AST> = Vec::new();
    assert_eq!(parse_plus_star_question(&mut empty, PSQ::Plus, 7), Err(ParseError::NoPrev(7)));
    assert!(empty.is_empty());
}

#[test]
fn folding_branches() {
    assert_eq!(parse_or(vec![lit('a')]), lit('a'));
    assert_eq!(parse_or(vec![lit('a'), lit('b')]), or(lit('a'), lit('b')));
    assert_eq!(
        parse_or(vec![lit('a'), lit('b'), lit('c')]),
        or(lit('a'), or(lit('b'), lit('c')))
    );
}

#[test]
fn characters_of_a_string() {
    assert_eq!(chars_of(""), Vec::<char>::new());
    assert_eq!(chars_of("abc"), vec!['a', 'b', 'c']);
    assert_eq!(chars_of("日本語"), vec!['日', '本', '語']);
}
