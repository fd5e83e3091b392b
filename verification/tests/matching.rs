use rust_regex::engine::parser::ParseError;
use rust_regex::engine::{do_matching, line_matches, EngineError};

#[test]
fn matching() {
    // malformed patterns
    assert!(do_matching("+b", "bbb").is_err());
    assert!(do_matching("*b", "bbb").is_err());
    assert!(do_matching("?b", "bbb").is_err());
    assert!(do_matching("|b", "bbb").is_err());

    // well-formed patterns that match
    assert!(do_matching("abc|def", "abc").unwrap());
    assert!(do_matching("abc|def", "def").unwrap());
    assert!(do_matching("(abc)*", "abcabc").unwrap());
    assert!(do_matching("(abc)*", "").unwrap());
    assert!(do_matching("(abc)?", "abc").unwrap());
    assert!(do_matching("(abc)?", "").unwrap());
    assert!(do_matching("(abc)+", "abcabc").unwrap());
    assert!(do_matching("(abc)+", "abc").unwrap());
    assert!(do_matching("a|b|c", "b").unwrap());

    // well-formed patterns that do not match
    assert!(!do_matching("abc|def", "ghi").unwrap());
    assert!(!do_matching("a+", "").unwrap());
    assert!(!do_matching("a+", "b").unwrap());
    assert!(!do_matching("abc?", "acb").unwrap());
}

#[test]
fn leading_operators_are_parse_errors() {
    assert_eq!(do_matching("+b", "bbb"), Err(EngineError::Parse(ParseError::NoPrev(0))));
    assert_eq!(do_matching("*b", "bbb"), Err(EngineError::Parse(ParseError::NoPrev(0))));
    assert_eq!(do_matching("?b", "bbb"), Err(EngineError::Parse(ParseError::NoPrev(0))));
    assert_eq!(do_matching("|b", "bbb"), Err(EngineError::Parse(ParseError::NoPrev(0))));
}

#[test]
fn alternation_of_sequences() {
    assert_eq!(do_matching("abc|def", "abc"), Ok(true));
    assert_eq!(do_matching("abc|def", "def"), Ok(true));
    assert_eq!(do_matching("abc|def", "ghi"), Ok(false));
    assert_eq!(do_matching("abc|def", "abd"), Ok(false));
    assert_eq!(do_matching("a|b|c", "a"), Ok(true));
    assert_eq!(do_matching("a|b|c", "c"), Ok(true));
    assert_eq!(do_matching("a|b|c", "d"), Ok(false));
}

#[test]
fn zero_or_more_group() {
    assert_eq!(do_matching("(abc)*", "abcabc"), Ok(true));
    assert_eq!(do_matching("(abc)*", ""), Ok(true));
    assert_eq!(do_matching("(abc)*", "xyz"), Ok(true));
    assert_eq!(do_matching("(abc)*d", "abcabcd"), Ok(true));
    assert_eq!(do_matching("(abc)*d", "abcabd"), Ok(false));
}

#[test]
fn one_or_more_needs_an_occurrence() {
    assert_eq!(do_matching("(abc)+", "abc"), Ok(true));
    assert_eq!(do_matching("(abc)+", "abcabc"), Ok(true));
    assert_eq!(do_matching("(abc)+", "ab"), Ok(false));
    assert_eq!(do_matching("a+", ""), Ok(false));
    assert_eq!(do_matching("a+", "b"), Ok(false));
    assert_eq!(do_matching("a+b", "aaab"), Ok(true));
}

#[test]
fn optional_binds_to_the_last_atom() {
    assert_eq!(do_matching("abc?", "acb"), Ok(false));
    assert_eq!(do_matching("abc?", "ab"), Ok(true));
    assert_eq!(do_matching("abc?", "abc"), Ok(true));
    assert_eq!(do_matching("abc?d", "abd"), Ok(true));
    assert_eq!(do_matching("(abc)?d", "d"), Ok(true));
}

#[test]
fn unbalanced_parentheses_are_told_apart() {
    let open = do_matching("(abc", "abc");
    let close = do_matching("abc)", "abc");
    assert_eq!(open, Err(EngineError::Parse(ParseError::NoRightParen(4))));
    assert_eq!(close, Err(EngineError::Parse(ParseError::InvalidRightParen(3))));
    assert_ne!(open, close);
}

#[test]
fn match_is_anchored_at_the_start_only() {
    assert_eq!(do_matching("abc", "abcdef"), Ok(true));
    assert_eq!(do_matching("bcd", "abcdef"), Ok(false));
    assert_eq!(do_matching("abc", "ab"), Ok(false));
}

#[test]
fn repeated_calls_agree() {
    let cases = [
        ("abc|def", "def"),
        ("(abc)*", "abcabc"),
        ("a+", ""),
        ("abc?", "acb"),
        ("(abc", "abc"),
        ("abc)", "abc"),
        ("(a*)*b", "aab"),
    ];
    for (expr, line) in cases {
        let first = do_matching(expr, line);
        let second = do_matching(expr, line);
        let third = do_matching(expr, line);
        assert_eq!(first, second);
        assert_eq!(second, third);
    }
}

#[test]
fn first_error_is_reported() {
    assert_eq!(
        do_matching("a\\bc)", ""),
        Err(EngineError::Parse(ParseError::InvalidEscape(2, 'b')))
    );
    assert_eq!(do_matching("a)\\b", ""), Err(EngineError::Parse(ParseError::InvalidRightParen(1))));
    assert_eq!(do_matching("", "abc"), Err(EngineError::Parse(ParseError::Empty)));
}

#[test]
fn escaped_operators_are_literals() {
    assert_eq!(do_matching("a\\+b", "a+b"), Ok(true));
    assert_eq!(do_matching("a\\+b", "aab"), Ok(false));
    assert_eq!(do_matching("\\(\\)", "()"), Ok(true));
    assert_eq!(do_matching("\\\\", "\\"), Ok(true));
    assert_eq!(do_matching("a\\|b", "a|b"), Ok(true));
    assert_eq!(do_matching("a\\|b", "a"), Ok(false));
}

#[test]
fn offsets_count_characters() {
    assert_eq!(do_matching("日本+語", "日本本本語"), Ok(true));
    assert_eq!(do_matching("é?è", "è"), Ok(true));
    assert_eq!(
        do_matching("日本)", ""),
        Err(EngineError::Parse(ParseError::InvalidRightParen(2)))
    );
    assert_eq!(do_matching("(日本", ""), Err(EngineError::Parse(ParseError::NoRightParen(3))));
}

#[test]
fn loops_over_bodies_that_may_be_empty_end() {
    assert_eq!(do_matching("(a*)*", "b"), Ok(true));
    assert_eq!(do_matching("(a*)*b", "aab"), Ok(true));
    assert_eq!(do_matching("(a*)*b", "aac"), Ok(false));
    assert_eq!(do_matching("(a?)+b", "aab"), Ok(true));
    assert_eq!(do_matching("(a?)+b", "c"), Ok(false));
    assert_eq!(do_matching("(a|b*)+c", "abbac"), Ok(true));
}

#[test]
fn backtracking_over_optional_atoms() {
    assert_eq!(do_matching("a?a?aa", "aa"), Ok(true));
    assert_eq!(do_matching("a?a?a?a?aaaa", "aaaa"), Ok(true));
    assert_eq!(do_matching("a?a?aa", "a"), Ok(false));
    assert_eq!(do_matching("a*a", "aaa"), Ok(true));
}

#[test]
fn empty_last_branch_is_a_parse_error() {
    assert_eq!(do_matching("(a|)", "a"), Err(EngineError::Parse(ParseError::NoPrev(3))));
    assert_eq!(do_matching("(a|)b", "b"), Err(EngineError::Parse(ParseError::NoPrev(3))));
}

#[test]
fn line_matches_at_any_start() {
    assert_eq!(line_matches("abc", "abcdef"), Ok(true));
    assert_eq!(line_matches("bcd", "abcdef"), Ok(true));
    assert_eq!(line_matches("f", "abcdef"), Ok(true));
    assert_eq!(line_matches("xyz", "abcdef"), Ok(false));
    assert_eq!(line_matches("fg", "abcdef"), Ok(false));
    assert_eq!(line_matches("(cd)+e", "abcdcdef"), Ok(true));
    assert_eq!(line_matches("a|e", "xyze"), Ok(true));
}

#[test]
fn line_without_characters_has_no_start() {
    assert_eq!(line_matches("a", ""), Ok(false));
    assert_eq!(line_matches("a*", ""), Ok(false));
    assert_eq!(line_matches("+b", ""), Ok(false));
    assert_eq!(line_matches("(abc", ""), Ok(false));
}

#[test]
fn line_matches_reports_the_parse_error() {
    assert_eq!(line_matches("+b", "bbb"), Err(EngineError::Parse(ParseError::NoPrev(0))));
    assert_eq!(line_matches("(abc", "x"), Err(EngineError::Parse(ParseError::NoRightParen(4))));
    assert_eq!(line_matches("", "x"), Err(EngineError::Parse(ParseError::Empty)));
}

#[test]
fn line_starts_are_characters() {
    assert_eq!(line_matches("本+語", "日本本語"), Ok(true));
    assert_eq!(line_matches("è", "éè"), Ok(true));
    assert_eq!(line_matches("語日", "日本語"), Ok(false));
}

#[test]
fn line_matches_agrees_with_trying_each_start() {
    let cases = [("b+c", "aabbbcd"), ("b+c", "aabbbd"), ("(ab)*c", "xxababc"), ("a?b", "cab")];
    for (expr, line) in cases {
        let chars: Vec<char> = line.chars().collect();
        let mut any = false;
        for i in 0..chars.len() {
            let rest: String = chars[i..].iter().collect();
            if do_matching(expr, &rest).unwrap() {
                any = true;
            }
        }
        assert_eq!(line_matches(expr, line), Ok(any));
    }
}
