//! The engine: the instruction set shared by the compiler and the evaluator.
use self::codegen::{code_len, generate_code, lemma_code_len, program, CodegenError};
use self::evaluator::{eval, EvalError};
use self::language::{lemma_program_decides_match, matches_at_start};
use self::parser::{chars_of, parse, parse_spec, ParseError, Regex};
use vstd::prelude::*;
use vstd::slice::slice_subrange;

pub mod codegen;
pub mod evaluator;
pub mod language;
pub mod parser;
pub mod paths;

verus! {

/// One instruction of the virtual machine. Addresses are indices into the
/// program that holds the instruction.
#[derive(Debug, Clone, Copy, PartialEq, Eq)]
pub enum Instruction {
    /// Consume one input character, which must be this one.
    Char(char),
    /// Try the first address; if that path fails, try the second.
    Split(usize, usize),
    /// Continue at the address without consuming input.
    Jump(usize),
    /// The path has succeeded.
    Match,
}

/// Why a match could not be decided.
#[derive(Debug, Clone, Copy, PartialEq, Eq)]
pub enum EngineError {
    /// The pattern is malformed.
    Parse(ParseError),
    /// The compiler failed.
    Codegen(CodegenError),
    /// The evaluator failed.
    Eval(EvalError),
}

/// Whether the pattern matches a stretch at the start of the line, or why
/// the pattern is no pattern.
pub open spec fn matching(expr: Seq<char>, line: Seq<char>) -> Result<bool, EngineError> {
    match parse_spec(expr) {
        Ok(tree) => Ok(matches_at_start(tree, line)),
        Err(e) => Err(EngineError::Parse(e)),
    }
}

/// Decides whether `expr` matches `line` at its start.
///
/// A malformed pattern gives the parser's error, whatever the line is. A
/// well-formed one gives `Ok`, with `true` exactly when the pattern matches
/// the characters of the line from the first one up to some offset; what
/// follows that offset does not matter. No other error occurs: compiling a
/// parsed pattern never fails, and running the compiled program never
/// leaves it.
pub fn do_matching(expr: &str, line: &str) -> (r: Result<bool, EngineError>)
    ensures
        r == matching(expr@, line@),
{
    let ast = match parse(expr) {
        Ok(ast) => ast,
        Err(e) => {
            return Err(EngineError::Parse(e));
        },
    };
    let instructions = match generate_code(&ast) {
        Ok(instructions) => instructions,
        Err(e) => {
            return Err(EngineError::Codegen(e));
        },
    };
    let chars = chars_of(line);
    proof {
        lemma_code_len(ast@, 0);
        assert(instructions.len() == code_len(ast@) + 1);
        lemma_program_decides_match(ast@, line@);
    }
    match eval(instructions.as_slice(), chars.as_slice()) {
        Ok(found) => Ok(found),
        Err(e) => Err(EngineError::Eval(e)),
    }
}

/// Whether the pattern matches a stretch of the line that starts at one of
/// its characters, or why the pattern is no pattern. A line without
/// characters has no start to try, so nothing is asked of the pattern.
pub open spec fn matching_somewhere(expr: Seq<char>, line: Seq<char>) -> Result<
    bool,
    EngineError,
> {
    if line.len() == 0 {
        Ok(false)
    } else {
        match parse_spec(expr) {
            Ok(tree) => Ok(
                exists|i: int|
                    0 <= i < line.len() && matches_at_start(tree, #[trigger] line.skip(i)),
            ),
            Err(e) => Err(EngineError::Parse(e)),
        }
    }
}

/// Decides whether `expr` matches `line` somewhere: the starts are tried
/// from the first character on, and the first one that matches decides.
pub fn line_matches(expr: &str, line: &str) -> (r: Result<bool, EngineError>)
    ensures
        r == matching_somewhere(expr@, line@),
{
    let chars = chars_of(line);
    let n = chars.len();
    if n == 0 {
        return Ok(false);
    }
    let ast = match parse(expr) {
        Ok(ast) => ast,
        Err(e) => {
            return Err(EngineError::Parse(e));
        },
    };
    let instructions = match generate_code(&ast) {
        Ok(instructions) => instructions,
        Err(e) => {
            return Err(EngineError::Codegen(e));
        },
    };
    proof {
        lemma_code_len(ast@, 0);
        assert(instructions.len() == code_len(ast@) + 1);
    }
    let mut i: usize = 0;
    while i < n
        invariant
            chars@ == line@,
            n == chars@.len(),
            0 < n,
            i <= n,
            parse_spec(expr@) == Ok::<Regex, ParseError>(ast@),
            instructions@ == program(ast@),
            code_len(ast@) + 1 <= usize::MAX,
            forall|j: int| 0 <= j < i ==> !matches_at_start(ast@, #[trigger] line@.skip(j)),
        decreases n - i,
    {
        let rest = slice_subrange(chars.as_slice(), i, n);
        proof {
            assert(rest@ == line@.skip(i as int));
            lemma_program_decides_match(ast@, rest@);
        }
        match eval(instructions.as_slice(), rest) {
            Ok(found) => {
                if found {
                    return Ok(true);
                }
            },
            Err(e) => {
                return Err(EngineError::Eval(e));
            },
        }
        i += 1;
    }
    Ok(false)
}

/// Matching is a function of the pattern and the line: two calls of
/// [`do_matching`] with the same arguments return the same result.
pub proof fn lemma_repeated_calls_agree(
    expr: Seq<char>,
    line: Seq<char>,
    first: Result<bool, EngineError>,
    second: Result<bool, EngineError>,
)
    requires
        first == matching(expr, line),
        second == matching(expr, line),
    ensures
        first == second,
{
}

/// A pattern that parses is always compiled and run to an answer: the only
/// errors of matching are the parser's.
pub proof fn lemma_only_parse_errors(expr: Seq<char>, line: Seq<char>)
    ensures
        matching(expr, line) is Err <==> parse_spec(expr) is Err,
        parse_spec(expr) matches Err(e) ==> matching(expr, line) == Err::<bool, EngineError>(
            EngineError::Parse(e),
        ),
{
}

} // verus!
