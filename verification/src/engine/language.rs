//! What a pattern means, and that the compiled program decides it.
//!
//! [`spans`] says when a pattern matches a stretch of the input: a literal
//! matches its own character, a sequence matches what its children match
//! one after the other, an alternation what either branch matches, and the
//! three postfix operators one or more, zero or more, and at most one
//! stretch matched by their operand. [`lemma_program_decides_match`] shows
//! that the evaluator, run on the program of a pattern, answers whether the
//! pattern matches a stretch at the start of the input.
use super::codegen::{
    code, code_all, code_len, code_len_all, lemma_code_all_len, lemma_code_len,
    lemma_program_well_formed, program,
};
use super::evaluator::{eval_spec, EvalError};
use super::parser::Regex;
use super::paths::{lemma_eval_finds_a_path, lemma_more_steps, reaches_match};
use super::Instruction;
use vstd::prelude::*;

verus! {

/// Marks an offset at which a stretch is cut in two. It holds of every
/// offset, and serves to name the offset in a quantifier.
pub open spec fn cut(mid: int) -> bool {
    true
}

/// Whether the pattern matches the characters of `line` from offset `from`
/// up to, not including, offset `to`.
pub open spec fn spans(r: Regex, line: Seq<char>, from: int, to: int) -> bool
    decreases r, 0nat, to - from,
{
    &&& 0 <= from <= to <= line.len()
    &&& match r {
        Regex::Char(c) => to == from + 1 && line[from] == c,
        Regex::Plus(a) => exists|mid: int|
            #[trigger] cut(mid) && from <= mid <= to && spans(*a, line, from, mid)
                && repeats(*a, line, mid, to),
        Regex::Star(a) => repeats(*a, line, from, to),
        Regex::Question(a) => from == to || spans(*a, line, from, to),
        Regex::Or(a, b) => spans(*a, line, from, to) || spans(*b, line, from, to),
        Regex::Sequence(v) => spans_all(v, line, from, to),
    }
}

/// Whether the stretch from `from` to `to` is made of any number of
/// stretches, each matched by the pattern and none of them empty.
pub open spec fn repeats(r: Regex, line: Seq<char>, from: int, to: int) -> bool
    decreases r, 1nat, to - from,
{
    &&& 0 <= from <= to <= line.len()
    &&& (from == to || exists|mid: int|
        #[trigger] cut(mid) && from < mid <= to && spans(r, line, from, mid)
            && repeats(r, line, mid, to))
}

/// Whether the stretch from `from` to `to` is made of one stretch for each
/// of the patterns, in order.
pub open spec fn spans_all(v: Seq<Regex>, line: Seq<char>, from: int, to: int) -> bool
    decreases v, 0nat, to - from,
{
    &&& 0 <= from <= to <= line.len()
    &&& if v.len() == 0 {
        from == to
    } else {
        exists|mid: int|
            #[trigger] cut(mid) && from <= mid <= to
                && spans_all(v.drop_last(), line, from, mid)
                && spans(v.last(), line, mid, to)
    }
}

/// Whether the pattern matches some stretch at the start of the line.
pub open spec fn matches_at_start(r: Regex, line: Seq<char>) -> bool {
    exists|to: int| spans(r, line, 0, to)
}

/// Whether the program holds `piece` from address `at` on, with at least
/// one instruction behind it, and all its addresses fit the machine's word.
pub open spec fn holds(prog: Seq<Instruction>, piece: Seq<Instruction>, at: int) -> bool {
    &&& 0 <= at
    &&& at + piece.len() < prog.len() <= usize::MAX
    &&& forall|i: int| 0 <= i < piece.len() ==> prog[at + i] == #[trigger] piece[i]
}

/// A part of a piece that the program holds is held too.
proof fn lemma_holds_part(
    prog: Seq<Instruction>,
    piece: Seq<Instruction>,
    at: int,
    part: Seq<Instruction>,
    offset: int,
)
    requires
        holds(prog, piece, at),
        0 <= offset,
        offset + part.len() <= piece.len(),
        piece.subrange(offset, offset + part.len()) == part,
    ensures
        holds(prog, part, at + offset),
{
    assert forall|i: int| 0 <= i < part.len() implies prog[at + offset + i]
        == #[trigger] part[i] by {
        assert(piece[offset + i] == part[i]);
    }
}

/// An empty repetition may be followed by any repetition.
proof fn lemma_repeats_prepend(r: Regex, line: Seq<char>, from: int, mid: int, to: int)
    requires
        spans(r, line, from, mid),
        repeats(r, line, mid, to),
    ensures
        repeats(r, line, from, to),
{
    if from < mid {
        assert(cut(mid) && from < mid <= to && spans(r, line, from, mid)
            && repeats(r, line, mid, to));
    }
}

/// Completeness, for a pattern: where the pattern matches from `from` to
/// `to` and a path leads on from behind its code at offset `to`, a path
/// leads from the start of its code at offset `from`.
proof fn lemma_path_through(
    prog: Seq<Instruction>,
    line: Seq<char>,
    r: Regex,
    at: int,
    from: int,
    to: int,
    steps: nat,
) -> (total: nat)
    requires
        holds(prog, code(r, at), at),
        spans(r, line, from, to),
        reaches_match(prog, line, at + code_len(r), to, steps),
    ensures
        reaches_match(prog, line, at, from, total),
    decreases r, 0nat, 0int,
{
    lemma_code_len(r, at);
    let piece = code(r, at);
    match r {
        Regex::Char(c) => {
            assert(prog[at + 0] == piece[0]);
            steps + 1
        },
        Regex::Plus(a) => {
            lemma_code_len(*a, at);
            let mid = choose|mid: int|
                #[trigger] cut(mid) && from <= mid <= to && spans(*a, line, from, mid)
                    && repeats(*a, line, mid, to);
            assert(piece.subrange(0, code_len(*a) as int) == code(*a, at));
            lemma_holds_part(prog, piece, at, code(*a, at), 0);
            let looped = lemma_plus_loops(prog, line, *a, at, mid, to, steps);
            lemma_path_through(prog, line, *a, at, from, mid, looped)
        },
        Regex::Star(a) => {
            lemma_star_loops(prog, line, *a, at, from, to, steps)
        },
        Regex::Question(a) => {
            lemma_code_len(*a, at + 1);
            assert(prog[at + 0] == piece[0]);
            if from == to {
                steps + 1
            } else {
                assert(piece.subrange(1, 1 + code_len(*a) as int) == code(*a, at + 1));
                lemma_holds_part(prog, piece, at, code(*a, at + 1), 1);
                let inner = lemma_path_through(prog, line, *a, at + 1, from, to, steps);
                inner + 1
            }
        },
        Regex::Or(a, b) => {
            let la = code_len(*a) as int;
            let lb = code_len(*b) as int;
            lemma_code_len(*a, at + 1);
            lemma_code_len(*b, at + la + 2);
            assert(prog[at + 0] == piece[0]);
            if spans(*a, line, from, to) {
                assert(prog[at + (la + 1)] == piece[la + 1]);
                assert(piece.subrange(1, 1 + la) == code(*a, at + 1));
                lemma_holds_part(prog, piece, at, code(*a, at + 1), 1);
                let inner = lemma_path_through(prog, line, *a, at + 1, from, to, steps + 1);
                inner + 1
            } else {
                assert(piece.subrange(la + 2, la + 2 + lb) == code(*b, at + la + 2));
                lemma_holds_part(prog, piece, at, code(*b, at + la + 2), la + 2);
                let inner = lemma_path_through(prog, line, *b, at + la + 2, from, to, steps);
                inner + 1
            }
        },
        Regex::Sequence(v) => lemma_path_through_all(prog, line, v, at, from, to, steps),
    }
}

/// Completeness, for the closing `Split` of a one-or-more loop.
proof fn lemma_plus_loops(
    prog: Seq<Instruction>,
    line: Seq<char>,
    body: Regex,
    at: int,
    from: int,
    to: int,
    steps: nat,
) -> (total: nat)
    requires
        holds(prog, code(Regex::Plus(Box::new(body)), at), at),
        repeats(body, line, from, to),
        reaches_match(prog, line, at + code_len(body) + 1, to, steps),
    ensures
        reaches_match(prog, line, at + code_len(body), from, total),
    decreases body, 1nat, to - from,
{
    let piece = code(Regex::Plus(Box::new(body)), at);
    let len = code_len(body) as int;
    lemma_code_len(Regex::Plus(Box::new(body)), at);
    lemma_code_len(body, at);
    assert(prog[at + len] == piece[len]);
    if from == to {
        steps + 1
    } else {
        let mid = choose|mid: int|
            #[trigger] cut(mid) && from < mid <= to && spans(body, line, from, mid)
                && repeats(body, line, mid, to);
        let looped = lemma_plus_loops(prog, line, body, at, mid, to, steps);
        assert(piece.subrange(0, len) == code(body, at));
        lemma_holds_part(prog, piece, at, code(body, at), 0);
        let inner = lemma_path_through(prog, line, body, at, from, mid, looped);
        inner + 1
    }
}

/// Completeness, for a zero-or-more loop.
proof fn lemma_star_loops(
    prog: Seq<Instruction>,
    line: Seq<char>,
    body: Regex,
    at: int,
    from: int,
    to: int,
    steps: nat,
) -> (total: nat)
    requires
        holds(prog, code(Regex::Star(Box::new(body)), at), at),
        repeats(body, line, from, to),
        reaches_match(prog, line, at + code_len(body) + 2, to, steps),
    ensures
        reaches_match(prog, line, at, from, total),
    decreases body, 1nat, to - from,
{
    let piece = code(Regex::Star(Box::new(body)), at);
    let len = code_len(body) as int;
    lemma_code_len(Regex::Star(Box::new(body)), at);
    lemma_code_len(body, at + 1);
    assert(prog[at + 0] == piece[0]);
    if from == to {
        steps + 1
    } else {
        let mid = choose|mid: int|
            #[trigger] cut(mid) && from < mid <= to && spans(body, line, from, mid)
                && repeats(body, line, mid, to);
        let looped = lemma_star_loops(prog, line, body, at, mid, to, steps);
        assert(prog[at + (len + 1)] == piece[len + 1]);
        assert(reaches_match(prog, line, at + len + 1, mid, looped + 1));
        assert(piece.subrange(1, 1 + len) == code(body, at + 1));
        lemma_holds_part(prog, piece, at, code(body, at + 1), 1);
        let inner = lemma_path_through(prog, line, body, at + 1, from, mid, looped + 1);
        inner + 1
    }
}

/// Completeness, for a list of patterns.
proof fn lemma_path_through_all(
    prog: Seq<Instruction>,
    line: Seq<char>,
    v: Seq<Regex>,
    at: int,
    from: int,
    to: int,
    steps: nat,
) -> (total: nat)
    requires
        holds(prog, code_all(v, at), at),
        spans_all(v, line, from, to),
        reaches_match(prog, line, at + code_len_all(v), to, steps),
    ensures
        reaches_match(prog, line, at, from, total),
    decreases v, 0nat, 0int,
{
    if v.len() == 0 {
        steps
    } else {
        let piece = code_all(v, at);
        let front = v.drop_last();
        let front_len = code_len_all(front) as int;
        lemma_code_all_len(v, at);
        lemma_code_all_len(front, at);
        lemma_code_len(v.last(), at + front_len);
        let mid = choose|mid: int|
            #[trigger] cut(mid) && from <= mid <= to
                && spans_all(v.drop_last(), line, from, mid)
                && spans(v.last(), line, mid, to);
        assert(piece.subrange(front_len, front_len + code_len(v.last())) == code(
            v.last(),
            at + front_len,
        ));
        lemma_holds_part(prog, piece, at, code(v.last(), at + front_len), front_len);
        let last = lemma_path_through(prog, line, v.last(), at + front_len, mid, to, steps);
        assert(piece.subrange(0, front_len) == code_all(front, at));
        lemma_holds_part(prog, piece, at, code_all(front, at), 0);
        lemma_path_through_all(prog, line, front, at, from, mid, last)
    }
}

/// Soundness, for a pattern: a path from the start of its code leaves the
/// code behind its last instruction, having consumed a stretch that the
/// pattern matches; the result is the offset where it leaves.
proof fn lemma_path_crosses(
    prog: Seq<Instruction>,
    line: Seq<char>,
    r: Regex,
    at: int,
    from: int,
    steps: nat,
) -> (to: int)
    requires
        holds(prog, code(r, at), at),
        0 <= from <= line.len(),
        reaches_match(prog, line, at, from, steps),
    ensures
        spans(r, line, from, to),
        reaches_match(prog, line, at + code_len(r), to, steps),
    decreases r, 0nat, steps,
{
    lemma_code_len(r, at);
    let piece = code(r, at);
    let none = Set::<int>::empty();
    let less = (steps - 1) as nat;
    match r {
        Regex::Char(c) => {
            assert(prog[at + 0] == piece[0]);
            lemma_more_steps(prog, line, at + 1, from + 1, less, steps, none);
            from + 1
        },
        Regex::Plus(a) => {
            lemma_code_len(*a, at);
            assert(piece.subrange(0, code_len(*a) as int) == code(*a, at));
            lemma_holds_part(prog, piece, at, code(*a, at), 0);
            let mid = lemma_path_crosses(prog, line, *a, at, from, steps);
            let to = lemma_plus_leaves(prog, line, *a, at, mid, steps);
            assert(cut(mid) && from <= mid <= to && spans(*a, line, from, mid)
                && repeats(*a, line, mid, to));
            to
        },
        Regex::Star(a) => {
            lemma_star_leaves(prog, line, *a, at, from, steps)
        },
        Regex::Question(a) => {
            lemma_code_len(*a, at + 1);
            assert(prog[at + 0] == piece[0]);
            if reaches_match(prog, line, at + 1, from, less) {
                assert(piece.subrange(1, 1 + code_len(*a) as int) == code(*a, at + 1));
                lemma_holds_part(prog, piece, at, code(*a, at + 1), 1);
                let to = lemma_path_crosses(prog, line, *a, at + 1, from, less);
                lemma_more_steps(prog, line, at + code_len(r), to, less, steps, none);
                to
            } else {
                lemma_more_steps(prog, line, at + code_len(r), from, less, steps, none);
                from
            }
        },
        Regex::Or(a, b) => {
            let la = code_len(*a) as int;
            let lb = code_len(*b) as int;
            lemma_code_len(*a, at + 1);
            lemma_code_len(*b, at + la + 2);
            assert(prog[at + 0] == piece[0]);
            if reaches_match(prog, line, at + 1, from, less) {
                assert(piece.subrange(1, 1 + la) == code(*a, at + 1));
                lemma_holds_part(prog, piece, at, code(*a, at + 1), 1);
                let to = lemma_path_crosses(prog, line, *a, at + 1, from, less);
                assert(prog[at + (la + 1)] == piece[la + 1]);
                lemma_more_steps(
                    prog,
                    line,
                    at + code_len(r),
                    to,
                    (less - 1) as nat,
                    steps,
                    none,
                );
                to
            } else {
                assert(piece.subrange(la + 2, la + 2 + lb) == code(*b, at + la + 2));
                lemma_holds_part(prog, piece, at, code(*b, at + la + 2), la + 2);
                let to = lemma_path_crosses(prog, line, *b, at + la + 2, from, less);
                lemma_more_steps(prog, line, at + code_len(r), to, less, steps, none);
                to
            }
        },
        Regex::Sequence(v) => lemma_path_crosses_all(prog, line, v, at, from, steps),
    }
}

/// Soundness, for the closing `Split` of a one-or-more loop.
proof fn lemma_plus_leaves(
    prog: Seq<Instruction>,
    line: Seq<char>,
    body: Regex,
    at: int,
    from: int,
    steps: nat,
) -> (to: int)
    requires
        holds(prog, code(Regex::Plus(Box::new(body)), at), at),
        0 <= from <= line.len(),
        reaches_match(prog, line, at + code_len(body), from, steps),
    ensures
        repeats(body, line, from, to),
        reaches_match(prog, line, at + code_len(body) + 1, to, steps),
    decreases body, 1nat, steps,
{
    let piece = code(Regex::Plus(Box::new(body)), at);
    let len = code_len(body) as int;
    let none = Set::<int>::empty();
    let less = (steps - 1) as nat;
    lemma_code_len(Regex::Plus(Box::new(body)), at);
    lemma_code_len(body, at);
    assert(prog[at + len] == piece[len]);
    if reaches_match(prog, line, at, from, less) {
        assert(piece.subrange(0, len) == code(body, at));
        lemma_holds_part(prog, piece, at, code(body, at), 0);
        let mid = lemma_path_crosses(prog, line, body, at, from, less);
        let to = lemma_plus_leaves(prog, line, body, at, mid, less);
        lemma_repeats_prepend(body, line, from, mid, to);
        lemma_more_steps(prog, line, at + len + 1, to, less, steps, none);
        to
    } else {
        lemma_more_steps(prog, line, at + len + 1, from, less, steps, none);
        from
    }
}

/// Soundness, for a zero-or-more loop.
proof fn lemma_star_leaves(
    prog: Seq<Instruction>,
    line: Seq<char>,
    body: Regex,
    at: int,
    from: int,
    steps: nat,
) -> (to: int)
    requires
        holds(prog, code(Regex::Star(Box::new(body)), at), at),
        0 <= from <= line.len(),
        reaches_match(prog, line, at, from, steps),
    ensures
        repeats(body, line, from, to),
        reaches_match(prog, line, at + code_len(body) + 2, to, steps),
    decreases body, 1nat, steps,
{
    let piece = code(Regex::Star(Box::new(body)), at);
    let len = code_len(body) as int;
    let none = Set::<int>::empty();
    let less = (steps - 1) as nat;
    lemma_code_len(Regex::Star(Box::new(body)), at);
    lemma_code_len(body, at + 1);
    assert(prog[at + 0] == piece[0]);
    if reaches_match(prog, line, at + 1, from, less) {
        assert(piece.subrange(1, 1 + len) == code(body, at + 1));
        lemma_holds_part(prog, piece, at, code(body, at + 1), 1);
        let mid = lemma_path_crosses(prog, line, body, at + 1, from, less);
        assert(prog[at + (len + 1)] == piece[len + 1]);
        let to = lemma_star_leaves(prog, line, body, at, mid, (less - 1) as nat);
        lemma_repeats_prepend(body, line, from, mid, to);
        lemma_more_steps(prog, line, at + len + 2, to, (less - 1) as nat, steps, none);
        to
    } else {
        lemma_more_steps(prog, line, at + len + 2, from, less, steps, none);
        from
    }
}

/// Soundness, for a list of patterns.
proof fn lemma_path_crosses_all(
    prog: Seq<Instruction>,
    line: Seq<char>,
    v: Seq<Regex>,
    at: int,
    from: int,
    steps: nat,
) -> (to: int)
    requires
        holds(prog, code_all(v, at), at),
        0 <= from <= line.len(),
        reaches_match(prog, line, at, from, steps),
    ensures
        spans_all(v, line, from, to),
        reaches_match(prog, line, at + code_len_all(v), to, steps),
    decreases v, 0nat, steps,
{
    if v.len() == 0 {
        from
    } else {
        let piece = code_all(v, at);
        let front = v.drop_last();
        let front_len = code_len_all(front) as int;
        lemma_code_all_len(v, at);
        lemma_code_all_len(front, at);
        lemma_code_len(v.last(), at + front_len);
        assert(piece.subrange(0, front_len) == code_all(front, at));
        lemma_holds_part(prog, piece, at, code_all(front, at), 0);
        let mid = lemma_path_crosses_all(prog, line, front, at, from, steps);
        assert(piece.subrange(front_len, front_len + code_len(v.last())) == code(
            v.last(),
            at + front_len,
        ));
        lemma_holds_part(prog, piece, at, code(v.last(), at + front_len), front_len);
        let to = lemma_path_crosses(prog, line, v.last(), at + front_len, mid, steps);
        assert(cut(mid) && from <= mid <= to && spans_all(v.drop_last(), line, from, mid)
                && spans(v.last(), line, mid, to));
        to
    }
}

/// The program of a pattern decides the pattern: run on a line, it
/// answers, without error, whether the pattern matches a stretch at the
/// start of the line.
pub proof fn lemma_program_decides_match(r: Regex, line: Seq<char>)
    requires
        code_len(r) + 1 <= usize::MAX,
    ensures
        eval_spec(program(r), line) == Ok::<bool, EvalError>(matches_at_start(r, line)),
{
    let prog = program(r);
    let end = code_len(r) as int;
    lemma_program_well_formed(r);
    lemma_code_len(r, 0);
    lemma_eval_finds_a_path(prog, line);
    assert(holds(prog, code(r, 0), 0));
    assert(prog[end] == Instruction::Match);
    let found = exists|steps: nat| reaches_match(prog, line, 0, 0, steps);
    if found {
        let steps = choose|steps: nat| reaches_match(prog, line, 0, 0, steps);
        let to = lemma_path_crosses(prog, line, r, 0, 0, steps);
        assert(spans(r, line, 0, to));
    }
    if matches_at_start(r, line) {
        let to = choose|to: int| spans(r, line, 0, to);
        assert(reaches_match(prog, line, end, to, 0));
        let total = lemma_path_through(prog, line, r, 0, 0, to, 0);
        assert(reaches_match(prog, line, 0, 0, total));
    }
}

} // verus!
