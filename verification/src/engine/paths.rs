//! Programs as graphs: what the search finds, said without the search.
//!
//! A state is an address and an input offset. `Char` leads to the next
//! address and the next offset if its character is there, `Jump` to its
//! target, `Split` to either of its targets, and `Match` ends a path with
//! success. In a well-formed program the depth-first search of the evaluator
//! answers `true` exactly when some path leads from the start to a `Match`:
//! [`lemma_eval_finds_a_path`].
use super::codegen::well_formed;
use super::evaluator::{eval_spec, lemma_run_stays_inside, run, EvalError};
use super::Instruction;
use vstd::prelude::*;
use vstd::set_lib::{lemma_int_range, lemma_len_subset, set_int_range};

verus! {

/// Whether a path of at most `steps` steps leads from `(pc, sp)` to a
/// `Match` and, before it has consumed a character, stays away from the
/// addresses in `barred`.
pub open spec fn reaches_match_avoiding(
    prog: Seq<Instruction>,
    line: Seq<char>,
    pc: int,
    sp: int,
    steps: nat,
    barred: Set<int>,
) -> bool
    decreases steps,
{
    &&& 0 <= pc < prog.len()
    &&& !barred.contains(pc)
    &&& match prog[pc] {
        Instruction::Char(c) => {
            &&& steps > 0
            &&& 0 <= sp < line.len()
            &&& line[sp] == c
            &&& reaches_match_avoiding(
                prog,
                line,
                pc + 1,
                sp + 1,
                (steps - 1) as nat,
                Set::empty(),
            )
        },
        Instruction::Split(a, b) => {
            &&& steps > 0
            &&& (reaches_match_avoiding(prog, line, a as int, sp, (steps - 1) as nat, barred)
                || reaches_match_avoiding(prog, line, b as int, sp, (steps - 1) as nat, barred))
        },
        Instruction::Jump(addr) => {
            &&& steps > 0
            &&& reaches_match_avoiding(prog, line, addr as int, sp, (steps - 1) as nat, barred)
        },
        Instruction::Match => true,
    }
}

/// Whether a path of at most `steps` steps leads from `(pc, sp)` to a
/// `Match`.
pub open spec fn reaches_match(
    prog: Seq<Instruction>,
    line: Seq<char>,
    pc: int,
    sp: int,
    steps: nat,
) -> bool {
    reaches_match_avoiding(prog, line, pc, sp, steps, Set::empty())
}

/// A path of at most `steps` steps is one of at most `more` steps.
pub proof fn lemma_more_steps(
    prog: Seq<Instruction>,
    line: Seq<char>,
    pc: int,
    sp: int,
    steps: nat,
    more: nat,
    barred: Set<int>,
)
    requires
        reaches_match_avoiding(prog, line, pc, sp, steps, barred),
        steps <= more,
    ensures
        reaches_match_avoiding(prog, line, pc, sp, more, barred),
    decreases steps,
{
    let less = (steps - 1) as nat;
    let more_less = (more - 1) as nat;
    match prog[pc] {
        Instruction::Char(c) => {
            lemma_more_steps(prog, line, pc + 1, sp + 1, less, more_less, Set::empty());
        },
        Instruction::Split(a, b) => {
            if reaches_match_avoiding(prog, line, a as int, sp, less, barred) {
                lemma_more_steps(prog, line, a as int, sp, less, more_less, barred);
            } else {
                lemma_more_steps(prog, line, b as int, sp, less, more_less, barred);
            }
        },
        Instruction::Jump(addr) => {
            lemma_more_steps(prog, line, addr as int, sp, less, more_less, barred);
        },
        Instruction::Match => {},
    }
}

/// A path from `from` either stays away from `other` as well, or passes it,
/// and then its rest is a path from `other`.
proof fn lemma_cut_at(
    prog: Seq<Instruction>,
    line: Seq<char>,
    from: int,
    sp: int,
    steps: nat,
    barred: Set<int>,
    other: int,
)
    requires
        reaches_match_avoiding(prog, line, from, sp, steps, barred),
    ensures
        reaches_match_avoiding(prog, line, from, sp, steps, barred.insert(other))
            || reaches_match_avoiding(prog, line, other, sp, steps, barred),
    decreases steps,
{
    if from != other {
        let less = (steps - 1) as nat;
        match prog[from] {
            Instruction::Char(c) => {},
            Instruction::Split(a, b) => {
                let next = if reaches_match_avoiding(prog, line, a as int, sp, less, barred) {
                    a as int
                } else {
                    b as int
                };
                lemma_cut_at(prog, line, next, sp, less, barred, other);
                if reaches_match_avoiding(prog, line, other, sp, less, barred) {
                    lemma_more_steps(prog, line, other, sp, less, steps, barred);
                }
            },
            Instruction::Jump(addr) => {
                lemma_cut_at(prog, line, addr as int, sp, less, barred, other);
                if reaches_match_avoiding(prog, line, other, sp, less, barred) {
                    lemma_more_steps(prog, line, other, sp, less, steps, barred);
                }
            },
            Instruction::Match => {},
        }
    }
}

/// Where a path leads to a `Match` and stays away from the addresses that
/// the search has passed since it last consumed a character, the search
/// finds a match.
proof fn lemma_search_finds(
    prog: Seq<Instruction>,
    line: Seq<char>,
    pc: int,
    sp: int,
    steps: nat,
    barred: Set<int>,
    idle: nat,
)
    requires
        well_formed(prog),
        reaches_match_avoiding(prog, line, pc, sp, steps, barred),
        barred.finite(),
        forall|v: int| barred.contains(v) ==> 0 <= v < prog.len(),
        idle + barred.len() >= prog.len(),
    ensures
        run(prog, line, pc, sp, idle) == Ok::<bool, EvalError>(true),
    decreases steps,
{
    let less = (steps - 1) as nat;
    let grown = barred.insert(pc);
    assert(grown.subset_of(set_int_range(0, prog.len() as int)));
    lemma_int_range(0, prog.len() as int);
    lemma_len_subset(grown, set_int_range(0, prog.len() as int));
    assert(idle > 0);
    let idle_less = (idle - 1) as nat;
    match prog[pc] {
        Instruction::Char(c) => {
            lemma_search_finds(prog, line, pc + 1, sp + 1, less, Set::empty(), prog.len());
        },
        Instruction::Split(a, b) => {
            lemma_run_stays_inside(prog, line, a as int, sp, idle_less);
            if reaches_match_avoiding(prog, line, a as int, sp, less, barred) {
                lemma_cut_at(prog, line, a as int, sp, less, barred, pc);
                if reaches_match_avoiding(prog, line, a as int, sp, less, grown) {
                    lemma_search_finds(prog, line, a as int, sp, less, grown, idle_less);
                } else {
                    lemma_search_finds(prog, line, pc, sp, less, barred, idle);
                }
            } else {
                lemma_cut_at(prog, line, b as int, sp, less, barred, pc);
                if reaches_match_avoiding(prog, line, b as int, sp, less, grown) {
                    lemma_search_finds(prog, line, b as int, sp, less, grown, idle_less);
                } else {
                    lemma_search_finds(prog, line, pc, sp, less, barred, idle);
                }
            }
        },
        Instruction::Jump(addr) => {
            lemma_cut_at(prog, line, addr as int, sp, less, barred, pc);
            if reaches_match_avoiding(prog, line, addr as int, sp, less, grown) {
                lemma_search_finds(prog, line, addr as int, sp, less, grown, idle_less);
            } else {
                lemma_search_finds(prog, line, pc, sp, less, barred, idle);
            }
        },
        Instruction::Match => {},
    }
}

/// Where the search finds a match, a path leads to a `Match`; the result is
/// a number of steps that suffices.
proof fn lemma_found_has_path(
    prog: Seq<Instruction>,
    line: Seq<char>,
    pc: int,
    sp: int,
    idle: nat,
) -> (steps: nat)
    requires
        run(prog, line, pc, sp, idle) == Ok::<bool, EvalError>(true),
    ensures
        reaches_match(prog, line, pc, sp, steps),
    decreases line.len() - sp, idle,
{
    let idle_less = (idle - 1) as nat;
    match prog[pc] {
        Instruction::Char(c) => {
            let rest = lemma_found_has_path(prog, line, pc + 1, sp + 1, prog.len());
            rest + 1
        },
        Instruction::Split(a, b) => {
            if run(prog, line, a as int, sp, idle_less) == Ok::<bool, EvalError>(true) {
                let rest = lemma_found_has_path(prog, line, a as int, sp, idle_less);
                rest + 1
            } else {
                let rest = lemma_found_has_path(prog, line, b as int, sp, idle_less);
                rest + 1
            }
        },
        Instruction::Jump(addr) => {
            let rest = lemma_found_has_path(prog, line, addr as int, sp, idle_less);
            rest + 1
        },
        Instruction::Match => 0,
    }
}

/// On a well-formed program the evaluator answers, without error, whether
/// some path leads from the first instruction and the first character to a
/// `Match`.
pub proof fn lemma_eval_finds_a_path(prog: Seq<Instruction>, line: Seq<char>)
    requires
        well_formed(prog),
        prog.len() > 0,
    ensures
        eval_spec(prog, line) == Ok::<bool, EvalError>(
            exists|steps: nat| reaches_match(prog, line, 0, 0, steps),
        ),
{
    lemma_run_stays_inside(prog, line, 0, 0, prog.len());
    let outcome = eval_spec(prog, line);
    let found = exists|steps: nat| reaches_match(prog, line, 0, 0, steps);
    if outcome == Ok::<bool, EvalError>(true) {
        let steps = lemma_found_has_path(prog, line, 0, 0, prog.len());
        assert(reaches_match(prog, line, 0, 0, steps));
        assert(found);
    } else {
        assert(outcome == Ok::<bool, EvalError>(false)) by {
            assert(outcome is Ok);
            assert(outcome->Ok_0 == false);
        }
        assert forall|steps: nat| !reaches_match(prog, line, 0, 0, steps) by {
            if reaches_match(prog, line, 0, 0, steps) {
                lemma_search_finds(prog, line, 0, 0, steps, Set::empty(), prog.len());
            }
        }
        assert(!found);
    }
}

} // verus!
