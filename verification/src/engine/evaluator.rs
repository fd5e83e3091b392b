//! Running a program against an input.
//!
//! The machine state is a pair: the address of the next instruction and the
//! offset of the next input character. A path through the program succeeds
//! when it reaches `Match`, whatever input is left over, and fails when a
//! `Char` does not find its character. At a `Split` the first address is
//! tried first, and the second only if every path from the first fails: the
//! search is depth first, and the first success wins.
//!
//! `Split` and `Jump` consume no input. A path that takes more of them in a
//! row than the program has instructions has been at one address twice
//! without reading anything in between, so it would go round for ever; the
//! evaluator gives such a path up as failed. [`lemma_run_is_the_plain_search`]
//! shows that this changes nothing wherever the search without that rule
//! comes to an end.
use super::codegen::well_formed;
use super::Instruction;
use vstd::prelude::*;
use vstd::set_lib::{lemma_int_range, lemma_len_subset, set_int_range};

verus! {

/// The program counter left the program.
#[derive(Debug, Clone, Copy, PartialEq, Eq)]
pub enum EvalError {
    InvalidPC,
}

/// The outcome of the search from address `pc` and offset `sp`, when the
/// path may take `idle` more steps before it has to consume a character.
pub open spec fn run(
    prog: Seq<Instruction>,
    line: Seq<char>,
    pc: int,
    sp: int,
    idle: nat,
) -> Result<bool, EvalError>
    decreases line.len() - sp, idle,
{
    if !(0 <= pc < prog.len()) {
        Err(EvalError::InvalidPC)
    } else {
        match prog[pc] {
            Instruction::Char(c) => {
                if 0 <= sp < line.len() && line[sp] == c {
                    run(prog, line, pc + 1, sp + 1, prog.len())
                } else {
                    Ok(false)
                }
            },
            Instruction::Split(a, b) => {
                if idle == 0 {
                    Ok(false)
                } else {
                    match run(prog, line, a as int, sp, (idle - 1) as nat) {
                        Ok(false) => run(prog, line, b as int, sp, (idle - 1) as nat),
                        found_or_failed => found_or_failed,
                    }
                }
            },
            Instruction::Jump(addr) => {
                if idle == 0 {
                    Ok(false)
                } else {
                    run(prog, line, addr as int, sp, (idle - 1) as nat)
                }
            },
            Instruction::Match => Ok(true),
        }
    }
}

/// The outcome of running a program on an input from the start of both.
pub open spec fn eval_spec(prog: Seq<Instruction>, line: Seq<char>) -> Result<bool, EvalError> {
    run(prog, line, 0, 0, prog.len())
}

/// The search with no rule against idle cycles, cut off after `fuel` nested
/// steps. `None` says that it was cut off; a search that is cut off for
/// every `fuel` never ends.
pub open spec fn search(
    prog: Seq<Instruction>,
    line: Seq<char>,
    pc: int,
    sp: int,
    fuel: nat,
) -> Option<Result<bool, EvalError>>
    decreases fuel,
{
    if fuel == 0 {
        None
    } else if !(0 <= pc < prog.len()) {
        Some(Err(EvalError::InvalidPC))
    } else {
        match prog[pc] {
            Instruction::Char(c) => {
                if 0 <= sp < line.len() && line[sp] == c {
                    search(prog, line, pc + 1, sp + 1, (fuel - 1) as nat)
                } else {
                    Some(Ok(false))
                }
            },
            Instruction::Split(a, b) => {
                match search(prog, line, a as int, sp, (fuel - 1) as nat) {
                    Some(Ok(false)) => search(prog, line, b as int, sp, (fuel - 1) as nat),
                    cut_found_or_failed => cut_found_or_failed,
                }
            },
            Instruction::Jump(addr) => search(prog, line, addr as int, sp, (fuel - 1) as nat),
            Instruction::Match => Some(Ok(true)),
        }
    }
}

/// The least fuel, up to `fuel`, with which the plain search ends.
pub open spec fn least_fuel(
    prog: Seq<Instruction>,
    line: Seq<char>,
    pc: int,
    sp: int,
    fuel: nat,
) -> nat
    decreases fuel,
{
    if fuel > 0 && search(prog, line, pc, sp, (fuel - 1) as nat) is Some {
        least_fuel(prog, line, pc, sp, (fuel - 1) as nat)
    } else {
        fuel
    }
}

/// A search that ends gives the same outcome with any larger fuel.
pub proof fn lemma_search_more_fuel(
    prog: Seq<Instruction>,
    line: Seq<char>,
    pc: int,
    sp: int,
    fuel: nat,
    more: nat,
)
    requires
        search(prog, line, pc, sp, fuel) is Some,
        fuel <= more,
    ensures
        search(prog, line, pc, sp, more) == search(prog, line, pc, sp, fuel),
    decreases fuel,
{
    if 0 <= pc < prog.len() {
        let less = (fuel - 1) as nat;
        let more_less = (more - 1) as nat;
        match prog[pc] {
            Instruction::Char(c) => {
                if 0 <= sp < line.len() && line[sp] == c {
                    lemma_search_more_fuel(prog, line, pc + 1, sp + 1, less, more_less);
                }
            },
            Instruction::Split(a, b) => {
                lemma_search_more_fuel(prog, line, a as int, sp, less, more_less);
                if search(prog, line, a as int, sp, less) == Some(Ok::<bool, EvalError>(false)) {
                    lemma_search_more_fuel(prog, line, b as int, sp, less, more_less);
                }
            },
            Instruction::Jump(addr) => {
                lemma_search_more_fuel(prog, line, addr as int, sp, less, more_less);
            },
            Instruction::Match => {},
        }
    }
}

/// `least_fuel` is the least fuel with which the search ends.
pub proof fn lemma_least_fuel(
    prog: Seq<Instruction>,
    line: Seq<char>,
    pc: int,
    sp: int,
    fuel: nat,
)
    requires
        search(prog, line, pc, sp, fuel) is Some,
    ensures
        least_fuel(prog, line, pc, sp, fuel) <= fuel,
        search(prog, line, pc, sp, least_fuel(prog, line, pc, sp, fuel)) == search(
            prog,
            line,
            pc,
            sp,
            fuel,
        ),
        forall|h: nat|
            h < least_fuel(prog, line, pc, sp, fuel) ==> #[trigger] search(prog, line, pc, sp, h)
                is None,
    decreases fuel,
{
    if fuel > 0 && search(prog, line, pc, sp, (fuel - 1) as nat) is Some {
        lemma_least_fuel(prog, line, pc, sp, (fuel - 1) as nat);
        lemma_search_more_fuel(prog, line, pc, sp, (fuel - 1) as nat, fuel);
    } else {
        assert forall|h: nat| h < fuel implies #[trigger] search(prog, line, pc, sp, h)
            is None by {
            if search(prog, line, pc, sp, h) is Some {
                lemma_search_more_fuel(prog, line, pc, sp, h, (fuel - 1) as nat);
            }
        }
    }
}

/// The step of [`lemma_run_follows_search`] for an instruction that
/// consumes nothing: `pc` is none of the addresses in `seen`, so an idle
/// step is left, and the search from `next` is followed from there on.
proof fn lemma_idle_step(
    prog: Seq<Instruction>,
    line: Seq<char>,
    pc: int,
    sp: int,
    fuel: nat,
    idle: nat,
    seen: Set<int>,
    next: int,
)
    requires
        0 <= pc < prog.len(),
        fuel > 0,
        search(prog, line, pc, sp, fuel) is Some,
        search(prog, line, pc, sp, (fuel - 1) as nat) is None,
        search(prog, line, next, sp, (fuel - 1) as nat) is Some,
        seen.finite(),
        forall|v: int|
            seen.contains(v) ==> 0 <= v < prog.len() && search(prog, line, v, sp, fuel) is None,
        idle + seen.len() >= prog.len(),
    ensures
        idle > 0,
        run(prog, line, next, sp, (idle - 1) as nat) == search(
            prog,
            line,
            next,
            sp,
            (fuel - 1) as nat,
        )->0,
    decreases fuel, 0nat,
{
    let less = (fuel - 1) as nat;
    let grown = seen.insert(pc);
    assert(!seen.contains(pc));
    assert(grown.subset_of(set_int_range(0, prog.len() as int)));
    lemma_int_range(0, prog.len() as int);
    lemma_len_subset(grown, set_int_range(0, prog.len() as int));
    let least = least_fuel(prog, line, next, sp, less);
    lemma_least_fuel(prog, line, next, sp, less);
    assert forall|v: int| grown.contains(v) implies 0 <= v < prog.len() && search(
        prog,
        line,
        v,
        sp,
        least,
    ) is None by {
        if search(prog, line, v, sp, least) is Some {
            if v == pc {
                lemma_search_more_fuel(prog, line, v, sp, least, less);
            } else {
                lemma_search_more_fuel(prog, line, v, sp, least, fuel);
            }
        }
    }
    lemma_run_follows_search(prog, line, next, sp, least, (idle - 1) as nat, grown);
}

/// Where the plain search from `(pc, sp)` ends with `fuel` and no less, and
/// the addresses in `seen` are those passed since the last character was
/// consumed, each of which needs more fuel, `run` with the idle steps that
/// are left gives the outcome of the plain search.
proof fn lemma_run_follows_search(
    prog: Seq<Instruction>,
    line: Seq<char>,
    pc: int,
    sp: int,
    fuel: nat,
    idle: nat,
    seen: Set<int>,
)
    requires
        search(prog, line, pc, sp, fuel) is Some,
        forall|h: nat| h < fuel ==> #[trigger] search(prog, line, pc, sp, h) is None,
        seen.finite(),
        forall|v: int|
            seen.contains(v) ==> 0 <= v < prog.len() && search(prog, line, v, sp, fuel) is None,
        idle + seen.len() >= prog.len(),
    ensures
        run(prog, line, pc, sp, idle) == search(prog, line, pc, sp, fuel)->0,
    decreases fuel, 1nat,
{
    if 0 <= pc < prog.len() {
        let less = (fuel - 1) as nat;
        assert(search(prog, line, pc, sp, less) is None);
        match prog[pc] {
            Instruction::Char(c) => {
                if 0 <= sp < line.len() && line[sp] == c {
                    let least = least_fuel(prog, line, pc + 1, sp + 1, less);
                    lemma_least_fuel(prog, line, pc + 1, sp + 1, less);
                    lemma_run_follows_search(
                        prog,
                        line,
                        pc + 1,
                        sp + 1,
                        least,
                        prog.len(),
                        Set::<int>::empty(),
                    );
                }
            },
            Instruction::Split(a, b) => {
                lemma_idle_step(prog, line, pc, sp, fuel, idle, seen, a as int);
                if search(prog, line, a as int, sp, less) == Some(Ok::<bool, EvalError>(false)) {
                    lemma_idle_step(prog, line, pc, sp, fuel, idle, seen, b as int);
                }
            },
            Instruction::Jump(addr) => {
                lemma_idle_step(prog, line, pc, sp, fuel, idle, seen, addr as int);
            },
            Instruction::Match => {},
        }
    }
}

/// The rule against idle cycles changes no outcome: whenever the plain
/// depth-first search of a program on an input comes to an end, `eval_spec`
/// is what it ends with.
pub proof fn lemma_run_is_the_plain_search(prog: Seq<Instruction>, line: Seq<char>, fuel: nat)
    requires
        search(prog, line, 0, 0, fuel) is Some,
    ensures
        search(prog, line, 0, 0, fuel) == Some(eval_spec(prog, line)),
{
    let least = least_fuel(prog, line, 0, 0, fuel);
    lemma_least_fuel(prog, line, 0, 0, fuel);
    lemma_run_follows_search(prog, line, 0, 0, least, prog.len(), Set::<int>::empty());
}

/// In a well-formed program the search never leaves the program.
pub proof fn lemma_run_stays_inside(
    prog: Seq<Instruction>,
    line: Seq<char>,
    pc: int,
    sp: int,
    idle: nat,
)
    requires
        well_formed(prog),
        0 <= pc < prog.len(),
    ensures
        run(prog, line, pc, sp, idle) is Ok,
    decreases line.len() - sp, idle,
{
    match prog[pc] {
        Instruction::Char(c) => {
            if 0 <= sp < line.len() && line[sp] == c {
                lemma_run_stays_inside(prog, line, pc + 1, sp + 1, prog.len());
            }
        },
        Instruction::Split(a, b) => {
            if idle > 0 {
                lemma_run_stays_inside(prog, line, a as int, sp, (idle - 1) as nat);
                lemma_run_stays_inside(prog, line, b as int, sp, (idle - 1) as nat);
            }
        },
        Instruction::Jump(addr) => {
            if idle > 0 {
                lemma_run_stays_inside(prog, line, addr as int, sp, (idle - 1) as nat);
            }
        },
        Instruction::Match => {},
    }
}

/// The search from address `pc` and offset `sp`, with `idle` steps left
/// before the path has to consume a character. `Char` and `Jump` are
/// followed in place; each branch of a `Split` is a search of its own.
fn _eval(instructions: &[Instruction], line: &[char], pc: usize, sp: usize, idle: usize) -> (r:
    Result<bool, EvalError>)
    ensures
        r == run(instructions@, line@, pc as int, sp as int, idle as nat),
    decreases line@.len() - sp, idle,
{
    let mut cur_pc = pc;
    let mut cur_sp = sp;
    let mut cur_idle = idle;
    loop
        invariant
            run(instructions@, line@, cur_pc as int, cur_sp as int, cur_idle as nat) == run(
                instructions@,
                line@,
                pc as int,
                sp as int,
                idle as nat,
            ),
            sp < cur_sp <= line@.len() || (cur_sp == sp && cur_idle <= idle),
        decreases line@.len() - cur_sp, cur_idle,
    {
        if cur_pc >= instructions.len() {
            return Err(EvalError::InvalidPC);
        }
        match instructions[cur_pc] {
            Instruction::Char(c) => {
                if cur_sp < line.len() && line[cur_sp] == c {
                    cur_pc += 1;
                    cur_sp += 1;
                    cur_idle = instructions.len();
                } else {
                    return Ok(false);
                }
            },
            Instruction::Split(a, b) => {
                if cur_idle == 0 {
                    return Ok(false);
                }
                if _eval(instructions, line, a, cur_sp, cur_idle - 1)? {
                    return Ok(true);
                } else {
                    return _eval(instructions, line, b, cur_sp, cur_idle - 1);
                }
            },
            Instruction::Jump(addr) => {
                if cur_idle == 0 {
                    return Ok(false);
                }
                cur_pc = addr;
                cur_idle -= 1;
            },
            Instruction::Match => {
                return Ok(true);
            },
        }
    }
}

/// Runs a program on an input, from the first instruction and the first
/// character.
///
/// The result is `Ok(true)` if the depth-first search finds a path to
/// `Match`, `Ok(false)` if every path fails, and `Err(InvalidPC)` if the
/// search reaches an address outside the program before it finds a path.
pub fn eval(instructions: &[Instruction], line: &[char]) -> (r: Result<bool, EvalError>)
    ensures
        r == eval_spec(instructions@, line@),
{
    _eval(instructions, line, 0, 0, instructions.len())
}

} // verus!
