//! Syntax tree to program.
//!
//! Every node of the tree becomes a run of consecutive instructions; control
//! enters the run at its first address and leaves it at the address just
//! behind its last instruction. [`code`] gives the run of a tree placed at a
//! given address as a closed formula; the generator builds the same
//! instructions in one pass, patching each forward target once the address
//! it stands for is known.
use super::parser::{regex_of, regexes_of, Regex, AST};
use super::Instruction;
use vstd::prelude::*;

verus! {

/// A placeholder that was to be patched did not hold the expected
/// instruction. The generator never returns one of these; they mark what
/// would be a defect in it.
#[derive(Debug, Clone, Copy, PartialEq, Eq)]
pub enum CodegenError {
    FailStar,
    FailOr,
    FailQuestion,
}

/// The number of instructions that a tree compiles to.
pub open spec fn code_len(r: Regex) -> nat
    decreases r,
{
    match r {
        Regex::Char(_) => 1,
        Regex::Plus(a) => code_len(*a) + 1,
        Regex::Star(a) => code_len(*a) + 2,
        Regex::Question(a) => code_len(*a) + 1,
        Regex::Or(a, b) => code_len(*a) + code_len(*b) + 2,
        Regex::Sequence(v) => code_len_all(v),
    }
}

/// The number of instructions that a list of trees compiles to.
pub open spec fn code_len_all(v: Seq<Regex>) -> nat
    decreases v,
{
    if v.len() == 0 {
        0
    } else {
        code_len_all(v.drop_last()) + code_len(v.last())
    }
}

/// The instructions of a tree whose first instruction stands at address
/// `at`.
///
/// - A literal is one `Char`.
/// - One-or-more is the body, then a `Split` back to the body's start or on
///   to what follows.
/// - Zero-or-more is a `Split` into the body or past the loop, the body,
///   and a `Jump` back to the `Split`.
/// - Optional is a `Split` into the body or past it, then the body.
/// - Alternation is a `Split` to either branch, the left branch, a `Jump`
///   past the right branch, and the right branch.
/// - A sequence is its children's code, one after the other.
pub open spec fn code(r: Regex, at: int) -> Seq<Instruction>
    decreases r,
{
    match r {
        Regex::Char(c) => seq![Instruction::Char(c)],
        Regex::Plus(a) => code(*a, at).push(
            Instruction::Split(at as usize, (at + code_len(*a) + 1) as usize),
        ),
        Regex::Star(a) => seq![
            Instruction::Split((at + 1) as usize, (at + code_len(*a) + 2) as usize),
        ] + code(*a, at + 1) + seq![Instruction::Jump(at as usize)],
        Regex::Question(a) => seq![
            Instruction::Split((at + 1) as usize, (at + code_len(*a) + 1) as usize),
        ] + code(*a, at + 1),
        Regex::Or(a, b) => seq![
            Instruction::Split((at + 1) as usize, (at + code_len(*a) + 2) as usize),
        ] + code(*a, at + 1) + seq![
            Instruction::Jump((at + code_len(*a) + 2 + code_len(*b)) as usize),
        ] + code(*b, at + code_len(*a) + 2),
        Regex::Sequence(v) => code_all(v, at),
    }
}

/// The instructions of a list of trees, the first of which starts at
/// address `at`.
pub open spec fn code_all(v: Seq<Regex>, at: int) -> Seq<Instruction>
    decreases v,
{
    if v.len() == 0 {
        Seq::empty()
    } else {
        code_all(v.drop_last(), at) + code(v.last(), at + code_len_all(v.drop_last()))
    }
}

/// The program of a tree: its code at address 0, then `Match`.
pub open spec fn program(r: Regex) -> Seq<Instruction> {
    code(r, 0).push(Instruction::Match)
}

/// Whether every address that the instruction names lies in `lo..=hi`.
pub open spec fn targets_within(ins: Instruction, lo: int, hi: int) -> bool {
    match ins {
        Instruction::Split(a, b) => lo <= a <= hi && lo <= b <= hi,
        Instruction::Jump(t) => lo <= t <= hi,
        _ => true,
    }
}

/// Whether control can never leave the program: every `Split` and `Jump`
/// names an index of the program, and no `Char` is its last instruction.
pub open spec fn well_formed(prog: Seq<Instruction>) -> bool {
    forall|i: int|
        0 <= i < prog.len() ==> {
            &&& targets_within(#[trigger] prog[i], 0, prog.len() - 1)
            &&& (prog[i] is Char ==> i + 1 < prog.len())
        }
}

/// The code of a tree has the length that `code_len` gives.
pub proof fn lemma_code_len(r: Regex, at: int)
    ensures
        code(r, at).len() == code_len(r),
    decreases r,
{
    match r {
        Regex::Char(_) => {},
        Regex::Plus(a) => {
            lemma_code_len(*a, at);
        },
        Regex::Star(a) => {
            lemma_code_len(*a, at + 1);
        },
        Regex::Question(a) => {
            lemma_code_len(*a, at + 1);
        },
        Regex::Or(a, b) => {
            lemma_code_len(*a, at + 1);
            lemma_code_len(*b, at + code_len(*a) + 2);
        },
        Regex::Sequence(v) => {
            lemma_code_all_len(v, at);
        },
    }
}

/// The code of a list of trees has the length that `code_len_all` gives.
pub proof fn lemma_code_all_len(v: Seq<Regex>, at: int)
    ensures
        code_all(v, at).len() == code_len_all(v),
    decreases v,
{
    if v.len() > 0 {
        lemma_code_all_len(v.drop_last(), at);
        lemma_code_len(v.last(), at + code_len_all(v.drop_last()));
    }
}

/// The code of a tree has the length that `code_len` gives, and names no
/// address outside itself but the one just behind it.
pub proof fn lemma_code_stays_inside(r: Regex, at: int)
    requires
        0 <= at,
        at + code_len(r) <= usize::MAX,
    ensures
        code(r, at).len() == code_len(r),
        forall|i: int|
            0 <= i < code_len(r) ==> targets_within(
                #[trigger] code(r, at)[i],
                at,
                at + code_len(r),
            ),
    decreases r,
{
    match r {
        Regex::Char(_) => {},
        Regex::Plus(a) => {
            lemma_code_stays_inside(*a, at);
        },
        Regex::Star(a) => {
            lemma_code_stays_inside(*a, at + 1);
        },
        Regex::Question(a) => {
            lemma_code_stays_inside(*a, at + 1);
        },
        Regex::Or(a, b) => {
            lemma_code_stays_inside(*a, at + 1);
            lemma_code_stays_inside(*b, at + code_len(*a) + 2);
        },
        Regex::Sequence(v) => {
            lemma_code_all_stays_inside(v, at);
        },
    }
}

/// The same for a list of trees.
pub proof fn lemma_code_all_stays_inside(v: Seq<Regex>, at: int)
    requires
        0 <= at,
        at + code_len_all(v) <= usize::MAX,
    ensures
        code_all(v, at).len() == code_len_all(v),
        forall|i: int|
            0 <= i < code_len_all(v) ==> targets_within(
                #[trigger] code_all(v, at)[i],
                at,
                at + code_len_all(v),
            ),
    decreases v,
{
    if v.len() > 0 {
        lemma_code_all_stays_inside(v.drop_last(), at);
        lemma_code_stays_inside(v.last(), at + code_len_all(v.drop_last()));
    }
}

/// Every program made from a tree is well formed, as long as its addresses
/// fit the machine's word.
pub proof fn lemma_program_well_formed(r: Regex)
    requires
        code_len(r) + 1 <= usize::MAX,
    ensures
        program(r).len() == code_len(r) + 1,
        well_formed(program(r)),
{
    lemma_code_stays_inside(r, 0);
    assert forall|i: int| 0 <= i < program(r).len() implies {
        &&& targets_within(#[trigger] program(r)[i], 0, program(r).len() - 1)
        &&& (program(r)[i] is Char ==> i + 1 < program(r).len())
    } by {
        if i < code_len(r) {
            assert(program(r)[i] == code(r, 0)[i]);
        }
    }
}

/// The state of the generator: the instructions written so far, and the
/// address of the next one.
struct Generator {
    pc: usize,
    instructions: Vec<Instruction>,
}

impl Generator {
    /// The counter is the address of the next instruction.
    spec fn wf(&self) -> bool {
        self.pc == self.instructions@.len()
    }

    /// Whether `self` is what `before` becomes by writing the code of `r`.
    spec fn wrote(&self, before: &Generator, r: Regex) -> bool {
        &&& self.wf()
        &&& self.pc == before.pc + code_len(r)
        &&& self.instructions@ == before.instructions@ + code(r, before.pc as int)
    }

    /// Moves the counter past an instruction that was just written.
    fn inc_pc(&mut self)
        requires
            old(self).pc < old(self).instructions.len(),
        ensures
            final(self).pc == old(self).pc + 1,
            final(self).instructions == old(self).instructions,
    {
        self.pc += 1;
    }

    /// Writes the code of the whole tree, then `Match`.
    fn gen_code(&mut self, ast: &AST) -> (r: Result<(), CodegenError>)
        requires
            old(self).wf(),
        ensures
            r is Ok,
            final(self).wf(),
            final(self).pc == old(self).pc + code_len(ast@) + 1,
            final(self).instructions@ == (old(self).instructions@ + code(
                ast@,
                old(self).pc as int,
            )).push(Instruction::Match),
    {
        self.gen_expr(ast)?;
        self.instructions.push(Instruction::Match);
        self.inc_pc();
        Ok(())
    }

    /// Writes the code of a tree at the current address.
    fn gen_expr(&mut self, ast: &AST) -> (r: Result<(), CodegenError>)
        requires
            old(self).wf(),
        ensures
            r is Ok,
            final(self).wrote(old(self), ast@),
        decreases ast, 1nat,
    {
        match ast {
            AST::Char(c) => self.gen_char(*c),
            AST::Plus(ast) => self.gen_plus(ast),
            AST::Star(ast) => self.gen_star(ast),
            AST::Question(ast) => self.gen_question(ast),
            AST::Or(left_ast, right_ast) => self.gen_or(left_ast, right_ast, Ghost(*ast)),
            AST::Sequence(exprs) => self.gen_seq(exprs),
        }
    }

    /// Writes the one instruction of a literal.
    fn gen_char(&mut self, c: char) -> (r: Result<(), CodegenError>)
        requires
            old(self).wf(),
        ensures
            r is Ok,
            final(self).wrote(old(self), Regex::Char(c)),
    {
        self.instructions.push(Instruction::Char(c));
        self.inc_pc();
        proof {
            assert(self.instructions@ =~= old(self).instructions@ + code(
                Regex::Char(c),
                old(self).pc as int,
            ));
        }
        Ok(())
    }

    /// Writes a one-or-more loop: the body, then a `Split` back to its start
    /// or on to the address behind the `Split`. The `Split` is written
    /// first and completed once that address is known.
    fn gen_plus(&mut self, ast: &AST) -> (r: Result<(), CodegenError>)
        requires
            old(self).wf(),
        ensures
            r is Ok,
            final(self).wrote(old(self), Regex::Plus(Box::new(ast@))),
        decreases ast, 2nat,
    {
        let l1_pc = self.pc;
        self.gen_expr(ast)?;
        let split_pc = self.pc;
        self.instructions.push(Instruction::Split(l1_pc, 0));
        self.inc_pc();
        let l2_pc = self.pc;
        self.instructions[split_pc] = Instruction::Split(l1_pc, l2_pc);
        proof {
            assert(self.instructions@ =~= old(self).instructions@ + code(
                Regex::Plus(Box::new(ast@)),
                l1_pc as int,
            ));
        }
        Ok(())
    }

    /// Writes a zero-or-more loop: a `Split`, the body, and a `Jump` back to
    /// the `Split`, whose targets are filled in when the loop is complete.
    fn gen_star(&mut self, ast: &AST) -> (r: Result<(), CodegenError>)
        requires
            old(self).wf(),
        ensures
            r is Ok,
            final(self).wrote(old(self), Regex::Star(Box::new(ast@))),
        decreases ast, 2nat,
    {
        let l1_pc = self.pc;
        self.instructions.push(Instruction::Split(0, 0));
        self.inc_pc();
        let l2_pc = self.pc;
        self.gen_expr(ast)?;
        let jump = Instruction::Jump(l1_pc);
        self.instructions.push(jump);
        self.inc_pc();
        let l3_pc = self.pc;

        if l1_pc < self.instructions.len() {
            match self.instructions[l1_pc] {
                Instruction::Split(_, _) => {
                    self.instructions[l1_pc] = Instruction::Split(l2_pc, l3_pc);
                },
                _ => {
                    return Err(CodegenError::FailStar);
                },
            }
        } else {
            return Err(CodegenError::FailStar);
        }
        proof {
            assert(self.instructions@ =~= old(self).instructions@ + code(
                Regex::Star(Box::new(ast@)),
                l1_pc as int,
            ));
        }
        Ok(())
    }

    /// Writes an optional body: a `Split`, then the body; the `Split` is
    /// completed with the address behind the body.
    fn gen_question(&mut self, ast: &AST) -> (r: Result<(), CodegenError>)
        requires
            old(self).wf(),
        ensures
            r is Ok,
            final(self).wrote(old(self), Regex::Question(Box::new(ast@))),
        decreases ast, 2nat,
    {
        let split_pc = self.pc;
        self.instructions.push(Instruction::Split(0, 0));
        self.inc_pc();
        let l1_pc = self.pc;
        self.gen_expr(ast)?;
        let l2_pc = self.pc;

        if split_pc < self.instructions.len() {
            match self.instructions[split_pc] {
                Instruction::Split(_, _) => {
                    self.instructions[split_pc] = Instruction::Split(l1_pc, l2_pc);
                },
                _ => {
                    return Err(CodegenError::FailQuestion);
                },
            }
        } else {
            return Err(CodegenError::FailQuestion);
        }
        proof {
            assert(self.instructions@ =~= old(self).instructions@ + code(
                Regex::Question(Box::new(ast@)),
                split_pc as int,
            ));
        }
        Ok(())
    }

    /// Writes an alternation: a `Split`, the left branch, a `Jump`, and the
    /// right branch. The `Split` is completed with the start of the right
    /// branch, the `Jump` with the address behind it. `whole` is the
    /// alternation itself, by which the recursion is measured.
    fn gen_or(&mut self, left_ast: &AST, right_ast: &AST, Ghost(whole): Ghost<AST>) -> (r: Result<
        (),
        CodegenError,
    >)
        requires
            old(self).wf(),
            whole == AST::Or(Box::new(*left_ast), Box::new(*right_ast)),
        ensures
            r is Ok,
            final(self).wrote(old(self), Regex::Or(Box::new(left_ast@), Box::new(right_ast@))),
        decreases whole, 0nat,
    {
        proof {
            match whole {
                AST::Or(l, r) => {
                    assert(*l == *left_ast);
                    assert(*r == *right_ast);
                },
                _ => {},
            }
        }
        let split_pc = self.pc;
        self.instructions.push(Instruction::Split(0, 0));
        self.inc_pc();
        let l1_pc = self.pc;
        self.gen_expr(left_ast)?;
        let jump_pc = self.pc;
        let jump = Instruction::Jump(0);
        self.instructions.push(jump);
        self.inc_pc();
        let l2_pc = self.pc;
        self.gen_expr(right_ast)?;
        let l3_pc = self.pc;

        if split_pc < self.instructions.len() {
            match self.instructions[split_pc] {
                Instruction::Split(_, _) => {
                    self.instructions[split_pc] = Instruction::Split(l1_pc, l2_pc);
                },
                _ => {
                    return Err(CodegenError::FailOr);
                },
            }
        } else {
            return Err(CodegenError::FailOr);
        }

        if jump_pc < self.instructions.len() {
            match self.instructions[jump_pc] {
                Instruction::Jump(_) => {
                    self.instructions[jump_pc] = Instruction::Jump(l3_pc);
                },
                _ => {
                    return Err(CodegenError::FailOr);
                },
            }
        } else {
            return Err(CodegenError::FailOr);
        }
        proof {
            assert(self.instructions@ =~= old(self).instructions@ + code(
                Regex::Or(Box::new(left_ast@), Box::new(right_ast@)),
                split_pc as int,
            ));
        }
        Ok(())
    }

    /// Writes the code of each tree in turn.
    fn gen_seq(&mut self, exprs: &Vec<AST>) -> (r: Result<(), CodegenError>)
        requires
            old(self).wf(),
        ensures
            r is Ok,
            final(self).wrote(old(self), Regex::Sequence(regexes_of(exprs@))),
        decreases exprs, 2nat,
    {
        let ghost children = regexes_of(exprs@);
        let mut i: usize = 0;
        proof {
            assert(children.take(0) =~= Seq::<Regex>::empty());
            assert(self.instructions@ =~= old(self).instructions@ + code_all(
                children.take(0),
                old(self).pc as int,
            ));
        }
        while i < exprs.len()
            invariant
                i <= exprs@.len(),
                children == regexes_of(exprs@),
                self.wf(),
                self.pc == old(self).pc + code_len_all(children.take(i as int)),
                self.instructions@ == old(self).instructions@ + code_all(
                    children.take(i as int),
                    old(self).pc as int,
                ),
            decreases exprs@.len() - i,
        {
            let ghost before = self.instructions@;
            self.gen_expr(&exprs[i])?;
            proof {
                let next = children.take(i + 1);
                assert(next.drop_last() =~= children.take(i as int));
                assert(next.last() == exprs@[i as int]@);
                assert(self.instructions@ =~= old(self).instructions@ + code_all(
                    next,
                    old(self).pc as int,
                ));
            }
            i += 1;
        }
        proof {
            assert(children.take(i as int) =~= children);
        }
        Ok(())
    }
}

/// Compiles a syntax tree.
///
/// The result is always a program: the code of the tree from address 0,
/// followed by `Match`. It is well formed: every `Split` and `Jump` in it
/// names one of its own indices.
pub fn generate_code(ast: &AST) -> (r: Result<Vec<Instruction>, CodegenError>)
    ensures
        r matches Ok(instructions) && instructions@ == program(ast@) && well_formed(
            instructions@,
        ),
{
    let mut generator = Generator { pc: 0, instructions: Vec::new() };
    generator.gen_code(ast)?;
    proof {
        assert(generator.instructions@ =~= program(ast@));
        assert(generator.instructions.len() == code_len(ast@) + 1);
        lemma_program_well_formed(ast@);
    }
    Ok(generator.instructions)
}

} // verus!
