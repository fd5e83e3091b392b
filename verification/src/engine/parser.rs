//! Pattern text to syntax tree.
//!
//! The grammar, from the tightest binding to the loosest: the postfix
//! operators `+`, `*` and `?` apply to the atom just before them; atoms that
//! stand side by side form a sequence; `|` separates the branches of an
//! alternation inside the current group; `(` and `)` make an atom of a whole
//! nested pattern. A backslash makes a literal of one of `\ ( ) * + ? |`.
//!
//! The text is read once, from left to right. What has been read so far is
//! summed up in a [`Scan`]; [`step`] says how one character changes it, and
//! [`finish`] what tree a complete scan stands for. [`parse_spec`] puts the
//! three together, and [`parse`] computes exactly that.
use vstd::prelude::*;

verus! {

/// The syntax tree of a pattern.
#[derive(Debug, PartialEq, Eq)]
pub enum AST {
    /// One literal character.
    Char(char),
    /// One or more repetitions.
    Plus(Box<AST>),
    /// Zero or more repetitions.
    Star(Box<AST>),
    /// Zero or one occurrence.
    Question(Box<AST>),
    /// Either the left or the right pattern.
    Or(Box<AST>, Box<AST>),
    /// The patterns one after the other.
    Sequence(Vec<AST>),
}

/// The mathematical value of a syntax tree: the same tree, with every list
/// of children as a sequence.
pub enum Regex {
    Char(char),
    Plus(Box<Regex>),
    Star(Box<Regex>),
    Question(Box<Regex>),
    Or(Box<Regex>, Box<Regex>),
    Sequence(Seq<Regex>),
}

/// Why a pattern was rejected. Positions count characters from zero.
#[derive(Debug, Clone, Copy, PartialEq, Eq)]
pub enum ParseError {
    /// A backslash before a character that needs no escape.
    InvalidEscape(usize, char),
    /// A `)` with no group open.
    InvalidRightParen(usize),
    /// A `+`, `*`, `?` or `|` with nothing before it to apply to.
    NoPrev(usize),
    /// The text ended inside a group.
    NoRightParen(usize),
    /// The pattern holds no atom at all.
    Empty,
}

/// The three postfix operators.
pub enum PSQ {
    Plus,
    Star,
    Question,
}

/// Whether the character just read was an unescaped backslash.
pub enum ParseState {
    Char,
    Escape,
}

/// The value of a tree.
pub open spec fn regex_of(ast: AST) -> Regex
    decreases ast,
{
    match ast {
        AST::Char(c) => Regex::Char(c),
        AST::Plus(a) => Regex::Plus(Box::new(regex_of(*a))),
        AST::Star(a) => Regex::Star(Box::new(regex_of(*a))),
        AST::Question(a) => Regex::Question(Box::new(regex_of(*a))),
        AST::Or(a, b) => Regex::Or(Box::new(regex_of(*a)), Box::new(regex_of(*b))),
        AST::Sequence(v) => Regex::Sequence(regexes_of(v@)),
    }
}

/// The values of a list of trees, in order.
pub open spec fn regexes_of(asts: Seq<AST>) -> Seq<Regex>
    decreases asts,
{
    Seq::new(
        asts.len(),
        |i: int|
            if 0 <= i < asts.len() {
                regex_of(asts[i])
            } else {
                Regex::Char('\\')
            },
    )
}

impl View for AST {
    type V = Regex;

    open spec fn view(&self) -> Regex {
        regex_of(*self)
    }
}

/// An enclosing group, set aside while a nested group is read.
pub struct Level {
    /// The atoms of the branch that the nested group interrupts.
    pub seq: Seq<Regex>,
    /// The branches of the enclosing group that were complete by then.
    pub alts: Seq<Regex>,
}

/// What the parser knows after reading a prefix of the pattern.
pub struct Scan {
    /// The atoms of the branch under construction.
    pub seq: Seq<Regex>,
    /// The completed branches of the current group.
    pub alts: Seq<Regex>,
    /// The enclosing groups, innermost last.
    pub stack: Seq<Level>,
    /// Whether the next character is escaped.
    pub escaped: bool,
}

/// The characters that a backslash may stand before.
pub open spec fn is_escapable(c: char) -> bool {
    c == '\\' || c == '(' || c == ')' || c == '*' || c == '+' || c == '?' || c == '|'
}

/// The atom that a postfix operator makes of the atom before it.
pub open spec fn repeat(kind: PSQ, atom: Regex) -> Regex {
    match kind {
        PSQ::Plus => Regex::Plus(Box::new(atom)),
        PSQ::Star => Regex::Star(Box::new(atom)),
        PSQ::Question => Regex::Question(Box::new(atom)),
    }
}

/// The alternation of the branches, nested to the right: the last two
/// branches form the innermost alternation.
pub open spec fn fold_alternatives(branches: Seq<Regex>) -> Regex
    recommends
        branches.len() > 0,
    decreases branches.len(),
{
    if branches.len() <= 1 {
        branches[0]
    } else {
        Regex::Or(Box::new(branches[0]), Box::new(fold_alternatives(branches.drop_first())))
    }
}

/// The atoms that a group contributes to the level around it when it
/// closes: the alternation of its completed branches and its last one if
/// it has completed branches, else its sequence if that is not empty, else
/// nothing. A group whose last branch is empty does not close: see
/// [`step`].
pub open spec fn group_atoms(seq: Seq<Regex>, alts: Seq<Regex>) -> Seq<Regex> {
    if alts.len() > 0 {
        seq![fold_alternatives(alts.push(Regex::Sequence(seq)))]
    } else if seq.len() > 0 {
        seq![Regex::Sequence(seq)]
    } else {
        Seq::empty()
    }
}

/// The scan before any character is read.
pub open spec fn start() -> Scan {
    Scan { seq: Seq::empty(), alts: Seq::empty(), stack: Seq::empty(), escaped: false }
}

/// The scan after applying a postfix operator at `pos`.
pub open spec fn step_repeat(st: Scan, kind: PSQ, pos: usize) -> Result<Scan, ParseError> {
    if st.seq.len() == 0 {
        Err(ParseError::NoPrev(pos))
    } else {
        Ok(
            Scan {
                seq: st.seq.drop_last().push(repeat(kind, st.seq.last())),
                alts: st.alts,
                stack: st.stack,
                escaped: false,
            },
        )
    }
}

/// The scan after appending a literal.
pub open spec fn step_literal(st: Scan, c: char) -> Scan {
    Scan { seq: st.seq.push(Regex::Char(c)), alts: st.alts, stack: st.stack, escaped: false }
}

/// The scan after reading the character `c` at position `pos`, or the error
/// that this character causes.
///
/// A postfix operator, a `|` and a `)` that ends a group with completed
/// branches each need an atom before them in the current branch; a `)`
/// needs an open group.
pub open spec fn step(st: Scan, pos: usize, c: char) -> Result<Scan, ParseError> {
    if st.escaped {
        if is_escapable(c) {
            Ok(step_literal(st, c))
        } else {
            Err(ParseError::InvalidEscape(pos, c))
        }
    } else if c == '\\' {
        Ok(Scan { seq: st.seq, alts: st.alts, stack: st.stack, escaped: true })
    } else if c == '+' {
        step_repeat(st, PSQ::Plus, pos)
    } else if c == '*' {
        step_repeat(st, PSQ::Star, pos)
    } else if c == '?' {
        step_repeat(st, PSQ::Question, pos)
    } else if c == '|' {
        if st.seq.len() == 0 {
            Err(ParseError::NoPrev(pos))
        } else {
            Ok(
                Scan {
                    seq: Seq::empty(),
                    alts: st.alts.push(Regex::Sequence(st.seq)),
                    stack: st.stack,
                    escaped: false,
                },
            )
        }
    } else if c == '(' {
        Ok(
            Scan {
                seq: Seq::empty(),
                alts: Seq::empty(),
                stack: st.stack.push(Level { seq: st.seq, alts: st.alts }),
                escaped: false,
            },
        )
    } else if c == ')' {
        if st.stack.len() == 0 {
            Err(ParseError::InvalidRightParen(pos))
        } else if st.alts.len() > 0 && st.seq.len() == 0 {
            Err(ParseError::NoPrev(pos))
        } else {
            Ok(
                Scan {
                    seq: st.stack.last().seq + group_atoms(st.seq, st.alts),
                    alts: st.stack.last().alts,
                    stack: st.stack.drop_last(),
                    escaped: false,
                },
            )
        }
    } else {
        Ok(step_literal(st, c))
    }
}

/// The scan after the first `n` characters of `text`, or the first error
/// met among them.
pub open spec fn scan(text: Seq<char>, n: nat) -> Result<Scan, ParseError>
    decreases n,
{
    if n == 0 {
        Ok(start())
    } else {
        match scan(text, (n - 1) as nat) {
            Ok(st) => step(st, (n - 1) as usize, text[n - 1]),
            Err(e) => Err(e),
        }
    }
}

/// The tree that a scan of the whole text stands for, `len` being the
/// number of characters read.
pub open spec fn finish(st: Scan, len: usize) -> Result<Regex, ParseError> {
    if st.stack.len() > 0 {
        Err(ParseError::NoRightParen(len))
    } else if st.alts.len() > 0 {
        if st.seq.len() == 0 {
            Err(ParseError::NoPrev(len))
        } else {
            Ok(fold_alternatives(st.alts.push(Regex::Sequence(st.seq))))
        }
    } else if st.seq.len() == 0 {
        Err(ParseError::Empty)
    } else {
        Ok(Regex::Sequence(st.seq))
    }
}

/// The tree of a pattern, or the reason why it has none.
pub open spec fn parse_spec(text: Seq<char>) -> Result<Regex, ParseError> {
    match scan(text, text.len()) {
        Ok(st) => finish(st, text.len() as usize),
        Err(e) => Err(e),
    }
}

/// Whether every sequence in the tree, the tree itself included, has at
/// least one child.
pub open spec fn no_empty_sequence(r: Regex) -> bool
    decreases r,
{
    match r {
        Regex::Char(_) => true,
        Regex::Plus(a) => no_empty_sequence(*a),
        Regex::Star(a) => no_empty_sequence(*a),
        Regex::Question(a) => no_empty_sequence(*a),
        Regex::Or(a, b) => no_empty_sequence(*a) && no_empty_sequence(*b),
        Regex::Sequence(v) => v.len() > 0 && forall|i: int|
            0 <= i < v.len() ==> no_empty_sequence(#[trigger] v[i]),
    }
}

/// Whether none of the trees holds an empty sequence.
pub open spec fn none_empty(v: Seq<Regex>) -> bool {
    forall|i: int| 0 <= i < v.len() ==> no_empty_sequence(#[trigger] v[i])
}

/// Whether none of the trees that the scan holds has an empty sequence.
pub open spec fn scan_none_empty(st: Scan) -> bool {
    &&& none_empty(st.seq)
    &&& none_empty(st.alts)
    &&& forall|k: int|
        0 <= k < st.stack.len() ==> none_empty((#[trigger] st.stack[k]).seq) && none_empty(
            st.stack[k].alts,
        )
}

/// The alternation of branches without empty sequences has none.
pub proof fn lemma_fold_none_empty(branches: Seq<Regex>)
    requires
        branches.len() > 0,
        none_empty(branches),
    ensures
        no_empty_sequence(fold_alternatives(branches)),
    decreases branches.len(),
{
    assert(no_empty_sequence(branches[0]));
    if branches.len() > 1 {
        let rest = branches.drop_first();
        assert forall|i: int| 0 <= i < rest.len() implies no_empty_sequence(
            #[trigger] rest[i],
        ) by {
            assert(no_empty_sequence(branches[i + 1]));
        }
        lemma_fold_none_empty(rest);
    }
}

/// A sequence of trees without empty sequences, with one more such tree.
proof fn lemma_push_none_empty(v: Seq<Regex>, r: Regex)
    requires
        none_empty(v),
        no_empty_sequence(r),
    ensures
        none_empty(v.push(r)),
{
    assert forall|i: int| 0 <= i < v.push(r).len() implies no_empty_sequence(
        #[trigger] v.push(r)[i],
    ) by {
        if i < v.len() {
            assert(no_empty_sequence(v[i]));
        }
    }
}

/// One character keeps empty sequences out of the scan.
pub proof fn lemma_step_none_empty(st: Scan, pos: usize, c: char)
    requires
        scan_none_empty(st),
        step(st, pos, c) is Ok,
    ensures
        scan_none_empty(step(st, pos, c)->Ok_0),
{
    let next = step(st, pos, c)->Ok_0;
    if st.escaped {
        lemma_push_none_empty(st.seq, Regex::Char(c));
    } else if c == '\\' {
    } else if c == '+' || c == '*' || c == '?' {
        let kind = if c == '+' {
            PSQ::Plus
        } else if c == '*' {
            PSQ::Star
        } else {
            PSQ::Question
        };
        let front = st.seq.drop_last();
        assert(no_empty_sequence(st.seq[st.seq.len() - 1]));
        assert forall|i: int| 0 <= i < front.len() implies no_empty_sequence(
            #[trigger] front[i],
        ) by {
            assert(no_empty_sequence(st.seq[i]));
        }
        lemma_push_none_empty(front, repeat(kind, st.seq.last()));
    } else if c == '|' {
        assert(no_empty_sequence(Regex::Sequence(st.seq)));
        lemma_push_none_empty(st.alts, Regex::Sequence(st.seq));
    } else if c == '(' {
        assert forall|k: int| 0 <= k < next.stack.len() implies none_empty(
            (#[trigger] next.stack[k]).seq,
        ) && none_empty(next.stack[k].alts) by {
            if k < st.stack.len() {
                assert(none_empty(st.stack[k].seq));
            }
        }
    } else if c == ')' {
        let outer = st.stack[st.stack.len() - 1];
        assert(none_empty(outer.seq) && none_empty(outer.alts));
        assert forall|k: int| 0 <= k < next.stack.len() implies none_empty(
            (#[trigger] next.stack[k]).seq,
        ) && none_empty(next.stack[k].alts) by {
            assert(none_empty(st.stack[k].seq));
        }
        if st.alts.len() > 0 {
            assert(no_empty_sequence(Regex::Sequence(st.seq)));
            lemma_push_none_empty(st.alts, Regex::Sequence(st.seq));
            lemma_fold_none_empty(st.alts.push(Regex::Sequence(st.seq)));
            let group = fold_alternatives(st.alts.push(Regex::Sequence(st.seq)));
            lemma_push_none_empty(outer.seq, group);
            assert(next.seq =~= outer.seq.push(group));
        } else if st.seq.len() > 0 {
            assert(no_empty_sequence(Regex::Sequence(st.seq)));
            lemma_push_none_empty(outer.seq, Regex::Sequence(st.seq));
            assert(next.seq =~= outer.seq.push(Regex::Sequence(st.seq)));
        } else {
            assert(next.seq =~= outer.seq);
        }
    } else {
        lemma_push_none_empty(st.seq, Regex::Char(c));
    }
}

/// No prefix of a pattern leaves an empty sequence in the scan.
pub proof fn lemma_scan_none_empty(text: Seq<char>, n: nat)
    requires
        scan(text, n) is Ok,
    ensures
        scan_none_empty(scan(text, n)->Ok_0),
    decreases n,
{
    if n > 0 {
        lemma_scan_none_empty(text, (n - 1) as nat);
        lemma_step_none_empty(scan(text, (n - 1) as nat)->Ok_0, (n - 1) as usize, text[n - 1]);
    }
}

/// In the tree of a pattern every sequence has at least one child: a group
/// or a branch that holds no atom is rejected, and the empty group `()`
/// leaves no node.
pub proof fn lemma_parsed_sequences_have_children(text: Seq<char>)
    ensures
        parse_spec(text) matches Ok(tree) ==> no_empty_sequence(tree),
{
    if parse_spec(text) is Ok {
        let st = scan(text, text.len())->Ok_0;
        lemma_scan_none_empty(text, text.len());
        if st.alts.len() > 0 {
            assert(no_empty_sequence(Regex::Sequence(st.seq)));
            lemma_push_none_empty(st.alts, Regex::Sequence(st.seq));
            lemma_fold_none_empty(st.alts.push(Regex::Sequence(st.seq)));
        } else {
            assert(no_empty_sequence(Regex::Sequence(st.seq)));
        }
    }
}

/// The levels that a stack of saved vectors stands for.
pub open spec fn levels_of(stack: Seq<(Vec<AST>, Vec<AST>)>) -> Seq<Level> {
    Seq::new(
        stack.len(),
        |i: int| Level { seq: regexes_of(stack[i].0@), alts: regexes_of(stack[i].1@) },
    )
}

/// The scan that the parser's variables stand for.
pub open spec fn scan_of(
    seq: Seq<AST>,
    seq_or: Seq<AST>,
    stack: Seq<(Vec<AST>, Vec<AST>)>,
    state: ParseState,
) -> Scan {
    Scan {
        seq: regexes_of(seq),
        alts: regexes_of(seq_or),
        stack: levels_of(stack),
        escaped: state is Escape,
    }
}

/// An error, once met, is what every longer prefix reports.
pub proof fn lemma_scan_error_stays(text: Seq<char>, n: nat, m: nat)
    requires
        n <= m,
        scan(text, n) is Err,
    ensures
        scan(text, m) == scan(text, n),
    decreases m,
{
    if n < m {
        lemma_scan_error_stays(text, n, (m - 1) as nat);
    }
}

proof fn lemma_literal_value(c: char)
    ensures
        AST::Char(c)@ == Regex::Char(c),
{
}

proof fn lemma_regexes_push(asts: Seq<AST>, a: AST)
    ensures
        regexes_of(asts.push(a)) == regexes_of(asts).push(a@),
{
    assert(regexes_of(asts.push(a)) =~= regexes_of(asts).push(a@));
}

proof fn lemma_regexes_drop_last(asts: Seq<AST>)
    requires
        asts.len() > 0,
    ensures
        regexes_of(asts.drop_last()) == regexes_of(asts).drop_last(),
        regexes_of(asts).last() == asts.last()@,
{
    assert(regexes_of(asts.drop_last()) =~= regexes_of(asts).drop_last());
}

proof fn lemma_regexes_empty()
    ensures
        regexes_of(Seq::<AST>::empty()) == Seq::<Regex>::empty(),
{
    assert(regexes_of(Seq::<AST>::empty()) =~= Seq::<Regex>::empty());
}

proof fn lemma_levels_push(stack: Seq<(Vec<AST>, Vec<AST>)>, top: (Vec<AST>, Vec<AST>))
    ensures
        levels_of(stack.push(top)) == levels_of(stack).push(
            Level { seq: regexes_of(top.0@), alts: regexes_of(top.1@) },
        ),
{
    assert(levels_of(stack.push(top)) =~= levels_of(stack).push(
        Level { seq: regexes_of(top.0@), alts: regexes_of(top.1@) },
    ));
}

proof fn lemma_levels_drop_last(stack: Seq<(Vec<AST>, Vec<AST>)>)
    requires
        stack.len() > 0,
    ensures
        levels_of(stack.drop_last()) == levels_of(stack).drop_last(),
        levels_of(stack).last() == (Level {
            seq: regexes_of(stack.last().0@),
            alts: regexes_of(stack.last().1@),
        }),
{
    assert(levels_of(stack.drop_last()) =~= levels_of(stack).drop_last());
}

/// Joining the last two branches first does not change the alternation.
pub proof fn lemma_fold_joins_last_two(branches: Seq<Regex>)
    requires
        branches.len() >= 2,
    ensures
        fold_alternatives(branches) == fold_alternatives(
            branches.take(branches.len() - 2).push(
                Regex::Or(
                    Box::new(branches[branches.len() - 2]),
                    Box::new(branches[branches.len() - 1]),
                ),
            ),
        ),
    decreases branches.len(),
{
    let n = branches.len();
    let joined = Regex::Or(Box::new(branches[n - 2]), Box::new(branches[n - 1]));
    let shorter = branches.take(n - 2).push(joined);
    if n == 2 {
        assert(fold_alternatives(branches.drop_first()) == branches[1]);
        assert(shorter.len() == 1);
    } else {
        let rest = branches.drop_first();
        lemma_fold_joins_last_two(rest);
        assert(shorter.drop_first() =~= rest.take(n - 3).push(joined));
        assert(shorter[0] == branches[0]);
    }
}

/// The literal that an escaped character stands for.
pub fn parse_escape(pos: usize, c: char) -> (r: Result<AST, ParseError>)
    ensures
        match r {
            Ok(ast) => is_escapable(c) && ast@ == Regex::Char(c),
            Err(e) => !is_escapable(c) && e == ParseError::InvalidEscape(pos, c),
        },
{
    if c == '\\' || c == '(' || c == ')' || c == '*' || c == '+' || c == '?' || c == '|' {
        Ok(AST::Char(c))
    } else {
        let err = ParseError::InvalidEscape(pos, c);
        Err(err)
    }
}

/// Replaces the last atom of `seq` by its repetition of the given kind.
pub fn parse_plus_star_question(seq: &mut Vec<AST>, ast_type: PSQ, pos: usize) -> (r: Result<
    (),
    ParseError,
>)
    ensures
        match r {
            Ok(_) => old(seq)@.len() > 0 && regexes_of(final(seq)@) == regexes_of(
                old(seq)@,
            ).drop_last().push(repeat(ast_type, regexes_of(old(seq)@).last())),
            Err(e) => old(seq)@.len() == 0 && final(seq)@ == old(seq)@ && e == ParseError::NoPrev(
                pos,
            ),
        },
{
    let ghost before = seq@;
    match seq.pop() {
        Some(prev) => {
            let ast = match ast_type {
                PSQ::Plus => AST::Plus(Box::new(prev)),
                PSQ::Star => AST::Star(Box::new(prev)),
                PSQ::Question => AST::Question(Box::new(prev)),
            };
            proof {
                lemma_regexes_drop_last(before);
                lemma_regexes_push(seq@, ast);
            }
            seq.push(ast);
            Ok(())
        },
        None => Err(ParseError::NoPrev(pos)),
    }
}

/// Folds the branches of a group into one alternation, nested to the right.
pub fn parse_or(seq_or: Vec<AST>) -> (ast: AST)
    requires
        seq_or@.len() > 0,
    ensures
        ast@ == fold_alternatives(regexes_of(seq_or@)),
{
    let ghost all = regexes_of(seq_or@);
    let mut rest = seq_or;
    proof {
        lemma_regexes_drop_last(rest@);
    }
    let mut ast = match rest.pop() {
        Some(last) => last,
        None => AST::Sequence(Vec::new()),
    };
    proof {
        assert(regexes_of(rest@).push(ast@) =~= all);
    }
    while rest.len() > 0
        invariant
            fold_alternatives(regexes_of(rest@).push(ast@)) == fold_alternatives(all),
        decreases rest.len(),
    {
        let ghost before = regexes_of(rest@).push(ast@);
        proof {
            lemma_regexes_drop_last(rest@);
            lemma_fold_joins_last_two(before);
        }
        match rest.pop() {
            Some(s) => {
                ast = AST::Or(Box::new(s), Box::new(ast));
            },
            None => {},
        }
        proof {
            assert(regexes_of(rest@).push(ast@) =~= before.take(before.len() - 2).push(ast@));
        }
    }
    proof {
        assert(regexes_of(rest@).push(ast@) =~= seq![ast@]);
    }
    ast
}

/// Empties a vector and returns what it held.
fn take<T>(v: &mut Vec<T>) -> (taken: Vec<T>)
    ensures
        taken@ == old(v)@,
        final(v)@ == Seq::<T>::empty(),
{
    let mut taken: Vec<T> = Vec::new();
    core::mem::swap(v, &mut taken);
    taken
}

/// Parses a pattern.
///
/// The result is the tree that [`parse_spec`] gives for the characters of
/// `expr`, and the error is the one that it gives: the first one met when
/// reading from the left, or the one found at the end of the text. No
/// sequence in the tree is empty.
pub fn parse(expr: &str) -> (r: Result<AST, ParseError>)
    ensures
        match r {
            Ok(ast) => parse_spec(expr@) == Ok::<Regex, ParseError>(ast@) && no_empty_sequence(
                ast@,
            ),
            Err(e) => parse_spec(expr@) == Err::<Regex, ParseError>(e),
        },
{
    proof {
        lemma_parsed_sequences_have_children(expr@);
    }
    let chars = chars_of(expr);
    let n = chars.len();
    let mut state = ParseState::Char;
    let mut seq: Vec<AST> = Vec::new();
    let mut seq_or: Vec<AST> = Vec::new();
    let mut stack: Vec<(Vec<AST>, Vec<AST>)> = Vec::new();
    let mut i: usize = 0;
    proof {
        lemma_regexes_empty();
        assert(levels_of(stack@) =~= Seq::<Level>::empty());
    }
    while i < n
        invariant
            chars@ == expr@,
            n == chars@.len(),
            i <= n,
            scan(chars@, i as nat) == Ok::<Scan, ParseError>(
                scan_of(seq@, seq_or@, stack@, state),
            ),
        decreases n - i,
    {
        let c = chars[i];
        let ghost st = scan_of(seq@, seq_or@, stack@, state);
        let ghost next = step(st, i, c);
        proof {
            assert(scan(chars@, (i + 1) as nat) == next);
            if next is Err {
                lemma_scan_error_stays(chars@, (i + 1) as nat, n as nat);
            }
            lemma_regexes_empty();
            lemma_regexes_push(seq@, AST::Char(c));
            lemma_literal_value(c);
        }
        match state {
            ParseState::Char => {
                if c == '\\' {
                    state = ParseState::Escape;
                } else if c == '+' {
                    parse_plus_star_question(&mut seq, PSQ::Plus, i)?;
                } else if c == '*' {
                    parse_plus_star_question(&mut seq, PSQ::Star, i)?;
                } else if c == '?' {
                    parse_plus_star_question(&mut seq, PSQ::Question, i)?;
                } else if c == '|' {
                    if seq.is_empty() {
                        return Err(ParseError::NoPrev(i));
                    } else {
                        let prev = AST::Sequence(take(&mut seq));
                        proof {
                            lemma_regexes_push(seq_or@, prev);
                        }
                        seq_or.push(prev);
                    }
                } else if c == '(' {
                    let saved = (take(&mut seq), take(&mut seq_or));
                    proof {
                        lemma_levels_push(stack@, saved);
                    }
                    stack.push(saved);
                } else if c == ')' {
                    proof {
                        if stack@.len() > 0 {
                            lemma_levels_drop_last(stack@);
                        }
                    }
                    match stack.pop() {
                        Some(saved) => {
                            let mut prev_seq = saved.0;
                            let prev_seq_or = saved.1;
                            let ghost outer = regexes_of(prev_seq@);
                            if !seq_or.is_empty() {
                                if seq.is_empty() {
                                    return Err(ParseError::NoPrev(i));
                                }
                                let prev = AST::Sequence(take(&mut seq));
                                proof {
                                    lemma_regexes_push(seq_or@, prev);
                                }
                                seq_or.push(prev);
                                let alternation = parse_or(take(&mut seq_or));
                                proof {
                                    lemma_regexes_push(prev_seq@, alternation);
                                }
                                prev_seq.push(alternation);
                                proof {
                                    assert(regexes_of(prev_seq@) =~= outer + group_atoms(
                                        st.seq,
                                        st.alts,
                                    ));
                                }
                            } else if !seq.is_empty() {
                                let group = AST::Sequence(take(&mut seq));
                                proof {
                                    lemma_regexes_push(prev_seq@, group);
                                }
                                prev_seq.push(group);
                                proof {
                                    assert(regexes_of(prev_seq@) =~= outer + group_atoms(
                                        st.seq,
                                        st.alts,
                                    ));
                                }
                            } else {
                                proof {
                                    assert(regexes_of(prev_seq@) =~= outer + group_atoms(
                                        st.seq,
                                        st.alts,
                                    ));
                                }
                            }
                            seq = prev_seq;
                            seq_or = prev_seq_or;
                        },
                        None => {
                            return Err(ParseError::InvalidRightParen(i));
                        },
                    }
                } else {
                    seq.push(AST::Char(c));
                }
            },
            ParseState::Escape => {
                let ast = parse_escape(i, c)?;
                proof {
                    lemma_regexes_push(seq@, ast);
                }
                seq.push(ast);
                state = ParseState::Char;
            },
        }
        i += 1;
    }
    if !stack.is_empty() {
        return Err(ParseError::NoRightParen(n));
    }
    if !seq_or.is_empty() {
        if seq.is_empty() {
            Err(ParseError::NoPrev(n))
        } else {
            let prev = AST::Sequence(take(&mut seq));
            proof {
                lemma_regexes_push(seq_or@, prev);
            }
            seq_or.push(prev);
            Ok(parse_or(seq_or))
        }
    } else {
        if seq.is_empty() {
            Err(ParseError::Empty)
        } else {
            Ok(AST::Sequence(seq))
        }
    }
}

/// The characters of a string, in order.
pub fn chars_of(s: &str) -> (chars: Vec<char>)
    ensures
        chars@ == s@,
{
    let mut chars: Vec<char> = Vec::new();
    for c in it: s.chars()
        invariant
            it.seq() == s@,
            chars@ == it.seq().take(it.index()),
    {
        chars.push(c);
    }
    chars
}

} // verus!
