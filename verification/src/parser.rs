//! Parsing of the regular-expression syntax into an abstract syntax tree.
//!
//! A single left-to-right scan keeps a current concatenation accumulator, a
//! current alternation accumulator, and a stack of saved accumulator pairs for
//! nested groups.

use vstd::prelude::*;
use crate::helper::str_chars;

verus! {

/// Abstract syntax tree of a regular expression.
#[derive(Debug)]
pub enum AST {
    Char(char),
    Plus(Box<AST>),
    Star(Box<AST>),
    Question(Box<AST>),
    Or(Box<AST>, Box<AST>),
    Sequence(Vec<AST>),
}

/// Syntax errors, each carrying the zero-based character index at which the
/// fault was detected where one exists.
#[derive(Debug, PartialEq, Eq, Structural)]
pub enum ParseError {
    /// The character after `\` is not one of the escapable metacharacters.
    InvalidEscape(usize, char),
    /// A `)` with no matching `(`.
    InvalidRightParen(usize),
    /// A `+`, `*`, `?` or `|` with no expression before it.
    NoPrev(usize),
    /// A `(` was never closed.
    NoRightParen,
    /// The expression denotes nothing at all.
    Empty,
}

/// The characters that may follow a backslash.
pub open spec fn is_escapable(c: char) -> bool {
    c == '\\' || c == '(' || c == ')' || c == '+' || c == '*' || c == '?'
}

/// The mathematical shape of a syntax tree, mirroring [`AST`] node for node
/// with a sequence in place of the vector of children.
pub enum SpecAst {
    Char(char),
    Plus(Box<SpecAst>),
    Star(Box<SpecAst>),
    Question(Box<SpecAst>),
    Or(Box<SpecAst>, Box<SpecAst>),
    Sequence(Seq<SpecAst>),
}

/// The shape of a syntax tree.
pub open spec fn ast_view(ast: AST) -> SpecAst
    decreases ast,
{
    match ast {
        AST::Char(c) => SpecAst::Char(c),
        AST::Plus(e) => SpecAst::Plus(Box::new(ast_view(*e))),
        AST::Star(e) => SpecAst::Star(Box::new(ast_view(*e))),
        AST::Question(e) => SpecAst::Question(Box::new(ast_view(*e))),
        AST::Or(e1, e2) => SpecAst::Or(Box::new(ast_view(*e1)), Box::new(ast_view(*e2))),
        AST::Sequence(v) => SpecAst::Sequence(asts_view(v@)),
    }
}

/// The shapes of a list of syntax trees, in order.
pub open spec fn asts_view(s: Seq<AST>) -> Seq<SpecAst>
    decreases s,
{
    if s.len() == 0 {
        Seq::empty()
    } else {
        asts_view(s.drop_last()).push(ast_view(s.last()))
    }
}

/// The view of a list has the same length and views each member.
pub proof fn lemma_asts_view_index(s: Seq<AST>)
    ensures
        asts_view(s).len() == s.len(),
        forall|i: int| 0 <= i < s.len() ==> asts_view(s)[i] == ast_view(s[i]),
    decreases s.len(),
{
    if s.len() > 0 {
        lemma_asts_view_index(s.drop_last());
    }
}

/// The view of a list has its length.
proof fn lemma_asts_view_len(s: Seq<AST>)
    ensures
        asts_view(s).len() == s.len(),
    decreases s.len(),
{
    if s.len() > 0 {
        lemma_asts_view_len(s.drop_last());
    }
}

/// Appending a tree appends its view.
proof fn lemma_asts_view_push(s: Seq<AST>, x: AST)
    ensures
        asts_view(s.push(x)) == asts_view(s).push(ast_view(x)),
{
    assert(s.push(x).drop_last() =~= s);
    assert(s.push(x).last() == x);
}

/// Replacing the last tree replaces the last view.
proof fn lemma_asts_view_update_last(s: Seq<AST>, x: AST)
    requires
        s.len() > 0,
    ensures
        asts_view(s.update(s.len() - 1, x)) == asts_view(s).update(s.len() - 1, ast_view(x)),
{
    let u = s.update(s.len() - 1, x);
    assert(u.drop_last() =~= s.drop_last());
    assert(u.last() == x);
    lemma_asts_view_index(s.drop_last());
    assert(asts_view(s).update(s.len() - 1, ast_view(x)) =~= asts_view(s.drop_last()).push(
        ast_view(x),
    ));
}

/// The view of a saved accumulator stack, outermost context first.
pub open spec fn stack_view(s: Seq<(Vec<AST>, Vec<AST>)>) -> Seq<(Seq<SpecAst>, Seq<SpecAst>)>
    decreases s,
{
    if s.len() == 0 {
        Seq::empty()
    } else {
        stack_view(s.drop_last()).push((asts_view(s.last().0@), asts_view(s.last().1@)))
    }
}

/// Pushing a saved context pushes its view.
proof fn lemma_stack_view_push(s: Seq<(Vec<AST>, Vec<AST>)>, x: (Vec<AST>, Vec<AST>))
    ensures
        stack_view(s.push(x)) == stack_view(s).push((asts_view(x.0@), asts_view(x.1@))),
{
    assert(s.push(x).drop_last() =~= s);
    assert(s.push(x).last() == x);
}

/// Popping a saved context pops its view.
proof fn lemma_stack_view_pop(s: Seq<(Vec<AST>, Vec<AST>)>)
    requires
        s.len() > 0,
    ensures
        stack_view(s).len() == s.len(),
        stack_view(s.drop_last()) == stack_view(s).drop_last(),
        stack_view(s).last() == (asts_view(s.last().0@), asts_view(s.last().1@)),
    decreases s.len(),
{
    if s.len() > 1 {
        lemma_stack_view_pop(s.drop_last());
    }
    assert(stack_view(s).drop_last() =~= stack_view(s.drop_last()));
}

/// Right-folding of a non-empty alternation accumulator into nested `Or`
/// shapes, leftmost alternative outermost.
pub open spec fn fold_or_chain(s: Seq<SpecAst>) -> SpecAst
    decreases s.len(),
{
    if s.len() <= 1 {
        s[0]
    } else {
        SpecAst::Or(Box::new(s[0]), Box::new(fold_or_chain(s.drop_first())))
    }
}

/// What folding an alternation accumulator yields: nothing when it is empty.
pub open spec fn spec_fold_or(s: Seq<SpecAst>) -> Option<SpecAst> {
    if s.len() == 0 {
        Option::None
    } else {
        Option::Some(fold_or_chain(s))
    }
}

/// One scan state: the current concatenation, the current alternation, the
/// saved contexts of the open groups, and whether a backslash is pending.
pub struct ParseState {
    pub seq: Seq<SpecAst>,
    pub seq_or: Seq<SpecAst>,
    pub stack: Seq<(Seq<SpecAst>, Seq<SpecAst>)>,
    pub escape: bool,
}

/// The scan state before any character is read.
pub open spec fn init_parse_state() -> ParseState {
    ParseState { seq: Seq::empty(), seq_or: Seq::empty(), stack: Seq::empty(), escape: false }
}

/// What wrapping the last node of the concatenation in the repetition
/// operator written `c` yields.
pub open spec fn wrap_char(c: char, prev: SpecAst) -> SpecAst {
    if c == '+' {
        SpecAst::Plus(Box::new(prev))
    } else if c == '*' {
        SpecAst::Star(Box::new(prev))
    } else {
        SpecAst::Question(Box::new(prev))
    }
}

/// Closing the current concatenation into the alternation accumulator: an
/// empty concatenation contributes nothing.
pub open spec fn commit_seq(st: ParseState) -> Seq<SpecAst> {
    if st.seq.len() > 0 {
        st.seq_or.push(SpecAst::Sequence(st.seq))
    } else {
        st.seq_or
    }
}

/// One step of the scan on character `c` at position `pos`.
pub open spec fn parse_step(st: ParseState, c: char, pos: int) -> Result<ParseState, ParseError> {
    if st.escape {
        if is_escapable(c) {
            Ok(
                ParseState {
                    seq: st.seq.push(SpecAst::Char(c)),
                    seq_or: st.seq_or,
                    stack: st.stack,
                    escape: false,
                },
            )
        } else {
            Err(ParseError::InvalidEscape(pos as usize, c))
        }
    } else if c == '+' || c == '*' || c == '?' {
        if st.seq.len() == 0 {
            Err(ParseError::NoPrev(pos as usize))
        } else {
            Ok(
                ParseState {
                    seq: st.seq.update(st.seq.len() - 1, wrap_char(c, st.seq.last())),
                    seq_or: st.seq_or,
                    stack: st.stack,
                    escape: false,
                },
            )
        }
    } else if c == '(' {
        Ok(
            ParseState {
                seq: Seq::empty(),
                seq_or: Seq::empty(),
                stack: st.stack.push((st.seq, st.seq_or)),
                escape: false,
            },
        )
    } else if c == ')' {
        if st.stack.len() == 0 {
            Err(ParseError::InvalidRightParen(pos as usize))
        } else {
            Ok(
                ParseState {
                    seq: match spec_fold_or(commit_seq(st)) {
                        Option::Some(ast) => st.stack.last().0.push(ast),
                        Option::None => st.stack.last().0,
                    },
                    seq_or: st.stack.last().1,
                    stack: st.stack.drop_last(),
                    escape: false,
                },
            )
        }
    } else if c == '|' {
        if st.seq.len() == 0 {
            Err(ParseError::NoPrev(pos as usize))
        } else {
            Ok(
                ParseState {
                    seq: Seq::empty(),
                    seq_or: st.seq_or.push(SpecAst::Sequence(st.seq)),
                    stack: st.stack,
                    escape: false,
                },
            )
        }
    } else if c == '\\' {
        Ok(ParseState { seq: st.seq, seq_or: st.seq_or, stack: st.stack, escape: true })
    } else {
        Ok(
            ParseState {
                seq: st.seq.push(SpecAst::Char(c)),
                seq_or: st.seq_or,
                stack: st.stack,
                escape: false,
            },
        )
    }
}

/// The scan from position `i` on, starting in state `st`.
pub open spec fn parse_from(st: ParseState, s: Seq<char>, i: nat) -> Result<
    ParseState,
    ParseError,
>
    decreases s.len() - i,
{
    if i >= s.len() {
        Ok(st)
    } else {
        match parse_step(st, s[i as int], i as int) {
            Ok(st2) => parse_from(st2, s, i + 1),
            Err(e) => Err(e),
        }
    }
}

/// What parsing an expression yields: the scan over all characters, then the
/// end-of-input checks — an open group is unbalanced, and an expression that
/// accumulated nothing at all is empty.
pub open spec fn spec_parse(s: Seq<char>) -> Result<SpecAst, ParseError> {
    match parse_from(init_parse_state(), s, 0) {
        Ok(st) => {
            if st.stack.len() > 0 {
                Err(ParseError::NoRightParen)
            } else {
                match spec_fold_or(commit_seq(st)) {
                    Option::Some(ast) => Ok(ast),
                    Option::None => Err(ParseError::Empty),
                }
            }
        },
        Err(e) => Err(e),
    }
}

/// Turns an escape sequence `\c` at position `pos` into a literal node.
fn parse_escape(pos: usize, c: char) -> (r: Result<AST, ParseError>)
    ensures
        is_escapable(c) ==> r == Ok::<AST, ParseError>(AST::Char(c)),
        !is_escapable(c) ==> r == Err::<AST, ParseError>(ParseError::InvalidEscape(pos, c)),
        r matches Ok(a) ==> a == AST::Char(c) && is_escapable(c),
        r matches Err(e) ==> e == ParseError::InvalidEscape(pos, c) && !is_escapable(c),
{
    match c {
        '\\' | '(' | ')' | '+' | '*' | '?' => Ok(AST::Char(c)),
        _ => Err(ParseError::InvalidEscape(pos, c)),
    }
}

/// Selector for the three postfix repetition operators.
enum PSQ {
    Plus,
    Star,
    Question,
}

/// What wrapping the previous node in a repetition operator yields.
spec fn psq_wrap(ast_type: PSQ, prev: AST) -> AST {
    match ast_type {
        PSQ::Plus => AST::Plus(Box::new(prev)),
        PSQ::Star => AST::Star(Box::new(prev)),
        PSQ::Question => AST::Question(Box::new(prev)),
    }
}

/// Replaces the most recently completed node of `seq` by that node wrapped in
/// the repetition operator `ast_type`; fails when nothing precedes the
/// operator.
fn parse_plus_star_question(seq: &mut Vec<AST>, ast_type: PSQ, pos: usize) -> (r: Result<
    (),
    ParseError,
>)
    ensures
        old(seq)@.len() == 0 ==> r == Err::<(), ParseError>(ParseError::NoPrev(pos))
            && final(seq)@ == old(seq)@,
        old(seq)@.len() > 0 ==> r == Ok::<(), ParseError>(())
            && final(seq)@ == old(seq)@.update(
                old(seq)@.len() - 1,
                psq_wrap(ast_type, old(seq)@.last()),
            ),
{
    if let Some(prev) = seq.pop() {
        let ast = match ast_type {
            PSQ::Plus => AST::Plus(Box::new(prev)),
            PSQ::Star => AST::Star(Box::new(prev)),
            PSQ::Question => AST::Question(Box::new(prev)),
        };
        seq.push(ast);
        proof {
            assert(seq@ =~= old(seq)@.update(
                old(seq)@.len() - 1,
                psq_wrap(ast_type, old(seq)@.last()),
            ));
        }
        Ok(())
    } else {
        Err(ParseError::NoPrev(pos))
    }
}

/// Right-folds an alternation accumulator into a single node: one node is
/// returned unchanged, several are nested into `Or` nodes so that the leftmost
/// alternative sits outermost, and an empty accumulator yields nothing.
fn fold_or(seq_or: Vec<AST>) -> (r: Option<AST>)
    ensures
        (r is Some) <==> seq_or@.len() > 0,
        seq_or@.len() == 1 ==> r == Some(seq_or@[0]),
        r matches Some(ast) ==> spec_fold_or(asts_view(seq_or@)) == Some(ast_view(ast)),
        r is None ==> spec_fold_or(asts_view(seq_or@)) is None,
{
    let ghost orig = seq_or@;
    let ghost av = asts_view(seq_or@);
    proof {
        lemma_asts_view_index(orig);
    }
    let mut rest = seq_or;
    if let Some(last) = rest.pop() {
        let mut ast = last;
        proof {
            assert(rest@ =~= orig.subrange(0, rest@.len() as int));
        }
        while rest.len() > 0
            invariant
                rest@.len() < orig.len(),
                av == asts_view(orig),
                av.len() == orig.len(),
                rest@ == orig.subrange(0, rest@.len() as int),
                ast_view(ast) == fold_or_chain(av.subrange(rest@.len() as int, av.len() as int)),
                rest@.len() == orig.len() - 1 ==> ast == orig.last(),
            decreases rest@.len(),
        {
            let ghost k = rest@.len() as int;
            let s = rest.pop().unwrap();
            proof {
                lemma_asts_view_index(orig);
                assert(s == orig[k - 1]);
                assert(rest@ =~= orig.subrange(0, k - 1));
                assert(av.subrange(k - 1, av.len() as int).drop_first() =~= av.subrange(
                    k,
                    av.len() as int,
                ));
            }
            ast = AST::Or(Box::new(s), Box::new(ast));
        }
        proof {
            assert(av.subrange(0, av.len() as int) =~= av);
        }
        Some(ast)
    } else {
        None
    }
}


/// A concatenation node's shape is the sequence of its children's shapes.
proof fn lemma_ast_view_sequence(v: Vec<AST>)
    ensures
        ast_view(AST::Sequence(v)) == SpecAst::Sequence(asts_view(v@)),
{
}

/// The stack's view has the stack's length.
proof fn lemma_stack_view_len(s: Seq<(Vec<AST>, Vec<AST>)>)
    ensures
        stack_view(s).len() == s.len(),
    decreases s.len(),
{
    if s.len() > 0 {
        lemma_stack_view_len(s.drop_last());
    }
}

/// A successful step advances the scan by one character.
proof fn lemma_parse_from_step(st: ParseState, s: Seq<char>, i: nat, st2: ParseState)
    requires
        i < s.len(),
        parse_step(st, s[i as int], i as int) == Ok::<ParseState, ParseError>(st2),
    ensures
        parse_from(st, s, i) == parse_from(st2, s, i + 1),
{
}

/// A failing step fails the whole scan.
proof fn lemma_parse_from_err(st: ParseState, s: Seq<char>, i: nat, e: ParseError)
    requires
        i < s.len(),
        parse_step(st, s[i as int], i as int) == Err::<ParseState, ParseError>(e),
    ensures
        parse_from(st, s, i) == Err::<ParseState, ParseError>(e),
{
}

/// A scan at the end of the input returns its state.
proof fn lemma_parse_from_end(st: ParseState, s: Seq<char>)
    ensures
        parse_from(st, s, s.len()) == Ok::<ParseState, ParseError>(st),
{
}

/// A failing scan is a failing parse.
proof fn lemma_spec_parse_err(s: Seq<char>, e: ParseError)
    requires
        parse_from(init_parse_state(), s, 0) == Err::<ParseState, ParseError>(e),
    ensures
        spec_parse(s) == Err::<SpecAst, ParseError>(e),
{
}

/// What a completed scan makes of the parse: the end-of-input checks.
proof fn lemma_spec_parse_of(s: Seq<char>, fin: ParseState)
    requires
        parse_from(init_parse_state(), s, 0) == Ok::<ParseState, ParseError>(fin),
    ensures
        fin.stack.len() > 0 ==> spec_parse(s) == Err::<SpecAst, ParseError>(
            ParseError::NoRightParen,
        ),
        fin.stack.len() == 0 ==> spec_parse(s) == (match spec_fold_or(commit_seq(fin)) {
            Option::Some(a) => Ok::<SpecAst, ParseError>(a),
            Option::None => Err::<SpecAst, ParseError>(ParseError::Empty),
        }),
{
}

/// The empty accumulators stand for the initial scan state.
proof fn lemma_scan_state_init()
    ensures
        scan_state(
            Seq::<AST>::empty(),
            Seq::<AST>::empty(),
            Seq::<(Vec<AST>, Vec<AST>)>::empty(),
            false,
        ) == init_parse_state(),
{
    assert(asts_view(Seq::<AST>::empty()) =~= Seq::<SpecAst>::empty());
    assert(stack_view(Seq::<(Vec<AST>, Vec<AST>)>::empty()) =~= Seq::<(
        Seq<SpecAst>,
        Seq<SpecAst>,
    )>::empty());
}

/// The step taken on an escaped metacharacter.
proof fn lemma_scan_escape_ok(
    s: Seq<AST>,
    so: Seq<AST>,
    stk: Seq<(Vec<AST>, Vec<AST>)>,
    c: char,
    pos: int,
)
    requires
        is_escapable(c),
    ensures
        parse_step(scan_state(s, so, stk, true), c, pos) == Ok::<ParseState, ParseError>(
            scan_state(s.push(AST::Char(c)), so, stk, false),
        ),
{
    lemma_asts_view_push(s, AST::Char(c));
}

/// The step taken on an invalid escape.
proof fn lemma_scan_escape_err(
    s: Seq<AST>,
    so: Seq<AST>,
    stk: Seq<(Vec<AST>, Vec<AST>)>,
    c: char,
    pos: int,
)
    requires
        !is_escapable(c),
    ensures
        parse_step(scan_state(s, so, stk, true), c, pos) == Err::<ParseState, ParseError>(
            ParseError::InvalidEscape(pos as usize, c),
        ),
{
}

/// The step taken on a repetition operator with a preceding node.
proof fn lemma_scan_psq(
    s: Seq<AST>,
    so: Seq<AST>,
    stk: Seq<(Vec<AST>, Vec<AST>)>,
    t: PSQ,
    c: char,
    pos: int,
)
    requires
        s.len() > 0,
        (t is Plus && c == '+') || (t is Star && c == '*') || (t is Question && c == '?'),
    ensures
        parse_step(scan_state(s, so, stk, false), c, pos) == Ok::<ParseState, ParseError>(
            scan_state(s.update(s.len() - 1, psq_wrap(t, s.last())), so, stk, false),
        ),
{
    lemma_asts_view_len(s);
    lemma_asts_view_index(s);
    lemma_asts_view_update_last(s, psq_wrap(t, s.last()));
}

/// The step taken on a repetition operator with nothing before it.
proof fn lemma_scan_psq_err(
    s: Seq<AST>,
    so: Seq<AST>,
    stk: Seq<(Vec<AST>, Vec<AST>)>,
    c: char,
    pos: int,
)
    requires
        s.len() == 0,
        c == '+' || c == '*' || c == '?',
    ensures
        parse_step(scan_state(s, so, stk, false), c, pos) == Err::<ParseState, ParseError>(
            ParseError::NoPrev(pos as usize),
        ),
{
    lemma_asts_view_len(s);
}

/// The step taken on an opening parenthesis.
proof fn lemma_scan_lparen(sv: Vec<AST>, sov: Vec<AST>, stk: Seq<(Vec<AST>, Vec<AST>)>, pos: int)
    ensures
        parse_step(scan_state(sv@, sov@, stk, false), '(', pos) == Ok::<ParseState, ParseError>(
            scan_state(Seq::<AST>::empty(), Seq::<AST>::empty(), stk.push((sv, sov)), false),
        ),
{
    lemma_stack_view_push(stk, (sv, sov));
    assert(asts_view(Seq::<AST>::empty()) =~= Seq::<SpecAst>::empty());
}

/// The step taken on a closing parenthesis with an open group, when the
/// folded group denotes a node: the node joins the restored concatenation.
proof fn lemma_scan_rparen_some(
    sv: Seq<AST>,
    sov: Seq<AST>,
    stk: Seq<(Vec<AST>, Vec<AST>)>,
    node: AST,
    s_or2: Seq<AST>,
    ast: AST,
    pos: int,
)
    requires
        stk.len() > 0,
        sv.len() > 0 ==> (node matches AST::Sequence(g) && g@ == sv) && s_or2 == sov.push(node),
        sv.len() == 0 ==> s_or2 == sov,
        spec_fold_or(asts_view(s_or2)) == Some(ast_view(ast)),
    ensures
        parse_step(scan_state(sv, sov, stk, false), ')', pos) == Ok::<ParseState, ParseError>(
            scan_state(
                stk[stk.len() - 1].0@.push(ast),
                stk[stk.len() - 1].1@,
                stk.subrange(0, stk.len() - 1),
                false,
            ),
        ),
{
    lemma_stack_view_pop(stk);
    lemma_asts_view_len(sv);
    if sv.len() > 0 {
        lemma_asts_view_push(sov, node);
    }
    assert(asts_view(s_or2) == commit_seq(scan_state(sv, sov, stk, false)));
    assert(stk.last() == stk[stk.len() - 1]);
    assert(stk.drop_last() =~= stk.subrange(0, stk.len() - 1));
    lemma_asts_view_push(stk[stk.len() - 1].0@, ast);
}

/// The step taken on a closing parenthesis with an open group, when the
/// group was empty and contributes nothing.
proof fn lemma_scan_rparen_none(
    sv: Seq<AST>,
    sov: Seq<AST>,
    stk: Seq<(Vec<AST>, Vec<AST>)>,
    node: AST,
    s_or2: Seq<AST>,
    pos: int,
)
    requires
        stk.len() > 0,
        sv.len() > 0 ==> (node matches AST::Sequence(g) && g@ == sv) && s_or2 == sov.push(node),
        sv.len() == 0 ==> s_or2 == sov,
        spec_fold_or(asts_view(s_or2)) is None,
    ensures
        parse_step(scan_state(sv, sov, stk, false), ')', pos) == Ok::<ParseState, ParseError>(
            scan_state(
                stk[stk.len() - 1].0@,
                stk[stk.len() - 1].1@,
                stk.subrange(0, stk.len() - 1),
                false,
            ),
        ),
{
    lemma_stack_view_pop(stk);
    lemma_asts_view_len(sv);
    if sv.len() > 0 {
        lemma_asts_view_push(sov, node);
    }
    assert(asts_view(s_or2) == commit_seq(scan_state(sv, sov, stk, false)));
    assert(stk.last() == stk[stk.len() - 1]);
    assert(stk.drop_last() =~= stk.subrange(0, stk.len() - 1));
}

/// The step taken on a closing parenthesis with no open group.
proof fn lemma_scan_rparen_err(
    s: Seq<AST>,
    so: Seq<AST>,
    stk: Seq<(Vec<AST>, Vec<AST>)>,
    pos: int,
)
    requires
        stk.len() == 0,
    ensures
        parse_step(scan_state(s, so, stk, false), ')', pos) == Err::<ParseState, ParseError>(
            ParseError::InvalidRightParen(pos as usize),
        ),
{
    lemma_stack_view_len(stk);
}

/// The step taken on an alternation bar with a non-empty concatenation.
proof fn lemma_scan_alt(sv: Vec<AST>, sov: Vec<AST>, stk: Seq<(Vec<AST>, Vec<AST>)>, pos: int)
    requires
        sv@.len() > 0,
    ensures
        parse_step(scan_state(sv@, sov@, stk, false), '|', pos) == Ok::<ParseState, ParseError>(
            scan_state(Seq::<AST>::empty(), sov@.push(AST::Sequence(sv)), stk, false),
        ),
{
    lemma_asts_view_len(sv@);
    lemma_ast_view_sequence(sv);
    lemma_asts_view_push(sov@, AST::Sequence(sv));
    assert(asts_view(Seq::<AST>::empty()) =~= Seq::<SpecAst>::empty());
}

/// The step taken on an alternation bar with nothing before it.
proof fn lemma_scan_alt_err(s: Seq<AST>, so: Seq<AST>, stk: Seq<(Vec<AST>, Vec<AST>)>, pos: int)
    requires
        s.len() == 0,
    ensures
        parse_step(scan_state(s, so, stk, false), '|', pos) == Err::<ParseState, ParseError>(
            ParseError::NoPrev(pos as usize),
        ),
{
    lemma_asts_view_len(s);
}

/// The step taken on a backslash: the escape state is entered.
proof fn lemma_scan_backslash(s: Seq<AST>, so: Seq<AST>, stk: Seq<(Vec<AST>, Vec<AST>)>, pos: int)
    ensures
        parse_step(scan_state(s, so, stk, false), '\\', pos) == Ok::<ParseState, ParseError>(
            scan_state(s, so, stk, true),
        ),
{
}

/// The step taken on a literal character.
proof fn lemma_scan_literal(
    s: Seq<AST>,
    so: Seq<AST>,
    stk: Seq<(Vec<AST>, Vec<AST>)>,
    c: char,
    pos: int,
)
    requires
        c != '+',
        c != '*',
        c != '?',
        c != '(',
        c != ')',
        c != '|',
        c != '\\',
    ensures
        parse_step(scan_state(s, so, stk, false), c, pos) == Ok::<ParseState, ParseError>(
            scan_state(s.push(AST::Char(c)), so, stk, false),
        ),
{
    lemma_asts_view_push(s, AST::Char(c));
}

/// The scan state that the scanner's accumulators stand for.
spec fn scan_state(
    seq: Seq<AST>,
    seq_or: Seq<AST>,
    stack: Seq<(Vec<AST>, Vec<AST>)>,
    escape: bool,
) -> ParseState {
    ParseState {
        seq: asts_view(seq),
        seq_or: asts_view(seq_or),
        stack: stack_view(stack),
        escape: escape,
    }
}

/// Parses a regular expression into its abstract syntax tree, exactly as
/// [`spec_parse`] describes: the returned tree has the shape the scan
/// computes, and the returned error is the error the scan raises.
pub fn parse(expr: &str) -> (r: Result<AST, ParseError>)
    ensures
        r matches Ok(ast) ==> spec_parse(expr@) == Ok::<SpecAst, ParseError>(ast_view(ast)),
        r matches Err(e) ==> spec_parse(expr@) == Err::<SpecAst, ParseError>(e),
        expr@.len() == 0 ==> r == Err::<AST, ParseError>(ParseError::Empty),
{
    let cs = str_chars(expr);
    let mut seq: Vec<AST> = Vec::new();
    let mut seq_or: Vec<AST> = Vec::new();
    let mut stack: Vec<(Vec<AST>, Vec<AST>)> = Vec::new();
    let mut escape: bool = false;
    let mut i: usize = 0;
    proof {
        lemma_scan_state_init();
    }
    while i < cs.len()
        invariant
            i <= cs@.len(),
            cs@ == expr@,
            cs@.len() == 0 ==> seq@.len() == 0 && seq_or@.len() == 0 && stack@.len() == 0,
            parse_from(init_parse_state(), cs@, 0) == parse_from(
                scan_state(seq@, seq_or@, stack@, escape),
                cs@,
                i as nat,
            ),
        decreases cs@.len() - i,
    {
        let ghost pre = scan_state(seq@, seq_or@, stack@, escape);
        let c = cs[i];
        if escape {
            match parse_escape(i, c) {
                Ok(ast) => {
                    proof {
                        lemma_scan_escape_ok(seq@, seq_or@, stack@, c, i as int);
                    }
                    seq.push(ast);
                    escape = false;
                },
                Err(e) => {
                    proof {
                        lemma_scan_escape_err(seq@, seq_or@, stack@, c, i as int);
                        lemma_parse_from_err(pre, cs@, i as nat, e);
                        lemma_spec_parse_err(cs@, e);
                    }
                    return Err(e);
                },
            }
        } else {
            match c {
                '+' => {
                    let ghost s0 = seq@;
                    match parse_plus_star_question(&mut seq, PSQ::Plus, i) {
                        Ok(u) => {
                            proof {
                                lemma_scan_psq(s0, seq_or@, stack@, PSQ::Plus, c, i as int);
                            }
                            u
                        },
                        Err(e) => {
                            proof {
                                lemma_scan_psq_err(s0, seq_or@, stack@, c, i as int);
                                lemma_parse_from_err(pre, cs@, i as nat, e);
                                lemma_spec_parse_err(cs@, e);
                            }
                            return Err(e);
                        },
                    }
                },
                '*' => {
                    let ghost s0 = seq@;
                    match parse_plus_star_question(&mut seq, PSQ::Star, i) {
                        Ok(u) => {
                            proof {
                                lemma_scan_psq(s0, seq_or@, stack@, PSQ::Star, c, i as int);
                            }
                            u
                        },
                        Err(e) => {
                            proof {
                                lemma_scan_psq_err(s0, seq_or@, stack@, c, i as int);
                                lemma_parse_from_err(pre, cs@, i as nat, e);
                                lemma_spec_parse_err(cs@, e);
                            }
                            return Err(e);
                        },
                    }
                },
                '?' => {
                    let ghost s0 = seq@;
                    match parse_plus_star_question(&mut seq, PSQ::Question, i) {
                        Ok(u) => {
                            proof {
                                lemma_scan_psq(s0, seq_or@, stack@, PSQ::Question, c, i as int);
                            }
                            u
                        },
                        Err(e) => {
                            proof {
                                lemma_scan_psq_err(s0, seq_or@, stack@, c, i as int);
                                lemma_parse_from_err(pre, cs@, i as nat, e);
                                lemma_spec_parse_err(cs@, e);
                            }
                            return Err(e);
                        },
                    }
                },
                '(' => {
                    let prev = seq;
                    let prev_or = seq_or;
                    seq = Vec::new();
                    seq_or = Vec::new();
                    proof {
                        lemma_scan_lparen(prev, prev_or, stack@, i as int);
                    }
                    stack.push((prev, prev_or));
                },
                ')' => {
                    let ghost sv0 = seq@;
                    let ghost sov0 = seq_or@;
                    let ghost stack0 = stack@;
                    // the committed group node, once one exists; the initial
                    // value is never consulted for an empty group
                    let ghost mut gnode = AST::Char(')');
                    match stack.pop() {
                        Some((mut prev, prev_or)) => {
                            if seq.len() > 0 {
                                let group = seq;
                                seq = Vec::new();
                                let node = AST::Sequence(group);
                                proof {
                                    gnode = node;
                                }
                                seq_or.push(node);
                            }
                            let ghost s_or2 = seq_or@;
                            let folded = fold_or(seq_or);
                            match folded {
                                Some(ast) => {
                                    proof {
                                        lemma_scan_rparen_some(
                                            sv0,
                                            sov0,
                                            stack0,
                                            gnode,
                                            s_or2,
                                            ast,
                                            i as int,
                                        );
                                    }
                                    prev.push(ast);
                                },
                                None => {
                                    proof {
                                        lemma_scan_rparen_none(
                                            sv0,
                                            sov0,
                                            stack0,
                                            gnode,
                                            s_or2,
                                            i as int,
                                        );
                                    }
                                },
                            }
                            seq = prev;
                            seq_or = prev_or;
                        },
                        None => {
                            proof {
                                lemma_scan_rparen_err(seq@, seq_or@, stack@, i as int);
                                lemma_parse_from_err(
                                    pre,
                                    cs@,
                                    i as nat,
                                    ParseError::InvalidRightParen(i),
                                );
                                lemma_spec_parse_err(cs@, ParseError::InvalidRightParen(i));
                            }
                            return Err(ParseError::InvalidRightParen(i));
                        },
                    }
                },
                '|' => {
                    if seq.len() == 0 {
                        proof {
                            lemma_scan_alt_err(seq@, seq_or@, stack@, i as int);
                            lemma_parse_from_err(pre, cs@, i as nat, ParseError::NoPrev(i));
                            lemma_spec_parse_err(cs@, ParseError::NoPrev(i));
                        }
                        return Err(ParseError::NoPrev(i));
                    } else {
                        let prev = seq;
                        seq = Vec::new();
                        proof {
                            lemma_scan_alt(prev, seq_or, stack@, i as int);
                        }
                        seq_or.push(AST::Sequence(prev));
                    }
                },
                '\\' => {
                    proof {
                        lemma_scan_backslash(seq@, seq_or@, stack@, i as int);
                    }
                    escape = true;
                },
                _ => {
                    proof {
                        lemma_scan_literal(seq@, seq_or@, stack@, c, i as int);
                    }
                    seq.push(AST::Char(c));
                },
            }
        }
        proof {
            let post = scan_state(seq@, seq_or@, stack@, escape);
            assert(parse_step(pre, cs@[i as int], i as int) == Ok::<ParseState, ParseError>(post));
            lemma_parse_from_step(pre, cs@, i as nat, post);
        }
        i = i + 1;
    }
    let ghost fin = scan_state(seq@, seq_or@, stack@, escape);
    proof {
        lemma_parse_from_end(fin, cs@);
        assert(parse_from(init_parse_state(), cs@, 0) == Ok::<ParseState, ParseError>(fin));
        lemma_spec_parse_of(cs@, fin);
        lemma_stack_view_len(stack@);
        lemma_asts_view_len(seq@);
    }
    if stack.len() > 0 {
        return Err(ParseError::NoRightParen);
    }
    if seq.len() > 0 {
        let tail = seq;
        proof {
            lemma_ast_view_sequence(tail);
            lemma_asts_view_push(seq_or@, AST::Sequence(tail));
        }
        seq_or.push(AST::Sequence(tail));
    }
    proof {
        assert(asts_view(seq_or@) == commit_seq(fin));
    }
    match fold_or(seq_or) {
        Some(ast) => Ok(ast),
        None => Err(ParseError::Empty),
    }
}

} // verus!
