//! A small regular-expression engine: a recursive-descent parser producing an
//! abstract syntax tree, a Thompson-style compiler from the tree to a linear
//! instruction sequence, and a virtual machine that runs the instructions
//! against an input line by depth-first or breadth-first backtracking search.

use vstd::prelude::*;

pub mod helper;
pub mod parser;
pub mod codegen;
pub mod evaluator;

use crate::parser::ParseError;
use crate::parser::spec_parse;
use crate::codegen::CodeGenError;
use crate::codegen::Instruction;
use crate::codegen::shape_emitted;
use crate::codegen::shape_size;
use crate::codegen::lemma_emitted_of_view;
use crate::codegen::lemma_size_of_view;
use crate::evaluator::spec_eval_depth;
use crate::evaluator::spec_eval_width;
use crate::evaluator::step_budget;
use crate::evaluator::EvalError;
use crate::evaluator::accepts;
use crate::evaluator::well_formed;

verus! {

/// A failure of any stage of the pipeline, surfaced through one channel.
#[derive(Debug, PartialEq, Eq, Structural)]
pub enum EngineError {
    Parse(ParseError),
    CodeGen(CodeGenError),
    Eval(EvalError),
}

/// The pipeline itself as one function: the scan of the expression, the
/// layout of its shape's code, and the chosen bounded search over it, each
/// stage's failure surfaced through its own arm of [`EngineError`].
pub open spec fn spec_matching(expr: Seq<char>, line: Seq<char>, use_dfs: bool) -> Result<
    bool,
    EngineError,
> {
    match spec_parse(expr) {
        Ok(sast) => {
            let prog = shape_emitted(sast, 0).push(Instruction::Match);
            let search = if use_dfs {
                spec_eval_depth(prog, line, 0, 0, step_budget())
            } else {
                spec_eval_width(prog, line, seq![(0usize, 0usize)], step_budget())
            };
            match search {
                Ok(b) => Ok(b),
                Err(e) => Err(EngineError::Eval(e)),
            }
        },
        Err(pe) => Err(EngineError::Parse(pe)),
    }
}

/// Matches a regular expression against a line: parses the expression,
/// compiles the syntax tree, and evaluates the program on the line's
/// characters, depth-first when `use_dfs` holds and breadth-first otherwise.
///
/// `Ok(false)` is a normal outcome — the line simply does not match; an error
/// reports a malformed expression or an exhausted counter, never a failed
/// match.  The three error families stay apart: a parse error comes exactly
/// when the scan of the expression fails, compilation can only run out of
/// program counters, and — the program being well-formed by construction —
/// evaluation can only run out of its step budget.  Whenever the expression
/// parses and its program fits the counter range, the result is exactly
/// [`spec_matching`]: success is owed, not merely described.
///
/// Any boolean verdict is the [`accepts`] question for a well-formed program
/// that was compiled from the expression and ends in its single accepting
/// instruction, so the two search strategies agree on every verdict.
pub fn do_matching(expr: &str, line: &str, use_dfs: bool) -> (r: Result<bool, EngineError>)
    ensures
        (spec_parse(expr@) is Err || (spec_parse(expr@) matches Ok(sast) && shape_size(sast) + 1
            <= usize::MAX)) ==> r == spec_matching(expr@, line@, use_dfs),
        expr@.len() == 0 ==> r == Err::<bool, EngineError>(EngineError::Parse(ParseError::Empty)),
        forall|pe: ParseError|
            r == Err::<bool, EngineError>(EngineError::Parse(pe)) <==> spec_parse(expr@) == Err::<
                crate::parser::SpecAst,
                ParseError,
            >(pe),
        r matches Err(e) ==> e is Parse || e == EngineError::CodeGen(CodeGenError::PCOverFlow)
            || e == EngineError::Eval(EvalError::StepLimit),
        r matches Ok(b) ==> (spec_parse(expr@) matches Ok(sast) && (b <==> accepts(
            shape_emitted(sast, 0).push(Instruction::Match),
            line@,
            0,
            0,
        ))),
{
    let ast = match parser::parse(expr) {
        Ok(a) => a,
        Err(e) => {
            return Err(EngineError::Parse(e));
        },
    };
    proof {
        lemma_size_of_view(ast);
    }
    let code = match codegen::get_code(&ast) {
        Ok(c) => c,
        Err(e) => {
            return Err(EngineError::CodeGen(e));
        },
    };
    let chars = helper::str_chars(line);
    proof {
        assert(well_formed(code@));
        lemma_emitted_of_view(ast, 0);
    }
    match evaluator::eval(code.as_slice(), chars.as_slice(), use_dfs) {
        Ok(b) => Ok(b),
        Err(e) => Err(EngineError::Eval(e)),
    }
}

} // verus!
