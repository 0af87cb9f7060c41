//! Execution of a compiled program against an input line, by depth-first
//! recursive search or by breadth-first search over an explicit queue of
//! `(program counter, input cursor)` contexts.
//!
//! Both strategies decide the same question, stated by the specification
//! function [`accepts`]: does some path through the program's
//! non-deterministic branches reach `Match`?  A program whose epsilon
//! transitions form a cycle could search forever; instead of looping, both
//! strategies spend one unit of a step budget per instruction executed and
//! report `StepLimit` when the budget — far beyond any reachable workload —
//! is exhausted.  Each strategy returns exactly what its budgeted search
//! computes ([`spec_eval_depth`], [`spec_eval_width`]), so the step-limit
//! error can only be reported when the budget really runs out.

use vstd::prelude::*;
use std::collections::VecDeque;
use crate::codegen::Instruction;
use crate::codegen::code_ok;
use crate::codegen::inst_bounded;
use crate::helper::safe_add;
use crate::helper::SafeAdd;

verus! {

/// Evaluation failures: counter overflow, a program counter outside the
/// program, and an exhausted step budget.
#[derive(Debug, PartialEq, Eq, Structural)]
pub enum EvalError {
    PCOverFlow,
    SPOverFlow,
    InvalidPC,
    StepLimit,
}

/// A program as the code generator delivers it: every embedded address in
/// range, and the accepting instruction standing at the end.
pub open spec fn well_formed(code: Seq<Instruction>) -> bool {
    code_ok(code) && code.len() > 0 && code.last() == Instruction::Match
}

/// Whether some accepting path of at most `fuel` instructions leads from
/// `(pc, sp)` to a `Match` instruction.
pub open spec fn accepts_within(
    code: Seq<Instruction>,
    line: Seq<char>,
    pc: int,
    sp: int,
    fuel: nat,
) -> bool
    decreases fuel,
{
    if fuel == 0 {
        false
    } else {
        0 <= pc < code.len() && match code[pc] {
            Instruction::Char(c) => 0 <= sp < line.len() && line[sp] == c && accepts_within(
                code,
                line,
                pc + 1,
                sp + 1,
                (fuel - 1) as nat,
            ),
            Instruction::Match => true,
            Instruction::Jump(a) => accepts_within(code, line, a as int, sp, (fuel - 1) as nat),
            Instruction::Split(a1, a2) => accepts_within(
                code,
                line,
                a1 as int,
                sp,
                (fuel - 1) as nat,
            ) || accepts_within(code, line, a2 as int, sp, (fuel - 1) as nat),
        }
    }
}

/// Whether some accepting path leads from `(pc, sp)` to a `Match`
/// instruction: the question both search strategies decide.
pub open spec fn accepts(code: Seq<Instruction>, line: Seq<char>, pc: int, sp: int) -> bool {
    exists|fuel: nat| accepts_within(code, line, pc, sp, fuel)
}

/// Produces the budget witnessing an accepting path.
proof fn accepts_witness(code: Seq<Instruction>, line: Seq<char>, pc: int, sp: int) -> (f: nat)
    requires
        accepts(code, line, pc, sp),
    ensures
        accepts_within(code, line, pc, sp, f),
{
    choose|f: nat| accepts_within(code, line, pc, sp, f)
}

/// One unfolding of [`accepts`]: acceptance from a state is acceptance from
/// its successor states under the instruction at the program counter.
proof fn lemma_accepts_step(code: Seq<Instruction>, line: Seq<char>, pc: int, sp: int)
    ensures
        accepts(code, line, pc, sp) <==> (0 <= pc < code.len() && match code[pc] {
            Instruction::Char(c) => 0 <= sp < line.len() && line[sp] == c && accepts(
                code,
                line,
                pc + 1,
                sp + 1,
            ),
            Instruction::Match => true,
            Instruction::Jump(a) => accepts(code, line, a as int, sp),
            Instruction::Split(a1, a2) => accepts(code, line, a1 as int, sp) || accepts(
                code,
                line,
                a2 as int,
                sp,
            ),
        }),
{
    if accepts(code, line, pc, sp) {
        let f = choose|f: nat| accepts_within(code, line, pc, sp, f);
        assert(accepts_within(code, line, pc, sp, f));
        assert(f > 0);
        match code[pc] {
            Instruction::Char(_) => {
                assert(accepts_within(code, line, pc + 1, sp + 1, (f - 1) as nat));
            },
            Instruction::Match => {
            },
            Instruction::Jump(a) => {
                assert(accepts_within(code, line, a as int, sp, (f - 1) as nat));
            },
            Instruction::Split(a1, a2) => {
                assert(accepts_within(code, line, a1 as int, sp, (f - 1) as nat)
                    || accepts_within(code, line, a2 as int, sp, (f - 1) as nat));
            },
        }
    }
    if 0 <= pc < code.len() {
        match code[pc] {
            Instruction::Char(c) => {
                if 0 <= sp < line.len() && line[sp] == c && accepts(code, line, pc + 1, sp + 1) {
                    let f = accepts_witness(code, line, pc + 1, sp + 1);
                    assert(accepts_within(code, line, pc, sp, f + 1));
                }
            },
            Instruction::Match => {
                assert(accepts_within(code, line, pc, sp, 1));
            },
            Instruction::Jump(a) => {
                if accepts(code, line, a as int, sp) {
                    let f = accepts_witness(code, line, a as int, sp);
                    assert(accepts_within(code, line, pc, sp, f + 1));
                }
            },
            Instruction::Split(a1, a2) => {
                if accepts(code, line, a1 as int, sp) {
                    let f = accepts_witness(code, line, a1 as int, sp);
                    assert(accepts_within(code, line, pc, sp, f + 1));
                }
                if accepts(code, line, a2 as int, sp) {
                    let f = accepts_witness(code, line, a2 as int, sp);
                    assert(accepts_within(code, line, pc, sp, f + 1));
                }
            },
        }
    }
}

/// The step budget both strategies start from: the whole range of the
/// counter type, beyond any workload that finishes at all.
pub open spec fn step_budget() -> nat {
    usize::MAX as nat
}

/// The depth-first search itself, one instruction per unit of budget: what
/// [`eval`] returns in depth-first mode, error for error.
pub open spec fn spec_eval_depth(
    code: Seq<Instruction>,
    line: Seq<char>,
    pc: int,
    sp: int,
    fuel: nat,
) -> Result<bool, EvalError>
    decreases fuel,
{
    if fuel == 0 {
        Err(EvalError::StepLimit)
    } else if pc < 0 || pc >= code.len() {
        Err(EvalError::InvalidPC)
    } else {
        match code[pc] {
            Instruction::Char(c) => if 0 <= sp < line.len() && line[sp] == c {
                spec_eval_depth(code, line, pc + 1, sp + 1, (fuel - 1) as nat)
            } else {
                Ok(false)
            },
            Instruction::Match => Ok(true),
            Instruction::Jump(a) => spec_eval_depth(code, line, a as int, sp, (fuel - 1) as nat),
            Instruction::Split(a1, a2) => match spec_eval_depth(
                code,
                line,
                a1 as int,
                sp,
                (fuel - 1) as nat,
            ) {
                Ok(true) => Ok(true),
                Ok(false) => spec_eval_depth(code, line, a2 as int, sp, (fuel - 1) as nat),
                Err(e) => Err(e),
            },
        }
    }
}

/// The breadth-first search itself, one instruction per unit of budget: what
/// [`eval`] returns in breadth-first mode, error for error.
pub open spec fn spec_eval_width(
    code: Seq<Instruction>,
    line: Seq<char>,
    q: Seq<(usize, usize)>,
    fuel: nat,
) -> Result<bool, EvalError>
    decreases fuel,
{
    if fuel == 0 {
        Err(EvalError::StepLimit)
    } else if q.len() == 0 {
        Ok(false)
    } else {
        let pc = q[0].0;
        let sp = q[0].1;
        let rest = q.drop_first();
        if pc >= code.len() {
            Err(EvalError::InvalidPC)
        } else {
            match code[pc as int] {
                Instruction::Char(c) => if sp < line.len() && line[sp as int] == c {
                    spec_eval_width(
                        code,
                        line,
                        rest.push(((pc + 1) as usize, (sp + 1) as usize)),
                        (fuel - 1) as nat,
                    )
                } else {
                    spec_eval_width(code, line, rest, (fuel - 1) as nat)
                },
                Instruction::Match => Ok(true),
                Instruction::Jump(a) => spec_eval_width(
                    code,
                    line,
                    rest.push((a, sp)),
                    (fuel - 1) as nat,
                ),
                Instruction::Split(a1, a2) => spec_eval_width(
                    code,
                    line,
                    rest.push((a1, sp)).push((a2, sp)),
                    (fuel - 1) as nat,
                ),
            }
        }
    }
}

/// Matches the input by depth-first search from `(pc, sp)`, spending the
/// given step budget.  Any boolean verdict equals [`accepts`] for the start
/// state: a budget too small for a verdict is reported, never misread as a
/// failed match.
fn eval_depth(inst: &[Instruction], line: &[char], pc: usize, sp: usize, fuel: usize) -> (r: Result<
    bool,
    EvalError,
>)
    ensures
        r == spec_eval_depth(inst@, line@, pc as int, sp as int, fuel as nat),
        r matches Ok(b) ==> (b <==> accepts(inst@, line@, pc as int, sp as int)),
        well_formed(inst@) && pc < inst@.len() ==> r is Ok || r == Err::<bool, EvalError>(
            EvalError::StepLimit,
        ),
        r matches Err(e) ==> e == EvalError::InvalidPC || e == EvalError::StepLimit,
        fuel > 0 && pc >= inst@.len() ==> r == Err::<bool, EvalError>(EvalError::InvalidPC),
    decreases fuel,
{
    let mut cur_pc = pc;
    let mut cur_sp = sp;
    let mut fuel_left = fuel;
    loop
        invariant
            pc as int >= inst@.len() ==> cur_pc == pc && fuel_left == fuel,
            accepts(inst@, line@, cur_pc as int, cur_sp as int) <==> accepts(
                inst@,
                line@,
                pc as int,
                sp as int,
            ),
            spec_eval_depth(inst@, line@, cur_pc as int, cur_sp as int, fuel_left as nat)
                == spec_eval_depth(inst@, line@, pc as int, sp as int, fuel as nat),
            fuel_left <= fuel,
            well_formed(inst@) && pc < inst@.len() ==> cur_pc < inst@.len(),
        decreases fuel_left,
    {
        let ghost wf = well_formed(inst@) && pc < inst@.len();
        let ghost fuel_top = fuel_left as nat;
        if fuel_left == 0 {
            return Err(EvalError::StepLimit);
        }
        fuel_left = fuel_left - 1;
        proof {
            lemma_accepts_step(inst@, line@, cur_pc as int, cur_sp as int);
            assert(spec_eval_depth(inst@, line@, cur_pc as int, cur_sp as int, fuel_top)
                == spec_eval_depth(inst@, line@, pc as int, sp as int, fuel as nat));
        }
        if cur_pc >= inst.len() {
            return Err(EvalError::InvalidPC);
        }
        proof {
            if wf {
                assert(inst_bounded(inst@[cur_pc as int], inst@.len() - 1));
            }
        }
        match inst[cur_pc] {
            Instruction::Char(c) => {
                proof {
                    if wf {
                        assert(inst@[inst@.len() - 1] == Instruction::Match);
                        assert(cur_pc as int != inst@.len() - 1);
                    }
                }
                if cur_sp < line.len() && line[cur_sp] == c {
                    match safe_add(
                        &mut cur_pc,
                        &1,
                        (|| -> (e: EvalError)
                            ensures
                                e == EvalError::PCOverFlow,
                            { EvalError::PCOverFlow }),
                    ) {
                        Ok(u) => u,
                        Err(e) => {
                            proof {
                                assert(false);
                            }
                            return Err(e);
                        },
                    }
                    match safe_add(
                        &mut cur_sp,
                        &1,
                        (|| -> (e: EvalError)
                            ensures
                                e == EvalError::SPOverFlow,
                            { EvalError::SPOverFlow }),
                    ) {
                        Ok(u) => u,
                        Err(e) => {
                            proof {
                                assert(false);
                            }
                            return Err(e);
                        },
                    }
                } else {
                    return Ok(false);
                }
            },
            Instruction::Match => {
                return Ok(true);
            },
            Instruction::Jump(addr) => {
                cur_pc = addr;
            },
            Instruction::Split(addr1, addr2) => {
                match eval_depth(inst, line, addr1, cur_sp, fuel_left) {
                    Ok(true) => {
                        return Ok(true);
                    },
                    Ok(false) => {},
                    Err(e) => {
                        return Err(e);
                    },
                }
                return eval_depth(inst, line, addr2, cur_sp, fuel_left);
            },
        }
    }
}

/// Whether some context of the queue is an accepting state.
pub open spec fn any_accepts(
    code: Seq<Instruction>,
    line: Seq<char>,
    q: Seq<(usize, usize)>,
) -> bool {
    exists|i: int| 0 <= i < q.len() && accepts(code, line, q[i].0 as int, q[i].1 as int)
}

/// Popping the front context splits the queue's acceptance question.
proof fn lemma_any_accepts_pop(code: Seq<Instruction>, line: Seq<char>, q: Seq<(usize, usize)>)
    requires
        q.len() > 0,
    ensures
        any_accepts(code, line, q) <==> (accepts(code, line, q[0].0 as int, q[0].1 as int)
            || any_accepts(code, line, q.drop_first())),
{
    if any_accepts(code, line, q) {
        let i = choose|i: int| 0 <= i < q.len() && accepts(code, line, q[i].0 as int, q[i].1 as int);
        if i > 0 {
            assert(q.drop_first()[i - 1] == q[i]);
            assert(any_accepts(code, line, q.drop_first()));
        }
    }
    if any_accepts(code, line, q.drop_first()) {
        let i = choose|i: int|
            0 <= i < q.drop_first().len() && accepts(
                code,
                line,
                q.drop_first()[i].0 as int,
                q.drop_first()[i].1 as int,
            );
        assert(q[i + 1] == q.drop_first()[i]);
        assert(any_accepts(code, line, q));
    }
}

/// Pushing a context to the back adds exactly its acceptance question.
proof fn lemma_any_accepts_push(
    code: Seq<Instruction>,
    line: Seq<char>,
    q: Seq<(usize, usize)>,
    x: (usize, usize),
)
    ensures
        any_accepts(code, line, q.push(x)) <==> (any_accepts(code, line, q) || accepts(
            code,
            line,
            x.0 as int,
            x.1 as int,
        )),
{
    let qp = q.push(x);
    if any_accepts(code, line, qp) {
        let i = choose|i: int|
            0 <= i < qp.len() && accepts(code, line, qp[i].0 as int, qp[i].1 as int);
        if i < q.len() {
            assert(qp[i] == q[i]);
            assert(any_accepts(code, line, q));
        } else {
            assert(qp[i] == x);
        }
    }
    if any_accepts(code, line, q) {
        let i = choose|i: int| 0 <= i < q.len() && accepts(code, line, q[i].0 as int, q[i].1 as int);
        assert(qp[i] == q[i]);
        assert(any_accepts(code, line, qp));
    }
    if accepts(code, line, x.0 as int, x.1 as int) {
        assert(qp[q.len() as int] == x);
        assert(any_accepts(code, line, qp));
    }
}

/// Every queued context points into the program.
pub open spec fn pcs_in_range(code: Seq<Instruction>, q: Seq<(usize, usize)>) -> bool {
    forall|k: int| 0 <= k < q.len() ==> (#[trigger] q[k]).0 < code.len()
}

/// Matches the input by breadth-first search over a queue of contexts seeded
/// with the start state, spending the given step budget.  Any boolean verdict
/// equals [`accepts`] for the start state.
fn eval_width(inst: &[Instruction], line: &[char], fuel: usize) -> (r: Result<bool, EvalError>)
    ensures
        r == spec_eval_width(inst@, line@, seq![(0usize, 0usize)], fuel as nat),
        r matches Ok(b) ==> (b <==> accepts(inst@, line@, 0, 0)),
        well_formed(inst@) ==> r is Ok || r == Err::<bool, EvalError>(EvalError::StepLimit),
        r matches Err(e) ==> e == EvalError::InvalidPC || e == EvalError::StepLimit,
{
    let mut ctx_dq: VecDeque<(usize, usize)> = VecDeque::new();
    ctx_dq.push_back((0, 0));
    proof {
        lemma_any_accepts_push(inst@, line@, Seq::empty(), (0, 0));
        assert(Seq::<(usize, usize)>::empty().push((0usize, 0usize)) =~= seq![(0usize, 0usize)]);
    }
    let mut fuel_left = fuel;
    loop
        invariant
            any_accepts(inst@, line@, ctx_dq@) <==> accepts(inst@, line@, 0, 0),
            spec_eval_width(inst@, line@, ctx_dq@, fuel_left as nat) == spec_eval_width(
                inst@,
                line@,
                seq![(0usize, 0usize)],
                fuel as nat,
            ),
            fuel_left <= fuel,
            well_formed(inst@) ==> pcs_in_range(inst@, ctx_dq@),
        decreases fuel_left,
    {
        let ghost wf = well_formed(inst@);
        let ghost fuel_top = fuel_left as nat;
        if fuel_left == 0 {
            return Err(EvalError::StepLimit);
        }
        fuel_left = fuel_left - 1;
        let ghost q_pre = ctx_dq@;
        let (mut pc, mut sp) = match ctx_dq.pop_front() {
            Some(ctx) => ctx,
            None => {
                return Ok(false);
            },
        };
        proof {
            lemma_any_accepts_pop(inst@, line@, q_pre);
            lemma_accepts_step(inst@, line@, pc as int, sp as int);
            assert(ctx_dq@ =~= q_pre.drop_first());
            assert(spec_eval_width(inst@, line@, q_pre, fuel_top) == spec_eval_width(
                inst@,
                line@,
                seq![(0usize, 0usize)],
                fuel as nat,
            ));
            if wf {
                assert(q_pre[0].0 < inst@.len());
                assert forall|k: int| 0 <= k < ctx_dq@.len() implies (#[trigger] ctx_dq@[k]).0
                    < inst@.len() by {
                    assert(ctx_dq@[k] == q_pre[k + 1]);
                }
            }
        }
        if pc >= inst.len() {
            return Err(EvalError::InvalidPC);
        }
        proof {
            if wf {
                assert(inst_bounded(inst@[pc as int], inst@.len() - 1));
            }
        }
        match inst[pc] {
            Instruction::Char(c) => {
                proof {
                    if wf {
                        assert(inst@[inst@.len() - 1] == Instruction::Match);
                        assert(pc as int != inst@.len() - 1);
                    }
                }
                if sp < line.len() && line[sp] == c {
                    match safe_add(
                        &mut pc,
                        &1,
                        (|| -> (e: EvalError)
                            ensures
                                e == EvalError::PCOverFlow,
                            { EvalError::PCOverFlow }),
                    ) {
                        Ok(u) => u,
                        Err(e) => {
                            proof {
                                assert(false);
                            }
                            return Err(e);
                        },
                    }
                    match safe_add(
                        &mut sp,
                        &1,
                        (|| -> (e: EvalError)
                            ensures
                                e == EvalError::SPOverFlow,
                            { EvalError::SPOverFlow }),
                    ) {
                        Ok(u) => u,
                        Err(e) => {
                            proof {
                                assert(false);
                            }
                            return Err(e);
                        },
                    }
                    let ghost q_mid = ctx_dq@;
                    ctx_dq.push_back((pc, sp));
                    proof {
                        lemma_any_accepts_push(inst@, line@, q_mid, (pc, sp));
                        if wf {
                            assert forall|k: int|
                                0 <= k < ctx_dq@.len() implies (#[trigger] ctx_dq@[k]).0
                                < inst@.len() by {
                                if k < q_mid.len() {
                                    assert(ctx_dq@[k] == q_mid[k]);
                                }
                            }
                        }
                    }
                } else {
                    // a failed path: drop the context
                }
            },
            Instruction::Match => {
                return Ok(true);
            },
            Instruction::Jump(addr) => {
                let ghost q_mid = ctx_dq@;
                ctx_dq.push_back((addr, sp));
                proof {
                    lemma_any_accepts_push(inst@, line@, q_mid, (addr, sp));
                    if wf {
                        assert forall|k: int|
                            0 <= k < ctx_dq@.len() implies (#[trigger] ctx_dq@[k]).0
                            < inst@.len() by {
                            if k < q_mid.len() {
                                assert(ctx_dq@[k] == q_mid[k]);
                            }
                        }
                    }
                }
            },
            Instruction::Split(addr1, addr2) => {
                let ghost q_mid = ctx_dq@;
                ctx_dq.push_back((addr1, sp));
                proof {
                    lemma_any_accepts_push(inst@, line@, q_mid, (addr1, sp));
                    if wf {
                        assert forall|k: int|
                            0 <= k < ctx_dq@.len() implies (#[trigger] ctx_dq@[k]).0
                            < inst@.len() by {
                            if k < q_mid.len() {
                                assert(ctx_dq@[k] == q_mid[k]);
                            }
                        }
                    }
                }
                let ghost q_mid2 = ctx_dq@;
                ctx_dq.push_back((addr2, sp));
                proof {
                    lemma_any_accepts_push(inst@, line@, q_mid2, (addr2, sp));
                    if wf {
                        assert forall|k: int|
                            0 <= k < ctx_dq@.len() implies (#[trigger] ctx_dq@[k]).0
                            < inst@.len() by {
                            if k < q_mid2.len() {
                                assert(ctx_dq@[k] == q_mid2[k]);
                            }
                        }
                    }
                }
            },
        }
    }
}

/// Matches a compiled program against an input line, by depth-first search
/// when `use_dfs` holds and by breadth-first search otherwise.  Whichever
/// strategy runs, a boolean verdict equals [`accepts`] for the program's
/// start state on the whole line: the two strategies can never contradict
/// each other.
pub fn eval(inst: &[Instruction], line: &[char], use_dfs: bool) -> (r: Result<bool, EvalError>)
    ensures
        use_dfs ==> r == spec_eval_depth(inst@, line@, 0, 0, step_budget()),
        !use_dfs ==> r == spec_eval_width(inst@, line@, seq![(0usize, 0usize)], step_budget()),
        r matches Ok(b) ==> (b <==> accepts(inst@, line@, 0, 0)),
        well_formed(inst@) ==> r is Ok || r == Err::<bool, EvalError>(EvalError::StepLimit),
        r matches Err(e) ==> e == EvalError::InvalidPC || e == EvalError::StepLimit,
        inst@.len() == 0 ==> r == Err::<bool, EvalError>(EvalError::InvalidPC),
{
    proof {
        if inst@.len() == 0 {
            assert(spec_eval_depth(inst@, line@, 0, 0, step_budget()) == Err::<bool, EvalError>(
                EvalError::InvalidPC,
            ));
            assert(seq![(0usize, 0usize)][0] == (0usize, 0usize));
            assert(spec_eval_width(inst@, line@, seq![(0usize, 0usize)], step_budget()) == Err::<
                bool,
                EvalError,
            >(EvalError::InvalidPC));
        }
    }
    if use_dfs {
        eval_depth(inst, line, 0, 0, usize::MAX)
    } else {
        eval_width(inst, line, usize::MAX)
    }
}

/// Strategy equivalence: two error-free evaluations of one program on one
/// line — depth-first, breadth-first, or any mix — return the same boolean,
/// because each verdict is pinned to [`accepts`] by the contract of [`eval`].
pub proof fn lemma_strategies_agree(
    code: Seq<Instruction>,
    line: Seq<char>,
    r1: Result<bool, EvalError>,
    r2: Result<bool, EvalError>,
)
    requires
        r1 matches Ok(b1) ==> (b1 <==> accepts(code, line, 0, 0)),
        r2 matches Ok(b2) ==> (b2 <==> accepts(code, line, 0, 0)),
    ensures
        r1 is Ok && r2 is Ok ==> r1 == r2,
{
}

} // verus!
