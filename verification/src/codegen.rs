//! Compilation of the abstract syntax tree into a flat instruction sequence,
//! a direct encoding of Thompson's construction: alternation and repetition
//! become `Split` and `Jump` instructions whose target addresses are patched
//! in place once they are known.

use vstd::prelude::*;
use crate::helper::safe_add;
use crate::helper::SafeAdd;
use crate::parser::AST;
use crate::parser::SpecAst;
use crate::parser::ast_view;
use crate::parser::asts_view;
use crate::parser::lemma_asts_view_index;

verus! {

/// One instruction of the compiled program, addressed by position.
#[derive(Debug, Clone, Copy, PartialEq, Eq, Structural)]
pub enum Instruction {
    /// Consume one input symbol if it equals the character, else fail the path.
    Char(char),
    /// Accept.
    Match,
    /// Unconditional transfer.
    Jump(usize),
    /// Non-deterministic branch: try the first address, then the second.
    Split(usize, usize),
}

/// Code-generation failures.  Only `PCOverFlow` is reachable through
/// `get_code`; the remaining variants mark internal patching faults that the
/// contracts below prove impossible.
#[derive(Debug, PartialEq, Eq, Structural)]
pub enum CodeGenError {
    PCOverFlow,
    FailStar,
    FailOr,
    FailQuestion,
}

/// Every address embedded in the instruction stays at or below `bound`.
pub open spec fn inst_bounded(i: Instruction, bound: int) -> bool {
    match i {
        Instruction::Jump(a) => a <= bound,
        Instruction::Split(a1, a2) => a1 <= bound && a2 <= bound,
        _ => true,
    }
}

/// Every address embedded in any instruction is a valid index into the
/// program itself.
pub open spec fn code_ok(code: Seq<Instruction>) -> bool {
    forall|k: int| 0 <= k < code.len() ==> inst_bounded(#[trigger] code[k], code.len() - 1)
}

/// How many instructions the code for one node occupies.
pub open spec fn ast_size(ast: AST) -> nat
    decreases ast,
{
    match ast {
        AST::Char(_) => 1,
        AST::Plus(e) => ast_size(*e) + 1,
        AST::Star(e) => ast_size(*e) + 2,
        AST::Question(e) => ast_size(*e) + 1,
        AST::Or(e1, e2) => ast_size(*e1) + ast_size(*e2) + 2,
        AST::Sequence(v) => seq_sizes(v@),
    }
}

/// How many instructions the code for a list of nodes occupies.
pub open spec fn seq_sizes(s: Seq<AST>) -> nat
    decreases s,
{
    if s.len() == 0 {
        0
    } else {
        ast_size(s[0]) + seq_sizes(s.drop_first())
    }
}

/// The instructions that one node's code consists of, laid out from address
/// `base` with every embedded address resolved.
pub open spec fn emitted(ast: AST, base: int) -> Seq<Instruction>
    decreases ast,
{
    match ast {
        AST::Char(c) => seq![Instruction::Char(c)],
        AST::Plus(e) => emitted(*e, base).push(
            Instruction::Split((base) as usize, (base + ast_size(*e) + 1) as usize),
        ),
        AST::Star(e) => seq![
            Instruction::Split((base + 1) as usize, (base + ast_size(*e) + 2) as usize),
        ] + emitted(*e, base + 1) + seq![Instruction::Jump(base as usize)],
        AST::Question(e) => seq![
            Instruction::Split((base + 1) as usize, (base + ast_size(*e) + 1) as usize),
        ] + emitted(*e, base + 1),
        AST::Or(e1, e2) => seq![
            Instruction::Split((base + 1) as usize, (base + ast_size(*e1) + 2) as usize),
        ] + emitted(*e1, base + 1) + seq![
            Instruction::Jump((base + ast_size(*e1) + ast_size(*e2) + 2) as usize),
        ] + emitted(*e2, base + ast_size(*e1) + 2),
        AST::Sequence(v) => emitted_list(v@, base),
    }
}

/// The instructions that a list of nodes' code consists of, each node's code
/// following the previous node's.
pub open spec fn emitted_list(s: Seq<AST>, base: int) -> Seq<Instruction>
    decreases s,
{
    if s.len() == 0 {
        Seq::empty()
    } else {
        emitted(s[0], base) + emitted_list(s.drop_first(), base + ast_size(s[0]))
    }
}

/// Extending a prefix of a list by one node appends that node's code.
proof fn lemma_emitted_list_snoc(s: Seq<AST>, base: int, i: int)
    requires
        0 <= i < s.len(),
    ensures
        emitted_list(s.subrange(0, i + 1), base) == emitted_list(s.subrange(0, i), base) + emitted(
            s[i],
            base + seq_sizes(s.subrange(0, i)),
        ),
    decreases i,
{
    if i == 0 {
        assert(s.subrange(0, 1).drop_first() =~= Seq::<AST>::empty());
        assert(s.subrange(0, 0) =~= Seq::<AST>::empty());
        assert(s.subrange(0, 1)[0] == s[0]);
        assert(emitted_list(s.subrange(0, 1), base) == emitted(s[0], base) + emitted_list(
            Seq::<AST>::empty(),
            base + ast_size(s[0]),
        ));
        assert(emitted(s[0], base) + Seq::<Instruction>::empty() =~= emitted(s[0], base));
        assert(emitted_list(s.subrange(0, 0), base) + emitted(s[0], base) =~= emitted(s[0], base));
    } else {
        let t = s.drop_first();
        lemma_emitted_list_snoc(t, base + ast_size(s[0]), i - 1);
        assert(s.subrange(0, i + 1).drop_first() =~= t.subrange(0, i));
        assert(s.subrange(0, i).drop_first() =~= t.subrange(0, i - 1));
        assert(s.subrange(0, i + 1)[0] == s[0]);
        assert(s.subrange(0, i)[0] == s[0]);
        assert(t.subrange(0, i)[0] == t[0]);
        assert(emitted_list(s.subrange(0, i + 1), base) == emitted(s[0], base) + emitted_list(
            t.subrange(0, i),
            base + ast_size(s[0]),
        ));
        assert(emitted_list(s.subrange(0, i), base) == emitted(s[0], base) + emitted_list(
            t.subrange(0, i - 1),
            base + ast_size(s[0]),
        ));
        assert(seq_sizes(s.subrange(0, i)) == ast_size(s[0]) + seq_sizes(t.subrange(0, i - 1)));
        assert(t[i - 1] == s[i]);
        assert(emitted(s[0], base) + (emitted_list(t.subrange(0, i - 1), base + ast_size(s[0]))
            + emitted(s[i], base + seq_sizes(s.subrange(0, i)))) =~= (emitted(s[0], base)
            + emitted_list(t.subrange(0, i - 1), base + ast_size(s[0]))) + emitted(
            s[i],
            base + seq_sizes(s.subrange(0, i)),
        ));
    }
}

/// Extending a prefix of a list by one node adds that node's size.
proof fn lemma_seq_sizes_snoc(s: Seq<AST>, i: int)
    requires
        0 <= i < s.len(),
    ensures
        seq_sizes(s.subrange(0, i + 1)) == seq_sizes(s.subrange(0, i)) + ast_size(s[i]),
    decreases i,
{
    if i == 0 {
        assert(s.subrange(0, 1).drop_first() =~= Seq::<AST>::empty());
        assert(s.subrange(0, 0) =~= Seq::<AST>::empty());
        assert(s.subrange(0, 1)[0] == s[0]);
    } else {
        let t = s.drop_first();
        lemma_seq_sizes_snoc(t, i - 1);
        assert(s.subrange(0, i + 1).drop_first() =~= t.subrange(0, i));
        assert(s.subrange(0, i).drop_first() =~= t.subrange(0, i - 1));
        assert(s.subrange(0, i + 1)[0] == s[0]);
        assert(s.subrange(0, i)[0] == s[0]);
        assert(t[i - 1] == s[i]);
    }
}

/// How many instructions the code for one shape occupies.
pub open spec fn shape_size(s: SpecAst) -> nat
    decreases s,
{
    match s {
        SpecAst::Char(_) => 1,
        SpecAst::Plus(e) => shape_size(*e) + 1,
        SpecAst::Star(e) => shape_size(*e) + 2,
        SpecAst::Question(e) => shape_size(*e) + 1,
        SpecAst::Or(e1, e2) => shape_size(*e1) + shape_size(*e2) + 2,
        SpecAst::Sequence(l) => shapes_size(l),
    }
}

/// How many instructions the code for a list of shapes occupies.
pub open spec fn shapes_size(l: Seq<SpecAst>) -> nat
    decreases l,
{
    if l.len() == 0 {
        0
    } else {
        shape_size(l[0]) + shapes_size(l.drop_first())
    }
}

/// The instructions that one shape's code consists of, laid out from `base`.
pub open spec fn shape_emitted(s: SpecAst, base: int) -> Seq<Instruction>
    decreases s,
{
    match s {
        SpecAst::Char(c) => seq![Instruction::Char(c)],
        SpecAst::Plus(e) => shape_emitted(*e, base).push(
            Instruction::Split((base) as usize, (base + shape_size(*e) + 1) as usize),
        ),
        SpecAst::Star(e) => seq![
            Instruction::Split((base + 1) as usize, (base + shape_size(*e) + 2) as usize),
        ] + shape_emitted(*e, base + 1) + seq![Instruction::Jump(base as usize)],
        SpecAst::Question(e) => seq![
            Instruction::Split((base + 1) as usize, (base + shape_size(*e) + 1) as usize),
        ] + shape_emitted(*e, base + 1),
        SpecAst::Or(e1, e2) => seq![
            Instruction::Split((base + 1) as usize, (base + shape_size(*e1) + 2) as usize),
        ] + shape_emitted(*e1, base + 1) + seq![
            Instruction::Jump((base + shape_size(*e1) + shape_size(*e2) + 2) as usize),
        ] + shape_emitted(*e2, base + shape_size(*e1) + 2),
        SpecAst::Sequence(l) => shapes_emitted(l, base),
    }
}

/// The instructions that a list of shapes' code consists of.
pub open spec fn shapes_emitted(l: Seq<SpecAst>, base: int) -> Seq<Instruction>
    decreases l,
{
    if l.len() == 0 {
        Seq::empty()
    } else {
        shape_emitted(l[0], base) + shapes_emitted(l.drop_first(), base + shape_size(l[0]))
    }
}

/// A tree's code size depends only on its shape.
pub proof fn lemma_size_of_view(ast: AST)
    ensures
        ast_size(ast) == shape_size(ast_view(ast)),
    decreases ast,
{
    match ast {
        AST::Char(_) => {
        },
        AST::Plus(e) => {
            lemma_size_of_view(*e);
        },
        AST::Star(e) => {
            lemma_size_of_view(*e);
        },
        AST::Question(e) => {
            lemma_size_of_view(*e);
        },
        AST::Or(e1, e2) => {
            lemma_size_of_view(*e1);
            lemma_size_of_view(*e2);
        },
        AST::Sequence(v) => {
            lemma_sizes_of_view(v@);
        },
    }
}

/// A list's code size depends only on its members' shapes.
pub proof fn lemma_sizes_of_view(s: Seq<AST>)
    ensures
        seq_sizes(s) == shapes_size(asts_view(s)),
    decreases s,
{
    lemma_asts_view_index(s);
    if s.len() > 0 {
        lemma_size_of_view(s[0]);
        lemma_sizes_of_view(s.drop_first());
        lemma_asts_view_index(s.drop_first());
        assert(asts_view(s).drop_first() =~= asts_view(s.drop_first()));
    } else {
        assert(asts_view(s) =~= Seq::<SpecAst>::empty());
    }
}

/// A tree's code depends only on its shape.
pub proof fn lemma_emitted_of_view(ast: AST, base: int)
    ensures
        emitted(ast, base) == shape_emitted(ast_view(ast), base),
    decreases ast,
{
    match ast {
        AST::Char(_) => {
        },
        AST::Plus(e) => {
            lemma_emitted_of_view(*e, base);
            lemma_size_of_view(*e);
        },
        AST::Star(e) => {
            lemma_emitted_of_view(*e, base + 1);
            lemma_size_of_view(*e);
        },
        AST::Question(e) => {
            lemma_emitted_of_view(*e, base + 1);
            lemma_size_of_view(*e);
        },
        AST::Or(e1, e2) => {
            lemma_size_of_view(*e1);
            lemma_size_of_view(*e2);
            lemma_emitted_of_view(*e1, base + 1);
            lemma_emitted_of_view(*e2, base + ast_size(*e1) + 2);
        },
        AST::Sequence(v) => {
            lemma_emitted_list_of_view(v@, base);
        },
    }
}

/// A list's code depends only on its members' shapes.
pub proof fn lemma_emitted_list_of_view(s: Seq<AST>, base: int)
    ensures
        emitted_list(s, base) == shapes_emitted(asts_view(s), base),
    decreases s,
{
    lemma_asts_view_index(s);
    if s.len() > 0 {
        lemma_emitted_of_view(s[0], base);
        lemma_size_of_view(s[0]);
        lemma_emitted_list_of_view(s.drop_first(), base + ast_size(s[0]));
        lemma_asts_view_index(s.drop_first());
        assert(asts_view(s).drop_first() =~= asts_view(s.drop_first()));
    } else {
        assert(asts_view(s) =~= Seq::<SpecAst>::empty());
    }
}

/// Termination measure for the mutually recursive emitter functions: every
/// node weighs at least one more than its children together.
spec fn ast_weight(ast: AST) -> nat
    decreases ast,
{
    match ast {
        AST::Char(_) => 1,
        AST::Plus(e) => ast_weight(*e) + 1,
        AST::Star(e) => ast_weight(*e) + 1,
        AST::Question(e) => ast_weight(*e) + 1,
        AST::Or(e1, e2) => ast_weight(*e1) + ast_weight(*e2) + 1,
        AST::Sequence(v) => seq_weights(v@) + 1,
    }
}

/// Combined weight of a list of nodes.
spec fn seq_weights(s: Seq<AST>) -> nat
    decreases s,
{
    if s.len() == 0 {
        0
    } else {
        ast_weight(s[0]) + seq_weights(s.drop_first())
    }
}

/// Each member of a list weighs no more than the whole list.
proof fn lemma_seq_weights_mem(s: Seq<AST>, i: int)
    requires
        0 <= i < s.len(),
    ensures
        ast_weight(s[i]) <= seq_weights(s),
    decreases s.len(),
{
    if i > 0 {
        lemma_seq_weights_mem(s.drop_first(), i - 1);
        assert(s.drop_first()[i - 1] == s[i]);
    }
}

/// The emitter: a monotonically increasing program counter and the
/// instructions emitted so far, kept in lock step.
struct Generator {
    pc: usize,
    insts: Vec<Instruction>,
}

/// The emitter's invariant between node emissions: the counter equals the
/// number of emitted instructions, and no embedded address runs ahead of the
/// counter.
spec fn gen_wf(g: Generator) -> bool {
    &&& g.pc == g.insts@.len()
    &&& forall|k: int|
        0 <= k < g.insts@.len() ==> inst_bounded(#[trigger] g.insts@[k], g.pc as int)
}

/// What a successful emission of `size` instructions guarantees: the emitter
/// is well-formed again, the counter advanced by exactly `size`, and nothing
/// already emitted was touched.
spec fn gen_ok(pre: Generator, post: Generator, size: nat) -> bool {
    &&& gen_wf(post)
    &&& post.pc == pre.pc + size
    &&& post.insts@.subrange(0, pre.pc as int) == pre.insts@
}

impl Generator {
    /// Advances the program counter, reporting overflow instead of wrapping.
    fn inc_pc(&mut self) -> (r: Result<(), CodeGenError>)
        ensures
            final(self).insts == old(self).insts,
            old(self).pc < usize::MAX ==> r is Ok && final(self).pc == old(self).pc + 1,
            old(self).pc == usize::MAX ==> r is Err && final(self).pc == old(self).pc,
            r matches Err(e) ==> e == CodeGenError::PCOverFlow,
    {
        safe_add(
            &mut self.pc,
            &1,
            (|| -> (e: CodeGenError)
                ensures
                    e == CodeGenError::PCOverFlow,
                { CodeGenError::PCOverFlow }),
        )
    }

    /// Emits the code of one node.
    fn gen_expr(&mut self, ast: &AST) -> (r: Result<(), CodeGenError>)
        requires
            gen_wf(*old(self)),
        ensures
            old(self).pc + ast_size(*ast) <= usize::MAX ==> r is Ok,
            r is Ok ==> gen_ok(*old(self), *final(self), ast_size(*ast)) && final(self).insts@
                == old(self).insts@ + emitted(*ast, old(self).pc as int),
            r matches Err(e) ==> e == CodeGenError::PCOverFlow,
        decreases ast_weight(*ast), 1int,
    {
        let ghost pre = *self;
        let r = match ast {
            AST::Char(c) => self.gen_char(*c),
            AST::Plus(e) => self.gen_plus(e),
            AST::Star(e) => self.gen_star(e),
            AST::Question(e) => self.gen_question(e),
            AST::Or(e1, e2) => self.gen_or(e1, e2),
            AST::Sequence(v) => self.gen_seq(v),
        };
        proof {
            if r is Ok {
                assert(self.insts@ =~= pre.insts@ + emitted(*ast, pre.pc as int));
            }
        }
        r
    }

    /// Emits the code of a list of nodes, in order.
    fn gen_seq(&mut self, exprs: &Vec<AST>) -> (r: Result<(), CodeGenError>)
        requires
            gen_wf(*old(self)),
        ensures
            old(self).pc + seq_sizes(exprs@) <= usize::MAX ==> r is Ok,
            r is Ok ==> gen_ok(*old(self), *final(self), seq_sizes(exprs@)) && final(self).insts@
                == old(self).insts@ + emitted_list(exprs@, old(self).pc as int),
            r matches Err(e) ==> e == CodeGenError::PCOverFlow,
        decreases seq_weights(exprs@), 2int,
    {
        let ghost pre = *self;
        proof {
            assert(exprs@.subrange(0, exprs@.len() as int) =~= exprs@);
            assert(self.insts@.subrange(0, pre.pc as int) =~= pre.insts@);
            assert(exprs@.subrange(0, 0) =~= Seq::<AST>::empty());
            assert(pre.insts@ + emitted_list(Seq::<AST>::empty(), pre.pc as int) =~= pre.insts@);
        }
        let mut i: usize = 0;
        while i < exprs.len()
            invariant
                i <= exprs@.len(),
                pre == *old(self),
                gen_wf(*self),
                gen_wf(pre),
                self.pc + seq_sizes(exprs@.subrange(i as int, exprs@.len() as int)) == pre.pc
                    + seq_sizes(exprs@),
                self.pc == pre.pc + seq_sizes(exprs@.subrange(0, i as int)),
                self.insts@.subrange(0, pre.pc as int) == pre.insts@,
                self.insts@ == pre.insts@ + emitted_list(
                    exprs@.subrange(0, i as int),
                    pre.pc as int,
                ),
                pre.pc <= self.pc,
            decreases exprs@.len() - i,
        {
            let ghost mid = *self;
            let ghost suffix = exprs@.subrange(i as int, exprs@.len() as int);
            proof {
                lemma_seq_weights_mem(exprs@, i as int);
            }
            match self.gen_expr(&exprs[i]) {
                Ok(u) => u,
                Err(e) => {
                    proof {
                        assert(suffix[0] == exprs@[i as int]);
                        assert(seq_sizes(suffix) >= ast_size(exprs@[i as int]));
                    }
                    return Err(e);
                },
            }
            proof {
                assert(suffix.drop_first() =~= exprs@.subrange(i + 1, exprs@.len() as int));
                assert(self.insts@.subrange(0, pre.pc as int) =~= self.insts@.subrange(
                    0,
                    mid.pc as int,
                ).subrange(0, pre.pc as int));
                lemma_seq_sizes_snoc(exprs@, i as int);
                lemma_emitted_list_snoc(exprs@, pre.pc as int, i as int);
                assert(self.insts@ =~= pre.insts@ + emitted_list(
                    exprs@.subrange(0, i + 1),
                    pre.pc as int,
                ));
            }
            i = i + 1;
        }
        proof {
            assert(exprs@.subrange(exprs@.len() as int, exprs@.len() as int) =~= Seq::<
                AST,
            >::empty());
            assert(exprs@.subrange(0, exprs@.len() as int) =~= exprs@);
        }
        Ok(())
    }

    /// Emits one `Char` instruction.
    fn gen_char(&mut self, c: char) -> (r: Result<(), CodeGenError>)
        requires
            gen_wf(*old(self)),
        ensures
            old(self).pc < usize::MAX ==> r is Ok,
            r is Ok ==> gen_ok(*old(self), *final(self), 1) && final(self).insts@ == old(
                self,
            ).insts@ + seq![Instruction::Char(c)],
            r is Err ==> old(self).pc == usize::MAX && final(self).insts@ == old(
                self,
            ).insts@.push(Instruction::Char(c)),
            r matches Err(e) ==> e == CodeGenError::PCOverFlow,
    {
        let ghost pre = *self;
        self.insts.push(Instruction::Char(c));
        match self.inc_pc() {
            Ok(u) => u,
            Err(e) => {
                return Err(e);
            },
        }
        proof {
            assert(self.insts@.subrange(0, pre.pc as int) =~= pre.insts@);
            assert(self.insts@ =~= pre.insts@ + seq![Instruction::Char(c)]);
        }
        Ok(())
    }

    /// Emits alternation:
    /// a `Split` into the two alternatives, the first alternative, a `Jump`
    /// over the second, then the second alternative; both pending addresses
    /// are patched once known.
    fn gen_or(&mut self, e1: &AST, e2: &AST) -> (r: Result<(), CodeGenError>)
        requires
            gen_wf(*old(self)),
        ensures
            old(self).pc + ast_size(*e1) + ast_size(*e2) + 2 <= usize::MAX ==> r is Ok,
            r is Ok ==> gen_ok(*old(self), *final(self), ast_size(*e1) + ast_size(*e2) + 2)
                && final(self).insts@ == old(self).insts@ + seq![
                Instruction::Split(
                    (old(self).pc + 1) as usize,
                    (old(self).pc + ast_size(*e1) + 2) as usize,
                ),
            ] + emitted(*e1, old(self).pc + 1) + seq![
                Instruction::Jump((old(self).pc + ast_size(*e1) + ast_size(*e2) + 2) as usize),
            ] + emitted(*e2, old(self).pc + ast_size(*e1) + 2),
            r matches Err(e) ==> e == CodeGenError::PCOverFlow,
        decreases ast_weight(*e1) + ast_weight(*e2), 2int,
    {
        let ghost pre = *self;
        let split_addr = self.pc;
        match self.inc_pc() {
            Ok(u) => u,
            Err(e) => {
                return Err(e);
            },
        }
        let split = Instruction::Split(self.pc, 0);
        self.insts.push(split);
        proof {
            assert(self.insts@.subrange(0, pre.pc as int) =~= pre.insts@);
        }
        let ghost g1 = *self;
        match self.gen_expr(e1) {
            Ok(u) => u,
            Err(e) => {
                return Err(e);
            },
        }
        let ghost code1 = emitted(*e1, pre.pc + 1);
        proof {
            assert(code1.len() == ast_size(*e1));
        }
        let jmp_addr = self.pc;
        self.insts.push(Instruction::Jump(0));
        match self.inc_pc() {
            Ok(u) => u,
            Err(e) => {
                return Err(e);
            },
        }
        proof {
            assert(self.insts@[split_addr as int] == g1.insts@[split_addr as int]);
        }
        let l2 = self.pc;
        match self.insts[split_addr] {
            Instruction::Split(l1, _) => {
                self.insts[split_addr] = Instruction::Split(l1, l2);
            },
            _ => {
                return Err(CodeGenError::FailOr);
            },
        }
        proof {
            assert(self.insts@.subrange(0, pre.pc as int) =~= pre.insts@);
            assert(self.insts@ =~= pre.insts@ + seq![
                Instruction::Split((pre.pc + 1) as usize, (pre.pc + ast_size(*e1) + 2) as usize),
            ] + code1 + seq![Instruction::Jump(0)]);
        }
        let ghost g2 = *self;
        match self.gen_expr(e2) {
            Ok(u) => u,
            Err(e) => {
                return Err(e);
            },
        }
        let ghost code2 = emitted(*e2, pre.pc + ast_size(*e1) + 2);
        proof {
            assert(code2.len() == ast_size(*e2));
            assert(self.insts@[jmp_addr as int] == g2.insts@[jmp_addr as int]);
        }
        let l3 = self.pc;
        match self.insts[jmp_addr] {
            Instruction::Jump(_) => {
                self.insts[jmp_addr] = Instruction::Jump(l3);
            },
            _ => {
                return Err(CodeGenError::FailOr);
            },
        }
        proof {
            assert(self.insts@.subrange(0, pre.pc as int) =~= pre.insts@);
            assert(self.insts@ =~= pre.insts@ + seq![
                Instruction::Split((pre.pc + 1) as usize, (pre.pc + ast_size(*e1) + 2) as usize),
            ] + code1 + seq![
                Instruction::Jump((pre.pc + ast_size(*e1) + ast_size(*e2) + 2) as usize),
            ] + code2);
        }
        Ok(())
    }

    /// Emits zero-or-one repetition: a `Split` between the body and the exit,
    /// whose exit address is patched after the body.
    fn gen_question(&mut self, e: &AST) -> (r: Result<(), CodeGenError>)
        requires
            gen_wf(*old(self)),
        ensures
            old(self).pc + ast_size(*e) + 1 <= usize::MAX ==> r is Ok,
            r is Ok ==> gen_ok(*old(self), *final(self), ast_size(*e) + 1) && final(self).insts@
                == old(self).insts@ + seq![
                Instruction::Split(
                    (old(self).pc + 1) as usize,
                    (old(self).pc + ast_size(*e) + 1) as usize,
                ),
            ] + emitted(*e, old(self).pc + 1),
            r matches Err(e) ==> e == CodeGenError::PCOverFlow,
        decreases ast_weight(*e), 2int,
    {
        let ghost pre = *self;
        let split_addr = self.pc;
        match self.inc_pc() {
            Ok(u) => u,
            Err(e) => {
                return Err(e);
            },
        }
        let split = Instruction::Split(self.pc, 0);
        self.insts.push(split);
        proof {
            assert(self.insts@.subrange(0, pre.pc as int) =~= pre.insts@);
        }
        let ghost g1 = *self;
        match self.gen_expr(e) {
            Ok(u) => u,
            Err(er) => {
                return Err(er);
            },
        }
        let ghost code1 = emitted(*e, pre.pc + 1);
        proof {
            assert(code1.len() == ast_size(*e));
            assert(self.insts@[split_addr as int] == g1.insts@[split_addr as int]);
        }
        let l2 = self.pc;
        match self.insts[split_addr] {
            Instruction::Split(l1, _) => {
                self.insts[split_addr] = Instruction::Split(l1, l2);
            },
            _ => {
                return Err(CodeGenError::FailQuestion);
            },
        }
        proof {
            assert(self.insts@.subrange(0, pre.pc as int) =~= pre.insts@);
            assert(self.insts@ =~= pre.insts@ + seq![
                Instruction::Split((pre.pc + 1) as usize, (pre.pc + ast_size(*e) + 1) as usize),
            ] + code1);
        }
        Ok(())
    }

    /// Emits one-or-more repetition: the body followed by a `Split` back to
    /// it or out.
    fn gen_plus(&mut self, e: &AST) -> (r: Result<(), CodeGenError>)
        requires
            gen_wf(*old(self)),
        ensures
            old(self).pc + ast_size(*e) + 1 <= usize::MAX ==> r is Ok,
            r is Ok ==> gen_ok(*old(self), *final(self), ast_size(*e) + 1) && final(self).insts@
                == old(self).insts@ + emitted(*e, old(self).pc as int).push(
                Instruction::Split(old(self).pc, (old(self).pc + ast_size(*e) + 1) as usize),
            ),
            r matches Err(e) ==> e == CodeGenError::PCOverFlow,
        decreases ast_weight(*e), 2int,
    {
        let ghost pre = *self;
        let l1 = self.pc;
        match self.gen_expr(e) {
            Ok(u) => u,
            Err(er) => {
                return Err(er);
            },
        }
        match self.inc_pc() {
            Ok(u) => u,
            Err(er) => {
                return Err(er);
            },
        }
        let split = Instruction::Split(l1, self.pc);
        self.insts.push(split);
        proof {
            assert(self.insts@.subrange(0, pre.pc as int) =~= pre.insts@);
            assert(self.insts@ =~= pre.insts@ + emitted(*e, pre.pc as int).push(
                Instruction::Split(pre.pc, (pre.pc + ast_size(*e) + 1) as usize),
            ));
        }
        Ok(())
    }

    /// Emits zero-or-more repetition: a `Split` between the body and the
    /// exit, the body, and a `Jump` back to the `Split`; the exit address is
    /// patched after the body.
    fn gen_star(&mut self, e: &AST) -> (r: Result<(), CodeGenError>)
        requires
            gen_wf(*old(self)),
        ensures
            old(self).pc + ast_size(*e) + 2 <= usize::MAX ==> r is Ok,
            r is Ok ==> gen_ok(*old(self), *final(self), ast_size(*e) + 2) && final(self).insts@
                == old(self).insts@ + seq![
                Instruction::Split(
                    (old(self).pc + 1) as usize,
                    (old(self).pc + ast_size(*e) + 2) as usize,
                ),
            ] + emitted(*e, old(self).pc + 1) + seq![Instruction::Jump(old(self).pc)],
            r matches Err(e) ==> e == CodeGenError::PCOverFlow,
        decreases ast_weight(*e), 2int,
    {
        let ghost pre = *self;
        let l1 = self.pc;
        match self.inc_pc() {
            Ok(u) => u,
            Err(er) => {
                return Err(er);
            },
        }
        let split = Instruction::Split(self.pc, 0);
        self.insts.push(split);
        proof {
            assert(self.insts@.subrange(0, pre.pc as int) =~= pre.insts@);
        }
        let ghost g1 = *self;
        match self.gen_expr(e) {
            Ok(u) => u,
            Err(er) => {
                return Err(er);
            },
        }
        match self.inc_pc() {
            Ok(u) => u,
            Err(er) => {
                return Err(er);
            },
        }
        let ghost code1 = emitted(*e, pre.pc + 1);
        proof {
            assert(code1.len() == ast_size(*e));
        }
        self.insts.push(Instruction::Jump(l1));
        proof {
            assert(self.insts@[l1 as int] == g1.insts@[l1 as int]);
        }
        let l3 = self.pc;
        match self.insts[l1] {
            Instruction::Split(l2, _) => {
                self.insts[l1] = Instruction::Split(l2, l3);
            },
            _ => {
                return Err(CodeGenError::FailStar);
            },
        }
        proof {
            assert(self.insts@.subrange(0, pre.pc as int) =~= pre.insts@);
            assert(self.insts@ =~= pre.insts@ + seq![
                Instruction::Split((pre.pc + 1) as usize, (pre.pc + ast_size(*e) + 2) as usize),
            ] + code1 + seq![Instruction::Jump(pre.pc)]);
        }
        Ok(())
    }

    /// Emits the whole program: the root node's code and the final `Match`.
    fn gen_code(&mut self, ast: &AST) -> (r: Result<(), CodeGenError>)
        requires
            gen_wf(*old(self)),
        ensures
            old(self).pc + ast_size(*ast) + 1 <= usize::MAX ==> r is Ok,
            r is Ok ==> gen_ok(*old(self), *final(self), ast_size(*ast) + 1)
                && final(self).insts@.last() == Instruction::Match
                && code_ok(final(self).insts@)
                && final(self).insts@ == old(self).insts@ + emitted(*ast, old(self).pc as int).push(
                Instruction::Match,
            ),
            r matches Err(e) ==> e == CodeGenError::PCOverFlow,
    {
        match self.gen_expr(ast) {
            Ok(u) => u,
            Err(er) => {
                return Err(er);
            },
        }
        let ghost pre = *old(self);
        let ghost g1 = *self;
        match self.inc_pc() {
            Ok(u) => u,
            Err(er) => {
                return Err(er);
            },
        }
        self.insts.push(Instruction::Match);
        proof {
            assert(self.insts@ =~= pre.insts@ + emitted(*ast, pre.pc as int).push(
                Instruction::Match,
            ));
            assert(self.insts@.subrange(0, g1.pc as int) =~= g1.insts@);
            assert(self.insts@.subrange(0, pre.pc as int) =~= self.insts@.subrange(
                0,
                g1.pc as int,
            ).subrange(0, pre.pc as int));
            assert forall|k: int| 0 <= k < self.insts@.len() implies inst_bounded(
                #[trigger] self.insts@[k],
                self.pc as int,
            ) by {
                if k < g1.insts@.len() {
                    assert(self.insts@[k] == g1.insts@[k]);
                }
            }
            assert forall|k: int| 0 <= k < self.insts@.len() implies inst_bounded(
                #[trigger] self.insts@[k],
                self.insts@.len() - 1,
            ) by {
                if k < g1.insts@.len() {
                    assert(self.insts@[k] == g1.insts@[k]);
                    assert(inst_bounded(g1.insts@[k], g1.pc as int));
                }
            }
        }
        Ok(())
    }
}

/// Compiles an abstract syntax tree into a program: the tree's code followed
/// by a single accepting `Match`.  Every embedded address is a valid index
/// into the returned program, and the only reachable failure is program
/// counter overflow on a pathologically large tree.
pub fn get_code(ast: &AST) -> (r: Result<Vec<Instruction>, CodeGenError>)
    ensures
        ast_size(*ast) + 1 <= usize::MAX ==> r is Ok,
        r matches Ok(code) ==> code@ == emitted(*ast, 0).push(Instruction::Match) && code@.len()
            == ast_size(*ast) + 1 && code@.last() == Instruction::Match && code_ok(code@),
        r matches Err(e) ==> e == CodeGenError::PCOverFlow,
{
    let mut generator = Generator { pc: 0, insts: Vec::new() };
    match generator.gen_code(ast) {
        Ok(u) => u,
        Err(er) => {
            return Err(er);
        },
    }
    proof {
        assert(generator.insts@ =~= emitted(*ast, 0).push(Instruction::Match));
    }
    Ok(generator.insts)
}

} // verus!
