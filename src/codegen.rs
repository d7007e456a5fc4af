//! Compilation of syntax trees into instructions for the matching machine.
use vstd::prelude::*;
use crate::helper::safe_add;
use crate::parser::{AST, Re, views, lemma_views};

verus! {

/// An instruction of the matching machine. Addresses are indices into the program.
#[derive(Debug, Clone, Copy, PartialEq, Eq, Structural)]
pub enum Instruction {
    /// Consume one input character equal to the given one.
    Char(char),
    /// Consume any one input character.
    AnyChar,
    /// Accept.
    Match,
    /// Continue at the given address.
    Jump(usize),
    /// Try the first address; on failure, the second one at the same input position.
    Split(usize, usize),
}

/// Type representing a code generation error.
///
/// `FailStar`, `FailOr` and `FailQuestion` mark a jump target of that
/// combinator that could not be filled in because the instruction at its
/// address was not the one emitted for it. `generate` is proved never to return
/// them. `Plus` fills in no target afterwards, so it has no such marker.
#[derive(Debug, Clone, Copy, PartialEq, Eq, Structural)]
pub enum CodeGenError {
    /// The program would need more addresses than `usize` holds.
    PCOverFlow,
    FailStar,
    FailOr,
    FailQuestion,
}

/// Number of instructions that `e` compiles to.
pub open spec fn size(e: Re) -> nat
    decreases e,
{
    match e {
        Re::Char(_) => 1,
        Re::Dot => 1,
        Re::Plus(b) => size(*b) + 1,
        Re::Star(b) => size(*b) + 2,
        Re::Question(b) => size(*b) + 1,
        Re::Or(l, r) => size(*l) + size(*r) + 2,
        Re::Concat(s) => size_seq(s),
    }
}

/// Number of instructions that the sequence `s` compiles to.
pub open spec fn size_seq(s: Seq<Re>) -> nat
    decreases s,
{
    if s.len() == 0 {
        0
    } else {
        size_seq(s.subrange(0, s.len() - 1)) + size(s[s.len() - 1])
    }
}

/// The instructions for `e` when its first one stands at address `pc`.
pub open spec fn code(e: Re, pc: int) -> Seq<Instruction>
    decreases e,
{
    match e {
        Re::Char(c) => seq![Instruction::Char(c)],
        Re::Dot => seq![Instruction::AnyChar],
        Re::Plus(b) => code(*b, pc).push(Instruction::Split(pc as usize, (pc + size(*b) + 1) as usize)),
        Re::Star(b) => seq![Instruction::Split((pc + 1) as usize, (pc + size(*b) + 2) as usize)]
            + code(*b, pc + 1).push(Instruction::Jump(pc as usize)),
        Re::Question(b) => seq![Instruction::Split((pc + 1) as usize, (pc + size(*b) + 1) as usize)]
            + code(*b, pc + 1),
        Re::Or(l, r) => seq![Instruction::Split((pc + 1) as usize, (pc + size(*l) + 2) as usize)]
            + code(*l, pc + 1).push(Instruction::Jump((pc + size(*l) + size(*r) + 2) as usize))
            + code(*r, pc + size(*l) + 2),
        Re::Concat(s) => code_seq(s, pc),
    }
}

/// The instructions for the sequence `s`, one block after the other, from address `pc`.
pub open spec fn code_seq(s: Seq<Re>, pc: int) -> Seq<Instruction>
    decreases s,
{
    if s.len() == 0 {
        Seq::empty()
    } else {
        let front = s.subrange(0, s.len() - 1);
        code_seq(front, pc) + code(s[s.len() - 1], pc + size_seq(front))
    }
}

/// The whole program for `e`: its block from address 0, then `Match`.
pub open spec fn program(e: Re) -> Seq<Instruction> {
    code(e, 0).push(Instruction::Match)
}

pub proof fn lemma_code_len(e: Re, pc: int)
    ensures
        code(e, pc).len() == size(e),
    decreases e,
{
    match e {
        Re::Plus(b) => lemma_code_len(*b, pc),
        Re::Star(b) => lemma_code_len(*b, pc + 1),
        Re::Question(b) => lemma_code_len(*b, pc + 1),
        Re::Or(l, r) => {
            lemma_code_len(*l, pc + 1);
            lemma_code_len(*r, pc + size(*l) + 2);
        },
        Re::Concat(s) => lemma_code_seq_len(s, pc),
        _ => {},
    }
}

pub proof fn lemma_code_seq_len(s: Seq<Re>, pc: int)
    ensures
        code_seq(s, pc).len() == size_seq(s),
    decreases s,
{
    if s.len() > 0 {
        let front = s.subrange(0, s.len() - 1);
        lemma_code_seq_len(front, pc);
        lemma_code_len(s[s.len() - 1], pc + size_seq(front));
    }
}

/// Code generator: the instructions emitted so far, and the address of the next one.
struct Generator {
    pc: usize,
    insts: Vec<Instruction>,
}

impl Generator {
    spec fn wf(&self) -> bool {
        self.pc == self.insts@.len()
    }

    /// Increment program counter.
    fn inc_pc(&mut self) -> (r: Result<(), CodeGenError>)
        ensures
            final(self).insts == old(self).insts,
            old(self).pc < usize::MAX ==> r is Ok && final(self).pc == old(self).pc + 1,
            old(self).pc == usize::MAX ==> r == Err::<(), CodeGenError>(CodeGenError::PCOverFlow)
                && final(self).pc == old(self).pc,
    {
        let overflow = || -> (e: CodeGenError)
            ensures
                e == CodeGenError::PCOverFlow,
        {
            CodeGenError::PCOverFlow
        };
        let one: usize = 1;
        safe_add(&mut self.pc, &one, overflow)
    }

    /// Appends one instruction at address `pc`.
    fn emit(&mut self, inst: Instruction) -> (r: Result<(), CodeGenError>)
        requires
            old(self).wf(),
        ensures
            final(self).wf(),
            old(self).pc < usize::MAX ==> r is Ok && final(self).insts@ == old(self).insts@.push(inst),
            old(self).pc == usize::MAX ==> r == Err::<(), CodeGenError>(CodeGenError::PCOverFlow),
    {
        self.inc_pc()?;
        self.insts.push(inst);
        Ok(())
    }

    /// Sets the second target of the `Split` at `addr`.
    fn set_split_target(&mut self, addr: usize, target: usize, err: CodeGenError) -> (r: Result<
        (),
        CodeGenError,
    >)
        ensures
            final(self).pc == old(self).pc,
            match r {
                Ok(()) => addr < old(self).insts@.len() && old(self).insts@[addr as int] is Split
                    && final(self).insts@ == old(self).insts@.update(
                    addr as int,
                    Instruction::Split(old(self).insts@[addr as int]->Split_0, target),
                ),
                Err(e) => e == err && !(addr < old(self).insts@.len()
                    && old(self).insts@[addr as int] is Split),
            },
    {
        if addr < self.insts.len() {
            if let Instruction::Split(l1, _) = self.insts[addr] {
                self.insts.set(addr, Instruction::Split(l1, target));
                return Ok(());
            }
        }
        Err(err)
    }

    /// Sets the target of the `Jump` at `addr`.
    fn set_jump_target(&mut self, addr: usize, target: usize, err: CodeGenError) -> (r: Result<
        (),
        CodeGenError,
    >)
        ensures
            final(self).pc == old(self).pc,
            match r {
                Ok(()) => addr < old(self).insts@.len() && old(self).insts@[addr as int] is Jump
                    && final(self).insts@ == old(self).insts@.update(
                    addr as int,
                    Instruction::Jump(target),
                ),
                Err(e) => e == err && !(addr < old(self).insts@.len()
                    && old(self).insts@[addr as int] is Jump),
            },
    {
        if addr < self.insts.len() {
            if let Instruction::Jump(_) = self.insts[addr] {
                self.insts.set(addr, Instruction::Jump(target));
                return Ok(());
            }
        }
        Err(err)
    }

    /// Emits the block of `ast` from the current address.
    fn gen_expr(&mut self, ast: &AST) -> (r: Result<(), CodeGenError>)
        requires
            old(self).wf(),
        ensures
            final(self).wf(),
            old(self).pc + size(ast.view()) <= usize::MAX ==> r is Ok && final(self).insts@
                == old(self).insts@ + code(ast.view(), old(self).pc as int),
            old(self).pc + size(ast.view()) > usize::MAX ==> r == Err::<(), CodeGenError>(
                CodeGenError::PCOverFlow,
            ),
        decreases ast,
    {
        let ghost pc0 = self.pc as int;
        let ghost i0 = self.insts@;
        proof {
            lemma_code_len(ast.view(), pc0);
        }
        match ast {
            AST::Char(c) => {
                self.emit(Instruction::Char(*c))
            },
            AST::Dot => {
                self.emit(Instruction::AnyChar)
            },
            AST::Or(e1, e2) => {
                let ghost l = (**e1).view();
                let ghost rr = (**e2).view();
                proof {
                    lemma_code_len(l, pc0 + 1);
                    lemma_code_len(rr, pc0 + size(l) + 2);
                }
                let split_addr = self.pc;
                self.inc_pc()?;
                self.insts.push(Instruction::Split(self.pc, 0));
                self.gen_expr(e1)?;
                let jmp_addr = self.pc;
                self.emit(Instruction::Jump(0))?;
                let l2 = self.pc;
                self.set_split_target(split_addr, l2, CodeGenError::FailOr)?;
                self.gen_expr(e2)?;
                let end = self.pc;
                self.set_jump_target(jmp_addr, end, CodeGenError::FailOr)?;
                proof {
                    assert(self.insts@ =~= i0 + code(ast.view(), pc0));
                }
                Ok(())
            },
            AST::Plus(e) => {
                let l1 = self.pc;
                self.gen_expr(e)?;
                self.inc_pc()?;
                self.insts.push(Instruction::Split(l1, self.pc));
                proof {
                    assert(self.insts@ =~= i0 + code(ast.view(), pc0));
                }
                Ok(())
            },
            AST::Star(e) => {
                let ghost b = (**e).view();
                proof {
                    lemma_code_len(b, pc0 + 1);
                }
                let l1 = self.pc;
                self.inc_pc()?;
                self.insts.push(Instruction::Split(self.pc, 0));
                self.gen_expr(e)?;
                self.emit(Instruction::Jump(l1))?;
                let end = self.pc;
                self.set_split_target(l1, end, CodeGenError::FailStar)?;
                proof {
                    assert(self.insts@ =~= i0 + code(ast.view(), pc0));
                }
                Ok(())
            },
            AST::Question(e) => {
                let ghost b = (**e).view();
                proof {
                    lemma_code_len(b, pc0 + 1);
                }
                let split_addr = self.pc;
                self.inc_pc()?;
                self.insts.push(Instruction::Split(self.pc, 0));
                self.gen_expr(e)?;
                let end = self.pc;
                self.set_split_target(split_addr, end, CodeGenError::FailQuestion)?;
                proof {
                    assert(self.insts@ =~= i0 + code(ast.view(), pc0));
                }
                Ok(())
            },
            AST::Concat(v) => {
                let ghost s = views(v@);
                proof {
                    lemma_views(v@);
                    assert(s.subrange(0, 0) =~= Seq::<Re>::empty());
                }
                let mut i: usize = 0;
                while i < v.len()
                    invariant
                        self.wf(),
                        i <= v@.len(),
                        s == views(v@),
                        s.len() == v@.len(),
                        forall|j: int| 0 <= j < v@.len() ==> #[trigger] s[j] == v@[j].view(),
                        ast.view() == Re::Concat(s),
                        (*ast)->Concat_0 == *v,
                        pc0 == old(self).pc,
                        i0 == old(self).insts@,
                        self.pc == pc0 + size_seq(s.subrange(0, i as int)),
                        self.insts@ == i0 + code_seq(s.subrange(0, i as int), pc0),
                    decreases v@.len() - i,
                {
                    proof {
                        let p = s.subrange(0, i as int + 1);
                        assert(p.subrange(0, i as int) =~= s.subrange(0, i as int));
                        lemma_size_seq_prefix(s, i as int + 1);
                        lemma_code_len(s[i as int], self.pc as int);
                        assert(p[i as int] == s[i as int]);
                        assert(size_seq(p) == size_seq(s.subrange(0, i as int)) + size(s[i as int]));
                        assert(code_seq(p, pc0) == code_seq(s.subrange(0, i as int), pc0) + code(
                            s[i as int],
                            pc0 + size_seq(s.subrange(0, i as int)),
                        ));
                        assert(size(ast.view()) == size_seq(s));
                        assert(self.pc + size(v@[i as int].view()) <= pc0 + size(ast.view()));
                        assert(decreases_to!(*ast => (*ast)->Concat_0));
                        assert(decreases_to!((*ast)->Concat_0 => (*ast)->Concat_0@));
                        assert(decreases_to!((*ast)->Concat_0@ => v@[i as int]));
                    }
                    self.gen_expr(&v[i])?;
                    i = i + 1;
                }
                proof {
                    assert(s.subrange(0, s.len() as int) =~= s);
                }
                Ok(())
            },
        }
    }
}

pub proof fn lemma_size_seq_prefix(s: Seq<Re>, k: int)
    requires
        0 <= k <= s.len(),
    ensures
        size_seq(s.subrange(0, k)) <= size_seq(s),
    decreases s.len() - k,
{
    if k < s.len() {
        let p = s.subrange(0, k + 1);
        assert(p.subrange(0, k) =~= s.subrange(0, k));
        lemma_size_seq_prefix(s, k + 1);
    } else {
        assert(s.subrange(0, k) =~= s);
    }
}

/// Compiles `ast` into a program that ends with `Match`.
pub fn generate(ast: &AST) -> (r: Result<Vec<Instruction>, CodeGenError>)
    ensures
        size(ast.view()) < usize::MAX ==> (r matches Ok(v) && v@ == program(ast.view())),
        size(ast.view()) >= usize::MAX ==> r == Err::<Vec<Instruction>, CodeGenError>(
            CodeGenError::PCOverFlow,
        ),
{
    let mut g = Generator { pc: 0, insts: Vec::new() };
    proof {
        lemma_code_len(ast.view(), 0);
    }
    g.gen_expr(ast)?;
    assert(g.insts@ =~= code(ast.view(), 0));
    g.emit(Instruction::Match)?;
    proof {
        assert(g.insts@ =~= program(ast.view()));
    }
    Ok(g.insts)
}

} // verus!
