//! The state of one compilation: the two register stacks and the instructions
//! emitted so far, with the model of what code generation does to them.

use vstd::prelude::*;
use vstd::string::*;
use crate::grammar::operator::Operator;
use crate::number::{decimal, signed_decimal, push_decimal, push_signed_decimal};

verus! {

/// Number of registers of the machine.
pub const REGISTER_COUNT: u8 = 31;

/// Why code generation stopped.
#[derive(Debug, PartialEq, Eq, Clone, Copy, Structural)]
pub enum CompileError {
    /// A register was needed and none was free.
    RegisterPoolExhausted,
    /// An operand for which no instruction is defined was reached.
    UnsupportedOperand,
}

/// One emitted instruction.
pub ghost enum Instruction {
    /// Puts the integer `value` into register `dst`.
    Load { dst: u8, value: i64 },
    /// Applies `op` to registers `left` and `right` and puts the result into `dst`.
    Binary { op: Operator, left: u8, right: u8, dst: u8 },
}

impl Instruction {
    /// The line of assembly that writes the instruction.
    pub open spec fn text(self) -> Seq<char> {
        match self {
            Instruction::Load { dst, value } => "LOAD $"@ + decimal(dst as nat) + " #"@
                + signed_decimal(value as int),
            Instruction::Binary { op, left, right, dst } => op.mnemonic() + " $"@ + decimal(
                left as nat,
            ) + " $"@ + decimal(right as nat) + " $"@ + decimal(dst as nat),
        }
    }
}

/// The lines that write a sequence of instructions, in order.
pub open spec fn listing(code: Seq<Instruction>) -> Seq<Seq<char>> {
    Seq::new(code.len(), |i: int| code[i].text())
}

/// How often register `r` occurs in `stack`.
pub open spec fn occurrences(stack: Seq<u8>, r: u8) -> nat
    decreases stack.len(),
{
    if stack.len() == 0 {
        0
    } else {
        occurrences(stack.drop_last(), r) + if stack.last() == r {
            1nat
        } else {
            0nat
        }
    }
}

/// Pushing a register adds one occurrence of it and of no other.
pub proof fn lemma_occurrences_push(stack: Seq<u8>, x: u8, r: u8)
    ensures
        occurrences(stack.push(x), r) == occurrences(stack, r) + if x == r { 1nat } else { 0nat },
{
    assert(stack.push(x).drop_last() =~= stack);
}

/// Removing the register at one place removes one occurrence of it and of
/// no other.
pub proof fn lemma_occurrences_remove(stack: Seq<u8>, i: int, r: u8)
    requires
        0 <= i < stack.len(),
    ensures
        occurrences(stack.remove(i), r) + if stack[i] == r {
            1nat
        } else {
            0nat
        } == occurrences(stack, r),
    decreases stack.len(),
{
    if i == stack.len() - 1 {
        assert(stack.remove(i) =~= stack.drop_last());
    } else {
        assert(stack.remove(i).drop_last() =~= stack.drop_last().remove(i));
        assert(stack.remove(i).last() == stack.last());
        lemma_occurrences_remove(stack.drop_last(), i, r);
    }
}

/// Where the lowest-numbered register of `stack` lies; of several places that
/// hold it, the one nearest the top.
pub open spec fn lowest_at(stack: Seq<u8>) -> int
    decreases stack.len(),
{
    if stack.len() <= 1 {
        0
    } else {
        let below = lowest_at(stack.drop_last());
        if stack.last() <= stack[below] {
            stack.len() - 1
        } else {
            below
        }
    }
}

/// Whether `r` is the lowest-numbered register of `stack`: it is one of its
/// registers, and none of them has a lower number.
pub open spec fn is_least(r: u8, stack: Seq<u8>) -> bool {
    &&& exists|i: int| 0 <= i < stack.len() && #[trigger] stack[i] == r
    &&& forall|i: int| 0 <= i < stack.len() ==> r <= #[trigger] stack[i]
}

/// The place of the lowest-numbered register lies in the stack, and no
/// register of the stack has a lower number than the one there.
pub proof fn lemma_lowest_is_least(stack: Seq<u8>)
    requires
        stack.len() > 0,
    ensures
        0 <= lowest_at(stack) < stack.len(),
        forall|i: int| 0 <= i < stack.len() ==> stack[lowest_at(stack)] <= #[trigger] stack[i],
        is_least(stack[lowest_at(stack)], stack),
    decreases stack.len(),
{
    if stack.len() > 1 {
        let rest = stack.drop_last();
        lemma_lowest_is_least(rest);
        assert forall|i: int| 0 <= i < stack.len() implies stack[lowest_at(stack)]
            <= #[trigger] stack[i] by {
            if i < stack.len() - 1 {
                assert(stack[i] == rest[i]);
            }
        }
    }
    assert(stack[lowest_at(stack)] == stack[lowest_at(stack)]);
}

/// The two register stacks. The last element of each is its top.
pub ghost struct Pool {
    /// Registers that hold nothing, in the order in which they were given
    /// back; the lowest-numbered one is handed out next.
    pub free: Seq<u8>,
    /// Registers that hold a live intermediate result; the top is the latest.
    pub used: Seq<u8>,
}

/// What one step of code generation did: the stacks it left, the instructions
/// it emitted, and the error that stopped it, if one did.
pub ghost struct Run {
    pub pool: Pool,
    pub code: Seq<Instruction>,
    pub error: Option<CompileError>,
}

impl Run {
    /// The result that the step reports.
    pub open spec fn reported(self) -> Result<(), CompileError> {
        match self.error {
            None => Ok(()),
            Some(e) => Err(e),
        }
    }
}

impl Pool {
    /// How often register `r` occurs on the two stacks together.
    pub open spec fn holds(self, r: u8) -> nat {
        occurrences(self.free, r) + occurrences(self.used, r)
    }

    /// No register occurs twice on the two stacks together, so a register
    /// that is handed out is not in use.
    pub open spec fn distinct(self) -> bool {
        forall|r: u8| self.holds(r) <= 1
    }

    /// Every register of the machine is on exactly one of the two stacks,
    /// exactly once, and nothing else is on them.
    pub open spec fn wf(self) -> bool {
        &&& self.free.len() + self.used.len() == REGISTER_COUNT
        &&& forall|r: u8| self.holds(r) == if r < REGISTER_COUNT { 1nat } else { 0nat }
    }

    /// The lowest-numbered free register, which is handed out next.
    pub open spec fn lowest(self) -> u8
        recommends
            self.free.len() > 0,
    {
        self.free[lowest_at(self.free)]
    }

    /// The free stack without the register that is handed out next; the
    /// others keep their order.
    pub open spec fn others(self) -> Seq<u8>
        recommends
            self.free.len() > 0,
    {
        self.free.remove(lowest_at(self.free))
    }

    /// The stacks before anything was compiled: nothing in use, and every
    /// register free, the highest-numbered at the bottom.
    pub open spec fn fresh() -> Pool {
        Pool { free: Seq::new(REGISTER_COUNT as nat, |i: int| (30 - i) as u8), used: Seq::empty() }
    }

    /// Loading a literal: the lowest-numbered free register receives the value
    /// and becomes the top register in use. With no free register nothing
    /// happens and the step fails.
    pub open spec fn load(self, value: i64) -> Run {
        if self.free.len() == 0 {
            Run { pool: self, code: Seq::empty(), error: Some(CompileError::RegisterPoolExhausted) }
        } else {
            let dst = self.lowest();
            Run {
                pool: Pool { free: self.others(), used: self.used.push(dst) },
                code: seq![Instruction::Load { dst, value }],
                error: None,
            }
        }
    }

    /// Applying an operator: the two top registers in use are its operands, the
    /// top one the right operand; the lowest-numbered free register receives
    /// the result and replaces both on the stack in use; the operands go back
    /// onto the free stack, the right one first. With no free register nothing
    /// happens and the step fails.
    pub open spec fn combine(self, op: Operator) -> Run
        recommends
            self.free.len() == 0 || self.used.len() >= 2,
    {
        if self.free.len() == 0 {
            Run { pool: self, code: Seq::empty(), error: Some(CompileError::RegisterPoolExhausted) }
        } else {
            let dst = self.lowest();
            let right = self.used[self.used.len() - 1];
            let left = self.used[self.used.len() - 2];
            Run {
                pool: Pool {
                    free: self.others().push(right).push(left),
                    used: self.used.take(self.used.len() - 2).push(dst),
                },
                code: seq![Instruction::Binary { op, left, right, dst }],
                error: None,
            }
        }
    }
}

/// The characters of each of `lines`.
pub open spec fn texts(lines: Seq<String>) -> Seq<Seq<char>> {
    Seq::new(lines.len(), |i: int| lines[i]@)
}

/// The state of one compilation.
pub struct Compiler {
    /// The free registers, in the order in which they were given back; the
    /// lowest-numbered one is handed out next.
    pub free_reg: Vec<u8>,
    /// Stack of registers holding live intermediate results.
    pub used_reg: Vec<u8>,
    /// The instructions emitted so far, one line each.
    pub assembly: Vec<String>,
}

impl Compiler {
    /// The two register stacks.
    pub open spec fn pool(&self) -> Pool {
        Pool { free: self.free_reg@, used: self.used_reg@ }
    }

    /// The emitted lines as sequences of characters.
    pub open spec fn lines(&self) -> Seq<Seq<char>> {
        texts(self.assembly@)
    }

    /// Whether the registers are accounted for: see [`Pool::wf`].
    pub open spec fn wf(&self) -> bool {
        self.pool().wf()
    }

    /// Whether `after` is what a compiler in state `self` becomes by the step
    /// `run`: the stacks are those that the step left, and the lines of its
    /// instructions follow the lines that were there.
    pub open spec fn advances_to(&self, after: &Compiler, run: Run) -> bool {
        &&& after.pool() == run.pool
        &&& after.lines() == self.lines() + listing(run.code)
    }

    /// Whether `after` is this compiler with one more register in use, on top
    /// of those that were in use, one fewer free, and `lines` more lines.
    pub open spec fn gained_result(&self, after: &Compiler, lines: nat) -> bool {
        &&& after.used_reg@.len() == self.used_reg@.len() + 1
        &&& after.used_reg@.drop_last() == self.used_reg@
        &&& after.free_reg@.len() + 1 == self.free_reg@.len()
        &&& after.assembly@.len() == self.assembly@.len() + lines
    }

    /// A compiler that has emitted nothing, with all registers free.
    pub fn new() -> (c: Compiler)
        ensures
            c.pool() == Pool::fresh(),
            c.lines() == Seq::<Seq<char>>::empty(),
            c.wf(),
    {
        let mut free_reg: Vec<u8> = Vec::new();
        let mut r: u8 = REGISTER_COUNT;
        while r > 0
            invariant
                r <= REGISTER_COUNT,
                free_reg@.len() == REGISTER_COUNT - r,
                forall|i: int| 0 <= i < free_reg@.len() ==> free_reg@[i] == 30 - i,
                forall|x: u8|
                    occurrences(free_reg@, x) == if r <= x && x < REGISTER_COUNT {
                        1nat
                    } else {
                        0nat
                    },
            decreases r,
        {
            r = r - 1;
            proof {
                assert forall|x: u8|
                    occurrences(free_reg@.push(r), x) == if r <= x && x < REGISTER_COUNT {
                        1nat
                    } else {
                        0nat
                    } by {
                    lemma_occurrences_push(free_reg@, r, x);
                }
            }
            free_reg.push(r);
        }
        let c = Compiler { free_reg, used_reg: Vec::new(), assembly: Vec::new() };
        assert(c.pool().free =~= Pool::fresh().free);
        assert(c.pool().used =~= Pool::fresh().used);
        assert(c.lines() =~= Seq::<Seq<char>>::empty());
        c
    }
}

/// Writes the line of a load instruction.
pub fn load_line(dst: u8, value: i64) -> (line: String)
    ensures
        line@ == (Instruction::Load { dst, value }).text(),
{
    let mut line = "LOAD $".to_owned();
    push_decimal(&mut line, dst as u64);
    line.append(" #");
    push_signed_decimal(&mut line, value);
    line
}

/// Writes the line of an operator instruction.
pub fn binary_line(op: Operator, left: u8, right: u8, dst: u8) -> (line: String)
    ensures
        line@ == (Instruction::Binary { op, left, right, dst }).text(),
{
    let mut line = match op {
        Operator::AddOp => "ADD".to_owned(),
        Operator::SubOp => "SUB".to_owned(),
        Operator::MultOp => "MUL".to_owned(),
        Operator::DivOp => "DIV".to_owned(),
    };
    line.append(" $");
    push_decimal(&mut line, left as u64);
    line.append(" $");
    push_decimal(&mut line, right as u64);
    line.append(" $");
    push_decimal(&mut line, dst as u64);
    line
}

impl Compiler {
    /// Hands out the lowest-numbered free register and takes it off the free
    /// stack, on which the others keep their order. Hands out nothing, and
    /// changes nothing, when no register is free.
    pub fn allocate(&mut self) -> (r: Option<u8>)
        ensures
            final(self).used_reg == old(self).used_reg,
            final(self).assembly == old(self).assembly,
            match r {
                Some(reg) => {
                    &&& old(self).free_reg@.len() > 0
                    &&& reg == old(self).pool().lowest()
                    &&& final(self).free_reg@ == old(self).pool().others()
                    &&& is_least(reg, old(self).free_reg@)
                },
                None => old(self).free_reg@.len() == 0 && final(self).free_reg == old(
                    self,
                ).free_reg,
            },
    {
        let n: usize = self.free_reg.len();
        if n == 0 {
            return None;
        }
        let mut at: usize = 0;
        let mut i: usize = 1;
        assert(self.free_reg@.take(1).len() == 1);
        while i < n
            invariant
                n == self.free_reg@.len(),
                *self == *old(self),
                1 <= i <= n,
                at == lowest_at(self.free_reg@.take(i as int)),
                0 <= at < i,
            decreases n - i,
        {
            proof {
                let next = self.free_reg@.take(i + 1);
                assert(next.drop_last() =~= self.free_reg@.take(i as int));
                assert(next.last() == self.free_reg@[i as int]);
                assert(next[at as int] == self.free_reg@[at as int]);
            }
            if self.free_reg[i] <= self.free_reg[at] {
                at = i;
            }
            i = i + 1;
        }
        proof {
            assert(self.free_reg@.take(n as int) =~= self.free_reg@);
            lemma_lowest_is_least(self.free_reg@);
        }
        let reg = self.free_reg.remove(at);
        Some(reg)
    }

    /// Appends one line to the emitted instructions.
    pub fn emit(&mut self, line: String)
        ensures
            final(self).pool() == old(self).pool(),
            final(self).lines() == old(self).lines().push(line@),
    {
        self.assembly.push(line);
        assert(self.lines() =~= old(self).lines().push(line@));
    }
}

impl Default for Compiler {
    /// A compiler with nothing on its stacks and nothing emitted. It has no
    /// register to hand out: see [`Compiler::new`] for one that has.
    fn default() -> (c: Compiler)
        ensures
            c.free_reg@.len() == 0,
            c.used_reg@.len() == 0,
            c.assembly@.len() == 0,
    {
        Compiler { free_reg: Vec::new(), used_reg: Vec::new(), assembly: Vec::new() }
    }
}

} // verus!
