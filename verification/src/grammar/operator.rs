//! The four binary operators.

use vstd::prelude::*;
use crate::compiler::{
    binary_line, is_least, lemma_lowest_is_least, listing, Compiler, CompileError, Pool, Run,
};
use crate::grammar::syntax::{any_operator_rule, lemma_starts_with_prefix, operator_rule};
use crate::grammar::registers::{lemma_combine_keeps_registers, lemma_same_registers_keep};
use crate::grammar::visitor::Visitor;
use crate::parse::{outcome, Parse, ParseError, ParseResult, Parsed, Rule};
use crate::scan::strip_token;

verus! {

/// A binary operator of the language.
#[derive(Debug, PartialEq, Eq, Clone, Copy, Structural)]
pub enum Operator {
    /// `+`
    AddOp,
    /// `-`
    SubOp,
    /// `*`
    MultOp,
    /// `/`
    DivOp,
}

impl Operator {
    /// Whether the operator belongs to the additive level of the grammar.
    pub open spec fn is_additive(self) -> bool {
        self == Operator::AddOp || self == Operator::SubOp
    }

    /// Whether the operator belongs to the multiplicative level of the grammar.
    pub open spec fn is_multiplicative(self) -> bool {
        self == Operator::MultOp || self == Operator::DivOp
    }

    /// The character that writes the operator in source text.
    pub open spec fn symbol(self) -> char {
        match self {
            Operator::AddOp => '+',
            Operator::SubOp => '-',
            Operator::MultOp => '*',
            Operator::DivOp => '/',
        }
    }

    /// The name of the instruction that performs the operator.
    pub open spec fn mnemonic(self) -> Seq<char> {
        match self {
            Operator::AddOp => "ADD"@,
            Operator::SubOp => "SUB"@,
            Operator::MultOp => "MUL"@,
            Operator::DivOp => "DIV"@,
        }
    }

    /// The operator as it is written in source text.
    pub fn token(&self) -> (r: &'static str)
        ensures
            r@ == seq![self.symbol()],
    {
        proof {
            reveal_strlit("+");
            reveal_strlit("-");
            reveal_strlit("*");
            reveal_strlit("/");
        }
        let r = match self {
            Operator::AddOp => "+",
            Operator::SubOp => "-",
            Operator::MultOp => "*",
            Operator::DivOp => "/",
        };
        assert(r@ =~= seq![self.symbol()]);
        r
    }

    /// The operator as it is written in source text, as an owned string.
    pub fn display_token(&self) -> (r: String)
        ensures
            r@ == seq![self.symbol()],
    {
        self.token().to_owned()
    }

    /// The rule that a failure to read this operator names.
    pub fn failure_rule(&self) -> (r: Rule)
        ensures
            r == self.rule(),
    {
        match self {
            Operator::AddOp => Rule::AddOperator,
            Operator::SubOp => Rule::SubtractOperator,
            Operator::MultOp => Rule::MultiplyOperator,
            Operator::DivOp => Rule::DivideOperator,
        }
    }
}

impl View for Operator {
    type V = Operator;

    open spec fn view(&self) -> Operator {
        *self
    }
}

/// Reads the operator `op` from the front of `input`.
pub fn parse_symbol<'a>(input: &'a str, op: Operator) -> (r: ParseResult<'a, Operator>)
    ensures
        outcome(r) == operator_rule(op, input@),
{
    proof {
        lemma_starts_with_prefix(input@, op.symbol());
    }
    match strip_token(input, op.token()) {
        Some(rest) => Ok((rest, op)),
        None => Err(ParseError::of(op.failure_rule(), 0)),
    }
}

/// Reads `+` from the front of `input`.
pub fn parse_add(input: &str) -> (r: ParseResult<'_, Operator>)
    ensures
        outcome(r) == operator_rule(Operator::AddOp, input@),
{
    parse_symbol(input, Operator::AddOp)
}

/// Reads `-` from the front of `input`.
pub fn parse_sub(input: &str) -> (r: ParseResult<'_, Operator>)
    ensures
        outcome(r) == operator_rule(Operator::SubOp, input@),
{
    parse_symbol(input, Operator::SubOp)
}

/// Reads `*` from the front of `input`.
pub fn parse_mul(input: &str) -> (r: ParseResult<'_, Operator>)
    ensures
        outcome(r) == operator_rule(Operator::MultOp, input@),
{
    parse_symbol(input, Operator::MultOp)
}

/// Reads `/` from the front of `input`.
pub fn parse_div(input: &str) -> (r: ParseResult<'_, Operator>)
    ensures
        outcome(r) == operator_rule(Operator::DivOp, input@),
{
    parse_symbol(input, Operator::DivOp)
}

/// Reads any of the four operators from the front of `input`.
pub fn parse_operator(input: &str) -> (r: ParseResult<'_, Operator>)
    ensures
        outcome(r) == any_operator_rule(input@),
{
    if let Ok(found) = parse_add(input) {
        return Ok(found);
    }
    if let Ok(found) = parse_sub(input) {
        return Ok(found);
    }
    if let Ok(found) = parse_mul(input) {
        return Ok(found);
    }
    match parse_div(input) {
        Ok(found) => Ok(found),
        Err(e) => Err(e.within(Rule::Operator, 0)),
    }
}

impl<'a> Parse<'a> for Operator {
    open spec fn syntax(text: Seq<char>) -> Parsed<Operator> {
        any_operator_rule(text)
    }

    fn parse(input: &'a str) -> (r: ParseResult<'a, Self>) {
        parse_operator(input)
    }
}

impl Visitor<'_> for Operator {
    open spec fn code(&self, pool: Pool) -> Run {
        pool.combine(*self)
    }

    open spec fn operands_ready(&self, pool: Pool) -> bool {
        pool.free.len() == 0 || pool.used.len() >= 2
    }

    /// Emits the instruction that applies the operator to the two registers
    /// on top of the stack in use and puts the result into the
    /// lowest-numbered free register.
    fn compile_token(&self, compiler: &mut Compiler) -> (r: Result<(), CompileError>)
        ensures
            r.is_ok() <==> old(compiler).free_reg@.len() > 0,
            r.is_ok() ==> is_least(final(compiler).used_reg@.last(), old(compiler).free_reg@),
            r.is_err() ==> r == Err::<(), CompileError>(CompileError::RegisterPoolExhausted),
            old(compiler).wf() ==> final(compiler).wf(),
    {
        proof {
            if compiler.pool().free.len() > 0 {
                lemma_lowest_is_least(compiler.pool().free);
            }
            if compiler.pool().used.len() >= 2 {
                lemma_combine_keeps_registers(compiler.pool(), *self);
                lemma_same_registers_keep(compiler.pool(), compiler.pool().combine(*self).pool);
            }
        }
        let result_reg: u8 = match compiler.allocate() {
            Some(reg) => reg,
            None => {
                assert(compiler.lines() =~= old(compiler).lines() + Seq::empty());
                return Err(CompileError::RegisterPoolExhausted);
            },
        };
        let right_reg: u8 = compiler.used_reg.pop().unwrap();
        let left_reg: u8 = compiler.used_reg.pop().unwrap();
        let line = binary_line(*self, left_reg, right_reg, result_reg);
        compiler.emit(line);
        compiler.used_reg.push(result_reg);
        compiler.free_reg.push(right_reg);
        compiler.free_reg.push(left_reg);
        proof {
            let run = old(compiler).pool().combine(*self);
            assert(compiler.pool().free =~= run.pool.free);
            assert(compiler.pool().used =~= run.pool.used);
            assert(compiler.lines() =~= old(compiler).lines() + listing(run.code));
        }
        Ok(())
    }
}

} // verus!
