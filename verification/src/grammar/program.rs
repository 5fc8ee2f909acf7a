//! Programs: a sequence of statements, each an expression.

use vstd::prelude::*;
use crate::compiler::{listing, texts, Compiler, CompileError, Pool, Run};
use crate::grammar::expression::{parse_expr, Expr, ExprView};
use crate::grammar::registers::{lemma_program_steps_disciplined, lemma_same_registers_keep};
use crate::grammar::shape::{expr_wf, lemma_program_rule_wf};
use crate::grammar::syntax::{
    is_tail, lemma_expr_reads, lemma_next_line_is_tail, lemma_program_reads,
    lemma_starts_with_prefix, lemma_trim_is_tail, line_break_len, next_line, program_rule,
    program_tail,
};
use crate::grammar::visitor::{
    expr_code, lemma_listing_concat, lemma_steps_stay_failed_program, program_code,
    program_steps, Visitor,
};
use crate::parse::{outcome, Parse, ParseResult, Parsed, Rule};
use crate::scan::{skip_blanks, strip_token};

verus! {

/// The statements of a program, in source order.
#[derive(Debug, PartialEq)]
pub struct Program(pub Vec<Expr>);

/// The trees that a sequence of statements stands for.
pub open spec fn statements_view(statements: Seq<Expr>) -> Seq<ExprView> {
    Seq::new(statements.len(), |i: int| statements[i]@)
}

impl View for Program {
    type V = Seq<ExprView>;

    open spec fn view(&self) -> Seq<ExprView> {
        statements_view(self.0@)
    }
}

/// Skips the white space and the line break that may separate two
/// statements.
fn skip_to_next_line<'a>(input: &'a str) -> (r: &'a str)
    ensures
        r@ == next_line(input@),
{
    let at = skip_blanks(input);
    proof {
        reveal_strlit("\r\n");
        reveal_strlit("\n");
        lemma_trim_is_tail(input@);
        lemma_starts_with_prefix(at@, '\n');
        assert("\n"@ =~= seq!['\n']);
        let pair = "\r\n"@;
        assert(pair =~= seq!['\r', '\n']);
        if line_break_len(at@) == 2 {
            assert(pair =~= at@.subrange(0, 2));
        }
        if pair.is_prefix_of(at@) {
            assert(pair[0] == at@.subrange(0, 2)[0]);
            assert(pair[1] == at@.subrange(0, 2)[1]);
        }
    }
    match strip_token(at, "\r\n") {
        Some(next) => next,
        None => match strip_token(at, "\n") {
            Some(next) => next,
            None => {
                assert(at@ =~= at@.skip(0));
                at
            },
        },
    }
}

impl Program {
    /// Whether no chain in the program is written as an empty list: see
    /// [`Term::chains_written`](crate::grammar::term::Term::chains_written).
    pub open spec fn chains_written(&self) -> bool {
        forall|i: int| 0 <= i < self.0@.len() ==> (#[trigger] self.0@[i]).chains_written()
    }
}

/// Reads a program, one expression or more, from the front of `input`.
pub fn parse_program(input: &str) -> (r: ParseResult<'_, Program>)
    ensures
        outcome(r) == program_rule(input@),
        r matches Ok((_, node)) ==> node.chains_written(),
{
    let (after_first, first) = match parse_expr(input) {
        Err(e) => {
            return Err(e.within(Rule::Expression, 0));
        },
        Ok(found) => found,
    };
    let ghost start = after_first@;
    let mut cur = after_first;
    let mut statements: Vec<Expr> = Vec::new();
    statements.push(first);
    loop
        invariant
            statements@.len() > 0,
            forall|i: int|
                0 <= i < statements@.len() ==> (#[trigger] statements@[i]).chains_written(),
            program_tail(start).0 == program_tail(cur@).0,
            seq![first@] + program_tail(start).1 == statements_view(statements@) + program_tail(cur@).1,
        ensures
            statements@.len() > 0,
            forall|i: int|
                0 <= i < statements@.len() ==> (#[trigger] statements@[i]).chains_written(),
            program_tail(start).0 == cur@,
            seq![first@] + program_tail(start).1 == statements_view(statements@),
        decreases cur@.len(),
    {
        let next = skip_to_next_line(cur);
        proof {
            lemma_next_line_is_tail(cur@);
            lemma_expr_reads(next@);
        }
        match parse_expr(next) {
            Err(_) => {
                proof {
                    let seen = statements_view(statements@);
                    assert(seen + Seq::<ExprView>::empty() =~= seen);
                }
                break;
            },
            Ok((rest, statement)) => {
                proof {
                    let more = program_tail(rest@).1;
                    let seen = statements_view(statements@);
                    let grown = statements_view(statements@.push(statement));
                    assert(grown =~= seen.push(statement@));
                    assert(seen.push(statement@) + more =~= seen + (seq![statement@] + more));
                }
                statements.push(statement);
                cur = rest;
            },
        }
    }
    Ok((cur, Program(statements)))
}

impl Program {
    /// Compiles the program with all registers free and hands out its
    /// instructions, one line each. When a statement fails, nothing of what
    /// was emitted until then is handed out, only the error.
    pub fn compile(&self) -> (r: Result<Vec<String>, CompileError>)
        ensures
            match r {
                Ok(lines) => {
                    &&& program_code(self@, Pool::fresh()).error.is_none()
                    &&& texts(lines@) == listing(program_code(self@, Pool::fresh()).code)
                },
                Err(e) => program_code(self@, Pool::fresh()).error == Some(e),
            },
    {
        let mut compiler = Compiler::new();
        match self.compile_token(&mut compiler) {
            Ok(()) => {
                proof {
                    let code = program_code(self@, Pool::fresh()).code;
                    assert(Seq::<Seq<char>>::empty() + listing(code) =~= listing(code));
                }
                Ok(compiler.assembly)
            },
            Err(e) => Err(e),
        }
    }
}

impl<'a> Parse<'a> for Program {
    open spec fn syntax(text: Seq<char>) -> Parsed<Seq<ExprView>> {
        program_rule(text)
    }

    /// Reads a program from the front of `input`. What is read is never
    /// empty, what is handed back as unread is the rest of `input`, and the
    /// node is one that the grammar can yield, with `None` for every chain
    /// that has no link.
    fn parse(input: &'a str) -> (r: ParseResult<'a, Self>)
        ensures
            r matches Ok((rest, node)) ==> is_tail(rest@, input@) && rest@.len() < input@.len()
                && node.chains_written() && node@.len() > 0 && forall|i: int| 0 <= i < node@.len() ==> expr_wf(#[trigger] node@[i]),
            r matches Err(e) ==> e@.position <= input@.len(),
    {
        proof {
            lemma_program_reads(input@);
            lemma_program_rule_wf(input@);
        }
        parse_program(input)
    }
}

impl Visitor<'_> for Program {
    open spec fn code(&self, pool: Pool) -> Run {
        program_code(self@, pool)
    }

    open spec fn operands_ready(&self, pool: Pool) -> bool {
        true
    }

    /// Emits the instructions of the statements, in order. Each statement
    /// that compiles leaves its result in one more register in use.
    fn compile_token(&self, compiler: &mut Compiler) -> (r: Result<(), CompileError>)
        ensures
            r.is_ok() ==> final(compiler).used_reg@.len() == old(compiler).used_reg@.len()
                + self@.len(),
            r.is_ok() ==> final(compiler).free_reg@.len() + self@.len() == old(
                compiler,
            ).free_reg@.len(),
            old(compiler).wf() ==> final(compiler).wf(),
    {
        proof {
            let pool = compiler.pool();
            lemma_program_steps_disciplined(self@, self@.len(), pool);
            lemma_same_registers_keep(pool, program_code(self@, pool).pool);
        }
        let ghost start = compiler.pool();
        let ghost lines = compiler.lines();
        let n: usize = self.0.len();
        let mut i: usize = 0;
        assert(compiler.lines() =~= lines + listing(Run::idle(start).code));
        while i < n
            invariant
                start == old(compiler).pool(),
                lines == old(compiler).lines(),
                n == self.0@.len(),
                n == self@.len(),
                0 <= i <= n,
                old(compiler).wf() ==> program_code(self@, start).pool.wf(),
                program_steps(self@, i as nat, start).error.is_none(),
                compiler.pool() == program_steps(self@, i as nat, start).pool,
                compiler.lines() == lines + listing(program_steps(self@, i as nat, start).code),
            decreases n - i,
        {
            let ghost before = program_steps(self@, i as nat, start);
            let ghost statement = expr_code(self@[i as int], before.pool);
            proof {
                lemma_listing_concat(lines, before.code, statement.code);
            }
            match self.0[i].lower(compiler) {
                Err(e) => {
                    proof {
                        lemma_steps_stay_failed_program(self@, (i + 1) as nat, n as nat, start);
                    }
                    return Err(e);
                },
                Ok(()) => {},
            }
            i = i + 1;
        }
        Ok(())
    }
}

} // verus!
