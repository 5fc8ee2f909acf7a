use exprc::grammar::expression::{parse_expr, parse_expr_link, Expr};
use exprc::grammar::factor::{
    parse_factor, parse_float, parse_identifier, parse_int, parse_paren_expr, Decimal, Factor,
};
use exprc::grammar::operator::{
    parse_add, parse_div, parse_mul, parse_operator, parse_sub, parse_symbol, Operator,
};
use exprc::grammar::program::{parse_program, Program};
use exprc::grammar::term::{parse_term, parse_term_link, Term};
use exprc::parse::{consumed, Parse, ParseError, Rule};

fn int_term(value: i64) -> Term {
    Term {
        left: Box::new(Factor::Integer(value)),
        rest: None,
    }
}

fn int_expr(value: i64) -> Expr {
    Expr {
        left: Box::new(int_term(value)),
        rest: None,
    }
}

fn decimal(negative: bool, whole: &str, fraction: &str) -> Factor {
    Factor::Float(Decimal {
        negative,
        whole: whole.to_string(),
        fraction: fraction.to_string(),
    })
}

fn failure(stack: Vec<Rule>, position: usize) -> ParseError {
    ParseError {
        context_stack: stack,
        position,
    }
}

#[test]
fn integer_literals() {
    assert_eq!(parse_int("98"), Ok(("", Factor::Integer(98))));
    assert_eq!(parse_int("-3"), Ok(("", Factor::Integer(-3))));
    assert_eq!(parse_int("007"), Ok(("", Factor::Integer(7))));
    assert_eq!(parse_int("0"), Ok(("", Factor::Integer(0))));
}

#[test]
fn integer_leaves_what_follows_the_digits() {
    assert_eq!(parse_int("12abc"), Ok(("abc", Factor::Integer(12))));
    assert_eq!(parse_int("12 + 3"), Ok((" + 3", Factor::Integer(12))));
    assert_eq!(parse_int("-9- 8"), Ok(("- 8", Factor::Integer(-9))));
}

#[test]
fn integer_limits() {
    assert_eq!(
        parse_int("9223372036854775807"),
        Ok(("", Factor::Integer(i64::MAX)))
    );
    assert_eq!(
        parse_int("-9223372036854775807"),
        Ok(("", Factor::Integer(-i64::MAX)))
    );
    assert_eq!(
        parse_int("9223372036854775808"),
        Err(failure(vec![Rule::Integer], 0))
    );
    assert_eq!(
        parse_int("-9223372036854775808"),
        Err(failure(vec![Rule::Integer], 1))
    );
    assert_eq!(
        parse_int("99999999999999999999999999"),
        Err(failure(vec![Rule::Integer], 0))
    );
}

#[test]
fn integer_failures() {
    assert_eq!(parse_int(""), Err(failure(vec![Rule::Integer], 0)));
    assert_eq!(parse_int("x"), Err(failure(vec![Rule::Integer], 0)));
    assert_eq!(parse_int("-"), Err(failure(vec![Rule::Integer], 1)));
    assert_eq!(parse_int("-x"), Err(failure(vec![Rule::Integer], 1)));
    assert_eq!(parse_int(" 1"), Err(failure(vec![Rule::Integer], 0)));
    assert_eq!(parse_int("--1"), Err(failure(vec![Rule::Integer], 1)));
}

#[test]
fn float_literals() {
    assert_eq!(parse_float("98.4"), Ok(("", decimal(false, "98", "4"))));
    assert_eq!(parse_float("-3.2"), Ok(("", decimal(true, "3", "2"))));
    assert_eq!(parse_float("-9.8  - 8"), Ok(("  - 8", decimal(true, "9", "8"))));
    assert_eq!(parse_float("2.0*x"), Ok(("*x", decimal(false, "2", "0"))));
    assert_eq!(parse_float("1.2.3"), Ok((".3", decimal(false, "1", "2"))));
}

#[test]
fn float_failures() {
    assert_eq!(parse_float(""), Err(failure(vec![Rule::Float], 0)));
    assert_eq!(parse_float(".5"), Err(failure(vec![Rule::Float], 0)));
    assert_eq!(parse_float("-.5"), Err(failure(vec![Rule::Float], 1)));
    assert_eq!(parse_float("3"), Err(failure(vec![Rule::Float], 1)));
    assert_eq!(parse_float("32x"), Err(failure(vec![Rule::Float], 2)));
    assert_eq!(parse_float("3."), Err(failure(vec![Rule::Float], 2)));
    assert_eq!(parse_float("-3.x"), Err(failure(vec![Rule::Float], 3)));
    assert_eq!(parse_float("3 .5"), Err(failure(vec![Rule::Float], 1)));
}

#[test]
fn identifiers() {
    assert_eq!(
        parse_identifier("identi"),
        Ok(("", Factor::Identifier("identi".to_string())))
    );
    assert_eq!(
        parse_identifier("Xy z"),
        Ok((" z", Factor::Identifier("Xy".to_string())))
    );
    assert_eq!(
        parse_identifier("x1"),
        Ok(("1", Factor::Identifier("x".to_string())))
    );
    assert_eq!(
        parse_identifier("1x"),
        Err(failure(vec![Rule::Identifier], 0))
    );
    assert_eq!(parse_identifier(""), Err(failure(vec![Rule::Identifier], 0)));
    assert_eq!(
        parse_identifier("_a"),
        Err(failure(vec![Rule::Identifier], 0))
    );
}

#[test]
fn identifier_stops_at_letters_outside_ascii() {
    assert_eq!(
        parse_identifier("ab\u{e9}c"),
        Ok(("\u{e9}c", Factor::Identifier("ab".to_string())))
    );
}

#[test]
fn single_operators() {
    assert_eq!(parse_add("+1"), Ok(("1", Operator::AddOp)));
    assert_eq!(parse_sub("-1"), Ok(("1", Operator::SubOp)));
    assert_eq!(parse_mul("*1"), Ok(("1", Operator::MultOp)));
    assert_eq!(parse_div("/1"), Ok(("1", Operator::DivOp)));
    assert_eq!(parse_symbol("/ 2", Operator::DivOp), Ok((" 2", Operator::DivOp)));
}

#[test]
fn single_operator_failures() {
    assert_eq!(parse_add("-"), Err(failure(vec![Rule::AddOperator], 0)));
    assert_eq!(parse_sub("+"), Err(failure(vec![Rule::SubtractOperator], 0)));
    assert_eq!(parse_mul("/"), Err(failure(vec![Rule::MultiplyOperator], 0)));
    assert_eq!(parse_div("*"), Err(failure(vec![Rule::DivideOperator], 0)));
    assert_eq!(parse_add(""), Err(failure(vec![Rule::AddOperator], 0)));
    assert_eq!(parse_add(" +"), Err(failure(vec![Rule::AddOperator], 0)));
}

#[test]
fn any_operator() {
    assert_eq!(parse_operator("+-"), Ok(("-", Operator::AddOp)));
    assert_eq!(parse_operator("-+"), Ok(("+", Operator::SubOp)));
    assert_eq!(parse_operator("*x"), Ok(("x", Operator::MultOp)));
    assert_eq!(parse_operator("/x"), Ok(("x", Operator::DivOp)));
    assert_eq!(
        parse_operator("x"),
        Err(failure(vec![Rule::DivideOperator, Rule::Operator], 0))
    );
    assert_eq!(
        Operator::parse(""),
        Err(failure(vec![Rule::DivideOperator, Rule::Operator], 0))
    );
}

#[test]
fn operator_text_reads_back() {
    for op in [
        Operator::AddOp,
        Operator::SubOp,
        Operator::MultOp,
        Operator::DivOp,
    ] {
        let text = op.display_token();
        assert_eq!(text, op.token());
        assert_eq!(parse_operator(&text), Ok(("", op)));
    }
}

#[test]
fn rule_names() {
    assert_eq!(Rule::Integer.name(), "Integer");
    assert_eq!(Rule::Float.name(), "Float");
    assert_eq!(Rule::Identifier.name(), "Identifier");
    assert_eq!(
        Rule::ParenthesizedExpression.name(),
        "Parenthesized Expression"
    );
    assert_eq!(Rule::Factor.name(), "Factor");
    assert_eq!(Rule::AddOperator.name(), "Add Operator");
    assert_eq!(Rule::SubtractOperator.name(), "Subtract Operator");
    assert_eq!(Rule::MultiplyOperator.name(), "Multiply Operator");
    assert_eq!(Rule::DivideOperator.name(), "Divide Operator");
    assert_eq!(Rule::Operator.name(), "Operator");
    assert_eq!(Rule::Term.name(), "Term");
    assert_eq!(Rule::Expression.name(), "Expression");
}

#[test]
fn failures_are_built_innermost_first() {
    let inner = ParseError::of(Rule::Integer, 2);
    assert_eq!(inner, failure(vec![Rule::Integer], 2));
    let outer = inner.within(Rule::Factor, 3);
    assert_eq!(outer, failure(vec![Rule::Integer, Rule::Factor], 5));
}

#[test]
fn consumed_counts_characters() {
    let input = "ab\u{e9}cd";
    assert_eq!(consumed(input, "cd"), 3);
    assert_eq!(consumed(input, input), 0);
    assert_eq!(consumed(input, ""), 5);
}

#[test]
fn factor_tries_its_alternatives_in_order() {
    assert_eq!(
        parse_factor("x1"),
        Ok(("1", Factor::Identifier("x".to_string())))
    );
    assert_eq!(parse_factor("32.55"), Ok(("", decimal(false, "32", "55"))));
    assert_eq!(parse_factor("32."), Ok((".", Factor::Integer(32))));
    assert_eq!(parse_factor("-32"), Ok(("", Factor::Integer(-32))));
    assert_eq!(
        parse_factor("(7)"),
        Ok(("", Factor::Expr(int_expr(7))))
    );
}

#[test]
fn factor_failure_is_that_of_the_last_alternative() {
    assert_eq!(
        parse_factor("+"),
        Err(failure(
            vec![Rule::ParenthesizedExpression, Rule::Factor],
            0
        ))
    );
    assert_eq!(
        Factor::parse(""),
        Err(failure(
            vec![Rule::ParenthesizedExpression, Rule::Factor],
            0
        ))
    );
    assert_eq!(
        parse_factor(" 1"),
        Err(failure(
            vec![Rule::ParenthesizedExpression, Rule::Factor],
            0
        ))
    );
}

#[test]
fn parenthesized_expression() {
    let (rest, factor) = parse_paren_expr("(9 *-8)").unwrap();
    assert_eq!(rest, "");
    let expected = Expr {
        left: Box::new(Term {
            left: Box::new(Factor::Integer(9)),
            rest: Some(vec![(Operator::MultOp, Factor::Integer(-8))]),
        }),
        rest: None,
    };
    assert_eq!(factor, Factor::Expr(expected));
}

#[test]
fn parenthesized_factor_wraps_the_term_inside() {
    let (rest, factor) = Factor::parse("( -9 * 8 )").unwrap();
    assert_eq!(rest, "");
    let (_, direct) = Term::parse("-9 * 8").unwrap();
    match factor {
        Factor::Expr(expr) => {
            assert_eq!(*expr.left, direct);
            assert_eq!(expr.rest, None);
        }
        other => panic!("not a parenthesized expression: {:?}", other),
    }
}

#[test]
fn parentheses_nest() {
    let (rest, factor) = parse_factor("((1))x").unwrap();
    assert_eq!(rest, "x");
    let inner = Factor::Expr(int_expr(1));
    let outer = Expr {
        left: Box::new(Term {
            left: Box::new(inner),
            rest: None,
        }),
        rest: None,
    };
    assert_eq!(factor, Factor::Expr(outer));
    assert!(parse_factor("(((((((((((4)))))))))))").is_ok());
    assert!(parse_expr("(1+(2*(3-(4/5))))").is_ok());
}

#[test]
fn parenthesized_expression_failures() {
    assert_eq!(
        parse_paren_expr("1"),
        Err(failure(vec![Rule::ParenthesizedExpression], 0))
    );
    assert_eq!(
        parse_paren_expr("(1"),
        Err(failure(vec![Rule::ParenthesizedExpression], 2))
    );
    assert_eq!(
        parse_paren_expr("(1 2)"),
        Err(failure(vec![Rule::ParenthesizedExpression], 3))
    );
    assert_eq!(
        parse_paren_expr("((1)"),
        Err(failure(vec![Rule::ParenthesizedExpression], 4))
    );
    assert_eq!(
        parse_paren_expr("()"),
        Err(failure(
            vec![
                Rule::ParenthesizedExpression,
                Rule::Factor,
                Rule::Term,
                Rule::Expression,
                Rule::ParenthesizedExpression
            ],
            1
        ))
    );
    assert_eq!(
        parse_paren_expr("(  *)"),
        Err(failure(
            vec![
                Rule::ParenthesizedExpression,
                Rule::Factor,
                Rule::Term,
                Rule::Expression,
                Rule::ParenthesizedExpression
            ],
            3
        ))
    );
}

#[test]
fn term_with_and_without_a_chain() {
    assert_eq!(parse_term("8"), Ok(("", int_term(8))));
    let chain = Term {
        left: Box::new(Factor::Integer(8)),
        rest: Some(vec![
            (Operator::DivOp, Factor::Integer(4)),
            (Operator::MultOp, Factor::Identifier("x".to_string())),
        ]),
    };
    assert_eq!(parse_term("8 / 4*x"), Ok(("", chain)));
}

#[test]
fn term_stops_before_an_additive_operator() {
    let (rest, term) = parse_term("2*3+4").unwrap();
    assert_eq!(rest, "+4");
    assert_eq!(
        term,
        Term {
            left: Box::new(Factor::Integer(2)),
            rest: Some(vec![(Operator::MultOp, Factor::Integer(3))]),
        }
    );
}

#[test]
fn term_takes_the_blanks_after_a_link_only() {
    assert_eq!(parse_term("2 ").unwrap().0, " ");
    assert_eq!(parse_term("2*3  ").unwrap().0, "");
    assert_eq!(parse_term("2 * ").unwrap().0, " * ");
    assert_eq!(parse_term("2 * +").unwrap().0, " * +");
}

#[test]
fn term_links() {
    assert_eq!(
        parse_term_link(" * 3 rest"),
        Some(("rest", (Operator::MultOp, Factor::Integer(3))))
    );
    assert_eq!(
        parse_term_link("/x"),
        Some(("", (Operator::DivOp, Factor::Identifier("x".to_string()))))
    );
    assert_eq!(parse_term_link("+ 3"), None);
    assert_eq!(parse_term_link("* "), None);
    assert_eq!(parse_term_link(""), None);
}

#[test]
fn expression_links() {
    assert_eq!(
        parse_expr_link(" - 3 rest"),
        Some((" rest", (Operator::SubOp, int_term(3))))
    );
    assert_eq!(
        parse_expr_link("+2*5 "),
        Some((
            "",
            (
                Operator::AddOp,
                Term {
                    left: Box::new(Factor::Integer(2)),
                    rest: Some(vec![(Operator::MultOp, Factor::Integer(5))]),
                }
            )
        ))
    );
    assert_eq!(parse_expr_link("* 3"), None);
    assert_eq!(parse_expr_link("+"), None);
}

#[test]
fn term_failure() {
    assert_eq!(
        parse_term("*2"),
        Err(failure(
            vec![Rule::ParenthesizedExpression, Rule::Factor, Rule::Term],
            0
        ))
    );
}

#[test]
fn multiplication_with_and_without_parentheses() {
    let (_, plain) = Term::parse("8*1").unwrap();
    let (_, wrapped) = Factor::parse("(8*1)").unwrap();
    match wrapped {
        Factor::Expr(expr) => {
            assert_eq!(*expr.left, plain);
            assert_eq!(expr.rest, None);
        }
        other => panic!("not a parenthesized expression: {:?}", other),
    }
}

#[test]
fn the_sign_belongs_to_the_literal() {
    assert_eq!(parse_factor("-9"), Ok(("", Factor::Integer(-9))));
    assert_eq!(parse_factor("-9.8"), Ok(("", decimal(true, "9", "8"))));
    let (rest, expr) = parse_expr("1 - -2").unwrap();
    assert_eq!(rest, "");
    assert_eq!(
        expr,
        Expr {
            left: Box::new(int_term(1)),
            rest: Some(vec![(Operator::SubOp, int_term(-2))]),
        }
    );
    let (rest, expr) = parse_expr("1-2").unwrap();
    assert_eq!(rest, "");
    assert_eq!(
        expr,
        Expr {
            left: Box::new(int_term(1)),
            rest: Some(vec![(Operator::SubOp, int_term(2))]),
        }
    );
}

#[test]
fn expression_chain_is_kept_in_source_order() {
    let (rest, expr) = parse_expr("8-3-2").unwrap();
    assert_eq!(rest, "");
    assert_eq!(
        expr,
        Expr {
            left: Box::new(int_term(8)),
            rest: Some(vec![
                (Operator::SubOp, int_term(3)),
                (Operator::SubOp, int_term(2)),
            ]),
        }
    );
}

#[test]
fn multiplication_binds_tighter_than_addition() {
    let (rest, expr) = parse_expr("-1 +9 * -8 - (3*1)").unwrap();
    assert_eq!(rest, "");
    let product = Term {
        left: Box::new(Factor::Integer(9)),
        rest: Some(vec![(Operator::MultOp, Factor::Integer(-8))]),
    };
    let inner = Expr {
        left: Box::new(Term {
            left: Box::new(Factor::Integer(3)),
            rest: Some(vec![(Operator::MultOp, Factor::Integer(1))]),
        }),
        rest: None,
    };
    let last = Term {
        left: Box::new(Factor::Expr(inner)),
        rest: None,
    };
    assert_eq!(
        expr,
        Expr {
            left: Box::new(int_term(-1)),
            rest: Some(vec![(Operator::AddOp, product), (Operator::SubOp, last)]),
        }
    );
}

#[test]
fn parenthesized_subtraction() {
    let (rest, expr) = Expr::parse("(-9- 8)").unwrap();
    assert_eq!(rest, "");
    let inner = Expr {
        left: Box::new(int_term(-9)),
        rest: Some(vec![(Operator::SubOp, int_term(8))]),
    };
    assert_eq!(
        expr,
        Expr {
            left: Box::new(Term {
                left: Box::new(Factor::Expr(inner)),
                rest: None,
            }),
            rest: None,
        }
    );
}

#[test]
fn expression_skips_leading_blanks() {
    assert_eq!(parse_expr("  \t 5"), Ok(("", int_expr(5))));
    assert_eq!(parse_expr("5  "), Ok(("  ", int_expr(5))));
}

#[test]
fn expression_does_not_cross_a_line_break() {
    assert_eq!(parse_expr("6\n+ 7"), Ok(("\n+ 7", int_expr(6))));
    assert!(parse_expr("\n6").is_err());
}

#[test]
fn expression_failure() {
    assert_eq!(
        parse_expr("  +"),
        Err(failure(
            vec![
                Rule::ParenthesizedExpression,
                Rule::Factor,
                Rule::Term,
                Rule::Expression
            ],
            2
        ))
    );
    assert_eq!(
        parse_expr(" (2 + "),
        Err(failure(
            vec![
                Rule::ParenthesizedExpression,
                Rule::Factor,
                Rule::Term,
                Rule::Expression
            ],
            4
        ))
    );
}

#[test]
fn expression_leaves_a_dangling_operator_unread() {
    assert_eq!(parse_expr("1 +"), Ok((" +", int_expr(1))));
    assert_eq!(parse_expr("1 + *"), Ok((" + *", int_expr(1))));
}

#[test]
fn program_of_one_statement() {
    let (rest, program) = parse_program("42").unwrap();
    assert_eq!(rest, "");
    assert_eq!(program, Program(vec![int_expr(42)]));
}

#[test]
fn program_statements_on_lines() {
    let (rest, program) = parse_program("1\n2\r\n3").unwrap();
    assert_eq!(rest, "");
    assert_eq!(program, Program(vec![int_expr(1), int_expr(2), int_expr(3)]));
}

#[test]
fn program_line_starting_with_a_sign_is_a_statement_of_its_own() {
    let (rest, program) = parse_program("6 + 7\n-4 - 9").unwrap();
    assert_eq!(rest, "");
    let first = Expr {
        left: Box::new(int_term(6)),
        rest: Some(vec![(Operator::AddOp, int_term(7))]),
    };
    let second = Expr {
        left: Box::new(int_term(-4)),
        rest: Some(vec![(Operator::SubOp, int_term(9))]),
    };
    assert_eq!(program, Program(vec![first, second]));
}

#[test]
fn program_statements_need_no_line_break_between_them() {
    let (rest, program) = parse_program("1 2").unwrap();
    assert_eq!(rest, "");
    assert_eq!(program, Program(vec![int_expr(1), int_expr(2)]));
}

#[test]
fn program_leaves_a_trailing_line_break_unread() {
    let (rest, program) = parse_program("1\n").unwrap();
    assert_eq!(rest, "\n");
    assert_eq!(program, Program(vec![int_expr(1)]));
    let (rest, program) = parse_program("1 \n\n2").unwrap();
    assert_eq!(rest, " \n\n2");
    assert_eq!(program, Program(vec![int_expr(1)]));
}

#[test]
fn program_failure() {
    assert_eq!(
        parse_program(" )"),
        Err(failure(
            vec![
                Rule::ParenthesizedExpression,
                Rule::Factor,
                Rule::Term,
                Rule::Expression,
                Rule::Expression
            ],
            1
        ))
    );
    assert!(Program::parse("").is_err());
}

#[test]
fn parentheses_wrap_what_the_content_reads_as() {
    for content in [
        "-9 * 8",
        " -9 * 8 ",
        "1+2",
        "x",
        "3.5 / y - 2",
        "7  ",
        "\t8-3-2",
    ] {
        let (rest, expr) = Expr::parse(content).unwrap();
        assert_eq!(rest.trim_matches(|c| c == ' ' || c == '\t'), "");
        let text = format!("({})", content);
        assert_eq!(Factor::parse(&text), Ok(("", Factor::Expr(expr))));
    }
}

#[test]
fn a_node_without_links_has_no_chain() {
    let (_, term) = Term::parse("5").unwrap();
    assert_eq!(term.rest, None);
    let (_, term) = Term::parse("5 +").unwrap();
    assert_eq!(term.rest, None);
    let (_, expr) = Expr::parse("5*6").unwrap();
    assert_eq!(expr.rest, None);
    assert!(expr.left.rest.is_some());
    let (_, factor) = Factor::parse("((5))").unwrap();
    match factor {
        Factor::Expr(outer) => {
            assert_eq!(outer.rest, None);
            assert_eq!(outer.left.rest, None);
            match *outer.left.left {
                Factor::Expr(inner) => {
                    assert_eq!(inner.rest, None);
                    assert_eq!(inner.left.rest, None);
                }
                other => panic!("not a parenthesized expression: {:?}", other),
            }
        }
        other => panic!("not a parenthesized expression: {:?}", other),
    }
    let (_, program) = Program::parse("1\n2*3").unwrap();
    assert_eq!(program.0[0].rest, None);
    assert_eq!(program.0[0].left.rest, None);
    assert_eq!(program.0[1].rest, None);
}
