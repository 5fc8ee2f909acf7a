use exprc::compiler::Compiler;
use exprc::grammar::expression::Expr;
use exprc::grammar::factor::Factor;
use exprc::grammar::operator::Operator;
use exprc::grammar::program::Program;
use exprc::grammar::term::Term;
use exprc::grammar::visitor::Visitor;
use exprc::parse::Parse;

#[test]
fn expression_test_parse() {
    let v1 = Expr::parse("(-9.8  - 8 ) + (2.0*x)");
    let v2 = Expr::parse(" -1 +9 * -8 - (3*x)  ");
    assert!(v1.is_ok());
    assert!(v2.is_ok());
}

#[test]
fn expression_test_compile() {
    let (_, expected) = Expr::parse("-1 +9 * -8 - (3*1) ").unwrap();
    let mut compiler = Compiler::new();
    Expr::compile_token(&expected, &mut compiler).unwrap();
    assert_eq!(compiler.assembly.len(), 9);
    assert_eq!(compiler.free_reg.len(), 30);
    assert_eq!(compiler.used_reg.len(), 1);
}

#[test]
fn factor_test_parse() {
    let (_, int1) = Factor::parse("32").unwrap();
    let (_, int2) = Factor::parse("-32").unwrap();
    let (_, flo1) = Factor::parse("32.55").unwrap();
    let (_, flo2) = Factor::parse("-32.0").unwrap();
    let (_, id) = Factor::parse("x").unwrap();
    let (_, expr) = Factor::parse("( -9 * 8 )").unwrap();
    assert_eq!(int1, Factor::Integer(32));
    assert_eq!(int2, Factor::Integer(-32));
    assert!(matches!(flo1, Factor::Float(_)));
    assert!(matches!(flo2, Factor::Float(_)));
    assert_eq!(id, Factor::Identifier("x".to_string()));
    assert!(matches!(expr, Factor::Expr(_)));
}

#[test]
fn factor_test_compile() {
    let factor = Factor::Integer(-9);
    let mut compiler = Compiler::new();
    Factor::compile_token(&factor, &mut compiler).unwrap();

    assert_eq!(compiler.assembly.len(), 1);
    assert_eq!(compiler.assembly[0], "LOAD $0 #-9");
    assert_eq!(compiler.free_reg.len(), 30);
    assert_eq!(compiler.used_reg.len(), 1);
}

#[test]
fn operator_test_parse() {
    let expected = vec![
        Operator::AddOp,
        Operator::SubOp,
        Operator::MultOp,
        Operator::DivOp,
    ];
    let (_, add) = Operator::parse("+").unwrap();
    let (_, sub) = Operator::parse("-").unwrap();
    let (_, mul) = Operator::parse("*").unwrap();
    let (_, div) = Operator::parse("/").unwrap();

    assert_eq!(vec![add, sub, mul, div], expected);
}

#[test]
fn operator_test_display() {
    let expected = vec!["+", "-", "*", "/"];

    let add = Operator::AddOp;
    let sub = Operator::SubOp;
    let mul = Operator::MultOp;
    let div = Operator::DivOp;

    assert_eq!(
        vec![
            add.display_token(),
            sub.display_token(),
            mul.display_token(),
            div.display_token()
        ],
        expected
    );
}

#[test]
fn test_compile_add() {
    let operator = Operator::AddOp;
    let mut compiler = Compiler::new();
    compiler.used_reg.push(1);
    compiler.used_reg.push(2);
    Operator::compile_token(&operator, &mut compiler).unwrap();

    assert_eq!(compiler.assembly.len(), 1);
    assert_eq!(compiler.assembly[0], "ADD $1 $2 $0");
    assert_eq!(compiler.free_reg.len(), 32);
    assert_eq!(compiler.used_reg.len(), 1);
}

#[test]
fn test_compile_sub() {
    let operator = Operator::SubOp;
    let mut compiler = Compiler::new();
    compiler.used_reg.push(1);
    compiler.used_reg.push(2);
    Operator::compile_token(&operator, &mut compiler).unwrap();

    assert_eq!(compiler.assembly.len(), 1);
    assert_eq!(compiler.assembly[0], "SUB $1 $2 $0");
    assert_eq!(compiler.free_reg.len(), 32);
    assert_eq!(compiler.used_reg.len(), 1);
}

#[test]
fn test_parse_program() {
    let p = Program::parse("-1 +9 * -8 - (3*x) ");
    assert!(p.is_ok())
}

#[test]
fn program_test_compile() {
    let (_, expected) = Program::parse("-1 +9 * -8 - (3*2) ").unwrap();
    let mut compiler = Compiler::new();
    Program::compile_token(&expected, &mut compiler).unwrap();
    assert_eq!(compiler.assembly.len(), 9);
    assert_eq!(compiler.free_reg.len(), 30);
    assert_eq!(compiler.used_reg.len(), 1);
}

#[test]
fn program_test_display() {
    let (rest, program) = Program::parse("6 + 7\n-4 - 9").unwrap();
    assert_eq!(rest, "");
    assert_eq!(program.0.len(), 2);
}

#[test]
fn term_test_parse() {
    let val1 = Term::parse("(3*4)*2");
    let val2 = Term::parse("4*(3-4)");
    assert!(val1.is_ok());
    assert!(val2.is_ok());
}

#[test]
fn term_test_compile() {
    let (_, expected) = Term::parse("-9*(8-2)").unwrap();
    let mut compiler = Compiler::new();
    Term::compile_token(&expected, &mut compiler).unwrap();
    assert_eq!(compiler.assembly.len(), 5);
    assert_eq!(compiler.free_reg.len(), 30);
    assert_eq!(compiler.used_reg.len(), 1);
}
