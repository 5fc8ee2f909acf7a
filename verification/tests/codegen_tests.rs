use exprc::compiler::{binary_line, load_line, CompileError, Compiler};
use exprc::grammar::expression::{parse_expr, Expr};
use exprc::grammar::factor::{Decimal, Factor};
use exprc::grammar::operator::Operator;
use exprc::grammar::program::{parse_program, Program};
use exprc::grammar::term::Term;
use exprc::grammar::visitor::Visitor;

fn compile(source: &str) -> (Result<(), CompileError>, Compiler) {
    let (rest, expr) = parse_expr(source).unwrap();
    assert_eq!(rest, "");
    let mut compiler = Compiler::new();
    let result = expr.compile_token(&mut compiler);
    (result, compiler)
}

fn nested(depth: usize) -> String {
    let mut text = String::new();
    for _ in 0..depth {
        text.push_str("1+(");
    }
    text.push('1');
    for _ in 0..depth {
        text.push(')');
    }
    text
}

#[test]
fn new_compiler_has_all_registers_free() {
    let compiler = Compiler::new();
    let expected: Vec<u8> = (0..31).rev().collect();
    assert_eq!(compiler.free_reg, expected);
    assert!(compiler.used_reg.is_empty());
    assert!(compiler.assembly.is_empty());
}

#[test]
fn default_compiler_is_empty() {
    let compiler = Compiler::default();
    assert!(compiler.free_reg.is_empty());
    assert!(compiler.used_reg.is_empty());
    assert!(compiler.assembly.is_empty());
}

#[test]
fn load_lines() {
    assert_eq!(load_line(0, -9), "LOAD $0 #-9");
    assert_eq!(load_line(30, 0), "LOAD $30 #0");
    assert_eq!(load_line(7, 1234567890), "LOAD $7 #1234567890");
    assert_eq!(load_line(255, i64::MAX), "LOAD $255 #9223372036854775807");
    assert_eq!(load_line(10, i64::MIN), "LOAD $10 #-9223372036854775808");
}

#[test]
fn operator_lines() {
    assert_eq!(binary_line(Operator::AddOp, 1, 2, 0), "ADD $1 $2 $0");
    assert_eq!(binary_line(Operator::SubOp, 0, 1, 2), "SUB $0 $1 $2");
    assert_eq!(binary_line(Operator::MultOp, 10, 20, 30), "MUL $10 $20 $30");
    assert_eq!(binary_line(Operator::DivOp, 30, 29, 28), "DIV $30 $29 $28");
}

#[test]
fn emit_appends_a_line() {
    let mut compiler = Compiler::new();
    compiler.emit("first".to_string());
    compiler.emit("second".to_string());
    assert_eq!(compiler.assembly, vec!["first", "second"]);
    assert_eq!(compiler.free_reg.len(), 31);
    assert!(compiler.used_reg.is_empty());
}

#[test]
fn allocation_hands_out_the_lowest_numbered_register() {
    let mut compiler = Compiler {
        free_reg: vec![5, 2, 9, 7],
        used_reg: Vec::new(),
        assembly: Vec::new(),
    };
    assert_eq!(compiler.allocate(), Some(2));
    assert_eq!(compiler.free_reg, vec![5, 9, 7]);
    assert_eq!(compiler.allocate(), Some(5));
    assert_eq!(compiler.free_reg, vec![9, 7]);
    assert_eq!(compiler.allocate(), Some(7));
    assert_eq!(compiler.allocate(), Some(9));
    assert_eq!(compiler.allocate(), None);
    assert!(compiler.free_reg.is_empty());
    assert!(compiler.used_reg.is_empty());
}

#[test]
fn registers_go_out_in_ascending_order_after_some_were_freed() {
    let mut compiler = Compiler {
        free_reg: vec![4, 1, 3, 0, 2],
        used_reg: Vec::new(),
        assembly: Vec::new(),
    };
    for value in 0..5 {
        Factor::Integer(value).compile_token(&mut compiler).unwrap();
    }
    assert_eq!(
        compiler.assembly,
        vec![
            "LOAD $0 #0",
            "LOAD $1 #1",
            "LOAD $2 #2",
            "LOAD $3 #3",
            "LOAD $4 #4"
        ]
    );
    assert_eq!(compiler.used_reg, vec![0, 1, 2, 3, 4]);
}

#[test]
fn operator_result_goes_to_the_lowest_numbered_register() {
    let mut compiler = Compiler {
        free_reg: vec![6, 3, 8],
        used_reg: vec![1, 2],
        assembly: Vec::new(),
    };
    Operator::SubOp.compile_token(&mut compiler).unwrap();
    assert_eq!(compiler.assembly, vec!["SUB $1 $2 $3"]);
    assert_eq!(compiler.used_reg, vec![3]);
    assert_eq!(compiler.free_reg, vec![6, 8, 2, 1]);
}

#[test]
fn literal_takes_the_lowest_free_register() {
    let mut compiler = Compiler::new();
    Factor::Integer(5).compile_token(&mut compiler).unwrap();
    Factor::Integer(6).compile_token(&mut compiler).unwrap();
    assert_eq!(compiler.assembly, vec!["LOAD $0 #5", "LOAD $1 #6"]);
    assert_eq!(compiler.used_reg, vec![0, 1]);
    let expected: Vec<u8> = (2..31).rev().collect();
    assert_eq!(compiler.free_reg, expected);
}

#[test]
fn operator_pops_right_then_left_and_frees_both() {
    let mut compiler = Compiler::new();
    Factor::Integer(5).compile_token(&mut compiler).unwrap();
    Factor::Integer(6).compile_token(&mut compiler).unwrap();
    Operator::DivOp.compile_token(&mut compiler).unwrap();
    assert_eq!(compiler.assembly[2], "DIV $0 $1 $2");
    assert_eq!(compiler.used_reg, vec![2]);
    let mut expected: Vec<u8> = (3..31).rev().collect();
    expected.push(1);
    expected.push(0);
    assert_eq!(compiler.free_reg, expected);
}

#[test]
fn parenthesized_subtraction_compiles_to_three_lines() {
    let (result, compiler) = compile("(-9- 8)");
    assert_eq!(result, Ok(()));
    assert_eq!(
        compiler.assembly,
        vec!["LOAD $0 #-9", "LOAD $1 #8", "SUB $0 $1 $2"]
    );
    assert_eq!(compiler.free_reg.len(), 30);
    assert_eq!(compiler.used_reg.len(), 1);
    assert_eq!(compiler.used_reg, vec![2]);
}

#[test]
fn subtraction_groups_from_the_left() {
    let (result, compiler) = compile("8-3-2");
    assert_eq!(result, Ok(()));
    assert_eq!(
        compiler.assembly,
        vec![
            "LOAD $0 #8",
            "LOAD $1 #3",
            "SUB $0 $1 $2",
            "LOAD $0 #2",
            "SUB $2 $0 $1"
        ]
    );
    assert_eq!(compiler.used_reg, vec![1]);
}

#[test]
fn mixed_expression_compiles_to_nine_lines() {
    let (result, compiler) = compile("-1 +9 * -8 - (3*1)");
    assert_eq!(result, Ok(()));
    assert_eq!(
        compiler.assembly,
        vec![
            "LOAD $0 #-1",
            "LOAD $1 #9",
            "LOAD $2 #-8",
            "MUL $1 $2 $3",
            "ADD $0 $3 $1",
            "LOAD $0 #3",
            "LOAD $2 #1",
            "MUL $0 $2 $3",
            "SUB $1 $3 $0"
        ]
    );
    assert_eq!(compiler.assembly.len(), 9);
    assert_eq!(compiler.used_reg.len(), 1);
    assert_eq!(compiler.free_reg.len(), 30);
}

#[test]
fn one_load_for_each_literal_and_one_operator_line_fewer() {
    for (source, leaves) in [
        ("7", 1usize),
        ("1+2", 2),
        ("1*2/3", 3),
        ("(1+2)*(3-4)/5", 5),
        ("1+2+3+4+5+6+7+8+9+10", 10),
    ] {
        let (result, compiler) = compile(source);
        assert_eq!(result, Ok(()));
        let loads = compiler
            .assembly
            .iter()
            .filter(|line| line.starts_with("LOAD"))
            .count();
        assert_eq!(loads, leaves);
        assert_eq!(compiler.assembly.len(), 2 * leaves - 1);
        assert_eq!(compiler.used_reg.len(), 1);
        assert_eq!(compiler.free_reg.len(), 30);
    }
}

#[test]
fn operands_are_loaded_before_their_operator() {
    let (result, compiler) = compile("(1+2)*(3-4)");
    assert_eq!(result, Ok(()));
    let names: Vec<&str> = compiler
        .assembly
        .iter()
        .map(|line| line.split(' ').next().unwrap())
        .collect();
    assert_eq!(
        names,
        vec!["LOAD", "LOAD", "ADD", "LOAD", "LOAD", "SUB", "MUL"]
    );
}

#[test]
fn a_long_chain_needs_three_registers() {
    let source = vec!["1"; 200].join("+");
    let (rest, expr) = parse_expr(&source).unwrap();
    assert_eq!(rest, "");
    let mut compiler = Compiler {
        free_reg: vec![2, 1, 0],
        used_reg: Vec::new(),
        assembly: Vec::new(),
    };
    assert_eq!(expr.compile_token(&mut compiler), Ok(()));
    assert_eq!(compiler.assembly.len(), 399);
    assert_eq!(compiler.used_reg.len(), 1);
    assert_eq!(compiler.free_reg.len(), 2);

    let mut compiler = Compiler {
        free_reg: vec![1, 0],
        used_reg: Vec::new(),
        assembly: Vec::new(),
    };
    assert_eq!(
        expr.compile_token(&mut compiler),
        Err(CompileError::RegisterPoolExhausted)
    );
    assert_eq!(compiler.assembly, vec!["LOAD $0 #1", "LOAD $1 #1"]);
}

#[test]
fn nesting_to_the_right_exhausts_the_pool() {
    let (result, compiler) = compile(&nested(29));
    assert_eq!(result, Ok(()));
    assert_eq!(compiler.used_reg.len(), 1);
    assert_eq!(compiler.free_reg.len(), 30);

    let (result, compiler) = compile(&nested(30));
    assert_eq!(result, Err(CompileError::RegisterPoolExhausted));
    assert_eq!(compiler.free_reg.len() + compiler.used_reg.len(), 31);
}

#[test]
fn literal_with_no_free_register() {
    let mut compiler = Compiler::default();
    assert_eq!(
        Factor::Integer(1).compile_token(&mut compiler),
        Err(CompileError::RegisterPoolExhausted)
    );
    assert!(compiler.assembly.is_empty());
    assert!(compiler.used_reg.is_empty());
}

#[test]
fn operator_with_no_free_register() {
    let mut compiler = Compiler::default();
    compiler.used_reg.push(1);
    compiler.used_reg.push(2);
    assert_eq!(
        Operator::MultOp.compile_token(&mut compiler),
        Err(CompileError::RegisterPoolExhausted)
    );
    assert!(compiler.assembly.is_empty());
    assert_eq!(compiler.used_reg, vec![1, 2]);
}

#[test]
fn operands_without_an_instruction() {
    let float = Factor::Float(Decimal {
        negative: false,
        whole: "2".to_string(),
        fraction: "0".to_string(),
    });
    let mut compiler = Compiler::new();
    assert_eq!(
        float.compile_token(&mut compiler),
        Err(CompileError::UnsupportedOperand)
    );
    let name = Factor::Identifier("x".to_string());
    assert_eq!(
        name.compile_token(&mut compiler),
        Err(CompileError::UnsupportedOperand)
    );
    assert!(compiler.assembly.is_empty());
    assert_eq!(compiler.free_reg.len(), 31);
}

#[test]
fn compilation_stops_at_the_first_operand_without_an_instruction() {
    let (result, compiler) = compile("1 + 2 * x - 4");
    assert_eq!(result, Err(CompileError::UnsupportedOperand));
    assert_eq!(compiler.assembly, vec!["LOAD $0 #1", "LOAD $1 #2"]);
    assert_eq!(compiler.free_reg.len() + compiler.used_reg.len(), 31);

    let (result, _) = compile("(-9.8  - 8 ) + (2.0*x)");
    assert_eq!(result, Err(CompileError::UnsupportedOperand));
}

#[test]
fn term_compiles_its_chain_from_the_left() {
    let term = Term {
        left: Box::new(Factor::Integer(8)),
        rest: Some(vec![
            (Operator::DivOp, Factor::Integer(4)),
            (Operator::MultOp, Factor::Integer(2)),
        ]),
    };
    let mut compiler = Compiler::new();
    assert_eq!(term.compile_token(&mut compiler), Ok(()));
    assert_eq!(
        compiler.assembly,
        vec![
            "LOAD $0 #8",
            "LOAD $1 #4",
            "DIV $0 $1 $2",
            "LOAD $0 #2",
            "MUL $2 $0 $1"
        ]
    );
}

#[test]
fn expression_without_a_chain_is_its_term() {
    let expr = Expr {
        left: Box::new(Term {
            left: Box::new(Factor::Integer(3)),
            rest: None,
        }),
        rest: Some(Vec::new()),
    };
    let mut compiler = Compiler::new();
    assert_eq!(expr.compile_token(&mut compiler), Ok(()));
    assert_eq!(compiler.assembly, vec!["LOAD $0 #3"]);
}

#[test]
fn program_compiles_its_statements_in_order() {
    let (rest, program) = parse_program("1+2\n3*4\n5").unwrap();
    assert_eq!(rest, "");
    let mut compiler = Compiler::new();
    assert_eq!(program.compile_token(&mut compiler), Ok(()));
    assert_eq!(
        compiler.assembly,
        vec![
            "LOAD $0 #1",
            "LOAD $1 #2",
            "ADD $0 $1 $2",
            "LOAD $0 #3",
            "LOAD $1 #4",
            "MUL $0 $1 $3",
            "LOAD $0 #5"
        ]
    );
    assert_eq!(compiler.used_reg, vec![2, 3, 0]);
    assert_eq!(compiler.free_reg.len(), 28);
}

#[test]
fn program_stops_at_the_first_statement_that_fails() {
    let (_, program) = parse_program("1\nx\n2").unwrap();
    let mut compiler = Compiler::new();
    assert_eq!(
        program.compile_token(&mut compiler),
        Err(CompileError::UnsupportedOperand)
    );
    assert_eq!(compiler.assembly, vec!["LOAD $0 #1"]);
}

#[test]
fn empty_program_emits_nothing() {
    let program = Program(Vec::new());
    let mut compiler = Compiler::new();
    assert_eq!(program.compile_token(&mut compiler), Ok(()));
    assert!(compiler.assembly.is_empty());
    assert_eq!(compiler.free_reg.len(), 31);
}

#[test]
fn whole_program_hands_out_its_lines_or_its_error() {
    let (_, program) = parse_program("8-3-2\n7").unwrap();
    assert_eq!(
        program.compile(),
        Ok(vec![
            "LOAD $0 #8".to_string(),
            "LOAD $1 #3".to_string(),
            "SUB $0 $1 $2".to_string(),
            "LOAD $0 #2".to_string(),
            "SUB $2 $0 $1".to_string(),
            "LOAD $0 #7".to_string(),
        ])
    );
    let (_, program) = parse_program("1\n2.5").unwrap();
    assert_eq!(program.compile(), Err(CompileError::UnsupportedOperand));
    let (_, program) = parse_program(&nested(30)).unwrap();
    assert_eq!(program.compile(), Err(CompileError::RegisterPoolExhausted));
}

fn registers_of(line: &str) -> Vec<u8> {
    line.split(' ')
        .filter(|word| word.starts_with('$'))
        .map(|word| word[1..].parse::<u8>().unwrap())
        .collect()
}

#[test]
fn operators_take_what_earlier_lines_wrote() {
    for source in [
        "7",
        "8-3-2",
        "-1 +9 * -8 - (3*1)",
        "(1+2)*(3-4)/5",
        "1+(2+(3+(4+5)))",
        "((1*2)+(3*4))-((5*6)+(7*8))",
    ] {
        let (result, compiler) = compile(source);
        assert_eq!(result, Ok(()));
        let lines = &compiler.assembly;
        assert!(lines[0].starts_with("LOAD "));
        let mut written: Vec<u8> = Vec::new();
        for line in lines {
            let registers = registers_of(line);
            if line.starts_with("LOAD ") {
                assert_eq!(registers.len(), 1);
            } else {
                assert_eq!(registers.len(), 3);
                assert!(written.contains(&registers[0]));
                assert!(written.contains(&registers[1]));
            }
            written.push(*registers.last().unwrap());
        }
        assert_eq!(written.last(), compiler.used_reg.last());
        if lines.len() > 1 {
            assert!(!lines[lines.len() - 1].starts_with("LOAD "));
        }
    }
}
