use calculator::ast::{contains_float, Node, Operator};
use calculator::bytecode::{fits_constant_pool, Bytecode, Interpreter};
use calculator::opcode::{make_op, read_op, OpCode, OP_ADD, OP_CONSTANT, OP_POP};
use calculator::parser::{float_literal_spans, lex, parse, Lexeme, ParseError};
use calculator::val::{apply, negate, Applied, FloatRequest, Val};
use calculator::vm::{Status, VmError, VM};

fn float_values(source: &str) -> Vec<u32> {
    match float_literal_spans(source) {
        Ok(spans) => spans
            .iter()
            .map(|&(a, b)| source[a..b].parse::<f32>().unwrap().to_bits())
            .collect(),
        Err(_) => Vec::new(),
    }
}

fn compile_source(source: &str) -> Bytecode {
    let ast = parse(source, &float_values(source)).unwrap();
    assert!(fits_constant_pool(&ast));
    Interpreter::from_ast(ast)
}

fn as_f32(v: Val) -> f32 {
    match v {
        Val::Int(n) => n as f32,
        Val::Float(bits) => f32::from_bits(bits),
    }
}

fn float_result(req: FloatRequest) -> u32 {
    let (a, b) = (as_f32(req.lhs), as_f32(req.rhs));
    let r = match req.op {
        Operator::Plus => a + b,
        Operator::Minus => a - b,
        Operator::Multiply => a * b,
        Operator::Divide => a / b,
    };
    r.to_bits()
}

fn run(bytecode: Bytecode) -> Result<VM, VmError> {
    let mut vm = VM::new(bytecode);
    loop {
        match vm.run()? {
            Status::Finished => return Ok(vm),
            Status::NeedsFloat(req) => vm.push(Node::Val(Val::Float(float_result(req)))),
        }
    }
}

fn value_of(source: &str) -> Result<Val, VmError> {
    let vm = run(compile_source(source))?;
    Ok(vm.peek().unwrap())
}

fn float(x: f32) -> Val {
    Val::Float(x.to_bits())
}

fn program(instructions: Vec<u8>, constants: Vec<Node>) -> Bytecode {
    Bytecode {
        instructions,
        constants,
    }
}

#[test]
fn literals_come_back_unchanged() {
    assert_eq!(value_of("42"), Ok(Val::Int(42)));
    assert_eq!(value_of("0"), Ok(Val::Int(0)));
    assert_eq!(value_of("2147483647"), Ok(Val::Int(i32::MAX)));
    assert_eq!(value_of("3.25"), Ok(float(3.25)));
}

#[test]
fn binary_operators_on_same_types() {
    assert_eq!(value_of("4 * 3"), Ok(Val::Int(12)));
    assert_eq!(value_of("7 / 2"), Ok(Val::Int(3)));
    assert_eq!(value_of("-7 / 2"), Ok(Val::Int(-3)));
    assert_eq!(value_of("7.0 / 2.0"), Ok(float(3.5)));
}

#[test]
fn operators_group_to_the_left() {
    assert_eq!(value_of("1 + 2 + 3"), Ok(Val::Int(6)));
    assert_eq!(value_of("2 * 3 * 4"), Ok(Val::Int(24)));
    assert_eq!(value_of("10 - 3 - 2"), Ok(Val::Int(5)));
    assert_eq!(value_of("16 / 4 / 2"), Ok(Val::Int(2)));
}

#[test]
fn multiplication_binds_tighter() {
    assert_eq!(value_of("2 + 3 * 4"), Ok(Val::Int(14)));
    assert_eq!(value_of("(2 + 3) * 4"), Ok(Val::Int(20)));
    assert_eq!(value_of("10 - 4 / 2"), Ok(Val::Int(8)));
}

#[test]
fn integers_are_promoted_next_to_floats() {
    assert_eq!(value_of("1 + 2.5"), Ok(float(3.5)));
    assert_eq!(value_of("5 / 2.0"), Ok(float(2.5)));
    assert_eq!(value_of("2 * 1.5"), Ok(float(3.0)));
}

#[test]
fn only_the_last_statement_stays() {
    let bytecode = compile_source("1; 2; 3;");
    let expected: Vec<u8> = vec![
        OpCode::OpConstant(0),
        OpCode::OpPop,
        OpCode::OpConstant(1),
        OpCode::OpPop,
        OpCode::OpConstant(2),
    ]
    .into_iter()
    .flat_map(make_op)
    .collect();
    assert_eq!(bytecode.instructions, expected);
    let mut vm = run(bytecode).unwrap();
    assert_eq!(vm.pop(), Ok(Node::Val(Val::Int(3))));
    assert_eq!(vm.pop(), Err(VmError::StackUnderflow));
}

#[test]
fn unary_operators_chain() {
    assert_eq!(value_of("--3"), Ok(Val::Int(3)));
    assert_eq!(value_of("+3"), Ok(Val::Int(3)));
    assert_eq!(value_of("-2.25"), Ok(float(-2.25)));
    assert_eq!(value_of("---2.25"), Ok(float(-2.25)));
}

#[test]
fn pop_on_empty_stack_is_reported() {
    let mut vm = VM::new(program(vec![OP_POP], vec![]));
    assert_eq!(vm.run(), Err(VmError::StackUnderflow));
    assert_eq!(vm.peek(), None);
    assert_eq!(vm.pop_last(), Err(VmError::StackUnderflow));
}

#[test]
fn add_with_one_operand_is_reported() {
    let mut vm = VM::new(program(vec![OP_CONSTANT, 0, 0, OP_ADD], vec![Node::Val(Val::Int(1))]));
    assert_eq!(vm.run(), Err(VmError::StackUnderflow));
    assert_eq!(vm.pop_last(), Ok(&Node::Val(Val::Int(1))));
}

#[test]
fn unknown_tag_is_reported() {
    let mut vm = VM::new(program(vec![0xFF], vec![]));
    assert_eq!(vm.run(), Err(VmError::InvalidInstruction));
    let mut vm = VM::new(program(vec![0x07], vec![]));
    assert_eq!(vm.run(), Err(VmError::InvalidInstruction));
}

#[test]
fn cut_off_operand_is_reported() {
    let mut vm = VM::new(program(vec![OP_CONSTANT, 0], vec![Node::Val(Val::Int(1))]));
    assert_eq!(vm.run(), Err(VmError::InvalidInstruction));
}

#[test]
fn constant_index_past_the_pool_is_reported() {
    let mut vm = VM::new(program(vec![OP_CONSTANT, 0, 1], vec![Node::Val(Val::Int(1))]));
    assert_eq!(vm.run(), Err(VmError::InvalidInstruction));
}

#[test]
fn operand_that_is_no_value_is_reported() {
    let tree = Node::UnaryExpr {
        op: Operator::Minus,
        child: Box::new(Node::Val(Val::Int(1))),
    };
    let mut vm = VM::new(program(
        vec![OP_CONSTANT, 0, 0, OP_CONSTANT, 0, 1, OP_ADD],
        vec![Node::Val(Val::Int(1)), tree],
    ));
    assert_eq!(vm.run(), Err(VmError::TypeMismatch));
}

#[test]
fn integer_division_by_zero_is_reported() {
    assert_eq!(value_of("1 / 0"), Err(VmError::DivisionByZero));
    assert_eq!(value_of("1 / (2 - 2); 7"), Err(VmError::DivisionByZero));
}

#[test]
fn float_division_by_zero_follows_ieee() {
    assert_eq!(value_of("1.0 / 0"), Ok(float(f32::INFINITY)));
    match value_of("0.0 / 0.0") {
        Ok(Val::Float(bits)) => assert!(f32::from_bits(bits).is_nan()),
        other => panic!("unexpected {:?}", other),
    }
}

#[test]
fn integer_overflow_wraps() {
    assert_eq!(value_of("2147483647 + 1"), Ok(Val::Int(i32::MIN)));
    assert_eq!(value_of("65536 * 65536"), Ok(Val::Int(0)));
    assert_eq!(
        apply(Operator::Divide, Val::Int(i32::MIN), Val::Int(-1)),
        Applied::Value(Val::Int(i32::MIN))
    );
    assert_eq!(negate(Val::Int(i32::MIN)), Val::Int(i32::MIN));
}

#[test]
fn machine_pauses_for_float_work() {
    let mut vm = VM::new(compile_source("1.5 + 2"));
    let req = FloatRequest {
        op: Operator::Plus,
        lhs: float(1.5),
        rhs: Val::Int(2),
    };
    assert_eq!(vm.run(), Ok(Status::NeedsFloat(req)));
    assert_eq!(vm.peek(), None);
    vm.push(Node::Val(float(3.5)));
    assert_eq!(vm.run(), Ok(Status::Finished));
    assert_eq!(vm.peek(), Some(float(3.5)));
}

#[test]
fn coercion_table() {
    assert_eq!(
        apply(Operator::Minus, Val::Int(5), Val::Int(7)),
        Applied::Value(Val::Int(-2))
    );
    assert_eq!(
        apply(Operator::Divide, Val::Int(5), Val::Int(0)),
        Applied::DivisionByZero
    );
    let req = FloatRequest {
        op: Operator::Divide,
        lhs: Val::Int(5),
        rhs: float(0.0),
    };
    assert_eq!(
        apply(Operator::Divide, Val::Int(5), float(0.0)),
        Applied::NeedsFloat(req)
    );
}

#[test]
fn negation_flips_the_sign_bit() {
    assert_eq!(negate(float(1.5)), float(-1.5));
    assert_eq!(negate(float(0.0)), float(-0.0));
    assert_eq!(negate(negate(float(2.75))), float(2.75));
    assert_eq!(negate(Val::Int(4)), Val::Int(-4));
}

#[test]
fn instruction_encoding() {
    assert_eq!(make_op(OpCode::OpConstant(0x0102)), vec![0x01, 0x01, 0x02]);
    assert_eq!(make_op(OpCode::OpConstant(65535)), vec![0x01, 0xFF, 0xFF]);
    assert_eq!(make_op(OpCode::OpPop), vec![0x02]);
    assert_eq!(make_op(OpCode::OpAdd), vec![0x03]);
    assert_eq!(make_op(OpCode::OpSub), vec![0x04]);
    assert_eq!(make_op(OpCode::OpMul), vec![0x05]);
    assert_eq!(make_op(OpCode::OpDiv), vec![0x06]);
    assert_eq!(make_op(OpCode::OpPlus), vec![0x0A]);
    assert_eq!(make_op(OpCode::OpMinus), vec![0x0B]);
}

#[test]
fn instruction_decoding() {
    let code = vec![0x02, 0x01, 0x12, 0x34, 0x0B, 0x09];
    assert_eq!(read_op(&code, 0), Some(OpCode::OpPop));
    assert_eq!(read_op(&code, 1), Some(OpCode::OpConstant(0x1234)));
    assert_eq!(read_op(&code, 4), Some(OpCode::OpMinus));
    assert_eq!(read_op(&code, 5), None);
    assert_eq!(read_op(&vec![0x01, 0x00], 0), None);
}

#[test]
fn lexer_errors() {
    assert_eq!(lex("1 $ 2"), Err(ParseError::UnexpectedChar(2)));
    assert_eq!(lex("2147483648"), Err(ParseError::IntegerOutOfRange(0)));
    assert_eq!(
        lex("12.5;("),
        Ok(vec![Lexeme::Float(0, 4), Lexeme::Semicolon, Lexeme::LParen])
    );
}

#[test]
fn parser_errors() {
    assert_eq!(parse("1 +", &vec![]), Err(ParseError::UnexpectedEnd));
    assert_eq!(parse("1 2", &vec![]), Err(ParseError::UnexpectedToken(1)));
    assert_eq!(parse("1 + 2)", &vec![]), Err(ParseError::UnexpectedToken(3)));
    assert_eq!(parse(";", &vec![]), Err(ParseError::UnexpectedToken(0)));
    assert_eq!(parse("1.5", &vec![]), Err(ParseError::MissingFloatValue));
}

#[test]
fn float_values_are_taken_in_order() {
    let ast = parse("1.5 - 0.25", &vec![7, 9]).unwrap();
    assert_eq!(
        ast,
        vec![Node::BinaryExpr {
            op: Operator::Minus,
            lhs: Box::new(Node::Val(Val::Float(7))),
            rhs: Box::new(Node::Val(Val::Float(9))),
        }]
    );
    assert_eq!(float_literal_spans("1.5 - 0.25"), Ok(vec![(0, 3), (6, 10)]));
}

#[test]
fn statements_and_separators() {
    assert_eq!(parse("1; 2", &vec![]).unwrap().len(), 2);
    assert_eq!(parse("1; 2;", &vec![]).unwrap().len(), 2);
    assert!(parse("1;; 2", &vec![]).is_err());
}

#[test]
fn float_detection() {
    let ast = parse("1 + -(2 * 3.0)", &float_values("1 + -(2 * 3.0)")).unwrap();
    assert!(contains_float(&ast[0]));
    let ast = parse("1 + -(2 * 3)", &vec![]).unwrap();
    assert!(!contains_float(&ast[0]));
}

#[test]
fn constant_pool_limit() {
    let small = parse("1 + 2; 3", &vec![]).unwrap();
    assert!(fits_constant_pool(&small));
    let many: Vec<Node> = (0..65537).map(|i| Node::Val(Val::Int(i))).collect();
    assert!(!fits_constant_pool(&many));
    let exact: Vec<Node> = (0..65536).map(|i| Node::Val(Val::Int(i))).collect();
    assert!(fits_constant_pool(&exact));
}
