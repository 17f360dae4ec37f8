//! What a compiled program computes: running it agrees with evaluating its
//! trees directly, for any floating-point arithmetic the caller supplies.
use crate::ast::{Node, Operator};
use crate::bytecode::{
    binary_opcode, compilable, literals, node_code, program_code, program_pool, unary_opcode,
    MAX_CONSTANTS,
};
use crate::opcode::{encode, is_known_tag, lemma_decode_encode, OpCode, OP_CONSTANT, OP_POP};
use crate::val::{apply_spec, lemma_double_negation, negate_spec, Applied, FloatRequest, Val};
use crate::vm::{binary_operator, exec_op, op_width, run_spec, run_with, Effect, Halt, Status, VmError};
use vstd::prelude::*;

verus! {

/// The value of a tree, evaluated directly, when every floating-point
/// operation `req` yields `fl(req)`.
pub open spec fn eval_with(node: Node, fl: spec_fn(FloatRequest) -> u32) -> Result<Val, VmError>
    decreases node,
{
    match node {
        Node::Val(v) => Ok(v),
        Node::UnaryExpr { op, child } => match eval_with(*child, fl) {
            Ok(v) => Ok(
                if op == Operator::Plus {
                    v
                } else {
                    negate_spec(v)
                },
            ),
            Err(e) => Err(e),
        },
        Node::BinaryExpr { op, lhs, rhs } => match eval_with(*lhs, fl) {
            Err(e) => Err(e),
            Ok(a) => match eval_with(*rhs, fl) {
                Err(e) => Err(e),
                Ok(b) => match apply_spec(op, a, b) {
                    Applied::Value(v) => Ok(v),
                    Applied::NeedsFloat(req) => Ok(Val::Float(fl(req))),
                    Applied::DivisionByZero => Err(VmError::DivisionByZero),
                },
            },
        },
    }
}

/// Statements evaluated in order: the first failure, or else the value of the last one.
pub open spec fn eval_statements(ast: Seq<Node>, fl: spec_fn(FloatRequest) -> u32) -> Result<
    Val,
    VmError,
>
    decreases ast.len(),
{
    if ast.len() <= 1 {
        eval_with(ast[0], fl)
    } else {
        match eval_statements(ast.drop_last(), fl) {
            Err(e) => Err(e),
            Ok(_) => eval_with(ast.last(), fl),
        }
    }
}

/// A piece of a stretch of a sequence is the same piece of that stretch.
proof fn lemma_piece<T>(whole: Seq<T>, p: int, part: Seq<T>, off: int, len: int)
    requires
        0 <= p,
        p + part.len() <= whole.len(),
        whole.subrange(p, p + part.len()) == part,
        0 <= off,
        0 <= len,
        off + len <= part.len(),
    ensures
        whole.subrange(p + off, p + off + len) == part.subrange(off, off + len),
{
    assert forall|i: int| 0 <= i < len implies #[trigger] whole.subrange(p + off, p + off + len)[i]
        == part.subrange(off, off + len)[i] by {
        assert(part[off + i] == whole.subrange(p, p + part.len())[off + i]);
    }
    assert(whole.subrange(p + off, p + off + len) =~= part.subrange(off, off + len));
}

proof fn lemma_single_op(
    code: Seq<u8>,
    consts: Seq<Node>,
    p: nat,
    op: OpCode,
    stack: Seq<Node>,
    fl: spec_fn(FloatRequest) -> u32,
)
    requires
        p + encode(op).len() <= code.len(),
        code.subrange(p as int, (p + encode(op).len()) as int) == encode(op),
    ensures
        run_with(code, consts, p, stack, fl) == match exec_op(op, consts, stack) {
            Effect::Continue(next) => run_with(code, consts, p + op_width(op), next, fl),
            Effect::Pause(next, req) => run_with(
                code,
                consts,
                p + op_width(op),
                next.push(Node::Val(Val::Float(fl(req)))),
                fl,
            ),
            Effect::Fail(e) => Err(e),
        },
{
    lemma_decode_encode(op, code, p as int);
}

/// Running the code of one tree pushes the tree's value, or fails as its evaluation does.
proof fn lemma_node(
    code: Seq<u8>,
    consts: Seq<Node>,
    p: nat,
    stack: Seq<Node>,
    node: Node,
    k: nat,
    fl: spec_fn(FloatRequest) -> u32,
)
    requires
        node.wf(),
        p + node_code(node, k).len() <= code.len(),
        code.subrange(p as int, (p + node_code(node, k).len()) as int) == node_code(node, k),
        k + literals(node).len() <= consts.len(),
        k + literals(node).len() <= MAX_CONSTANTS,
        consts.subrange(k as int, (k + literals(node).len()) as int) == literals(node),
    ensures
        run_with(code, consts, p, stack, fl) == match eval_with(node, fl) {
            Ok(v) => run_with(code, consts, p + node_code(node, k).len(), stack.push(Node::Val(v)), fl),
            Err(e) => Err(e),
        },
    decreases node, 1int,
{
    let nc = node_code(node, k);
    match node {
        Node::Val(v) => {
            let op = OpCode::OpConstant(k as u16);
            assert(consts[k as int] == consts.subrange(k as int, (k + 1) as int)[0]);
            lemma_single_op(code, consts, p, op, stack, fl);
        },
        Node::UnaryExpr { op, child } => {
            let cc = node_code(*child, k);
            let u = unary_opcode(op);
            lemma_piece(code, p as int, nc, 0, cc.len() as int);
            assert(nc.subrange(0, cc.len() as int) =~= cc);
            lemma_node(code, consts, p, stack, *child, k, fl);
            if let Ok(v) = eval_with(*child, fl) {
                let q = p + cc.len();
                lemma_piece(code, p as int, nc, cc.len() as int, 1);
                assert(nc.subrange(cc.len() as int, cc.len() + 1int) =~= encode(u));
                lemma_single_op(code, consts, q, u, stack.push(Node::Val(v)), fl);
                assert(stack.push(Node::Val(v)).drop_last() =~= stack);
            }
        },
        Node::BinaryExpr { op, lhs, rhs } => {
            lemma_binary(code, consts, p, stack, node, k, fl);
        },
    }
}

/// The binary case of `lemma_node`.
proof fn lemma_binary(
    code: Seq<u8>,
    consts: Seq<Node>,
    p: nat,
    stack: Seq<Node>,
    node: Node,
    k: nat,
    fl: spec_fn(FloatRequest) -> u32,
)
    requires
        node is BinaryExpr,
        node.wf(),
        p + node_code(node, k).len() <= code.len(),
        code.subrange(p as int, (p + node_code(node, k).len()) as int) == node_code(node, k),
        k + literals(node).len() <= consts.len(),
        k + literals(node).len() <= MAX_CONSTANTS,
        consts.subrange(k as int, (k + literals(node).len()) as int) == literals(node),
    ensures
        run_with(code, consts, p, stack, fl) == match eval_with(node, fl) {
            Ok(v) => run_with(code, consts, p + node_code(node, k).len(), stack.push(Node::Val(v)), fl),
            Err(e) => Err(e),
        },
    decreases node, 0int,
{
    let op = node->BinaryExpr_op;
    let lhs = *node->lhs;
    let rhs = *node->rhs;
    let nc = node_code(node, k);
    let lc = node_code(lhs, k);
    let k2 = k + literals(lhs).len();
    let rc = node_code(rhs, k2);
    let b = binary_opcode(op);
    assert(nc =~= lc + rc + encode(b));
    let lits = literals(lhs) + literals(rhs);
    lemma_piece(code, p as int, nc, 0, lc.len() as int);
    assert(nc.subrange(0, lc.len() as int) =~= lc);
    lemma_piece(consts, k as int, lits, 0, literals(lhs).len() as int);
    assert(lits.subrange(0, literals(lhs).len() as int) =~= literals(lhs));
    lemma_piece(consts, k as int, lits, literals(lhs).len() as int, literals(rhs).len() as int);
    assert(lits.subrange(literals(lhs).len() as int, lits.len() as int) =~= literals(rhs));
    lemma_node(code, consts, p, stack, lhs, k, fl);
    if let Ok(a) = eval_with(lhs, fl) {
        let q = p + lc.len();
        let s1 = stack.push(Node::Val(a));
        lemma_piece(code, p as int, nc, lc.len() as int, rc.len() as int);
        assert(nc.subrange(lc.len() as int, (lc.len() + rc.len()) as int) =~= rc);
        lemma_node(code, consts, q, s1, rhs, k2, fl);
        if let Ok(bv) = eval_with(rhs, fl) {
            let r = q + rc.len();
            let s2 = s1.push(Node::Val(bv));
            lemma_piece(code, p as int, nc, (lc.len() + rc.len()) as int, 1);
            assert(nc.subrange((lc.len() + rc.len()) as int, (lc.len() + rc.len() + 1) as int) =~= encode(b));
            lemma_single_op(code, consts, r, b, s2, fl);
            assert(s2.subrange(0, s2.len() - 2) =~= stack);
            assert(s2[s2.len() - 2] == Node::Val(a));
            assert(s2[s2.len() - 1] == Node::Val(bv));
        }
    }
}

/// Running the code of a statement sequence, wherever it stands, pushes the
/// value of its last statement, or fails as the first failing statement does.
proof fn lemma_program(
    code: Seq<u8>,
    consts: Seq<Node>,
    p: nat,
    stack: Seq<Node>,
    ast: Seq<Node>,
    fl: spec_fn(FloatRequest) -> u32,
)
    requires
        ast.len() > 0,
        compilable(ast),
        p + program_code(ast).len() <= code.len(),
        code.subrange(p as int, (p + program_code(ast).len()) as int) == program_code(ast),
        program_pool(ast).len() <= consts.len(),
        consts.subrange(0, program_pool(ast).len() as int) == program_pool(ast),
    ensures
        run_with(code, consts, p, stack, fl) == match eval_statements(ast, fl) {
            Ok(v) => run_with(
                code,
                consts,
                p + program_code(ast).len(),
                stack.push(Node::Val(v)),
                fl,
            ),
            Err(e) => Err(e),
        },
    decreases ast.len(),
{
    let before = ast.drop_last();
    let last = ast.last();
    let k = program_pool(before).len();
    let pc = program_code(ast);
    let lc = node_code(last, k);
    assert(ast[ast.len() - 1].wf());
    assert(program_pool(ast) =~= program_pool(before) + literals(last));
    lemma_piece(consts, 0, program_pool(ast), k as int, literals(last).len() as int);
    assert(program_pool(ast).subrange(k as int, (k + literals(last).len()) as int) =~= literals(last));
    if ast.len() == 1 {
        assert(before =~= Seq::<Node>::empty());
        assert(pc =~= lc);
        lemma_node(code, consts, p, stack, last, k, fl);
    } else {
        let bc = program_code(before);
        assert(pc =~= bc + encode(OpCode::OpPop) + lc);
        lemma_piece(code, p as int, pc, 0, bc.len() as int);
        assert(pc.subrange(0, bc.len() as int) =~= bc);
        lemma_piece(consts, 0, program_pool(ast), 0, k as int);
        assert(program_pool(ast).subrange(0, k as int) =~= program_pool(before));
        assert forall|i: int| 0 <= i < before.len() implies (#[trigger] before[i]).wf() by {
            assert(before[i] == ast[i]);
        }
        lemma_program(code, consts, p, stack, before, fl);
        if let Ok(v) = eval_statements(before, fl) {
            let q = p + bc.len();
            lemma_piece(code, p as int, pc, bc.len() as int, 1);
            assert(pc.subrange(bc.len() as int, bc.len() + 1int) =~= encode(OpCode::OpPop));
            lemma_single_op(code, consts, q, OpCode::OpPop, stack.push(Node::Val(v)), fl);
            assert(stack.push(Node::Val(v)).drop_last() =~= stack);
            lemma_piece(code, p as int, pc, bc.len() + 1int, lc.len() as int);
            assert(pc.subrange(bc.len() + 1int, (bc.len() + 1 + lc.len()) as int) =~= lc);
            lemma_node(code, consts, q + 1, stack, last, k, fl);
        }
    }
}

/// Compiling and then running a program gives what evaluating its statements
/// directly gives: the last statement's value alone on the stack, or the first failure.
pub proof fn theorem_compile_then_run(ast: Seq<Node>, fl: spec_fn(FloatRequest) -> u32)
    requires
        ast.len() > 0,
        compilable(ast),
    ensures
        run_with(program_code(ast), program_pool(ast), 0, Seq::empty(), fl) == match eval_statements(
            ast,
            fl,
        ) {
            Ok(v) => Ok(seq![Node::Val(v)]),
            Err(e) => Err::<Seq<Node>, VmError>(e),
        },
{
    let code = program_code(ast);
    let consts = program_pool(ast);
    assert(code.subrange(0, code.len() as int) =~= code);
    assert(consts.subrange(0, consts.len() as int) =~= consts);
    lemma_program(code, consts, 0, Seq::empty(), ast, fl);
    if let Ok(v) = eval_statements(ast, fl) {
        assert(Seq::<Node>::empty().push(Node::Val(v)) =~= seq![Node::Val(v)]);
    }
}

/// Statements that all evaluate without failure evaluate to the last one's value.
pub proof fn lemma_statements_value(ast: Seq<Node>, fl: spec_fn(FloatRequest) -> u32)
    requires
        ast.len() > 0,
        eval_statements(ast, fl) is Ok,
    ensures
        eval_statements(ast, fl) == eval_with(ast.last(), fl),
{
}

/// The code and pool of a single statement are its own.
proof fn lemma_single_statement(ast: Seq<Node>)
    requires
        ast.len() == 1,
    ensures
        program_code(ast) == node_code(ast[0], 0),
        program_pool(ast) == literals(ast[0]),
{
    assert(ast.drop_last() =~= Seq::<Node>::empty());
    assert(program_code(Seq::<Node>::empty()) == Seq::<u8>::empty());
    assert(program_pool(Seq::<Node>::empty()) == Seq::<Node>::empty());
    assert(program_code(ast) =~= node_code(ast[0], 0));
    assert(program_pool(ast) =~= literals(ast[0]));
}

/// A single well-formed statement with few literals can be compiled.
proof fn lemma_single_compilable(ast: Seq<Node>)
    requires
        ast.len() == 1,
        ast[0].wf(),
        literals(ast[0]).len() <= MAX_CONSTANTS,
    ensures
        compilable(ast),
{
    lemma_single_statement(ast);
    assert forall|i: int| 0 <= i < ast.len() implies (#[trigger] ast[i]).wf() by {
        assert(i == 0);
    }
}

/// A single literal, integer or float, compiled and run, finishes with exactly
/// that value on the stack.
pub proof fn lemma_literal_round_trip(v: Val)
    ensures
        run_spec(program_code(seq![Node::Val(v)]), program_pool(seq![Node::Val(v)]), 0, Seq::empty())
            == (Halt {
            ip: 3,
            stack: seq![Node::Val(v)],
            result: Ok(Status::Finished),
        }),
{
    let ast = seq![Node::Val(v)];
    lemma_single_statement(ast);
    let code = program_code(ast);
    let consts = program_pool(ast);
    assert(code =~= encode(OpCode::OpConstant(0)));
    assert(consts =~= seq![Node::Val(v)]);
    assert(code.subrange(0, 3) =~= encode(OpCode::OpConstant(0)));
    lemma_decode_encode(OpCode::OpConstant(0), code, 0);
    assert(Seq::<Node>::empty().push(Node::Val(v)) =~= seq![Node::Val(v)]);
    assert(run_spec(code, consts, 3, seq![Node::Val(v)]) == Halt {
        ip: 3,
        stack: seq![Node::Val(v)],
        result: Ok::<Status, VmError>(Status::Finished),
    });
}

/// One operator applied to two literals, compiled and run, gives what the
/// operator gives directly under the coercion table.
pub proof fn lemma_binary_operator(op: Operator, a: Val, b: Val, fl: spec_fn(FloatRequest) -> u32)
    ensures
        ({
            let ast = seq![
                Node::BinaryExpr { op, lhs: Box::new(Node::Val(a)), rhs: Box::new(Node::Val(b)) },
            ];
            run_with(program_code(ast), program_pool(ast), 0, Seq::empty(), fl) == match apply_spec(
                op,
                a,
                b,
            ) {
                Applied::Value(v) => Ok(seq![Node::Val(v)]),
                Applied::NeedsFloat(req) => Ok(seq![Node::Val(Val::Float(fl(req)))]),
                Applied::DivisionByZero => Err::<Seq<Node>, VmError>(VmError::DivisionByZero),
            }
        }),
{
    let node = Node::BinaryExpr { op, lhs: Box::new(Node::Val(a)), rhs: Box::new(Node::Val(b)) };
    let ast = seq![node];
    lemma_single_statement(ast);
    assert(literals(Node::Val(a)) == seq![Node::Val(a)]);
    assert(literals(Node::Val(b)) == seq![Node::Val(b)]);
    assert(program_pool(ast) =~= seq![Node::Val(a), Node::Val(b)]);
    assert(ast[0] == node);
    assert(Node::Val(a).wf() && Node::Val(b).wf());
    assert(node.wf());
    assert(eval_with(Node::Val(a), fl) == Ok::<Val, VmError>(a));
    assert(eval_with(Node::Val(b), fl) == Ok::<Val, VmError>(b));
    lemma_single_compilable(ast);
    theorem_compile_then_run(ast, fl);
}

/// However many statements there are, every one runs and exactly one value
/// remains on the stack at the end: the last statement's.
pub proof fn lemma_one_value_remains(ast: Seq<Node>, fl: spec_fn(FloatRequest) -> u32)
    requires
        ast.len() > 0,
        compilable(ast),
        eval_statements(ast, fl) is Ok,
    ensures
        run_with(program_code(ast), program_pool(ast), 0, Seq::empty(), fl) == Ok::<
            Seq<Node>,
            VmError,
        >(seq![Node::Val(eval_with(ast.last(), fl)->Ok_0)]),
{
    theorem_compile_then_run(ast, fl);
    lemma_statements_value(ast, fl);
}

/// Unary plus leaves a value as it is, and two unary minuses give it back,
/// for both variants.
pub proof fn lemma_unary_chain(v: Val, fl: spec_fn(FloatRequest) -> u32)
    ensures
        ({
            let plus = seq![Node::UnaryExpr { op: Operator::Plus, child: Box::new(Node::Val(v)) }];
            run_with(program_code(plus), program_pool(plus), 0, Seq::empty(), fl) == Ok::<
                Seq<Node>,
                VmError,
            >(seq![Node::Val(v)])
        }),
        ({
            let minus_minus = seq![
                Node::UnaryExpr {
                    op: Operator::Minus,
                    child: Box::new(
                        Node::UnaryExpr { op: Operator::Minus, child: Box::new(Node::Val(v)) },
                    ),
                },
            ];
            run_with(program_code(minus_minus), program_pool(minus_minus), 0, Seq::empty(), fl)
                == Ok::<Seq<Node>, VmError>(seq![Node::Val(v)])
        }),
{
    let plus_node = Node::UnaryExpr { op: Operator::Plus, child: Box::new(Node::Val(v)) };
    let plus = seq![plus_node];
    lemma_single_statement(plus);
    assert(literals(Node::Val(v)) == seq![Node::Val(v)]);
    assert(program_pool(plus) =~= seq![Node::Val(v)]);
    assert(plus[0] == plus_node);
    assert(Node::Val(v).wf());
    assert(plus_node.wf());
    assert(eval_with(Node::Val(v), fl) == Ok::<Val, VmError>(v));
    lemma_single_compilable(plus);
    assert(eval_with(plus_node, fl) == Ok::<Val, VmError>(v));
    theorem_compile_then_run(plus, fl);
    let inner = Node::UnaryExpr { op: Operator::Minus, child: Box::new(Node::Val(v)) };
    let mm_node = Node::UnaryExpr { op: Operator::Minus, child: Box::new(inner) };
    let minus_minus = seq![mm_node];
    lemma_single_statement(minus_minus);
    assert(literals(inner) == seq![Node::Val(v)]);
    assert(program_pool(minus_minus) =~= seq![Node::Val(v)]);
    assert(minus_minus[0] == mm_node);
    assert(inner.wf());
    assert(mm_node.wf());
    lemma_single_compilable(minus_minus);
    assert(eval_with(inner, fl) == Ok::<Val, VmError>(negate_spec(v)));
    lemma_double_negation(v);
    assert(eval_with(mm_node, fl) == Ok::<Val, VmError>(v));
    theorem_compile_then_run(minus_minus, fl);
}

/// A `Pop` on an empty stack is reported as a stack underflow, with nothing changed.
pub proof fn lemma_pop_on_empty_stack(code: Seq<u8>, consts: Seq<Node>)
    requires
        code.len() > 0,
        code[0] == OP_POP,
    ensures
        run_spec(code, consts, 0, Seq::empty()) == (Halt {
            ip: 0,
            stack: Seq::empty(),
            result: Err(VmError::StackUnderflow),
        }),
{
}

/// An unknown tag, or a constant operand cut off by the end of the stream, is
/// reported as an invalid instruction, with nothing changed.
pub proof fn lemma_invalid_instruction(code: Seq<u8>, consts: Seq<Node>, ip: nat, stack: Seq<Node>)
    requires
        ip < code.len(),
        !is_known_tag(code[ip as int]) || (code[ip as int] == OP_CONSTANT && ip + 3 > code.len()),
    ensures
        run_spec(code, consts, ip, stack) == (Halt {
            ip,
            stack,
            result: Err(VmError::InvalidInstruction),
        }),
{
}

/// The machine itself on one operator applied to two literals: it finishes
/// with the integer result, fails on integer division by zero, or pauses with
/// the operator and both operands as a float request and an empty stack.
pub proof fn lemma_binary_operator_halts(op: Operator, a: Val, b: Val)
    ensures
        ({
            let ast = seq![
                Node::BinaryExpr { op, lhs: Box::new(Node::Val(a)), rhs: Box::new(Node::Val(b)) },
            ];
            run_spec(program_code(ast), program_pool(ast), 0, Seq::empty()) == match apply_spec(
                op,
                a,
                b,
            ) {
                Applied::Value(v) => Halt {
                    ip: 7,
                    stack: seq![Node::Val(v)],
                    result: Ok(Status::Finished),
                },
                Applied::NeedsFloat(req) => Halt {
                    ip: 7,
                    stack: Seq::empty(),
                    result: Ok(Status::NeedsFloat(req)),
                },
                Applied::DivisionByZero => Halt {
                    ip: 6,
                    stack: seq![Node::Val(a), Node::Val(b)],
                    result: Err(VmError::DivisionByZero),
                },
            }
        }),
{
    let node = Node::BinaryExpr { op, lhs: Box::new(Node::Val(a)), rhs: Box::new(Node::Val(b)) };
    let ast = seq![node];
    lemma_single_statement(ast);
    let c0 = encode(OpCode::OpConstant(0));
    let c1 = encode(OpCode::OpConstant(1));
    let bo = encode(binary_opcode(op));
    let code = program_code(ast);
    let consts = program_pool(ast);
    assert(literals(Node::Val(a)) == seq![Node::Val(a)]);
    assert(literals(Node::Val(b)) == seq![Node::Val(b)]);
    assert(consts =~= seq![Node::Val(a), Node::Val(b)]);
    assert(node_code(Node::Val(a), 0) == c0);
    assert(node_code(Node::Val(b), 1) == c1);
    assert(code =~= c0 + c1 + bo);
    assert(code.subrange(0, 3) =~= c0);
    assert(code.subrange(3, 6) =~= c1);
    assert(code.subrange(6, 7) =~= bo);
    lemma_decode_encode(OpCode::OpConstant(0), code, 0);
    lemma_decode_encode(OpCode::OpConstant(1), code, 3);
    lemma_decode_encode(binary_opcode(op), code, 6);
    let s1 = Seq::<Node>::empty().push(Node::Val(a));
    let s2 = s1.push(Node::Val(b));
    assert(s2 =~= seq![Node::Val(a), Node::Val(b)]);
    assert(s2.subrange(0, 0) =~= Seq::<Node>::empty());
    assert(binary_operator(binary_opcode(op)) == op);
    assert(run_spec(code, consts, 0, Seq::empty()) == run_spec(code, consts, 3, s1));
    assert(run_spec(code, consts, 3, s1) == run_spec(code, consts, 6, s2));
    if let Applied::Value(v) = apply_spec(op, a, b) {
        assert(Seq::<Node>::empty().push(Node::Val(v)) =~= seq![Node::Val(v)]);
        assert(run_spec(code, consts, 7, seq![Node::Val(v)]) == Halt {
            ip: 7,
            stack: seq![Node::Val(v)],
            result: Ok::<Status, VmError>(Status::Finished),
        });
    }
}

} // verus!
