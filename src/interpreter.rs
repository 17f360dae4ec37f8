//! The tree-walking evaluator.
use crate::ast::{Node, Operator};
use crate::correctness::{eval_statements, eval_with, theorem_compile_then_run};
use crate::bytecode::{compilable, program_code, program_pool};
use crate::val::{apply, apply_spec, negate, negate_spec, Applied, FloatRequest, Val};
use crate::vm::{run_with, VmError};
use vstd::prelude::*;

verus! {

/// Why a direct evaluation stopped without a value.
#[derive(Clone, Copy, Debug, PartialEq, Eq, Structural)]
pub enum Stop {
    /// Evaluation failed.
    Failed(VmError),
    /// An operator needs a float result that the answers do not hold yet.
    NeedsFloat(FloatRequest),
}

/// The first answer recorded for a request.
pub open spec fn lookup(answers: Seq<(FloatRequest, u32)>, req: FloatRequest) -> Option<u32>
    decreases answers.len(),
{
    if answers.len() == 0 {
        None
    } else if answers[0].0 == req {
        Some(answers[0].1)
    } else {
        lookup(answers.drop_first(), req)
    }
}

/// The value of a tree, evaluated directly, floating-point results taken from `answers`.
pub open spec fn eval_answered(node: Node, answers: Seq<(FloatRequest, u32)>) -> Result<Val, Stop>
    decreases node,
{
    match node {
        Node::Val(v) => Ok(v),
        Node::UnaryExpr { op, child } => match eval_answered(*child, answers) {
            Ok(v) => Ok(
                if op == Operator::Plus {
                    v
                } else {
                    negate_spec(v)
                },
            ),
            Err(s) => Err(s),
        },
        Node::BinaryExpr { op, lhs, rhs } => match eval_answered(*lhs, answers) {
            Err(s) => Err(s),
            Ok(a) => match eval_answered(*rhs, answers) {
                Err(s) => Err(s),
                Ok(b) => match apply_spec(op, a, b) {
                    Applied::Value(v) => Ok(v),
                    Applied::DivisionByZero => Err(Stop::Failed(VmError::DivisionByZero)),
                    Applied::NeedsFloat(req) => match lookup(answers, req) {
                        Some(x) => Ok(Val::Float(x)),
                        None => Err(Stop::NeedsFloat(req)),
                    },
                },
            },
        },
    }
}

/// Statements evaluated directly, in order: the first stop, or the last value.
pub open spec fn eval_statements_answered(ast: Seq<Node>, answers: Seq<(FloatRequest, u32)>) -> Result<
    Val,
    Stop,
>
    decreases ast.len(),
{
    if ast.len() <= 1 {
        eval_answered(ast[0], answers)
    } else {
        match eval_statements_answered(ast.drop_last(), answers) {
            Err(s) => Err(s),
            Ok(_) => eval_answered(ast.last(), answers),
        }
    }
}

/// `fl` gives every recorded answer.
pub open spec fn agrees(fl: spec_fn(FloatRequest) -> u32, answers: Seq<(FloatRequest, u32)>) -> bool {
    forall|i: int| 0 <= i < answers.len() ==> fl((#[trigger] answers[i]).0) == answers[i].1
}

proof fn lemma_lookup(answers: Seq<(FloatRequest, u32)>, req: FloatRequest, fl: spec_fn(FloatRequest) -> u32)
    requires
        agrees(fl, answers),
    ensures
        lookup(answers, req) matches Some(x) ==> fl(req) == x,
    decreases answers.len(),
{
    if answers.len() > 0 && answers[0].0 != req {
        assert forall|i: int| 0 <= i < answers.drop_first().len() implies fl(
            (#[trigger] answers.drop_first()[i]).0,
        ) == answers.drop_first()[i].1 by {
            assert(answers.drop_first()[i] == answers[i + 1]);
        }
        lemma_lookup(answers.drop_first(), req, fl);
    } else if answers.len() > 0 {
        assert(fl(answers[0].0) == answers[0].1);
    }
}

/// Direct evaluation with recorded answers agrees with evaluation under any
/// float arithmetic that gives those answers.
pub proof fn lemma_answered_agrees(node: Node, answers: Seq<(FloatRequest, u32)>, fl: spec_fn(FloatRequest) -> u32)
    requires
        agrees(fl, answers),
    ensures
        eval_answered(node, answers) matches Ok(v) ==> eval_with(node, fl) == Ok::<Val, VmError>(v),
        eval_answered(node, answers) matches Err(Stop::Failed(e)) ==> eval_with(node, fl) == Err::<
            Val,
            VmError,
        >(e),
    decreases node,
{
    match node {
        Node::Val(_) => {},
        Node::UnaryExpr { child, .. } => {
            lemma_answered_agrees(*child, answers, fl);
        },
        Node::BinaryExpr { op, lhs, rhs } => {
            lemma_answered_agrees(*lhs, answers, fl);
            lemma_answered_agrees(*rhs, answers, fl);
            if let Ok(a) = eval_answered(*lhs, answers) {
                if let Ok(b) = eval_answered(*rhs, answers) {
                    if let Applied::NeedsFloat(req) = apply_spec(op, a, b) {
                        lemma_lookup(answers, req, fl);
                    }
                }
            }
        },
    }
}

/// The two evaluators agree: when direct evaluation of a program gives a value,
/// compiling and running it, with float requests answered as recorded, leaves
/// exactly that value on the stack; when it fails, the run fails the same way.
pub proof fn lemma_evaluators_agree(
    ast: Seq<Node>,
    answers: Seq<(FloatRequest, u32)>,
    fl: spec_fn(FloatRequest) -> u32,
)
    requires
        ast.len() > 0,
        compilable(ast),
        agrees(fl, answers),
    ensures
        eval_statements_answered(ast, answers) matches Ok(v) ==> run_with(
            program_code(ast),
            program_pool(ast),
            0,
            Seq::empty(),
            fl,
        ) == Ok::<Seq<Node>, VmError>(seq![Node::Val(v)]),
        eval_statements_answered(ast, answers) matches Err(Stop::Failed(e)) ==> run_with(
            program_code(ast),
            program_pool(ast),
            0,
            Seq::empty(),
            fl,
        ) == Err::<Seq<Node>, VmError>(e),
{
    lemma_statements_agree(ast, answers, fl);
    theorem_compile_then_run(ast, fl);
}

proof fn lemma_statements_agree(
    ast: Seq<Node>,
    answers: Seq<(FloatRequest, u32)>,
    fl: spec_fn(FloatRequest) -> u32,
)
    requires
        ast.len() > 0,
        agrees(fl, answers),
    ensures
        eval_statements_answered(ast, answers) matches Ok(v) ==> eval_statements(ast, fl) == Ok::<
            Val,
            VmError,
        >(v),
        eval_statements_answered(ast, answers) matches Err(Stop::Failed(e)) ==> eval_statements(
            ast,
            fl,
        ) == Err::<Val, VmError>(e),
    decreases ast.len(),
{
    lemma_answered_agrees(ast.last(), answers, fl);
    if ast.len() > 1 {
        lemma_statements_agree(ast.drop_last(), answers, fl);
    } else {
        assert(ast[0] == ast.last());
    }
}

/// The tree-walking evaluator.
pub struct Eval;

impl Eval {
    pub fn new() -> Self {
        Self
    }

    /// Evaluates a tree directly, taking float results from `answers`.
    pub fn eval(&self, node: &Node, answers: &Vec<(FloatRequest, u32)>) -> (r: Result<Val, Stop>)
        ensures
            r == eval_answered(*node, answers@),
        decreases node,
    {
        match node {
            Node::Val(v) => Ok(*v),
            Node::UnaryExpr { op, child } => match self.eval(child, answers) {
                Ok(v) => Ok(
                    match op {
                        Operator::Plus => v,
                        _ => negate(v),
                    },
                ),
                Err(s) => Err(s),
            },
            Node::BinaryExpr { op, lhs, rhs } => {
                let a = match self.eval(lhs, answers) {
                    Ok(a) => a,
                    Err(s) => return Err(s),
                };
                let b = match self.eval(rhs, answers) {
                    Ok(b) => b,
                    Err(s) => return Err(s),
                };
                match apply(*op, a, b) {
                    Applied::Value(v) => Ok(v),
                    Applied::DivisionByZero => Err(Stop::Failed(VmError::DivisionByZero)),
                    Applied::NeedsFloat(req) => match find_answer(answers, req) {
                        Some(x) => Ok(Val::Float(x)),
                        None => Err(Stop::NeedsFloat(req)),
                    },
                }
            },
        }
    }
}

/// The first recorded answer to a request.
fn find_answer(answers: &Vec<(FloatRequest, u32)>, req: FloatRequest) -> (r: Option<u32>)
    ensures
        r == lookup(answers@, req),
{
    let mut i: usize = 0;
    assert(answers@.subrange(0, answers@.len() as int) =~= answers@);
    while i < answers.len()
        invariant
            i <= answers@.len(),
            lookup(answers@, req) == lookup(answers@.subrange(i as int, answers@.len() as int), req),
        decreases answers@.len() - i,
    {
        let ghost rest = answers@.subrange(i as int, answers@.len() as int);
        assert(rest.drop_first() =~= answers@.subrange(i + 1, answers@.len() as int));
        assert(rest[0] == answers@[i as int]);
        if answers[i].0 == req {
            return Some(answers[i].1);
        }
        i += 1;
    }
    None
}

/// Evaluates statements directly, one after another.
pub struct Interpreter;

impl Interpreter {
    /// Evaluates every statement in order and gives the last one's value, or
    /// the first stop. An empty program gives the integer zero.
    pub fn from_ast(ast: &Vec<Node>, answers: &Vec<(FloatRequest, u32)>) -> (r: Result<Val, Stop>)
        ensures
            ast@.len() == 0 ==> r == Ok::<Val, Stop>(Val::Int(0)),
            ast@.len() > 0 ==> r == eval_statements_answered(ast@, answers@),
    {
        let evaluator = Eval::new();
        let mut ret = Val::Int(0);
        let mut i: usize = 0;
        while i < ast.len()
            invariant
                i <= ast@.len(),
                i > 0 ==> eval_statements_answered(ast@.take(i as int), answers@) == Ok::<Val, Stop>(ret),
                i == 0 ==> ret == Val::Int(0),
            decreases ast@.len() - i,
        {
            assert(ast@.take(i + 1).drop_last() =~= ast@.take(i as int));
            assert(ast@.take(i + 1).last() == ast@[i as int]);
            ret = match evaluator.eval(&ast[i], answers) {
                Ok(v) => v,
                Err(s) => {
                    proof {
                        lemma_prefix_stop(ast@, answers@, i + 1);
                    }
                    return Err(s);
                },
            };
            i += 1;
        }
        assert(ast@.take(i as int) =~= ast@);
        Ok(ret)
    }
}

/// A stop in a prefix of the statements is the stop of the whole program.
proof fn lemma_prefix_stop(ast: Seq<Node>, answers: Seq<(FloatRequest, u32)>, j: int)
    requires
        1 <= j <= ast.len(),
        eval_statements_answered(ast.take(j), answers) is Err,
    ensures
        eval_statements_answered(ast, answers) == eval_statements_answered(ast.take(j), answers),
    decreases ast.len(),
{
    if j < ast.len() {
        assert(ast.drop_last().take(j) =~= ast.take(j));
        lemma_prefix_stop(ast.drop_last(), answers, j);
    } else {
        assert(ast.take(j) =~= ast);
    }
}

} // verus!
