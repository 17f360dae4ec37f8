//! The stack machine that runs compiled programs.
use crate::ast::{Node, Operator};
use crate::bytecode::Bytecode;
use crate::opcode::{decode, encode, read_op, OpCode};
use crate::val::{apply, apply_spec, negate, negate_spec, Applied, FloatRequest, Val};
use vstd::prelude::*;

verus! {

/// Why a run stopped early.
#[derive(Clone, Copy, Debug, PartialEq, Eq, Structural)]
pub enum VmError {
    /// An instruction needed more operands than the stack holds.
    StackUnderflow,
    /// An unknown opcode tag, an operand that runs past the end of the stream,
    /// or a constant index past the end of the pool.
    InvalidInstruction,
    /// An operand on the stack is not a value.
    TypeMismatch,
    /// Integer division by zero.
    DivisionByZero,
}

/// How a run that did not fail came to a halt.
#[derive(Clone, Copy, Debug, PartialEq, Eq, Structural)]
pub enum Status {
    /// The whole stream has been executed.
    Finished,
    /// An operator needs floating-point arithmetic: its operands have been
    /// popped; push the requested float, then run again to go on.
    NeedsFloat(FloatRequest),
}

/// What executing one decoded instruction does to the stack.
pub enum Effect {
    Continue(Seq<Node>),
    Pause(Seq<Node>, FloatRequest),
    Fail(VmError),
}

/// Where a run halts: the instruction pointer, the stack, and how it ended.
pub struct Halt {
    pub ip: nat,
    pub stack: Seq<Node>,
    pub result: Result<Status, VmError>,
}

/// The operator that a binary instruction applies.
pub open spec fn binary_operator(op: OpCode) -> Operator {
    match op {
        OpCode::OpSub => Operator::Minus,
        OpCode::OpMul => Operator::Multiply,
        OpCode::OpDiv => Operator::Divide,
        _ => Operator::Plus,
    }
}

/// The number of bytes an instruction takes in the stream.
pub open spec fn op_width(op: OpCode) -> nat {
    if op is OpConstant {
        3
    } else {
        1
    }
}

/// The effect of one instruction on the stack.
pub open spec fn exec_op(op: OpCode, consts: Seq<Node>, stack: Seq<Node>) -> Effect {
    let n = stack.len();
    match op {
        OpCode::OpConstant(idx) => if (idx as int) < consts.len() {
            Effect::Continue(stack.push(consts[idx as int]))
        } else {
            Effect::Fail(VmError::InvalidInstruction)
        },
        OpCode::OpPop => if n == 0 {
            Effect::Fail(VmError::StackUnderflow)
        } else {
            Effect::Continue(stack.drop_last())
        },
        OpCode::OpPlus | OpCode::OpMinus => if n == 0 {
            Effect::Fail(VmError::StackUnderflow)
        } else {
            match stack.last() {
                Node::Val(v) => Effect::Continue(
                    stack.drop_last().push(
                        Node::Val(
                            if op is OpPlus {
                                v
                            } else {
                                negate_spec(v)
                            },
                        ),
                    ),
                ),
                _ => Effect::Fail(VmError::TypeMismatch),
            }
        },
        _ => if n < 2 {
            Effect::Fail(VmError::StackUnderflow)
        } else {
            match (stack[n - 2], stack[n - 1]) {
                (Node::Val(a), Node::Val(b)) => {
                    let rest = stack.subrange(0, n - 2);
                    match apply_spec(binary_operator(op), a, b) {
                        Applied::Value(v) => Effect::Continue(rest.push(Node::Val(v))),
                        Applied::NeedsFloat(req) => Effect::Pause(rest, req),
                        Applied::DivisionByZero => Effect::Fail(VmError::DivisionByZero),
                    }
                },
                _ => Effect::Fail(VmError::TypeMismatch),
            }
        },
    }
}

/// Runs from `ip` until the stream ends, an instruction fails, or an operator
/// needs floating-point arithmetic. On failure the state is the one before the
/// failing instruction.
pub open spec fn run_spec(code: Seq<u8>, consts: Seq<Node>, ip: nat, stack: Seq<Node>) -> Halt
    decreases code.len() - ip,
{
    if ip >= code.len() {
        Halt { ip, stack, result: Ok(Status::Finished) }
    } else {
        match decode(code, ip as int) {
            None => Halt { ip, stack, result: Err(VmError::InvalidInstruction) },
            Some(op) => match exec_op(op, consts, stack) {
                Effect::Continue(next) => run_spec(code, consts, ip + op_width(op), next),
                Effect::Pause(next, req) => Halt {
                    ip: ip + op_width(op),
                    stack: next,
                    result: Ok(Status::NeedsFloat(req)),
                },
                Effect::Fail(e) => Halt { ip, stack, result: Err(e) },
            },
        }
    }
}

/// The whole run when every floating-point request `req` is answered with
/// `fl(req)`: the final stack, or the first failure.
pub open spec fn run_with(
    code: Seq<u8>,
    consts: Seq<Node>,
    ip: nat,
    stack: Seq<Node>,
    fl: spec_fn(FloatRequest) -> u32,
) -> Result<Seq<Node>, VmError>
    decreases code.len() - ip,
{
    if ip >= code.len() {
        Ok(stack)
    } else {
        match decode(code, ip as int) {
            None => Err(VmError::InvalidInstruction),
            Some(op) => match exec_op(op, consts, stack) {
                Effect::Continue(next) => run_with(code, consts, ip + op_width(op), next, fl),
                Effect::Pause(next, req) => run_with(
                    code,
                    consts,
                    ip + op_width(op),
                    next.push(Node::Val(Val::Float(fl(req)))),
                    fl,
                ),
                Effect::Fail(e) => Err(e),
            },
        }
    }
}

/// The declared width of an instruction is the length of its encoding.
pub proof fn lemma_width(op: OpCode)
    ensures
        op_width(op) == encode(op).len(),
{
}

/// Resuming is faithful: a run that halts for a float, continued with the
/// requested value pushed, is the whole run; a finished run leaves its stack;
/// a failed run reports its failure.
pub proof fn lemma_resume(
    code: Seq<u8>,
    consts: Seq<Node>,
    ip: nat,
    stack: Seq<Node>,
    fl: spec_fn(FloatRequest) -> u32,
)
    ensures
        ({
            let h = run_spec(code, consts, ip, stack);
            run_with(code, consts, ip, stack, fl) == match h.result {
                Ok(Status::Finished) => Ok(h.stack),
                Ok(Status::NeedsFloat(req)) => run_with(
                    code,
                    consts,
                    h.ip,
                    h.stack.push(Node::Val(Val::Float(fl(req)))),
                    fl,
                ),
                Err(e) => Err(e),
            }
        }),
    decreases code.len() - ip,
{
    if ip < code.len() {
        if let Some(op) = decode(code, ip as int) {
            if let Effect::Continue(next) = exec_op(op, consts, stack) {
                lemma_resume(code, consts, ip + op_width(op), next, fl);
            }
        }
    }
}

/// The stack machine: one program, its operand stack and its instruction pointer.
pub struct VM {
    bytecode: Bytecode,
    stack: Vec<Node>,
    ip: usize,
}

impl VM {
    /// The instruction stream.
    pub closed spec fn code(&self) -> Seq<u8> {
        self.bytecode.instructions@
    }

    /// The constant pool.
    pub closed spec fn consts(&self) -> Seq<Node> {
        self.bytecode.constants@
    }

    /// The operand stack, bottom first.
    pub closed spec fn stack(&self) -> Seq<Node> {
        self.stack@
    }

    /// The offset of the next instruction.
    pub closed spec fn ip(&self) -> nat {
        self.ip as nat
    }

    /// A machine about to run `bytecode` from its start, with an empty stack.
    pub fn new(bytecode: Bytecode) -> (r: Self)
        ensures
            r.code() == bytecode.instructions@,
            r.consts() == bytecode.constants@,
            r.ip() == 0,
            r.stack() == Seq::<Node>::empty(),
    {
        Self { bytecode, stack: Vec::new(), ip: 0 }
    }

    /// Runs from the current instruction until the stream ends, an instruction
    /// fails, or an operator needs floating-point arithmetic.
    pub fn run(&mut self) -> (r: Result<Status, VmError>)
        ensures
            r == run_spec(old(self).code(), old(self).consts(), old(self).ip(), old(self).stack()).result,
            final(self).ip() == run_spec(old(self).code(), old(self).consts(), old(self).ip(), old(self).stack()).ip,
            final(self).stack() == run_spec(old(self).code(), old(self).consts(), old(self).ip(), old(self).stack()).stack,
            final(self).code() == old(self).code(),
            final(self).consts() == old(self).consts(),
    {
        let ghost h = run_spec(self.code(), self.consts(), self.ip(), self.stack());
        while self.ip < self.bytecode.instructions.len()
            invariant
                self.code() == old(self).code(),
                self.consts() == old(self).consts(),
                h == run_spec(old(self).code(), old(self).consts(), old(self).ip(), old(self).stack()),
                run_spec(self.code(), self.consts(), self.ip(), self.stack()) == h,
            decreases self.code().len() - self.ip(),
        {
            match self.step() {
                Ok(None) => {},
                Ok(Some(req)) => {
                    assert(h == Halt {
                        ip: self.ip(),
                        stack: self.stack(),
                        result: Ok::<Status, VmError>(Status::NeedsFloat(req)),
                    });
                    return Ok(Status::NeedsFloat(req));
                },
                Err(e) => {
                    assert(h == Halt {
                        ip: self.ip(),
                        stack: self.stack(),
                        result: Err::<Status, VmError>(e),
                    });
                    return Err(e);
                },
            }
        }
        Ok(Status::Finished)
    }

    /// Decodes and executes the instruction at the instruction pointer, moving
    /// the pointer past it unless it fails.
    fn step(&mut self) -> (r: Result<Option<FloatRequest>, VmError>)
        requires
            old(self).ip() < old(self).code().len(),
        ensures
            final(self).code() == old(self).code(),
            final(self).consts() == old(self).consts(),
            match decode(old(self).code(), old(self).ip() as int) {
                None => r == Err::<Option<FloatRequest>, VmError>(VmError::InvalidInstruction)
                    && final(self).ip() == old(self).ip() && final(self).stack() == old(self).stack(),
                Some(op) => match exec_op(op, old(self).consts(), old(self).stack()) {
                    Effect::Continue(next) => r == Ok::<Option<FloatRequest>, VmError>(None)
                        && final(self).ip() == old(self).ip() + op_width(op)
                        && final(self).stack() == next,
                    Effect::Pause(next, req) => r == Ok::<Option<FloatRequest>, VmError>(Some(req))
                        && final(self).ip() == old(self).ip() + op_width(op)
                        && final(self).stack() == next,
                    Effect::Fail(e) => r == Err::<Option<FloatRequest>, VmError>(e)
                        && final(self).ip() == old(self).ip()
                        && final(self).stack() == old(self).stack(),
                },
            },
    {
        let decoded = read_op(&self.bytecode.instructions, self.ip);
        let op = match decoded {
            Some(op) => op,
            None => return Err(VmError::InvalidInstruction),
        };
        assert(decode(self.code(), self.ip as int) == Some(op));
        proof {
            crate::opcode::lemma_encode_decode(self.code(), self.ip as int);
            lemma_width(op);
        }
        let width: usize = match op {
            OpCode::OpConstant(_) => 3,
            _ => 1,
        };
        assert(width == op_width(op));
        let len = self.bytecode.instructions.len();
        assert(self.ip + width <= len);
        let next = self.ip + width;
        let r = self.execute(op);
        if let Ok(_) = r {
            self.ip = next;
        }
        r
    }

    /// Executes one decoded instruction on the stack; on failure the stack is left as it was.
    fn execute(&mut self, op: OpCode) -> (r: Result<Option<FloatRequest>, VmError>)
        ensures
            final(self).code() == old(self).code(),
            final(self).consts() == old(self).consts(),
            final(self).ip() == old(self).ip(),
            match exec_op(op, old(self).consts(), old(self).stack()) {
                Effect::Continue(next) => r == Ok::<Option<FloatRequest>, VmError>(None)
                    && final(self).stack() == next,
                Effect::Pause(next, req) => r == Ok::<Option<FloatRequest>, VmError>(Some(req))
                    && final(self).stack() == next,
                Effect::Fail(e) => r == Err::<Option<FloatRequest>, VmError>(e)
                    && final(self).stack() == old(self).stack(),
            },
    {
        let n = self.stack.len();
        match op {
            OpCode::OpConstant(idx) => {
                let idx = idx as usize;
                if idx < self.bytecode.constants.len() {
                    let c = self.bytecode.constants[idx].duplicate();
                    self.push(c);
                    Ok(None)
                } else {
                    Err(VmError::InvalidInstruction)
                }
            },
            OpCode::OpPop => {
                if n == 0 {
                    Err(VmError::StackUnderflow)
                } else {
                    let _ = self.pop();
                    Ok(None)
                }
            },
            OpCode::OpPlus | OpCode::OpMinus => {
                if n == 0 {
                    return Err(VmError::StackUnderflow);
                }
                let v = match &self.stack[n - 1] {
                    Node::Val(v) => *v,
                    _ => return Err(VmError::TypeMismatch),
                };
                let r = match op {
                    OpCode::OpPlus => v,
                    _ => negate(v),
                };
                let _ = self.pop();
                self.push(Node::Val(r));
                Ok(None)
            },
            _ => {
                if n < 2 {
                    return Err(VmError::StackUnderflow);
                }
                let lhs = match &self.stack[n - 2] {
                    Node::Val(v) => *v,
                    _ => return Err(VmError::TypeMismatch),
                };
                let rhs = match &self.stack[n - 1] {
                    Node::Val(v) => *v,
                    _ => return Err(VmError::TypeMismatch),
                };
                let operator = match op {
                    OpCode::OpSub => Operator::Minus,
                    OpCode::OpMul => Operator::Multiply,
                    OpCode::OpDiv => Operator::Divide,
                    _ => Operator::Plus,
                };
                let ghost s0 = self.stack@;
                match apply(operator, lhs, rhs) {
                    Applied::Value(v) => {
                        let _ = self.pop();
                        let _ = self.pop();
                        self.push(Node::Val(v));
                        assert(self.stack@ =~= s0.subrange(0, n - 2).push(Node::Val(v)));
                        Ok(None)
                    },
                    Applied::NeedsFloat(req) => {
                        let _ = self.pop();
                        let _ = self.pop();
                        assert(self.stack@ =~= s0.subrange(0, n - 2));
                        Ok(Some(req))
                    },
                    Applied::DivisionByZero => Err(VmError::DivisionByZero),
                }
            },
        }
    }

    /// Pushes a value onto the stack; this is how a caller answers a float request.
    pub fn push(&mut self, node: Node)
        ensures
            final(self).stack() == old(self).stack().push(node),
            final(self).code() == old(self).code(),
            final(self).consts() == old(self).consts(),
            final(self).ip() == old(self).ip(),
    {
        self.stack.push(node);
    }

    /// Removes and returns the top of the stack.
    pub fn pop(&mut self) -> (r: Result<Node, VmError>)
        ensures
            old(self).stack().len() == 0 ==> r == Err::<Node, VmError>(VmError::StackUnderflow)
                && final(self).stack() == old(self).stack(),
            old(self).stack().len() > 0 ==> r == Ok::<Node, VmError>(old(self).stack().last())
                && final(self).stack() == old(self).stack().drop_last(),
            final(self).code() == old(self).code(),
            final(self).consts() == old(self).consts(),
            final(self).ip() == old(self).ip(),
    {
        match self.stack.pop() {
            Some(node) => Ok(node),
            None => Err(VmError::StackUnderflow),
        }
    }

    /// The top of the stack, left in place.
    pub fn pop_last(&self) -> (r: Result<&Node, VmError>)
        ensures
            self.stack().len() == 0 ==> r == Err::<&Node, VmError>(VmError::StackUnderflow),
            self.stack().len() > 0 ==> r == Ok::<&Node, VmError>(&self.stack().last()),
    {
        let n = self.stack.len();
        if n == 0 {
            Err(VmError::StackUnderflow)
        } else {
            Ok(&self.stack[n - 1])
        }
    }

    /// The value on top of the stack, if the stack is not empty and its top is a value.
    pub fn peek(&self) -> (r: Option<Val>)
        ensures
            r == (if self.stack().len() > 0 && self.stack().last() is Val {
                Some(self.stack().last()->Val_0)
            } else {
                None
            }),
    {
        let n = self.stack.len();
        if n == 0 {
            None
        } else {
            match &self.stack[n - 1] {
                Node::Val(v) => Some(*v),
                _ => None,
            }
        }
    }
}

} // verus!
