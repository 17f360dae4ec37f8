//! The compiler from statement trees to an instruction stream and constant pool.
use crate::ast::{Node, Operator};
use crate::opcode::{encode, make_op, OpCode};
use vstd::prelude::*;

verus! {

/// The largest number of constants a program can hold: pool indices are 16 bits wide.
pub const MAX_CONSTANTS: usize = 65536;

/// A compiled program: the instruction stream and its constant pool.
#[derive(Debug, PartialEq, Eq)]
pub struct Bytecode {
    pub instructions: Vec<u8>,
    pub constants: Vec<Node>,
}

impl Bytecode {
    /// An empty program.
    pub fn new() -> (r: Self)
        ensures
            r.instructions@ == Seq::<u8>::empty(),
            r.constants@ == Seq::<Node>::empty(),
    {
        Self { instructions: Vec::new(), constants: Vec::new() }
    }
}

/// The literals of a tree, left to right: the constants its code adds to the pool.
pub open spec fn literals(node: Node) -> Seq<Node>
    decreases node,
{
    match node {
        Node::Val(v) => seq![Node::Val(v)],
        Node::UnaryExpr { child, .. } => literals(*child),
        Node::BinaryExpr { lhs, rhs, .. } => literals(*lhs) + literals(*rhs),
    }
}

/// The instruction a unary operator compiles to.
pub open spec fn unary_opcode(op: Operator) -> OpCode {
    if op == Operator::Plus {
        OpCode::OpPlus
    } else {
        OpCode::OpMinus
    }
}

/// The instruction a binary operator compiles to.
pub open spec fn binary_opcode(op: Operator) -> OpCode {
    match op {
        Operator::Plus => OpCode::OpAdd,
        Operator::Minus => OpCode::OpSub,
        Operator::Multiply => OpCode::OpMul,
        Operator::Divide => OpCode::OpDiv,
    }
}

/// The code of a tree whose first literal goes to pool index `k`: operands in
/// post order, left before right, each operator after its operands.
pub open spec fn node_code(node: Node, k: nat) -> Seq<u8>
    decreases node,
{
    match node {
        Node::Val(_) => encode(OpCode::OpConstant(k as u16)),
        Node::UnaryExpr { op, child } => node_code(*child, k) + encode(unary_opcode(op)),
        Node::BinaryExpr { op, lhs, rhs } => node_code(*lhs, k) + node_code(
            *rhs,
            k + literals(*lhs).len(),
        ) + encode(binary_opcode(op)),
    }
}

/// The constant pool of a sequence of statements.
pub open spec fn program_pool(ast: Seq<Node>) -> Seq<Node>
    decreases ast.len(),
{
    if ast.len() == 0 {
        Seq::empty()
    } else {
        program_pool(ast.drop_last()) + literals(ast.last())
    }
}

/// The instruction stream of a sequence of statements: each statement's code,
/// with a `Pop` between two consecutive statements and none after the last.
pub open spec fn program_code(ast: Seq<Node>) -> Seq<u8>
    decreases ast.len(),
{
    if ast.len() == 0 {
        Seq::empty()
    } else {
        let before = ast.drop_last();
        let sep = if ast.len() > 1 {
            encode(OpCode::OpPop)
        } else {
            Seq::empty()
        };
        program_code(before) + sep + node_code(ast.last(), program_pool(before).len())
    }
}

/// Every statement is a well-formed tree, and the pool fits 16-bit indices.
pub open spec fn compilable(ast: Seq<Node>) -> bool {
    &&& forall|i: int| 0 <= i < ast.len() ==> (#[trigger] ast[i]).wf()
    &&& program_pool(ast).len() <= MAX_CONSTANTS
}

/// The pool of a prefix is a prefix of the pool.
pub proof fn lemma_pool_prefix(ast: Seq<Node>, j: int)
    requires
        0 <= j <= ast.len(),
    ensures
        program_pool(ast.take(j)).len() <= program_pool(ast).len(),
    decreases ast.len(),
{
    if j < ast.len() {
        assert(ast.drop_last().take(j) =~= ast.take(j));
        lemma_pool_prefix(ast.drop_last(), j);
    } else {
        assert(ast.take(j) =~= ast);
    }
}

/// The number of literals in a tree, counted up to `limit`.
fn literal_count(node: &Node, limit: usize) -> (r: usize)
    ensures
        r == if literals(*node).len() < limit {
            literals(*node).len()
        } else {
            limit as nat
        },
    decreases node,
{
    match node {
        Node::Val(_) => if limit == 0 {
            0
        } else {
            1
        },
        Node::UnaryExpr { child, .. } => literal_count(child, limit),
        Node::BinaryExpr { lhs, rhs, .. } => {
            let a = literal_count(lhs, limit);
            if a >= limit {
                limit
            } else {
                a + literal_count(rhs, limit - a)
            }
        },
    }
}

/// Whether the literals of all statements fit in one constant pool.
pub fn fits_constant_pool(ast: &Vec<Node>) -> (r: bool)
    ensures
        r == (program_pool(ast@).len() <= MAX_CONSTANTS),
{
    let mut total: usize = 0;
    let mut i: usize = 0;
    while i < ast.len()
        invariant
            i <= ast@.len(),
            total <= MAX_CONSTANTS,
            program_pool(ast@.take(i as int)).len() == total,
        decreases ast@.len() - i,
    {
        assert(ast@.take(i + 1).drop_last() =~= ast@.take(i as int));
        let n = literal_count(&ast[i], MAX_CONSTANTS - total + 1);
        if n > MAX_CONSTANTS - total {
            proof {
                lemma_pool_prefix(ast@, i + 1);
            }
            return false;
        }
        total = total + n;
        i += 1;
    }
    assert(ast@.take(i as int) =~= ast@);
    true
}

/// The compiler: lowers statements to one `Bytecode`.
pub struct Interpreter {
    bytecode: Bytecode,
}

impl Interpreter {
    /// Compiles a sequence of statements into one program.
    pub fn from_ast(ast: Vec<Node>) -> (r: Bytecode)
        requires
            compilable(ast@),
        ensures
            r.instructions@ == program_code(ast@),
            r.constants@ == program_pool(ast@),
    {
        let mut interpreter = Interpreter { bytecode: Bytecode::new() };
        let len = ast.len();
        let mut idx: usize = 0;
        while idx < len
            invariant
                len == ast@.len(),
                idx <= len,
                compilable(ast@),
                interpreter.bytecode.instructions@ == program_code(ast@.take(idx as int)),
                interpreter.bytecode.constants@ == program_pool(ast@.take(idx as int)),
            decreases len - idx,
        {
            let ghost before = ast@.take(idx as int);
            let ghost upto = ast@.take(idx + 1);
            assert(upto.drop_last() =~= before);
            proof {
                lemma_pool_prefix(ast@, idx + 1);
            }
            if idx > 0 {
                interpreter.add_instruction(OpCode::OpPop);
            }
            assert(ast@[idx as int].wf());
            interpreter.interpret_node(&ast[idx]);
            proof {
                if idx == 0 {
                    assert(before =~= Seq::<Node>::empty());
                }
                assert(interpreter.bytecode.instructions@ =~= program_code(upto));
                assert(interpreter.bytecode.constants@ =~= program_pool(upto));
            }
            idx += 1;
        }
        assert(ast@.take(len as int) =~= ast@);
        interpreter.bytecode
    }

    /// Appends a constant to the pool and returns its index.
    fn add_constant(&mut self, node: Node) -> (r: u16)
        requires
            old(self).bytecode.constants.len() < MAX_CONSTANTS,
        ensures
            final(self).bytecode.constants@ == old(self).bytecode.constants@.push(node),
            final(self).bytecode.instructions@ == old(self).bytecode.instructions@,
            r as int == old(self).bytecode.constants.len(),
    {
        self.bytecode.constants.push(node);
        (self.bytecode.constants.len() - 1) as u16
    }

    /// Appends one encoded instruction and returns where it starts (as a 16-bit position).
    fn add_instruction(&mut self, op_code: OpCode) -> (r: u16)
        ensures
            final(self).bytecode.instructions@ == old(self).bytecode.instructions@ + encode(op_code),
            final(self).bytecode.constants@ == old(self).bytecode.constants@,
            r == old(self).bytecode.instructions.len() as u16,
    {
        let position_of_new_instruction = self.bytecode.instructions.len() as u16;
        let mut bytes = make_op(op_code);
        self.bytecode.instructions.append(&mut bytes);
        position_of_new_instruction
    }

    /// Emits the code of one tree, adding its literals to the pool.
    fn interpret_node(&mut self, node: &Node)
        requires
            node.wf(),
            old(self).bytecode.constants.len() + literals(*node).len() <= MAX_CONSTANTS,
        ensures
            final(self).bytecode.instructions@ == old(self).bytecode.instructions@ + node_code(
                *node,
                old(self).bytecode.constants.len() as nat,
            ),
            final(self).bytecode.constants@ == old(self).bytecode.constants@ + literals(*node),
        decreases node,
    {
        let ghost code0 = self.bytecode.instructions@;
        let ghost pool0 = self.bytecode.constants@;
        match node {
            Node::Val(v) => {
                let const_index = self.add_constant(Node::Val(*v));
                self.add_instruction(OpCode::OpConstant(const_index));
                assert(self.bytecode.constants@ =~= pool0 + literals(*node));
            },
            Node::UnaryExpr { op, child } => {
                self.interpret_node(child);
                match op {
                    Operator::Plus => self.add_instruction(OpCode::OpPlus),
                    _ => self.add_instruction(OpCode::OpMinus),
                };
                assert(self.bytecode.instructions@ =~= code0 + node_code(*node, pool0.len()));
            },
            Node::BinaryExpr { op, lhs, rhs } => {
                self.interpret_node(lhs);
                self.interpret_node(rhs);
                match op {
                    Operator::Plus => self.add_instruction(OpCode::OpAdd),
                    Operator::Minus => self.add_instruction(OpCode::OpSub),
                    Operator::Multiply => self.add_instruction(OpCode::OpMul),
                    Operator::Divide => self.add_instruction(OpCode::OpDiv),
                };
                assert(self.bytecode.instructions@ =~= code0 + node_code(*node, pool0.len()));
                assert(self.bytecode.constants@ =~= pool0 + literals(*node));
            },
        }
    }
}

} // verus!
