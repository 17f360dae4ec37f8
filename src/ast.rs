//! Expression trees, as the parser produces them and the compiler consumes them.
use crate::val::Val;
use vstd::prelude::*;

verus! {

/// An arithmetic operator, used in unary position (`Plus`, `Minus`) or in binary position.
#[derive(Clone, Copy, Debug, PartialEq, Eq, Structural)]
pub enum Operator {
    Plus,
    Minus,
    Multiply,
    Divide,
}

/// An expression tree, as the parser produces it.
#[derive(Debug, PartialEq, Eq)]
pub enum Node {
    Val(Val),
    UnaryExpr { op: Operator, child: Box<Node> },
    BinaryExpr { op: Operator, lhs: Box<Node>, rhs: Box<Node> },
}

impl Node {
    /// A tree is well formed when every unary operator is `Plus` or `Minus`.
    pub open spec fn wf(self) -> bool
        decreases self,
    {
        match self {
            Node::Val(_) => true,
            Node::UnaryExpr { op, child } => (op == Operator::Plus || op == Operator::Minus)
                && child.wf(),
            Node::BinaryExpr { lhs, rhs, .. } => lhs.wf() && rhs.wf(),
        }
    }

    /// A copy of the tree, node for node.
    pub fn duplicate(&self) -> (r: Node)
        ensures
            r == *self,
        decreases self,
    {
        match self {
            Node::Val(v) => Node::Val(*v),
            Node::UnaryExpr { op, child } => Node::UnaryExpr {
                op: *op,
                child: Box::new(child.duplicate()),
            },
            Node::BinaryExpr { op, lhs, rhs } => Node::BinaryExpr {
                op: *op,
                lhs: Box::new(lhs.duplicate()),
                rhs: Box::new(rhs.duplicate()),
            },
        }
    }
}

/// Whether a tree holds a float literal anywhere.
pub open spec fn has_float(node: Node) -> bool
    decreases node,
{
    match node {
        Node::Val(v) => v is Float,
        Node::UnaryExpr { child, .. } => has_float(*child),
        Node::BinaryExpr { lhs, rhs, .. } => has_float(*lhs) || has_float(*rhs),
    }
}

/// Whether a tree holds a float literal anywhere.
pub fn contains_float(node: &Node) -> (r: bool)
    ensures
        r == has_float(*node),
    decreases node,
{
    match node {
        Node::Val(Val::Float(_)) => true,
        Node::Val(Val::Int(_)) => false,
        Node::UnaryExpr { child, .. } => contains_float(child),
        Node::BinaryExpr { lhs, rhs, .. } => contains_float(lhs) || contains_float(rhs),
    }
}

} // verus!
