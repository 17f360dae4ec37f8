//! Runtime values and the coercion table shared by both evaluators.
use crate::ast::Operator;
use vstd::prelude::*;

verus! {

/// The sign bit of a binary32 bit pattern.
pub const SIGN_BIT: u32 = 0x8000_0000;

/// A runtime value. `Float` holds the IEEE-754 binary32 bit pattern of the
/// value, so equality on values is total: two floats are equal exactly when
/// their bit patterns are.
#[derive(Clone, Copy, Debug, PartialEq, Eq, Structural)]
pub enum Val {
    Int(i32),
    Float(u32),
}

/// A floating-point operation that the caller must carry out: apply `op` to
/// `lhs` and `rhs`, first turning an `Int` operand into the nearest float.
#[derive(Clone, Copy, Debug, PartialEq, Eq, Structural)]
pub struct FloatRequest {
    pub op: Operator,
    pub lhs: Val,
    pub rhs: Val,
}

/// What a binary operator makes of two values under the coercion table.
#[derive(Clone, Copy, Debug, PartialEq, Eq, Structural)]
pub enum Applied {
    /// The result, computed here (both operands were integers).
    Value(Val),
    /// At least one operand is a float: the result is the float that the request names.
    NeedsFloat(FloatRequest),
    /// Integer division by zero.
    DivisionByZero,
}

/// Truncating integer quotient; the one overflowing case, `i32::MIN / -1`, wraps to `i32::MIN`.
pub open spec fn int_quotient(a: i32, b: i32) -> i32
    recommends
        b != 0,
{
    match a.checked_div(b) {
        Some(q) => q,
        None => i32::MIN,
    }
}

/// Integer negation, wrapping `i32::MIN` to itself.
pub open spec fn int_negation(a: i32) -> i32 {
    if a == i32::MIN {
        i32::MIN
    } else {
        (-a) as i32
    }
}

/// The coercion table. Two integers give an integer (wrapping on overflow,
/// division truncating toward zero, division by zero an error); any float
/// operand makes the whole operation a floating one, integers being promoted.
/// Floating division by zero is no error: it yields an infinity or NaN.
pub open spec fn apply_spec(op: Operator, lhs: Val, rhs: Val) -> Applied {
    match (lhs, rhs) {
        (Val::Int(a), Val::Int(b)) => match op {
            Operator::Plus => Applied::Value(Val::Int(a.wrapping_add(b))),
            Operator::Minus => Applied::Value(Val::Int(a.wrapping_sub(b))),
            Operator::Multiply => Applied::Value(Val::Int(a.wrapping_mul(b))),
            Operator::Divide => if b == 0 {
                Applied::DivisionByZero
            } else {
                Applied::Value(Val::Int(int_quotient(a, b)))
            },
        },
        _ => Applied::NeedsFloat(FloatRequest { op, lhs, rhs }),
    }
}

/// Unary minus: integers negate (wrapping), floats flip their sign bit.
pub open spec fn negate_spec(v: Val) -> Val {
    match v {
        Val::Int(a) => Val::Int(int_negation(a)),
        Val::Float(bits) => Val::Float(bits ^ SIGN_BIT),
    }
}

/// Applies a binary operator to two values under the coercion table.
pub fn apply(op: Operator, lhs: Val, rhs: Val) -> (r: Applied)
    ensures
        r == apply_spec(op, lhs, rhs),
{
    match (lhs, rhs) {
        (Val::Int(a), Val::Int(b)) => match op {
            Operator::Plus => Applied::Value(Val::Int(a.wrapping_add(b))),
            Operator::Minus => Applied::Value(Val::Int(a.wrapping_sub(b))),
            Operator::Multiply => Applied::Value(Val::Int(a.wrapping_mul(b))),
            Operator::Divide => if b == 0 {
                Applied::DivisionByZero
            } else {
                match a.checked_div(b) {
                    Some(q) => Applied::Value(Val::Int(q)),
                    None => Applied::Value(Val::Int(i32::MIN)),
                }
            },
        },
        _ => Applied::NeedsFloat(FloatRequest { op, lhs, rhs }),
    }
}

/// Unary minus on a value; the variant is kept.
pub fn negate(v: Val) -> (r: Val)
    ensures
        r == negate_spec(v),
        r is Int <==> v is Int,
{
    match v {
        Val::Int(a) => if a == i32::MIN {
            Val::Int(i32::MIN)
        } else {
            Val::Int(-a)
        },
        Val::Float(bits) => Val::Float(bits ^ SIGN_BIT),
    }
}

/// Negating twice gives the value back, for both variants.
pub proof fn lemma_double_negation(v: Val)
    ensures
        negate_spec(negate_spec(v)) == v,
{
    if let Val::Float(bits) = v {
        assert((bits ^ SIGN_BIT) ^ SIGN_BIT == bits) by (bit_vector);
    }
}

} // verus!
