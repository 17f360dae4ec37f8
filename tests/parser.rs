use calculator::ast::{Node, Operator};
use calculator::parser::{float_literal_spans, parse, ParseError};
use calculator::val::Val;

fn float_values(source: &str) -> Vec<u32> {
    match float_literal_spans(source) {
        Ok(spans) => spans
            .iter()
            .map(|&(a, b)| source[a..b].parse::<f32>().unwrap().to_bits())
            .collect(),
        Err(_) => Vec::new(),
    }
}

fn parse_source(source: &str) -> Result<Vec<Node>, ParseError> {
    parse(source, &float_values(source))
}

#[test]
fn test_simple_integer() {
    let result = parse_source("42").unwrap();
    assert_eq!(result.len(), 1);
    match &result[0] {
        Node::Val(Val::Int(n)) => assert_eq!(*n, 42),
        _ => panic!("Expected Int"),
    }
}

#[test]
fn test_simple_float() {
    let result = parse_source("3.14").unwrap();
    assert_eq!(result.len(), 1);
    match &result[0] {
        Node::Val(Val::Float(n)) => assert_eq!(f32::from_bits(*n), 3.14),
        _ => panic!("Expected Float"),
    }
}

#[test]
fn test_addition() {
    let result = parse_source("1 + 2").unwrap();
    assert_eq!(result.len(), 1);
    match &result[0] {
        Node::BinaryExpr { op, lhs, rhs } => {
            assert_eq!(*op, Operator::Plus);
            assert!(matches!(**lhs, Node::Val(Val::Int(1))));
            assert!(matches!(**rhs, Node::Val(Val::Int(2))));
        }
        _ => panic!("Expected BinaryExpr"),
    }
}

#[test]
fn test_subtraction() {
    let result = parse_source("10 - 3").unwrap();
    assert_eq!(result.len(), 1);
    match &result[0] {
        Node::BinaryExpr { op, .. } => assert_eq!(*op, Operator::Minus),
        _ => panic!("Expected BinaryExpr"),
    }
}

#[test]
fn test_multiplication() {
    let result = parse_source("4 * 5").unwrap();
    assert_eq!(result.len(), 1);
    match &result[0] {
        Node::BinaryExpr { op, .. } => assert_eq!(*op, Operator::Multiply),
        _ => panic!("Expected BinaryExpr"),
    }
}

#[test]
fn test_division() {
    let result = parse_source("20 / 4").unwrap();
    assert_eq!(result.len(), 1);
    match &result[0] {
        Node::BinaryExpr { op, .. } => assert_eq!(*op, Operator::Divide),
        _ => panic!("Expected BinaryExpr"),
    }
}

#[test]
fn test_unary_minus() {
    let result = parse_source("-5").unwrap();
    assert_eq!(result.len(), 1);
    match &result[0] {
        Node::UnaryExpr { op, child } => {
            assert_eq!(*op, Operator::Minus);
            assert!(matches!(**child, Node::Val(Val::Int(5))));
        }
        _ => panic!("Expected UnaryExpr"),
    }
}

#[test]
fn test_unary_plus() {
    let result = parse_source("+3").unwrap();
    assert_eq!(result.len(), 1);
    match &result[0] {
        Node::UnaryExpr { op, .. } => assert_eq!(*op, Operator::Plus),
        _ => panic!("Expected UnaryExpr"),
    }
}

#[test]
fn test_precedence_multiply_before_add() {
    // 2 + 3 * 4 should parse as 2 + (3 * 4)
    let result = parse_source("2 + 3 * 4").unwrap();
    match &result[0] {
        Node::BinaryExpr { op, lhs, rhs } => {
            assert_eq!(*op, Operator::Plus);
            assert!(matches!(**lhs, Node::Val(Val::Int(2))));
            match &**rhs {
                Node::BinaryExpr { op, lhs, rhs } => {
                    assert_eq!(*op, Operator::Multiply);
                    assert!(matches!(**lhs, Node::Val(Val::Int(3))));
                    assert!(matches!(**rhs, Node::Val(Val::Int(4))));
                }
                _ => panic!("Expected nested multiplication"),
            }
        }
        _ => panic!("Expected BinaryExpr"),
    }
}

#[test]
fn test_precedence_divide_before_subtract() {
    // 10 - 6 / 2 should parse as 10 - (6 / 2)
    let result = parse_source("10 - 6 / 2").unwrap();
    match &result[0] {
        Node::BinaryExpr { op, lhs, rhs } => {
            assert_eq!(*op, Operator::Minus);
            assert!(matches!(**lhs, Node::Val(Val::Int(10))));
            match &**rhs {
                Node::BinaryExpr { op, .. } => {
                    assert_eq!(*op, Operator::Divide);
                }
                _ => panic!("Expected nested division"),
            }
        }
        _ => panic!("Expected BinaryExpr"),
    }
}

#[test]
fn test_left_associativity_addition() {
    // 1 + 2 + 3 should parse as (1 + 2) + 3
    let result = parse_source("1 + 2 + 3").unwrap();
    match &result[0] {
        Node::BinaryExpr { op, lhs, rhs } => {
            assert_eq!(*op, Operator::Plus);
            assert!(matches!(**rhs, Node::Val(Val::Int(3))));
            match &**lhs {
                Node::BinaryExpr { op, lhs, rhs } => {
                    assert_eq!(*op, Operator::Plus);
                    assert!(matches!(**lhs, Node::Val(Val::Int(1))));
                    assert!(matches!(**rhs, Node::Val(Val::Int(2))));
                }
                _ => panic!("Expected nested addition"),
            }
        }
        _ => panic!("Expected BinaryExpr"),
    }
}

#[test]
fn test_left_associativity_multiplication() {
    // 2 * 3 * 4 should parse as (2 * 3) * 4
    let result = parse_source("2 * 3 * 4").unwrap();
    match &result[0] {
        Node::BinaryExpr { op, lhs, rhs } => {
            assert_eq!(*op, Operator::Multiply);
            assert!(matches!(**rhs, Node::Val(Val::Int(4))));
            match &**lhs {
                Node::BinaryExpr { op, .. } => {
                    assert_eq!(*op, Operator::Multiply);
                }
                _ => panic!("Expected nested multiplication"),
            }
        }
        _ => panic!("Expected BinaryExpr"),
    }
}

#[test]
fn test_parentheses_override_precedence() {
    // (2 + 3) * 4 should parse as (2 + 3) * 4
    let result = parse_source("(2 + 3) * 4").unwrap();
    match &result[0] {
        Node::BinaryExpr { op, lhs, rhs } => {
            assert_eq!(*op, Operator::Multiply);
            assert!(matches!(**rhs, Node::Val(Val::Int(4))));
            match &**lhs {
                Node::BinaryExpr { op, lhs, rhs } => {
                    assert_eq!(*op, Operator::Plus);
                    assert!(matches!(**lhs, Node::Val(Val::Int(2))));
                    assert!(matches!(**rhs, Node::Val(Val::Int(3))));
                }
                _ => panic!("Expected nested addition"),
            }
        }
        _ => panic!("Expected BinaryExpr"),
    }
}

#[test]
fn test_nested_parentheses() {
    let result = parse_source("((1 + 2))").unwrap();
    match &result[0] {
        Node::BinaryExpr { op, .. } => assert_eq!(*op, Operator::Plus),
        _ => panic!("Expected BinaryExpr"),
    }
}

#[test]
fn test_unary_with_binary() {
    // -1 + 2
    let result = parse_source("-1 + 2").unwrap();
    match &result[0] {
        Node::BinaryExpr { op, lhs, rhs } => {
            assert_eq!(*op, Operator::Plus);
            assert!(matches!(**lhs, Node::UnaryExpr { .. }));
            assert!(matches!(**rhs, Node::Val(Val::Int(2))));
        }
        _ => panic!("Expected BinaryExpr"),
    }
}

#[test]
fn test_unary_in_middle() {
    // 5 + -3
    let result = parse_source("5 + -3").unwrap();
    match &result[0] {
        Node::BinaryExpr { op, lhs, rhs } => {
            assert_eq!(*op, Operator::Plus);
            assert!(matches!(**lhs, Node::Val(Val::Int(5))));
            assert!(matches!(**rhs, Node::UnaryExpr { .. }));
        }
        _ => panic!("Expected BinaryExpr"),
    }
}

#[test]
fn test_float_operations() {
    let result = parse_source("3.14 * 2.0 + 1.5 / 3.0").unwrap();
    assert_eq!(result.len(), 1);
    // Just verify it parses without panicking
    assert!(matches!(result[0], Node::BinaryExpr { .. }));
}

#[test]
fn test_complex_expression() {
    let result = parse_source("10 + 2 * (6 - 4) / 2").unwrap();
    assert_eq!(result.len(), 1);
    assert!(matches!(result[0], Node::BinaryExpr { .. }));
}

#[test]
fn test_whitespace_handling() {
    let result1 = parse_source("1+2").unwrap();
    let result2 = parse_source("1 + 2").unwrap();
    let result3 = parse_source("1  +  2").unwrap();

    // All should parse to the same structure
    assert!(matches!(result1[0], Node::BinaryExpr { .. }));
    assert!(matches!(result2[0], Node::BinaryExpr { .. }));
    assert!(matches!(result3[0], Node::BinaryExpr { .. }));
}

#[test]
fn test_invalid_syntax() {
    assert!(parse_source("1 +").is_err());
    assert!(parse_source("1 2").is_err());
    assert!(parse_source("(1 + 2").is_err());
    assert!(parse_source("1 + 2)").is_err());
}

#[test]
fn test_empty_string() {
    assert!(parse_source("").is_err());
}

#[test]
fn test_multiple_operators() {
    let result = parse_source("1 + 2 - 3 * 4 / 5").unwrap();
    assert_eq!(result.len(), 1);
    assert!(matches!(result[0], Node::BinaryExpr { .. }));
}
