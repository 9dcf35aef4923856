//! Evaluation of a syntax tree by walking it.
//!
//! Arithmetic is checked: a sum or product above 255, a difference below 0 and
//! a division by zero are errors, never wrapped or truncated results.

use vstd::prelude::*;
use crate::ast::{BinOpKind, NodeKind};

verus! {

/// Why an expression has no value among the bytes.
#[derive(Debug, Clone, Copy, PartialEq, Eq, Structural)]
pub enum ArithmeticError {
    /// The right operand of a division is zero.
    DivisionByZero,
    /// A sum or product is above 255, or a difference is below 0.
    Overflow,
}

/// The operator `kind` applied to `a` on the left and `b` on the right.
pub open spec fn spec_apply(kind: BinOpKind, a: u8, b: u8) -> Result<u8, ArithmeticError> {
    match kind {
        BinOpKind::Add => if a + b > u8::MAX {
            Err(ArithmeticError::Overflow)
        } else {
            Ok((a + b) as u8)
        },
        BinOpKind::Sub => if a < b {
            Err(ArithmeticError::Overflow)
        } else {
            Ok((a - b) as u8)
        },
        BinOpKind::Mul => if a * b > u8::MAX {
            Err(ArithmeticError::Overflow)
        } else {
            Ok((a * b) as u8)
        },
        BinOpKind::Div => if b == 0 {
            Err(ArithmeticError::DivisionByZero)
        } else {
            Ok((a / b) as u8)
        },
    }
}

/// The value of a tree: the left operand first, the right one next, and the
/// operator last; the first error met on that way ends the evaluation.
pub open spec fn spec_eval(ast: NodeKind) -> Result<u8, ArithmeticError>
    decreases ast,
{
    match ast {
        NodeKind::Number(n) => Ok(n),
        NodeKind::BinOp { kind, lhs, rhs } => match spec_eval(*lhs) {
            Ok(a) => match spec_eval(*rhs) {
                Ok(b) => spec_apply(kind, a, b),
                Err(e) => Err(e),
            },
            Err(e) => Err(e),
        },
    }
}

/// Applies one operator to two bytes, with every result checked.
pub fn apply(kind: BinOpKind, a: u8, b: u8) -> (r: Result<u8, ArithmeticError>)
    ensures
        r == spec_apply(kind, a, b),
{
    let checked = match kind {
        BinOpKind::Add => a.checked_add(b),
        BinOpKind::Sub => a.checked_sub(b),
        BinOpKind::Mul => a.checked_mul(b),
        BinOpKind::Div => {
            if b == 0 {
                return Err(ArithmeticError::DivisionByZero);
            }
            Some(a / b)
        },
    };
    match checked {
        Some(v) => Ok(v),
        None => Err(ArithmeticError::Overflow),
    }
}

/// Evaluates a tree, children before their parent and left before right.
pub fn eval(ast: &NodeKind) -> (r: Result<u8, ArithmeticError>)
    ensures
        r == spec_eval(*ast),
    decreases ast,
{
    match ast {
        NodeKind::Number(n) => Ok(*n),
        NodeKind::BinOp { kind, lhs, rhs } => {
            let a = match eval(lhs) {
                Ok(v) => v,
                Err(e) => {
                    return Err(e);
                },
            };
            let b = match eval(rhs) {
                Ok(v) => v,
                Err(e) => {
                    return Err(e);
                },
            };
            apply(*kind, a, b)
        },
    }
}

} // verus!
