//! The syntax tree of an arithmetic expression.

use vstd::prelude::*;
use crate::tokenizer::TokenKind;

verus! {

/// The four binary operators.
#[derive(Debug, Clone, Copy, PartialEq, Eq, Structural)]
pub enum BinOpKind {
    /// Addition, written `+`.
    Add,
    /// Subtraction, written `-`.
    Sub,
    /// Multiplication, written `*`.
    Mul,
    /// Division, written `/`.
    Div,
}

/// A node of the syntax tree. Each node owns its children.
#[derive(Debug, PartialEq, Eq)]
pub enum NodeKind {
    /// A literal.
    Number(u8),
    /// An operator applied to two operands.
    BinOp { kind: BinOpKind, lhs: Box<NodeKind>, rhs: Box<NodeKind> },
}

/// The token that writes the operator `kind`.
pub open spec fn operator_of(kind: BinOpKind) -> TokenKind {
    match kind {
        BinOpKind::Add => TokenKind::Plus,
        BinOpKind::Sub => TokenKind::Minus,
        BinOpKind::Mul => TokenKind::Asterisk,
        BinOpKind::Div => TokenKind::Slash,
    }
}

/// The tokens that write the tree out again, left to right.
pub open spec fn tokens_of(ast: NodeKind) -> Seq<TokenKind>
    decreases ast,
{
    match ast {
        NodeKind::Number(n) => seq![TokenKind::Number(n)],
        NodeKind::BinOp { kind, lhs, rhs } => tokens_of(*lhs) + seq![operator_of(kind)] + tokens_of(
            *rhs,
        ),
    }
}

/// A tree in the shape of a product: a literal, or a product or quotient of
/// such a tree on the left and a literal on the right.
pub open spec fn is_term(ast: NodeKind) -> bool
    decreases ast,
{
    match ast {
        NodeKind::Number(_) => true,
        NodeKind::BinOp { kind, lhs, rhs } => {
            &&& kind == BinOpKind::Mul || kind == BinOpKind::Div
            &&& is_term(*lhs)
            &&& *rhs is Number
        },
    }
}

/// A tree in the shape that the grammar gives: products bind tighter than
/// sums, and operators of equal rank group to the left.
pub open spec fn is_expression(ast: NodeKind) -> bool
    decreases ast,
{
    match ast {
        NodeKind::Number(_) => true,
        NodeKind::BinOp { kind, lhs, rhs } => if kind == BinOpKind::Add || kind == BinOpKind::Sub {
            is_expression(*lhs) && is_term(*rhs)
        } else {
            is_term(ast)
        },
    }
}

} // verus!
