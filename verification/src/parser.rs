//! Recursive descent from tokens to a syntax tree.
//!
//! The grammar has two levels, both grouping to the left:
//!
//! ```text
//! factor     := Number
//! term       := factor ( ( '*' | '/' ) factor )*
//! expression := term ( ( '+' | '-' ) term )*
//! ```

use vstd::prelude::*;
use crate::ast::{is_expression, is_term, operator_of, tokens_of, BinOpKind, NodeKind};
use crate::tokenizer::TokenKind;

verus! {

/// Why a sequence of tokens is no expression.
#[derive(Debug, Clone, Copy, PartialEq, Eq, Structural)]
pub enum ParseError {
    /// A number was due and the next token is none, or the tokens have ended.
    ExpectedNumber,
    /// The expression is complete and tokens are left over.
    UnexpectedTrailingTokens,
}

/// The operator of a product that `t` writes, if any.
pub open spec fn mul_op(t: TokenKind) -> Option<BinOpKind> {
    match t {
        TokenKind::Asterisk => Some(BinOpKind::Mul),
        TokenKind::Slash => Some(BinOpKind::Div),
        _ => None,
    }
}

/// The operator of a sum that `t` writes, if any.
pub open spec fn add_op(t: TokenKind) -> Option<BinOpKind> {
    match t {
        TokenKind::Plus => Some(BinOpKind::Add),
        TokenKind::Minus => Some(BinOpKind::Sub),
        _ => None,
    }
}

/// What a sub-parser gives: the tree or the error, and the position of the
/// first token that it has not consumed.
pub type Parsed = (Result<NodeKind, ParseError>, int);

/// `factor` at position `pos`.
pub open spec fn spec_num(tokens: Seq<TokenKind>, pos: int) -> Parsed {
    if 0 <= pos < tokens.len() && tokens[pos] is Number {
        (Ok(NodeKind::Number(tokens[pos]->Number_0)), pos + 1)
    } else {
        (Err(ParseError::ExpectedNumber), pos)
    }
}

/// The rest of a `term` whose operands read so far make up `lhs`.
pub open spec fn term_tail(tokens: Seq<TokenKind>, pos: int, lhs: NodeKind) -> Parsed
    decreases tokens.len() - pos,
{
    if 0 <= pos < tokens.len() && mul_op(tokens[pos]) is Some {
        match spec_num(tokens, pos + 1) {
            (Ok(rhs), next) => term_tail(
                tokens,
                next,
                NodeKind::BinOp {
                    kind: mul_op(tokens[pos])->Some_0,
                    lhs: Box::new(lhs),
                    rhs: Box::new(rhs),
                },
            ),
            (Err(e), next) => (Err(e), next),
        }
    } else {
        (Ok(lhs), pos)
    }
}

/// `term` at position `pos`.
pub open spec fn spec_term(tokens: Seq<TokenKind>, pos: int) -> Parsed {
    match spec_num(tokens, pos) {
        (Ok(first), next) => term_tail(tokens, next, first),
        (Err(e), next) => (Err(e), next),
    }
}

/// The rest of an `expression` whose terms read so far make up `lhs`.
pub open spec fn expr_tail(tokens: Seq<TokenKind>, pos: int, lhs: NodeKind) -> Parsed
    decreases tokens.len() - pos,
{
    if 0 <= pos < tokens.len() && add_op(tokens[pos]) is Some {
        match spec_term(tokens, pos + 1) {
            (Ok(rhs), next) => {
                proof {
                    lemma_term_advances(tokens, pos + 1);
                }
                expr_tail(
                    tokens,
                    next,
                    NodeKind::BinOp {
                        kind: add_op(tokens[pos])->Some_0,
                        lhs: Box::new(lhs),
                        rhs: Box::new(rhs),
                    },
                )
            },
            (Err(e), next) => (Err(e), next),
        }
    } else {
        (Ok(lhs), pos)
    }
}

/// `expression` at position `pos`.
pub open spec fn spec_expr(tokens: Seq<TokenKind>, pos: int) -> Parsed {
    match spec_term(tokens, pos) {
        (Ok(first), next) => expr_tail(tokens, next, first),
        (Err(e), next) => (Err(e), next),
    }
}

/// The tree that the tokens from position `pos` to the end write, or why
/// there is none.
pub open spec fn spec_parse_at(tokens: Seq<TokenKind>, pos: int) -> Result<NodeKind, ParseError> {
    match spec_expr(tokens, pos) {
        (Ok(ast), next) => if next >= tokens.len() {
            Ok(ast)
        } else {
            Err(ParseError::UnexpectedTrailingTokens)
        },
        (Err(e), _) => Err(e),
    }
}

/// The tree that the whole of `tokens` writes, or why there is none.
pub open spec fn spec_parse(tokens: Seq<TokenKind>) -> Result<NodeKind, ParseError> {
    spec_parse_at(tokens, 0)
}

/// The result of a sub-parser with the tree taken out of its box.
pub open spec fn unboxed(r: Result<Box<NodeKind>, ParseError>) -> Result<NodeKind, ParseError> {
    match r {
        Ok(node) => Ok(*node),
        Err(e) => Err(e),
    }
}

/// Whether the tokens from `from` up to `to` write the tree `ast`.
pub open spec fn writes(tokens: Seq<TokenKind>, from: int, to: int, ast: NodeKind) -> bool {
    &&& 0 <= from <= to <= tokens.len()
    &&& tokens.subrange(from, to) == tokens_of(ast)
}

/// Whether the token at `pos`, if there is one, is neither `*` nor `/`.
pub open spec fn term_ends_at(tokens: Seq<TokenKind>, pos: int) -> bool {
    0 <= pos < tokens.len() ==> mul_op(tokens[pos]) is None
}

/// The rest of a term never ends before the place where it starts.
proof fn lemma_term_tail_advances(tokens: Seq<TokenKind>, pos: int, lhs: NodeKind)
    ensures
        pos <= term_tail(tokens, pos, lhs).1,
        0 <= pos <= tokens.len() ==> term_tail(tokens, pos, lhs).1 <= tokens.len(),
    decreases tokens.len() - pos,
{
    if 0 <= pos < tokens.len() && mul_op(tokens[pos]) is Some {
        if let (Ok(rhs), next) = spec_num(tokens, pos + 1) {
            lemma_term_tail_advances(
                tokens,
                next,
                NodeKind::BinOp {
                    kind: mul_op(tokens[pos])->Some_0,
                    lhs: Box::new(lhs),
                    rhs: Box::new(rhs),
                },
            );
        }
    }
}

/// A term that is read consumes at least one token, and none beyond the end.
pub proof fn lemma_term_advances(tokens: Seq<TokenKind>, pos: int)
    ensures
        pos <= spec_term(tokens, pos).1,
        spec_term(tokens, pos).0 is Ok ==> pos < spec_term(tokens, pos).1,
        0 <= pos <= tokens.len() ==> spec_term(tokens, pos).1 <= tokens.len(),
{
    if let (Ok(first), next) = spec_num(tokens, pos) {
        lemma_term_tail_advances(tokens, next, first);
    }
}

/// A cursor over a sequence of tokens that only moves forward and lets the
/// next token be looked at before it is taken.
pub struct Cursor<'a> {
    tokens: &'a [TokenKind],
    pos: usize,
}

impl<'a> Cursor<'a> {
    #[verifier::type_invariant]
    spec fn in_bounds(self) -> bool {
        self.pos <= self.tokens@.len()
    }

    /// All the tokens that the cursor runs over.
    pub closed spec fn tokens(self) -> Seq<TokenKind> {
        self.tokens@
    }

    /// The index of the next token; the number of tokens at the end.
    pub closed spec fn position(self) -> int {
        self.pos as int
    }

    /// The token at the cursor, if one is left.
    pub open spec fn spec_peek(self) -> Option<TokenKind> {
        if 0 <= self.position() < self.tokens().len() {
            Some(self.tokens()[self.position()])
        } else {
            None
        }
    }

    /// A cursor in front of the first of `tokens`.
    pub fn new(tokens: &'a [TokenKind]) -> (cursor: Cursor<'a>)
        ensures
            cursor.tokens() == tokens@,
            cursor.position() == 0,
    {
        Cursor { tokens, pos: 0 }
    }

    /// The next token, which stays where it is.
    pub fn peek(&self) -> (t: Option<TokenKind>)
        ensures
            t == self.spec_peek(),
            0 <= self.position() <= self.tokens().len(),
    {
        proof {
            use_type_invariant(self);
        }
        if self.pos < self.tokens.len() {
            Some(self.tokens[self.pos])
        } else {
            None
        }
    }

    /// Takes the next token, if one is left.
    pub fn next(&mut self) -> (t: Option<TokenKind>)
        ensures
            t == old(self).spec_peek(),
            final(self).tokens() == old(self).tokens(),
            final(self).position() == old(self).position() + if t is Some {
                1int
            } else {
                0int
            },
            0 <= final(self).position() <= final(self).tokens().len(),
    {
        proof {
            use_type_invariant(&*self);
        }
        if self.pos < self.tokens.len() {
            let t = self.tokens[self.pos];
            self.pos = self.pos + 1;
            Some(t)
        } else {
            None
        }
    }
}

/// The recursive-descent parser. It holds no state: the cursor does.
pub struct Parser;

impl Parser {
    /// A parser.
    pub fn new() -> Parser {
        Parser
    }

    /// Reads a `factor`: the number at the cursor.
    ///
    /// Where the next token is no number, or none is left, the cursor stays and
    /// the result is `ExpectedNumber`.
    pub fn num(&self, cursor: &mut Cursor<'_>) -> (r: Result<Box<NodeKind>, ParseError>)
        ensures
            final(cursor).tokens() == old(cursor).tokens(),
            (unboxed(r), final(cursor).position()) == spec_num(
                old(cursor).tokens(),
                old(cursor).position(),
            ),
    {
        match cursor.peek() {
            Some(TokenKind::Number(n)) => {
                cursor.next();
                Ok(Box::new(NodeKind::Number(n)))
            },
            _ => Err(ParseError::ExpectedNumber),
        }
    }

    /// Reads a `term`: numbers joined by `*` and `/`, grouped to the left.
    ///
    /// The cursor ends in front of the first token that is no part of the
    /// term, or of the token that should have been a number.
    pub fn mul_or_div(&self, cursor: &mut Cursor<'_>) -> (r: Result<Box<NodeKind>, ParseError>)
        ensures
            final(cursor).tokens() == old(cursor).tokens(),
            (unboxed(r), final(cursor).position()) == spec_term(
                old(cursor).tokens(),
                old(cursor).position(),
            ),
            r matches Ok(node) ==> {
                &&& is_term(*node)
                &&& writes(
                    old(cursor).tokens(),
                    old(cursor).position(),
                    final(cursor).position(),
                    *node,
                )
                &&& term_ends_at(old(cursor).tokens(), final(cursor).position())
            },
    {
        let ghost tokens = cursor.tokens();
        let ghost start = cursor.position();
        proof {
            use_type_invariant(&*cursor);
            lemma_term_writes(tokens, start);
        }
        let mut lhs = match self.num(cursor) {
            Ok(node) => node,
            Err(e) => {
                return Err(e);
            },
        };
        loop
            invariant
                tokens == old(cursor).tokens(),
                start == old(cursor).position(),
                cursor.tokens() == tokens,
                spec_term(tokens, start) == term_tail(tokens, cursor.position(), *lhs),
            ensures
                cursor.tokens() == tokens,
                spec_term(tokens, start) == (Ok::<NodeKind, ParseError>(*lhs), cursor.position()),
            decreases tokens.len() - cursor.position(),
        {
            let kind = match cursor.peek() {
                Some(TokenKind::Asterisk) => BinOpKind::Mul,
                Some(TokenKind::Slash) => BinOpKind::Div,
                _ => {
                    break ;
                },
            };
            cursor.next();
            let rhs = match self.num(cursor) {
                Ok(node) => node,
                Err(e) => {
                    return Err(e);
                },
            };
            lhs = Box::new(NodeKind::BinOp { kind, lhs, rhs });
        }
        Ok(lhs)
    }

    /// Reads an `expression`: terms joined by `+` and `-`, grouped to the left.
    ///
    /// The cursor ends in front of the first token that is no part of the
    /// expression, or of the token that should have been a number.
    pub fn add_or_sub(&self, cursor: &mut Cursor<'_>) -> (r: Result<Box<NodeKind>, ParseError>)
        ensures
            final(cursor).tokens() == old(cursor).tokens(),
            (unboxed(r), final(cursor).position()) == spec_expr(
                old(cursor).tokens(),
                old(cursor).position(),
            ),
            r matches Ok(node) ==> {
                &&& is_expression(*node)
                &&& writes(
                    old(cursor).tokens(),
                    old(cursor).position(),
                    final(cursor).position(),
                    *node,
                )
            },
    {
        let ghost tokens = cursor.tokens();
        let ghost start = cursor.position();
        proof {
            use_type_invariant(&*cursor);
            lemma_expr_writes(tokens, start);
        }
        let mut lhs = match self.mul_or_div(cursor) {
            Ok(node) => node,
            Err(e) => {
                return Err(e);
            },
        };
        loop
            invariant
                tokens == old(cursor).tokens(),
                start == old(cursor).position(),
                cursor.tokens() == tokens,
                spec_expr(tokens, start) == expr_tail(tokens, cursor.position(), *lhs),
            ensures
                cursor.tokens() == tokens,
                spec_expr(tokens, start) == (Ok::<NodeKind, ParseError>(*lhs), cursor.position()),
            decreases tokens.len() - cursor.position(),
        {
            let kind = match cursor.peek() {
                Some(TokenKind::Plus) => BinOpKind::Add,
                Some(TokenKind::Minus) => BinOpKind::Sub,
                _ => {
                    break ;
                },
            };
            cursor.next();
            proof {
                lemma_term_advances(tokens, cursor.position());
            }
            let rhs = match self.mul_or_div(cursor) {
                Ok(node) => node,
                Err(e) => {
                    return Err(e);
                },
            };
            lhs = Box::new(NodeKind::BinOp { kind, lhs, rhs });
        }
        Ok(lhs)
    }

    /// Reads one expression that must take up all the tokens that are left.
    ///
    /// Tokens that follow a complete expression give
    /// `UnexpectedTrailingTokens`, with the cursor in front of the first of them.
    pub fn parse(&self, cursor: &mut Cursor<'_>) -> (r: Result<Box<NodeKind>, ParseError>)
        ensures
            final(cursor).tokens() == old(cursor).tokens(),
            final(cursor).position() == spec_expr(old(cursor).tokens(), old(cursor).position()).1,
            unboxed(r) == spec_parse_at(old(cursor).tokens(), old(cursor).position()),
            r matches Ok(ast) ==> {
                &&& is_expression(*ast)
                &&& tokens_of(*ast) == old(cursor).tokens().skip(old(cursor).position())
                &&& final(cursor).position() == old(cursor).tokens().len()
            },
    {
        let ghost tokens = cursor.tokens();
        let ghost start = cursor.position();
        let ast = match self.add_or_sub(cursor) {
            Ok(node) => node,
            Err(e) => {
                return Err(e);
            },
        };
        match cursor.peek() {
            Some(_) => Err(ParseError::UnexpectedTrailingTokens),
            None => {
                proof {
                    assert(tokens.subrange(start, tokens.len() as int) =~= tokens.skip(start));
                }
                Ok(ast)
            },
        }
    }
}

/// What the rest of a term adds to a product keeps it a product that the
/// tokens consumed so far write.
proof fn lemma_term_tail_writes(tokens: Seq<TokenKind>, from: int, pos: int, lhs: NodeKind)
    requires
        is_term(lhs),
        writes(tokens, from, pos, lhs),
    ensures
        term_tail(tokens, pos, lhs) matches (Ok(ast), next) ==> {
            &&& is_term(ast)
            &&& writes(tokens, from, next, ast)
            &&& term_ends_at(tokens, next)
        },
    decreases tokens.len() - pos,
{
    if pos < tokens.len() && mul_op(tokens[pos]) is Some {
        if let (Ok(rhs), next) = spec_num(tokens, pos + 1) {
            let kind = mul_op(tokens[pos])->Some_0;
            let node = NodeKind::BinOp { kind, lhs: Box::new(lhs), rhs: Box::new(rhs) };
            assert(tokens.subrange(from, next) =~= tokens.subrange(from, pos) + seq![
                operator_of(kind),
            ] + tokens_of(rhs));
            lemma_term_tail_writes(tokens, from, next, node);
        }
    }
}

/// A term that is read has the shape of a product, its tokens are the ones
/// that were consumed, and no `*` or `/` follows it.
pub proof fn lemma_term_writes(tokens: Seq<TokenKind>, pos: int)
    requires
        0 <= pos,
    ensures
        spec_term(tokens, pos) matches (Ok(ast), next) ==> {
            &&& is_term(ast)
            &&& writes(tokens, pos, next, ast)
            &&& term_ends_at(tokens, next)
        },
{
    if let (Ok(first), next) = spec_num(tokens, pos) {
        assert(tokens.subrange(pos, next) =~= tokens_of(first));
        lemma_term_tail_writes(tokens, pos, next, first);
    }
}

/// What the rest of an expression adds to an expression keeps it an
/// expression that the tokens consumed so far write.
proof fn lemma_expr_tail_writes(tokens: Seq<TokenKind>, from: int, pos: int, lhs: NodeKind)
    requires
        is_expression(lhs),
        writes(tokens, from, pos, lhs),
    ensures
        expr_tail(tokens, pos, lhs) matches (Ok(ast), next) ==> {
            &&& is_expression(ast)
            &&& writes(tokens, from, next, ast)
        },
    decreases tokens.len() - pos,
{
    if pos < tokens.len() && add_op(tokens[pos]) is Some {
        if let (Ok(rhs), next) = spec_term(tokens, pos + 1) {
            let kind = add_op(tokens[pos])->Some_0;
            let node = NodeKind::BinOp { kind, lhs: Box::new(lhs), rhs: Box::new(rhs) };
            lemma_term_writes(tokens, pos + 1);
            lemma_term_advances(tokens, pos + 1);
            assert(tokens.subrange(from, next) =~= tokens.subrange(from, pos) + seq![
                operator_of(kind),
            ] + tokens.subrange(pos + 1, next));
            lemma_expr_tail_writes(tokens, from, next, node);
        }
    }
}

/// An expression that is read has the shape that the grammar gives, and its
/// tokens are the ones that were consumed.
pub proof fn lemma_expr_writes(tokens: Seq<TokenKind>, pos: int)
    requires
        0 <= pos,
    ensures
        spec_expr(tokens, pos) matches (Ok(ast), next) ==> {
            &&& is_expression(ast)
            &&& writes(tokens, pos, next, ast)
        },
{
    lemma_term_writes(tokens, pos);
    if let (Ok(first), next) = spec_term(tokens, pos) {
        lemma_expr_tail_writes(tokens, pos, next, first);
    }
}

/// What is parsed can be written back: the tree of a sequence of tokens has
/// the shape that the grammar gives, products below sums and every operator
/// grouping to the left, and its tokens are the sequence, all of it.
pub proof fn lemma_parse_writes_back(tokens: Seq<TokenKind>)
    ensures
        spec_parse(tokens) matches Ok(ast) ==> is_expression(ast) && tokens_of(ast) == tokens,
{
    lemma_expr_writes(tokens, 0);
    if let (Ok(ast), next) = spec_expr(tokens, 0) {
        if next >= tokens.len() {
            assert(tokens.subrange(0, next) =~= tokens);
        }
    }
}

/// Reading a term from tokens that begin with a product gets as far as the
/// end of the product with the product in hand.
proof fn lemma_term_prefix(tokens: Seq<TokenKind>, pos: int, ast: NodeKind)
    requires
        is_term(ast),
        writes(tokens, pos, pos + tokens_of(ast).len(), ast),
    ensures
        spec_term(tokens, pos) == term_tail(tokens, pos + tokens_of(ast).len(), ast),
    decreases ast,
{
    let written = tokens.subrange(pos, pos + tokens_of(ast).len());
    match ast {
        NodeKind::Number(n) => {
            assert(written.len() == 1 && written[0] == TokenKind::Number(n));
            assert(tokens[pos] == written[0]);
        },
        NodeKind::BinOp { kind, lhs, rhs } => {
            let left = tokens_of(*lhs).len() as int;
            let number = rhs->Number_0;
            assert(tokens_of(*rhs) =~= seq![TokenKind::Number(number)]);
            assert(written.len() == left + 2);
            assert(written[left] == operator_of(kind));
            assert(written[left + 1] == TokenKind::Number(number));
            assert(tokens.subrange(pos, pos + left) =~= tokens_of(*lhs)) by {
                assert(tokens.subrange(pos, pos + left) =~= written.subrange(0, left));
            }
            lemma_term_prefix(tokens, pos, *lhs);
            assert(tokens[pos + left] == written[left]);
            assert(tokens[pos + left + 1] == written[left + 1]);
        },
    }
}

/// Reading an expression from tokens that begin with an expression, and go
/// on with neither `*` nor `/`, gets as far as the end of the expression with
/// the expression in hand.
proof fn lemma_expr_prefix(tokens: Seq<TokenKind>, pos: int, ast: NodeKind)
    requires
        is_expression(ast),
        writes(tokens, pos, pos + tokens_of(ast).len(), ast),
        term_ends_at(tokens, pos + tokens_of(ast).len()),
    ensures
        spec_expr(tokens, pos) == expr_tail(tokens, pos + tokens_of(ast).len(), ast),
    decreases ast,
{
    let end = pos + tokens_of(ast).len();
    let written = tokens.subrange(pos, end);
    if is_term(ast) {
        lemma_term_prefix(tokens, pos, ast);
    } else if let NodeKind::BinOp { kind, lhs, rhs } = ast {
        let left = tokens_of(*lhs).len() as int;
        assert(tokens.subrange(pos, pos + left) =~= tokens_of(*lhs)) by {
            assert(tokens.subrange(pos, pos + left) =~= written.subrange(0, left));
        }
        assert(tokens[pos + left] == written[left]);
        lemma_expr_prefix(tokens, pos, *lhs);
        assert(tokens.subrange(pos + left + 1, end) =~= tokens_of(*rhs)) by {
            assert(tokens.subrange(pos + left + 1, end) =~= written.subrange(
                left + 1,
                written.len() as int,
            ));
        }
        lemma_term_prefix(tokens, pos + left + 1, *rhs);
    }
}

/// What is written can be parsed back: the tokens of a tree in the shape
/// that the grammar gives have that tree, and so no other, as their parse.
pub proof fn lemma_parse_of_written(ast: NodeKind)
    requires
        is_expression(ast),
    ensures
        spec_parse(tokens_of(ast)) == Ok::<NodeKind, ParseError>(ast),
{
    let tokens = tokens_of(ast);
    assert(tokens.subrange(0, tokens.len() as int) =~= tokens);
    lemma_expr_prefix(tokens, 0, ast);
}

/// Parsing and writing are inverse to each other: a sequence of tokens has
/// the tree `ast` as its parse exactly if `ast` has the shape that the
/// grammar gives and the sequence writes it. So a sequence has at most one
/// such tree, and it has none exactly if parsing fails.
pub proof fn lemma_parse_iff_written(tokens: Seq<TokenKind>, ast: NodeKind)
    ensures
        spec_parse(tokens) == Ok::<NodeKind, ParseError>(ast) <==> is_expression(ast) && tokens_of(
            ast,
        ) == tokens,
{
    lemma_parse_writes_back(tokens);
    if is_expression(ast) {
        lemma_parse_of_written(ast);
    }
}

} // verus!
