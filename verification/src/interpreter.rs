//! From a line of text to its value, or to the machine code that computes it.

use vstd::prelude::*;
use vstd::string::StringSliceAdditionalSpecFns;
use crate::ast::NodeKind;
use crate::codegen::{program, CodegenError, Compiler, CODE_AREA_SIZE};
use crate::evaluator::{eval, spec_eval, ArithmeticError};
use crate::machine::{lemma_program_returns_value, run, Machine};
use crate::parser::{spec_num, spec_parse, Cursor, ParseError, Parser};
use crate::tokenizer::{
    between_tokens, decimal, is_blank, lemma_empty_input_iff_blank, lemma_space_between_tokens,
    lemma_tokenize_decimal, spec_tokenize, tokenize, TokenKind, TokenizeError, SPACE,
};

verus! {

/// Why a line has no value: the first failure of the stage that met one.
#[derive(Debug, Clone, Copy, PartialEq, Eq, Structural)]
pub enum InterpretError {
    /// The line is no sequence of tokens.
    Tokenize(TokenizeError),
    /// The tokens are no expression.
    Parse(ParseError),
    /// The expression has no value among the bytes.
    Arithmetic(ArithmeticError),
    /// No runnable code came about.
    Codegen(CodegenError),
}

/// What interpreting a line gives.
#[derive(Debug, PartialEq, Eq)]
pub enum Outcome {
    /// The value of the expression, found by walking its tree.
    Value(u8),
    /// The code of a function without arguments that returns the value of
    /// the expression in the low byte of `rax`. It is complete and takes at
    /// most `CODE_AREA_SIZE` bytes; to run it is the caller's part.
    Code(Vec<u8>),
}

/// An [`Outcome`] with its code as a sequence of bytes.
pub enum OutcomeView {
    Value(u8),
    Code(Seq<u8>),
}

impl View for Outcome {
    type V = OutcomeView;

    open spec fn view(&self) -> OutcomeView {
        match *self {
            Outcome::Value(v) => OutcomeView::Value(v),
            Outcome::Code(code) => OutcomeView::Code(code@),
        }
    }
}

/// The result of [`interpret`] with its code as a sequence of bytes.
pub open spec fn result_view(r: Result<Outcome, InterpretError>) -> Result<
    OutcomeView,
    InterpretError,
> {
    match r {
        Ok(outcome) => Ok(outcome@),
        Err(e) => Err(e),
    }
}

/// What interpreting the bytes of a line gives, by tree or by code.
///
/// The stages follow each other and the first error ends the work. Both
/// modes evaluate the tree, so an expression without a value is refused
/// before any code is written for it.
pub open spec fn spec_interpret(line: Seq<u8>, use_jit: bool) -> Result<OutcomeView, InterpretError> {
    match spec_tokenize(line) {
        Err(e) => Err(InterpretError::Tokenize(e)),
        Ok(tokens) => match spec_parse(tokens) {
            Err(e) => Err(InterpretError::Parse(e)),
            Ok(ast) => match spec_eval(ast) {
                Err(e) => Err(InterpretError::Arithmetic(e)),
                Ok(value) => if !use_jit {
                    Ok(OutcomeView::Value(value))
                } else if program(ast).len() > CODE_AREA_SIZE {
                    Err(InterpretError::Codegen(CodegenError::CodeBufferOverflow))
                } else {
                    Ok(OutcomeView::Code(program(ast)))
                },
            },
        },
    }
}

/// The byte that an outcome stands for: the value itself, or what the code
/// returns when the machine `m` calls it.
pub open spec fn returned(outcome: OutcomeView, m: Machine) -> Option<u8> {
    match outcome {
        OutcomeView::Value(v) => Some(v),
        OutcomeView::Code(code) => run(code, 0, m),
    }
}

/// Interprets one line: tokens, tree, and the value or the code for it.
///
/// With `use_jit` the result is machine code that computes the value, else the
/// value itself. Either way the expression is evaluated first: a division by
/// zero or a result outside `0..=255` is an error in both modes, and no code
/// that would fault is ever handed out: on the modelled machine the code
/// returns the value that walking the tree gives, whatever the registers hold
/// when it is called.
pub fn interpret(line: &str, use_jit: bool) -> (r: Result<Outcome, InterpretError>)
    ensures
        result_view(r) == spec_interpret(line.spec_bytes(), use_jit),
        r matches Ok(outcome) ==> {
            &&& spec_interpret(line.spec_bytes(), false) matches Ok(OutcomeView::Value(value))
            &&& forall|m: Machine|
                m.stack.len() == 0 ==> #[trigger] returned(outcome@, m) == Some(value)
        },
{
    let tokens = match tokenize(line) {
        Ok(tokens) => tokens,
        Err(e) => {
            return Err(InterpretError::Tokenize(e));
        },
    };
    let mut cursor = Cursor::new(tokens.as_slice());
    let parser = Parser::new();
    let ast = match parser.parse(&mut cursor) {
        Ok(ast) => ast,
        Err(e) => {
            return Err(InterpretError::Parse(e));
        },
    };
    let value = match eval(&*ast) {
        Ok(value) => value,
        Err(e) => {
            return Err(InterpretError::Arithmetic(e));
        },
    };
    if use_jit {
        let compiler = Compiler::new();
        match compiler.gen_code(&*ast) {
            Ok(code) => {
                proof {
                    assert(code@ =~= program(*ast));
                    assert forall|m: Machine| m.stack.len() == 0 implies run(code@, 0, m) == Some(
                        value,
                    ) by {
                        lemma_program_returns_value(*ast, m);
                    }
                }
                Ok(Outcome::Code(code))
            },
            Err(e) => Err(InterpretError::Codegen(e)),
        }
    } else {
        Ok(Outcome::Value(value))
    }
}

/// The two modes agree on every line whose code fits the code area: where
/// walking the tree gives a value, the code is handed out, runs without a
/// fault on the modelled machine and returns that value, whatever the
/// registers hold at the call; and where one mode fails, the other fails with
/// the same error.
pub proof fn lemma_modes_agree(line: Seq<u8>, m: Machine)
    requires
        m.stack.len() == 0,
        !(spec_interpret(line, true) matches Err(
            InterpretError::Codegen(CodegenError::CodeBufferOverflow),
        )),
    ensures
        match (spec_interpret(line, false), spec_interpret(line, true)) {
            (Ok(by_tree), Ok(by_code)) => {
                &&& by_tree is Value
                &&& by_code is Code
                &&& returned(by_code, m) == returned(by_tree, m)
            },
            (Err(e1), Err(e2)) => e1 == e2,
            _ => false,
        },
{
    if let Ok(tokens) = spec_tokenize(line) {
        if let Ok(ast) = spec_parse(tokens) {
            if spec_eval(ast) is Ok {
                lemma_program_returns_value(ast, m);
            }
        }
    }
}

/// Interpreting has no memory: whatever two calls on the same line in the
/// same mode return, as far as [`interpret`] promises, they return the same.
pub proof fn lemma_same_line_same_result(
    line: Seq<u8>,
    use_jit: bool,
    first: Result<Outcome, InterpretError>,
    second: Result<Outcome, InterpretError>,
)
    requires
        result_view(first) == spec_interpret(line, use_jit),
        result_view(second) == spec_interpret(line, use_jit),
    ensures
        result_view(first) == result_view(second),
{
}

/// Spaces between tokens do not matter: a space put anywhere but between two
/// digits changes nothing in what interpreting the line gives.
pub proof fn lemma_spaces_do_not_matter(line: Seq<u8>, i: int, use_jit: bool)
    requires
        between_tokens(line, i),
    ensures
        spec_interpret(line.insert(i, SPACE), use_jit) == spec_interpret(line, use_jit),
{
    lemma_space_between_tokens(line, i);
}

/// The blank lines, the empty one among them, are the lines that give
/// `EmptyInput`, and they give nothing else.
pub proof fn lemma_blank_line_is_empty_input(line: Seq<u8>, use_jit: bool)
    ensures
        is_blank(line) <==> spec_interpret(line, use_jit) == Err::<OutcomeView, InterpretError>(
            InterpretError::Tokenize(TokenizeError::EmptyInput),
        ),
{
    lemma_empty_input_iff_blank(line);
}

/// A byte written in decimal digits is its own value, in both modes: walking
/// the tree gives it, and the code returns it on the modelled machine.
pub proof fn lemma_literal_is_its_value(n: u8, m: Machine)
    requires
        m.stack.len() == 0,
    ensures
        spec_interpret(decimal(n as nat), false) == Ok::<OutcomeView, InterpretError>(
            OutcomeView::Value(n),
        ),
        spec_interpret(decimal(n as nat), true) == Ok::<OutcomeView, InterpretError>(
            OutcomeView::Code(program(NodeKind::Number(n))),
        ),
        run(program(NodeKind::Number(n)), 0, m) == Some(n),
{
    lemma_tokenize_decimal(n);
    let tokens = seq![TokenKind::Number(n)];
    assert(spec_parse(tokens) == Ok::<NodeKind, ParseError>(NodeKind::Number(n))) by {
        assert(tokens[0] == TokenKind::Number(n));
        assert(spec_num(tokens, 0) == (Ok::<NodeKind, ParseError>(NodeKind::Number(n)), 1int));
    }
    lemma_program_returns_value(NodeKind::Number(n), m);
}

} // verus!
