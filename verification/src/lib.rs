//! A calculator for arithmetic expressions over the bytes `0..=255`.
//!
//! A line such as `2 + 3 * 4` is split into tokens, parsed into a syntax tree
//! and evaluated, either by walking the tree or by compiling it to x86-64
//! machine code for the caller to run.
//!
//! * [`tokenizer`]: digits, `+ - * /` and spaces, byte by byte.
//! * [`parser`]: a forward-only cursor and recursive descent; `*` and `/` bind
//!   tighter than `+` and `-`, and all four group to the left.
//! * [`evaluator`]: checked arithmetic. A result outside `0..=255` and a
//!   division by zero are errors, in both modes alike.
//! * [`codegen`]: stack code for a tree, in a code area of fixed size.
//! * [`machine`]: the instructions that the code is made of, as a model, and
//!   the proof that the code of an expression returns the expression's value.
//! * [`interpreter`]: the stages in a row.
//!
//! Nothing here touches memory protection or jumps into generated code: the
//! library hands the code out as bytes.

pub mod ast;
pub mod codegen;
pub mod evaluator;
pub mod interpreter;
pub mod machine;
pub mod parser;
pub mod tokenizer;

pub use crate::ast::{BinOpKind, NodeKind};
pub use crate::codegen::{CodegenError, Compiler, CODE_AREA_SIZE, PAGE_SIZE};
pub use crate::evaluator::{apply, eval, ArithmeticError};
pub use crate::interpreter::{interpret, InterpretError, Outcome};
pub use crate::parser::{Cursor, ParseError, Parser};
pub use crate::tokenizer::{tokenize, TokenKind, TokenizeError};
