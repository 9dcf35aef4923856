//! x86-64 machine code for a syntax tree.
//!
//! The code works on the machine's stack. A literal is pushed. An operator
//! has the code of its right operand first and of its left operand second, so
//! that the left value is on top; it pops the two values into `rax` and `rdi`,
//! combines them in `rax` and pushes `rax`. The program pops the one value
//! that is left into `rax`, where a caller expects a result, and returns.

use vstd::prelude::*;
use crate::ast::{BinOpKind, NodeKind};

verus! {

/// The number of bytes that the code of one program may take.
pub const CODE_AREA_SIZE: usize = 1024;

/// The alignment, in bytes, of the memory that a program is run from.
pub const PAGE_SIZE: usize = 4096;

/// Why no runnable code came about.
#[derive(Debug, Clone, Copy, PartialEq, Eq, Structural)]
pub enum CodegenError {
    /// The code takes more than `CODE_AREA_SIZE` bytes.
    CodeBufferOverflow,
    /// The memory that holds the code could not be made executable. The code
    /// generator never reports this: whoever maps the code does.
    MemoryProtectionFailure,
}

/// `push n`: the short form with one byte for `n` below 128, which the
/// machine extends by the sign, and the form with four bytes above.
pub open spec fn push_literal(n: u8) -> Seq<u8> {
    if n < 0x80 {
        seq![0x6au8, n]
    } else {
        seq![0x68u8, n, 0x00u8, 0x00u8, 0x00u8]
    }
}

/// `pop rax`
pub open spec fn pop_rax() -> Seq<u8> {
    seq![0x58u8]
}

/// `pop rdi`
pub open spec fn pop_rdi() -> Seq<u8> {
    seq![0x5fu8]
}

/// `push rax`
pub open spec fn push_rax() -> Seq<u8> {
    seq![0x50u8]
}

/// `ret`
pub open spec fn ret() -> Seq<u8> {
    seq![0xc3u8]
}

/// The instructions that combine `rax` on the left with `rdi` on the right
/// and leave the result in `rax`: `add rax, rdi`; `sub rax, rdi`;
/// `imul rax, rdi`; `cqo` and `idiv rdi`.
pub open spec fn operation(kind: BinOpKind) -> Seq<u8> {
    match kind {
        BinOpKind::Add => seq![0x48u8, 0x01u8, 0xf8u8],
        BinOpKind::Sub => seq![0x48u8, 0x29u8, 0xf8u8],
        BinOpKind::Mul => seq![0x48u8, 0x0fu8, 0xafu8, 0xc7u8],
        BinOpKind::Div => seq![0x48u8, 0x99u8, 0x48u8, 0xf7u8, 0xffu8],
    }
}

/// The code that leaves the value of `ast` on top of the stack.
pub open spec fn expr_code(ast: NodeKind) -> Seq<u8>
    decreases ast,
{
    match ast {
        NodeKind::Number(n) => push_literal(n),
        NodeKind::BinOp { kind, lhs, rhs } => expr_code(*rhs) + expr_code(*lhs) + pop_rax()
            + pop_rdi() + operation(kind) + push_rax(),
    }
}

/// The code of a function without arguments that returns the value of `ast`.
pub open spec fn program(ast: NodeKind) -> Seq<u8> {
    expr_code(ast) + pop_rax() + ret()
}

/// `now` is `base` followed by the first bytes of `rest`, or by all of them.
pub open spec fn written_so_far(base: Seq<u8>, now: Seq<u8>, rest: Seq<u8>) -> bool {
    base.is_prefix_of(now) && now.is_prefix_of(base + rest)
}

/// Where `now` holds, after `base` and `done`, some of the bytes of `next`,
/// it holds after `base` some of the bytes of any `whole` that begins with
/// `done` and `next`.
proof fn lemma_written_of_whole(
    base: Seq<u8>,
    done: Seq<u8>,
    now: Seq<u8>,
    next: Seq<u8>,
    whole: Seq<u8>,
)
    requires
        written_so_far(base + done, now, next),
        (done + next).is_prefix_of(whole),
    ensures
        written_so_far(base, now, whole),
{
    assert(base + done + next =~= base + (done + next));
    assert(base =~= now.subrange(0, base.len() as int));
    assert(now =~= (base + whole).subrange(0, now.len() as int));
}

/// Each stage of the code of an operator begins the whole of it.
proof fn lemma_stages(kind: BinOpKind, lhs: NodeKind, rhs: NodeKind)
    ensures
        ({
            let whole = expr_code(NodeKind::BinOp { kind, lhs: Box::new(lhs), rhs: Box::new(rhs) });
            let operands = expr_code(rhs) + expr_code(lhs);
            let popped = operands + pop_rax() + pop_rdi();
            &&& (Seq::<u8>::empty() + expr_code(rhs)).is_prefix_of(whole)
            &&& operands.is_prefix_of(whole)
            &&& (operands + pop_rax()).is_prefix_of(whole)
            &&& popped.is_prefix_of(whole)
            &&& (popped + operation(kind)).is_prefix_of(whole)
            &&& popped + operation(kind) + push_rax() == whole
            &&& whole.is_prefix_of(whole)
        }),
{
    let whole = expr_code(NodeKind::BinOp { kind, lhs: Box::new(lhs), rhs: Box::new(rhs) });
    let operands = expr_code(rhs) + expr_code(lhs);
    let popped = operands + pop_rax() + pop_rdi();
    assert(Seq::<u8>::empty() + expr_code(rhs) =~= expr_code(rhs));
    assert(expr_code(rhs) =~= whole.subrange(0, expr_code(rhs).len() as int));
    assert(operands =~= whole.subrange(0, operands.len() as int));
    assert(operands + pop_rax() =~= whole.subrange(0, (operands.len() + 1) as int));
    assert(popped =~= whole.subrange(0, popped.len() as int));
    assert(popped + operation(kind) =~= whole.subrange(
        0,
        (popped.len() + operation(kind).len()) as int,
    ));
    assert(whole =~= whole.subrange(0, whole.len() as int));
}

/// The code generator in its writing phase: bytes can only be appended, and
/// never more than `CODE_AREA_SIZE` of them.
pub struct Compiler {
    code: Vec<u8>,
}

impl View for Compiler {
    type V = Seq<u8>;

    /// The bytes written so far.
    closed spec fn view(&self) -> Seq<u8> {
        self.code@
    }
}

impl Compiler {
    /// A code generator that has written nothing yet.
    pub fn new() -> (compiler: Compiler)
        ensures
            compiler@ == Seq::<u8>::empty(),
    {
        Compiler { code: Vec::new() }
    }

    /// Appends `code`, unless the whole would take more than `CODE_AREA_SIZE`
    /// bytes: nothing is written in that case.
    pub fn push_code(&mut self, code: &[u8]) -> (r: Result<(), CodegenError>)
        ensures
            match r {
                Ok(()) => {
                    &&& old(self)@.len() + code@.len() <= CODE_AREA_SIZE
                    &&& final(self)@ == old(self)@ + code@
                },
                Err(e) => {
                    &&& e == CodegenError::CodeBufferOverflow
                    &&& old(self)@.len() + code@.len() > CODE_AREA_SIZE
                    &&& final(self)@ == old(self)@
                },
            },
    {
        if self.code.len() > CODE_AREA_SIZE || code.len() > CODE_AREA_SIZE - self.code.len() {
            return Err(CodegenError::CodeBufferOverflow);
        }
        let mut i: usize = 0;
        while i < code.len()
            invariant
                i <= code@.len(),
                old(self)@.len() + code@.len() <= CODE_AREA_SIZE,
                self.code@ == old(self).code@ + code@.take(i as int),
            decreases code@.len() - i,
        {
            self.code.push(code[i]);
            i = i + 1;
            proof {
                assert(code@.take(i as int) =~= code@.take(i - 1).push(code@[i - 1]));
            }
        }
        proof {
            assert(code@.take(i as int) =~= code@);
        }
        Ok(())
    }

    /// Appends the bytes of some instructions, the next stage of a `whole` of
    /// which `done` has been written after `base`.
    fn emit(
        &mut self,
        code: &[u8],
        Ghost(base): Ghost<Seq<u8>>,
        Ghost(done): Ghost<Seq<u8>>,
        Ghost(whole): Ghost<Seq<u8>>,
    ) -> (r: Result<(), CodegenError>)
        requires
            old(self)@ == base + done,
            (done + code@).is_prefix_of(whole),
        ensures
            match r {
                Ok(()) => {
                    &&& base.len() + done.len() + code@.len() <= CODE_AREA_SIZE
                    &&& final(self)@ == base + (done + code@)
                },
                Err(e) => {
                    &&& e == CodegenError::CodeBufferOverflow
                    &&& base.len() + whole.len() > CODE_AREA_SIZE
                    &&& written_so_far(base, final(self)@, whole)
                },
            },
    {
        let r = self.push_code(code);
        proof {
            if r is Ok {
                assert(base + done + code@ =~= base + (done + code@));
            } else {
                assert(written_so_far(base + done, self@, code@)) by {
                    assert(self@ =~= (base + done + code@).subrange(0, self@.len() as int));
                    assert(self@ =~= self@.subrange(0, self@.len() as int));
                }
                lemma_written_of_whole(base, done, self@, code@, whole);
            }
        }
        r
    }

    /// Appends the code that leaves the value of `ast` on top of the stack.
    ///
    /// Where that code does not fit, the generator stops at the first
    /// instruction that would cross the limit, with what came before it
    /// written.
    pub fn gen_code_ast(&mut self, ast: &NodeKind) -> (r: Result<(), CodegenError>)
        ensures
            match r {
                Ok(()) => {
                    &&& old(self)@.len() + expr_code(*ast).len() <= CODE_AREA_SIZE
                    &&& final(self)@ == old(self)@ + expr_code(*ast)
                },
                Err(e) => {
                    &&& e == CodegenError::CodeBufferOverflow
                    &&& old(self)@.len() + expr_code(*ast).len() > CODE_AREA_SIZE
                    &&& written_so_far(old(self)@, final(self)@, expr_code(*ast))
                },
            },
        decreases ast,
    {
        let ghost base = self@;
        let ghost whole = expr_code(*ast);
        let ghost nothing = Seq::<u8>::empty();
        match ast {
            NodeKind::Number(n) => {
                proof {
                    assert(base + nothing =~= base);
                    assert(nothing + whole =~= whole);
                    assert(whole =~= whole.subrange(0, whole.len() as int));
                }
                let r = if *n < 0x80 {
                    let code = [0x6a, *n];
                    assert(code@ =~= whole);
                    self.emit(&code, Ghost(base), Ghost(nothing), Ghost(whole))
                } else {
                    let code = [0x68, *n, 0x00, 0x00, 0x00];
                    assert(code@ =~= whole);
                    self.emit(&code, Ghost(base), Ghost(nothing), Ghost(whole))
                };
                r
            },
            NodeKind::BinOp { kind, lhs, rhs } => {
                let ghost right = expr_code(**rhs);
                let ghost operands = right + expr_code(**lhs);
                let ghost popped = operands + pop_rax() + pop_rdi();
                proof {
                    lemma_stages(*kind, **lhs, **rhs);
                    assert(base + nothing =~= base);
                }
                if let Err(e) = self.gen_code_ast(rhs) {
                    proof {
                        lemma_written_of_whole(base, nothing, self@, right, whole);
                    }
                    return Err(e);
                }
                if let Err(e) = self.gen_code_ast(lhs) {
                    proof {
                        lemma_written_of_whole(base, right, self@, expr_code(**lhs), whole);
                    }
                    return Err(e);
                }
                proof {
                    assert(base + right + expr_code(**lhs) =~= base + operands);
                }
                let code = [0x58];
                assert(code@ =~= pop_rax());
                self.emit(&code, Ghost(base), Ghost(operands), Ghost(whole))?;
                let code = [0x5f];
                assert(code@ =~= pop_rdi());
                self.emit(&code, Ghost(base), Ghost(operands + pop_rax()), Ghost(whole))?;
                match kind {
                    BinOpKind::Add => {
                        let code = [0x48, 0x01, 0xf8];
                        assert(code@ =~= operation(*kind));
                        self.emit(&code, Ghost(base), Ghost(popped), Ghost(whole))?;
                    },
                    BinOpKind::Sub => {
                        let code = [0x48, 0x29, 0xf8];
                        assert(code@ =~= operation(*kind));
                        self.emit(&code, Ghost(base), Ghost(popped), Ghost(whole))?;
                    },
                    BinOpKind::Mul => {
                        let code = [0x48, 0x0f, 0xaf, 0xc7];
                        assert(code@ =~= operation(*kind));
                        self.emit(&code, Ghost(base), Ghost(popped), Ghost(whole))?;
                    },
                    BinOpKind::Div => {
                        let code = [0x48, 0x99, 0x48, 0xf7, 0xff];
                        assert(code@ =~= operation(*kind));
                        self.emit(&code, Ghost(base), Ghost(popped), Ghost(whole))?;
                    },
                }
                let code = [0x50];
                assert(code@ =~= push_rax());
                self.emit(&code, Ghost(base), Ghost(popped + operation(*kind)), Ghost(whole))
            },
        }
    }

    /// Ends the writing phase: appends the code of `ast` and the return of its
    /// value, and hands out all that has been written.
    pub fn gen_code(self, ast: &NodeKind) -> (r: Result<Vec<u8>, CodegenError>)
        ensures
            match r {
                Ok(code) => {
                    &&& code@ == self@ + program(*ast)
                    &&& code@.len() <= CODE_AREA_SIZE
                },
                Err(e) => {
                    &&& e == CodegenError::CodeBufferOverflow
                    &&& self@.len() + program(*ast).len() > CODE_AREA_SIZE
                },
            },
    {
        let mut compiler = self;
        compiler.gen_code_ast(ast)?;
        compiler.push_code(&[0x58])?;
        compiler.push_code(&[0xc3])?;
        proof {
            assert(compiler@ =~= self@ + program(*ast));
        }
        Ok(compiler.code)
    }
}

} // verus!
