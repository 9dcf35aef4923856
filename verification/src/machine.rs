//! A model of the x86-64 processor, as far as generated code uses it, and the
//! proof that the code of an expression computes the expression's value.
//!
//! The model knows three registers and the part of the stack above the
//! return address. It reads instructions byte by byte, so what is proved is
//! proved of the bytes that the code generator writes out, not of a reading of
//! them. What the model does not know is a fault: an unknown instruction, the
//! end of the code, a `pop` or `ret` that would reach below the program's own
//! part of the stack, and a division that the processor refuses.

use vstd::prelude::*;
use crate::ast::{BinOpKind, NodeKind};
use crate::codegen::{expr_code, operation, pop_rax, pop_rdi, program, push_literal, push_rax, ret};
use crate::evaluator::{spec_apply, spec_eval};

verus! {

/// The registers that generated code uses, and what it has pushed, the top
/// last.
pub struct Machine {
    pub rax: i64,
    pub rdi: i64,
    pub rdx: i64,
    pub stack: Seq<i64>,
}

/// What one instruction leads to.
pub enum Step {
    /// The machine goes on with the instruction at `pc`.
    Next { machine: Machine, pc: int },
    /// The program has returned to its caller, with `value` as the low byte
    /// of `rax`.
    Return { value: u8 },
    /// The model says nothing about what follows.
    Fault,
}

/// The 64-bit word that is congruent to `x` modulo 2^64.
pub open spec fn wrap(x: int) -> i64 {
    let r = x % 0x1_0000_0000_0000_0000;
    if r >= 0x8000_0000_0000_0000 {
        (r - 0x1_0000_0000_0000_0000) as i64
    } else {
        r as i64
    }
}

/// The word that a byte stands for when its top bit is taken as the sign.
pub open spec fn sign_extend_8(b: u8) -> i64 {
    if b < 0x80 {
        b as i64
    } else {
        (b - 0x100) as i64
    }
}

/// The word that four bytes, the lowest first, stand for when the top bit of
/// the last is taken as the sign.
pub open spec fn sign_extend_32(b0: u8, b1: u8, b2: u8, b3: u8) -> i64 {
    let v = b0 + 0x100 * b1 + 0x1_0000 * b2 + 0x100_0000 * b3;
    if v < 0x8000_0000 {
        v as i64
    } else {
        (v - 0x1_0000_0000) as i64
    }
}

/// The quotient of `a` by `b`, rounded towards zero.
pub open spec fn quotient(a: int, b: int) -> int
    recommends
        b != 0,
{
    if a >= 0 && b > 0 {
        a / b
    } else if a < 0 && b > 0 {
        -((-a) / b)
    } else if a >= 0 && b < 0 {
        -(a / (-b))
    } else {
        (-a) / (-b)
    }
}

/// The low byte of a word.
pub open spec fn low_byte(x: i64) -> u8 {
    (x % 0x100) as u8
}

impl Machine {
    /// The machine after `push` of the word `v`.
    pub open spec fn push(self, v: i64) -> Machine {
        Machine { stack: self.stack.push(v), ..self }
    }

    /// The machine after `pop rax`.
    pub open spec fn pop_rax(self) -> Machine
        recommends
            self.stack.len() > 0,
    {
        Machine { rax: self.stack.last(), stack: self.stack.drop_last(), ..self }
    }

    /// The machine after `pop rdi`.
    pub open spec fn pop_rdi(self) -> Machine
        recommends
            self.stack.len() > 0,
    {
        Machine { rdi: self.stack.last(), stack: self.stack.drop_last(), ..self }
    }

    /// The machine after `cqo`: every bit of `rdx` is the sign of `rax`.
    pub open spec fn cqo(self) -> Machine {
        Machine {
            rdx: if self.rax < 0 {
                -1i64
            } else {
                0i64
            },
            ..self
        }
    }

    /// The 128-bit number that `idiv` divides: `rdx` above `rax`.
    pub open spec fn dividend(self) -> int {
        self.rdx * 0x1_0000_0000_0000_0000 + (self.rax as int) % 0x1_0000_0000_0000_0000
    }

    /// Whether `idiv rdi` faults: the divisor is zero, or the quotient is no
    /// 64-bit word.
    pub open spec fn idiv_faults(self) -> bool {
        ||| self.rdi == 0
        ||| quotient(self.dividend(), self.rdi as int) < -0x8000_0000_0000_0000
        ||| quotient(self.dividend(), self.rdi as int) > 0x7fff_ffff_ffff_ffff
    }

    /// The machine after `idiv rdi`, where that does not fault: the quotient
    /// in `rax` and the remainder in `rdx`.
    pub open spec fn idiv(self) -> Machine
        recommends
            !self.idiv_faults(),
    {
        let q = quotient(self.dividend(), self.rdi as int);
        Machine { rax: q as i64, rdx: (self.dividend() - q * self.rdi) as i64, ..self }
    }
}

/// What the instruction at `pc` does to the machine `m`.
pub open spec fn step(code: Seq<u8>, pc: int, m: Machine) -> Step {
    if pc < 0 || pc >= code.len() {
        Step::Fault
    } else if code[pc] == 0x6a {
        // push imm8
        if pc + 1 < code.len() {
            Step::Next { machine: m.push(sign_extend_8(code[pc + 1])), pc: pc + 2 }
        } else {
            Step::Fault
        }
    } else if code[pc] == 0x68 {
        // push imm32
        if pc + 4 < code.len() {
            Step::Next {
                machine: m.push(
                    sign_extend_32(code[pc + 1], code[pc + 2], code[pc + 3], code[pc + 4]),
                ),
                pc: pc + 5,
            }
        } else {
            Step::Fault
        }
    } else if code[pc] == 0x50 {
        // push rax
        Step::Next { machine: m.push(m.rax), pc: pc + 1 }
    } else if code[pc] == 0x58 {
        // pop rax
        if m.stack.len() > 0 {
            Step::Next { machine: m.pop_rax(), pc: pc + 1 }
        } else {
            Step::Fault
        }
    } else if code[pc] == 0x5f {
        // pop rdi
        if m.stack.len() > 0 {
            Step::Next { machine: m.pop_rdi(), pc: pc + 1 }
        } else {
            Step::Fault
        }
    } else if code[pc] == 0xc3 {
        // ret
        if m.stack.len() == 0 {
            Step::Return { value: low_byte(m.rax) }
        } else {
            Step::Fault
        }
    } else if code[pc] == 0x48 && pc + 1 < code.len() {
        if code[pc + 1] == 0x99 {
            // cqo
            Step::Next { machine: m.cqo(), pc: pc + 2 }
        } else if pc + 2 >= code.len() {
            Step::Fault
        } else if code[pc + 1] == 0x01 && code[pc + 2] == 0xf8 {
            // add rax, rdi
            Step::Next { machine: Machine { rax: wrap(m.rax + m.rdi), ..m }, pc: pc + 3 }
        } else if code[pc + 1] == 0x29 && code[pc + 2] == 0xf8 {
            // sub rax, rdi
            Step::Next { machine: Machine { rax: wrap(m.rax - m.rdi), ..m }, pc: pc + 3 }
        } else if code[pc + 1] == 0xf7 && code[pc + 2] == 0xff {
            // idiv rdi
            if m.idiv_faults() {
                Step::Fault
            } else {
                Step::Next { machine: m.idiv(), pc: pc + 3 }
            }
        } else if pc + 3 < code.len() && code[pc + 1] == 0x0f && code[pc + 2] == 0xaf && code[pc
            + 3] == 0xc7 {
            // imul rax, rdi
            Step::Next { machine: Machine { rax: wrap(m.rax * m.rdi), ..m }, pc: pc + 4 }
        } else {
            Step::Fault
        }
    } else {
        Step::Fault
    }
}

/// The byte that a program returns when the machine `m` starts it at `pc`,
/// if it gets as far as returning.
pub open spec fn run(code: Seq<u8>, pc: int, m: Machine) -> Option<u8>
    decreases code.len() - pc,
{
    match step(code, pc, m) {
        Step::Next { machine, pc: next } => if pc < next {
            run(code, next, machine)
        } else {
            None
        },
        Step::Return { value } => Some(value),
        Step::Fault => None,
    }
}

/// Whether `code` holds the bytes of `piece` from position `pc` on.
pub open spec fn holds_at(code: Seq<u8>, pc: int, piece: Seq<u8>) -> bool {
    &&& 0 <= pc
    &&& pc + piece.len() <= code.len()
    &&& forall|k: int| 0 <= k < piece.len() ==> code[pc + k] == #[trigger] piece[k]
}

/// Whether the instructions of `kind` fault on the machine `m`. Only a
/// division can: it is `cqo` and `idiv rdi`.
pub open spec fn operation_faults(kind: BinOpKind, m: Machine) -> bool {
    kind == BinOpKind::Div && m.cqo().idiv_faults()
}

/// The machine after the instructions of `kind`, where they do not fault.
pub open spec fn operate(kind: BinOpKind, m: Machine) -> Machine
    recommends
        !operation_faults(kind, m),
{
    match kind {
        BinOpKind::Add => Machine { rax: wrap(m.rax + m.rdi), ..m },
        BinOpKind::Sub => Machine { rax: wrap(m.rax - m.rdi), ..m },
        BinOpKind::Mul => Machine { rax: wrap(m.rax * m.rdi), ..m },
        BinOpKind::Div => m.cqo().idiv(),
    }
}

/// The machine after the code of `ast`, where none of it faults.
pub open spec fn after_expr(ast: NodeKind, m: Machine) -> Machine
    decreases ast,
{
    match ast {
        NodeKind::Number(n) => m.push(n as i64),
        NodeKind::BinOp { kind, lhs, rhs } => {
            let operands = after_expr(*lhs, after_expr(*rhs, m));
            let result = operate(kind, operands.pop_rax().pop_rdi());
            result.push(result.rax)
        },
    }
}

/// A program that holds two pieces in a row holds each of them.
proof fn lemma_holds_at_parts(code: Seq<u8>, pc: int, a: Seq<u8>, b: Seq<u8>)
    requires
        holds_at(code, pc, a + b),
    ensures
        holds_at(code, pc, a),
        holds_at(code, pc + a.len(), b),
{
    assert forall|k: int| 0 <= k < a.len() implies code[pc + k] == #[trigger] a[k] by {
        assert((a + b)[k] == a[k]);
    }
    assert forall|k: int| 0 <= k < b.len() implies code[pc + a.len() + k] == #[trigger] b[k] by {
        assert((a + b)[a.len() + k] == b[k]);
    }
}

/// A program that has come to `push n` goes on behind it with `n` pushed.
proof fn lemma_run_push_literal(code: Seq<u8>, pc: int, m: Machine, n: u8)
    requires
        holds_at(code, pc, push_literal(n)),
    ensures
        run(code, pc, m) == run(code, pc + push_literal(n).len(), m.push(n as i64)),
{
    let piece = push_literal(n);
    assert(code[pc + 0] == piece[0]);
    assert(code[pc + 1] == piece[1]);
    if n >= 0x80 {
        assert(code[pc + 2] == piece[2]);
        assert(code[pc + 3] == piece[3]);
        assert(code[pc + 4] == piece[4]);
    }
}

/// A program that has come to `pop rax` goes on behind it with the top of
/// the stack in `rax`.
proof fn lemma_run_pop_rax(code: Seq<u8>, pc: int, m: Machine)
    requires
        holds_at(code, pc, pop_rax()),
        m.stack.len() > 0,
    ensures
        run(code, pc, m) == run(code, pc + 1, m.pop_rax()),
{
    assert(code[pc + 0] == pop_rax()[0]);
}

/// A program that has come to `pop rdi` goes on behind it with the top of
/// the stack in `rdi`.
proof fn lemma_run_pop_rdi(code: Seq<u8>, pc: int, m: Machine)
    requires
        holds_at(code, pc, pop_rdi()),
        m.stack.len() > 0,
    ensures
        run(code, pc, m) == run(code, pc + 1, m.pop_rdi()),
{
    assert(code[pc + 0] == pop_rdi()[0]);
}

/// A program that has come to `push rax` goes on behind it with `rax`
/// pushed.
proof fn lemma_run_push_rax(code: Seq<u8>, pc: int, m: Machine)
    requires
        holds_at(code, pc, push_rax()),
    ensures
        run(code, pc, m) == run(code, pc + 1, m.push(m.rax)),
{
    assert(code[pc + 0] == push_rax()[0]);
}

/// A program that has come to `ret` with nothing of its own on the stack
/// returns the low byte of `rax`.
proof fn lemma_run_ret(code: Seq<u8>, pc: int, m: Machine)
    requires
        holds_at(code, pc, ret()),
        m.stack.len() == 0,
    ensures
        run(code, pc, m) == Some(low_byte(m.rax)),
{
    assert(code[pc + 0] == ret()[0]);
}

/// A program that has come to the instructions of an operator goes on behind
/// them with `rax` and `rdi` combined, unless they fault.
proof fn lemma_run_operation(code: Seq<u8>, pc: int, m: Machine, kind: BinOpKind)
    requires
        holds_at(code, pc, operation(kind)),
        !operation_faults(kind, m),
    ensures
        run(code, pc, m) == run(code, pc + operation(kind).len(), operate(kind, m)),
{
    let piece = operation(kind);
    assert(code[pc + 0] == piece[0]);
    assert(code[pc + 1] == piece[1]);
    match kind {
        BinOpKind::Add => {
            assert(code[pc + 2] == piece[2]);
        },
        BinOpKind::Sub => {
            assert(code[pc + 2] == piece[2]);
        },
        BinOpKind::Mul => {
            assert(code[pc + 2] == piece[2]);
            assert(code[pc + 3] == piece[3]);
        },
        BinOpKind::Div => {
            assert(code[pc + 2] == piece[2]);
            assert(code[pc + 3] == piece[3]);
            assert(code[pc + 4] == piece[4]);
            assert(run(code, pc, m) == run(code, pc + 2, m.cqo()));
            assert(run(code, pc + 2, m.cqo()) == run(code, pc + 5, m.cqo().idiv()));
        },
    }
}

/// On two bytes in `rax` and `rdi`, the instructions of an operator compute
/// what the operator gives, wherever that is a byte.
proof fn lemma_operate_value(kind: BinOpKind, m: Machine, a: u8, b: u8)
    requires
        m.rax == a,
        m.rdi == b,
        spec_apply(kind, a, b) is Ok,
    ensures
        !operation_faults(kind, m),
        operate(kind, m).rax == spec_apply(kind, a, b)->Ok_0,
        operate(kind, m).stack == m.stack,
{
    match kind {
        BinOpKind::Add => {},
        BinOpKind::Sub => {},
        BinOpKind::Mul => {
            assert(0 <= a * b) by (nonlinear_arith);
        },
        BinOpKind::Div => {
            assert(0 <= (a as int) / (b as int) <= a) by (nonlinear_arith)
                requires
                    0 <= a,
                    0 < b,
            ;
            assert(m.cqo().dividend() == a);
        },
    }
}

/// The code of an expression that has a value runs without a fault, from
/// wherever it stands in a program, and leaves that value on top of the stack.
pub proof fn lemma_expr_code_runs(code: Seq<u8>, pc: int, ast: NodeKind, m: Machine)
    requires
        holds_at(code, pc, expr_code(ast)),
        spec_eval(ast) is Ok,
    ensures
        run(code, pc, m) == run(code, pc + expr_code(ast).len(), after_expr(ast, m)),
        after_expr(ast, m).stack == m.stack.push(spec_eval(ast)->Ok_0 as i64),
    decreases ast,
{
    match ast {
        NodeKind::Number(n) => {
            lemma_run_push_literal(code, pc, m, n);
        },
        NodeKind::BinOp { kind, lhs, rhs } => {
            let right = expr_code(*rhs);
            let left = expr_code(*lhs);
            let a = spec_eval(*lhs)->Ok_0;
            let b = spec_eval(*rhs)->Ok_0;
            lemma_holds_at_parts(
                code,
                pc,
                right + left + pop_rax() + pop_rdi() + operation(kind),
                push_rax(),
            );
            lemma_holds_at_parts(code, pc, right + left + pop_rax() + pop_rdi(), operation(kind));
            lemma_holds_at_parts(code, pc, right + left + pop_rax(), pop_rdi());
            lemma_holds_at_parts(code, pc, right + left, pop_rax());
            lemma_holds_at_parts(code, pc, right, left);
            let left_at = pc + right.len();
            let tail_at = left_at + left.len();
            let m1 = after_expr(*rhs, m);
            lemma_expr_code_runs(code, pc, *rhs, m);
            let m2 = after_expr(*lhs, m1);
            lemma_expr_code_runs(code, left_at, *lhs, m1);
            let m3 = m2.pop_rax();
            lemma_run_pop_rax(code, tail_at, m2);
            let m4 = m3.pop_rdi();
            lemma_run_pop_rdi(code, tail_at + 1, m3);
            assert(m4.rax == a && m4.rdi == b);
            assert(m4.stack =~= m.stack);
            lemma_operate_value(kind, m4, a, b);
            let m5 = operate(kind, m4);
            lemma_run_operation(code, tail_at + 2, m4, kind);
            lemma_run_push_rax(code, tail_at + 2 + operation(kind).len(), m5);
        },
    }
}

/// The program of an expression that has a value returns that value,
/// whatever the registers hold when it is called.
pub proof fn lemma_program_returns_value(ast: NodeKind, m: Machine)
    requires
        spec_eval(ast) is Ok,
        m.stack.len() == 0,
    ensures
        run(program(ast), 0, m) == Some(spec_eval(ast)->Ok_0),
{
    let code = program(ast);
    let v = spec_eval(ast)->Ok_0;
    assert(holds_at(code, 0, code));
    lemma_holds_at_parts(code, 0, expr_code(ast) + pop_rax(), ret());
    lemma_holds_at_parts(code, 0, expr_code(ast), pop_rax());
    lemma_expr_code_runs(code, 0, ast, m);
    let end = expr_code(ast).len() as int;
    let m1 = after_expr(ast, m);
    lemma_run_pop_rax(code, end, m1);
    let m2 = m1.pop_rax();
    assert(m2.stack =~= m.stack);
    lemma_run_ret(code, end + 1, m2);
}

} // verus!
