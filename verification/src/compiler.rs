//! The bytecode compiler: an expression tree to a flat byte sequence.
//!
//! Each instruction is an opcode byte followed by its operands:
//! a name as a big-endian `u16` length and that many UTF-8 bytes, a
//! binary64 number as its eight bit-pattern bytes, big-endian.

use vstd::prelude::*;
use vstd::utf8::encode_utf8;
use crate::ast::Expr;

verus! {

/// Bytecode opcodes of the chaotic virtual machine.
#[allow(non_camel_case_types)]
#[derive(Debug, Clone, Copy, PartialEq, Eq, Structural)]
pub enum OpCode {
    /// Load a variable: `[0x01] [u16 length] [UTF-8 bytes...]`.
    LOAD_VAR,
    /// Push a literal (zero variance): `[0x02] [f64 big-endian (8 bytes)]`.
    LITERAL,
    /// Pop two values, push their sum: `[0x03]`.
    ADD,
    /// Pop a value, propagate it in time: `[0x04] [f64 time_step (8 bytes)]`.
    PROPAGATE,
    /// Pop a value and collapse it; ends execution: `[0x05]`.
    COLLAPSE,
    /// Push a new chaotic value: `[0x06] [f64 mean (8 bytes)] [f64 variance (8 bytes)]`.
    CHAOTIC,
    /// Pop a value and store it under a name: `[0x07] [u16 length] [UTF-8 bytes...]`.
    LET,
    /// Pop and discard the top value: `[0x08]`.
    POP,
}

/// The byte that encodes an opcode.
pub open spec fn opcode_byte(op: OpCode) -> u8 {
    match op {
        OpCode::LOAD_VAR => 0x01,
        OpCode::LITERAL => 0x02,
        OpCode::ADD => 0x03,
        OpCode::PROPAGATE => 0x04,
        OpCode::COLLAPSE => 0x05,
        OpCode::CHAOTIC => 0x06,
        OpCode::LET => 0x07,
        OpCode::POP => 0x08,
    }
}

/// The opcode that a byte encodes, if any.
pub open spec fn opcode_of(b: u8) -> Option<OpCode> {
    if b == 0x01 {
        Some(OpCode::LOAD_VAR)
    } else if b == 0x02 {
        Some(OpCode::LITERAL)
    } else if b == 0x03 {
        Some(OpCode::ADD)
    } else if b == 0x04 {
        Some(OpCode::PROPAGATE)
    } else if b == 0x05 {
        Some(OpCode::COLLAPSE)
    } else if b == 0x06 {
        Some(OpCode::CHAOTIC)
    } else if b == 0x07 {
        Some(OpCode::LET)
    } else if b == 0x08 {
        Some(OpCode::POP)
    } else {
        None
    }
}

impl OpCode {
    /// Converts a byte to an opcode; `None` if the byte encodes no opcode.
    pub fn from_byte(b: u8) -> (r: Option<Self>)
        ensures
            r == opcode_of(b),
    {
        match b {
            0x01 => Some(OpCode::LOAD_VAR),
            0x02 => Some(OpCode::LITERAL),
            0x03 => Some(OpCode::ADD),
            0x04 => Some(OpCode::PROPAGATE),
            0x05 => Some(OpCode::COLLAPSE),
            0x06 => Some(OpCode::CHAOTIC),
            0x07 => Some(OpCode::LET),
            0x08 => Some(OpCode::POP),
            _ => None,
        }
    }

    /// The byte that encodes this opcode.
    pub fn to_byte(self) -> (r: u8)
        ensures
            r == opcode_byte(self),
    {
        match self {
            OpCode::LOAD_VAR => 0x01,
            OpCode::LITERAL => 0x02,
            OpCode::ADD => 0x03,
            OpCode::PROPAGATE => 0x04,
            OpCode::COLLAPSE => 0x05,
            OpCode::CHAOTIC => 0x06,
            OpCode::LET => 0x07,
            OpCode::POP => 0x08,
        }
    }
}

/// Big-endian bytes of a `u16`.
pub open spec fn be_u16(n: u16) -> Seq<u8> {
    seq![(n >> 8u16) as u8, n as u8]
}

/// Big-endian bytes of a `u64` (the encoding of a binary64 bit pattern).
pub open spec fn be_u64(x: u64) -> Seq<u8> {
    seq![
        (x >> 56u64) as u8,
        (x >> 48u64) as u8,
        (x >> 40u64) as u8,
        (x >> 32u64) as u8,
        (x >> 24u64) as u8,
        (x >> 16u64) as u8,
        (x >> 8u64) as u8,
        x as u8,
    ]
}

/// A name operand: its UTF-8 length as a big-endian `u16` (taken modulo
/// 65536), then its UTF-8 bytes.
pub open spec fn name_code(name: Seq<char>) -> Seq<u8> {
    let b = encode_utf8(name);
    be_u16((b.len() % 65536) as u16) + b
}

/// An instruction with no operand.
pub open spec fn op1(op: OpCode) -> Seq<u8> {
    seq![opcode_byte(op)]
}

/// The bytecode of an expression: a post-order walk of the tree.
pub open spec fn compile_spec(e: Expr) -> Seq<u8>
    decreases e, 0int,
{
    match e {
        Expr::Var(n) => op1(OpCode::LOAD_VAR) + name_code(n@),
        Expr::Literal(v) => op1(OpCode::LITERAL) + be_u64(v),
        Expr::Add(l, r) => compile_spec(*l) + compile_spec(*r) + op1(OpCode::ADD),
        Expr::Propagate(i, t) => compile_spec(*i) + op1(OpCode::PROPAGATE) + be_u64(t),
        Expr::Collapse(i) => compile_spec(*i) + op1(OpCode::COLLAPSE),
        Expr::ChaoticConstructor(m, v) => op1(OpCode::CHAOTIC) + be_u64(m) + be_u64(v),
        Expr::Let(n, x) => compile_spec(*x) + op1(OpCode::LET) + name_code(n@),
        Expr::Block(es) => block_code(es@, es@.len() as int),
    }
}

/// Whether the statement at index `i` of a block of `len` statements is
/// followed by a `POP`: every statement but the last, unless it is a `let`
/// (which already takes its value off the stack).
pub open spec fn pops_after(s: Expr, i: int, len: int) -> bool {
    i < len - 1 && !(s is Let)
}

/// The bytecode of the first `n` statements of a block.
pub open spec fn block_code(es: Seq<Expr>, n: int) -> Seq<u8>
    decreases es, n,
{
    if n <= 0 || n > es.len() {
        seq![]
    } else {
        block_code(es, n - 1) + compile_spec(es[n - 1]) + (if pops_after(es[n - 1], n - 1, es.len() as int) {
            op1(OpCode::POP)
        } else {
            seq![]
        })
    }
}

/// Bytecode compiler: transforms an expression into a byte sequence.
pub struct Compiler {
    bytecode: Vec<u8>,
}

impl Compiler {
    /// The bytes emitted so far.
    pub closed spec fn code(&self) -> Seq<u8> {
        self.bytecode@
    }

    /// Creates a compiler that has emitted nothing.
    pub fn new() -> (r: Self)
        ensures
            r.code() == Seq::<u8>::empty(),
    {
        Compiler { bytecode: Vec::new() }
    }

    /// Compiles an expression into bytecode.
    pub fn compile(expr: &Expr) -> (r: Result<Vec<u8>, String>)
        ensures
            r matches Ok(code) && code@ == compile_spec(*expr),
    {
        let mut compiler = Compiler::new();
        let _ = compiler.compile_expr(expr);
        assert(compiler.code() =~= compile_spec(*expr));
        Ok(compiler.bytecode)
    }

    /// Appends the bytecode of an expression to what was emitted so far; it
    /// never fails.
    pub fn compile_expr(&mut self, expr: &Expr) -> (r: Result<(), String>)
        ensures
            r is Ok,
            final(self).code() == old(self).code() + compile_spec(*expr),
        decreases expr,
    {
        match expr {
            Expr::Var(name) => {
                self.emit_load_var(name.as_str());
            },
            Expr::Literal(value) => {
                self.emit_literal(*value);
            },
            Expr::Add(left, right) => {
                let _ = self.compile_expr(left);
                let _ = self.compile_expr(right);
                self.emit_byte(OpCode::ADD.to_byte());
                assert(self.code() =~= old(self).code() + compile_spec(*expr));
            },
            Expr::Propagate(inner, time_step) => {
                let _ = self.compile_expr(inner);
                self.emit_propagate(*time_step);
                assert(self.code() =~= old(self).code() + compile_spec(*expr));
            },
            Expr::Collapse(inner) => {
                let _ = self.compile_expr(inner);
                self.emit_byte(OpCode::COLLAPSE.to_byte());
                assert(self.code() =~= old(self).code() + compile_spec(*expr));
            },
            Expr::ChaoticConstructor(mean, variance) => {
                self.emit_chaotic(*mean, *variance);
            },
            Expr::Let(name, inner) => {
                let _ = self.compile_expr(inner);
                self.emit_let(name.as_str());
                assert(self.code() =~= old(self).code() + compile_spec(*expr));
            },
            Expr::Block(exprs) => {
                let n: usize = exprs.len();
                let mut i: usize = 0;
                assert(old(self).code() + block_code(exprs@, 0) =~= old(self).code());
                while i < n
                    invariant
                        n == exprs@.len(),
                        i <= n,
                        *expr == Expr::Block(*exprs),
                        self.code() == old(self).code() + block_code(exprs@, i as int),
                    decreases n - i,
                {
                    let e = &exprs[i];
                    proof {
                        let ghost v = *exprs;
                        assert(decreases_to!(v => v@));
                        assert(decreases_to!(v@ => v@[i as int]));
                        assert(decreases_to!(*expr => (*expr)->Block_0));
                        assert((*expr)->Block_0 == v);
                    }
                    let _ = self.compile_expr(e);
                    if i < n - 1 && !matches!(e, Expr::Let(_, _)) {
                        self.emit_byte(OpCode::POP.to_byte());
                    }
                    i = i + 1;
                    assert(self.code() =~= old(self).code() + block_code(exprs@, i as int));
                }
            },
        }
        Ok(())
    }

    /// Emits a single byte.
    pub fn emit_byte(&mut self, b: u8)
        ensures
            final(self).code() == old(self).code().push(b),
    {
        self.bytecode.push(b);
    }

    /// Emits the eight big-endian bytes of a binary64 bit pattern.
    fn emit_u64(&mut self, x: u64)
        ensures
            final(self).code() == old(self).code() + be_u64(x),
    {
        self.bytecode.push((x >> 56u64) as u8);
        self.bytecode.push((x >> 48u64) as u8);
        self.bytecode.push((x >> 40u64) as u8);
        self.bytecode.push((x >> 32u64) as u8);
        self.bytecode.push((x >> 24u64) as u8);
        self.bytecode.push((x >> 16u64) as u8);
        self.bytecode.push((x >> 8u64) as u8);
        self.bytecode.push(x as u8);
        assert(self.code() =~= old(self).code() + be_u64(x));
    }

    /// Emits a `LOAD_VAR` instruction with a variable name.
    pub fn emit_load_var(&mut self, name: &str)
        ensures
            final(self).code() == old(self).code() + op1(OpCode::LOAD_VAR) + name_code(name@),
    {
        self.bytecode.push(OpCode::LOAD_VAR.to_byte());
        self.emit_string(name);
        assert(self.code() =~= old(self).code() + op1(OpCode::LOAD_VAR) + name_code(name@));
    }

    /// Emits a `LITERAL` instruction with a value.
    fn emit_literal(&mut self, value: u64)
        ensures
            final(self).code() == old(self).code() + op1(OpCode::LITERAL) + be_u64(value),
    {
        self.bytecode.push(OpCode::LITERAL.to_byte());
        self.emit_u64(value);
        assert(self.code() =~= old(self).code() + op1(OpCode::LITERAL) + be_u64(value));
    }

    /// Emits a `PROPAGATE` instruction with a time step.
    fn emit_propagate(&mut self, time_step: u64)
        ensures
            final(self).code() == old(self).code() + op1(OpCode::PROPAGATE) + be_u64(time_step),
    {
        self.bytecode.push(OpCode::PROPAGATE.to_byte());
        self.emit_u64(time_step);
        assert(self.code() =~= old(self).code() + op1(OpCode::PROPAGATE) + be_u64(time_step));
    }

    /// Emits a `CHAOTIC` instruction with a mean and a variance.
    fn emit_chaotic(&mut self, mean: u64, variance: u64)
        ensures
            final(self).code() == old(self).code() + op1(OpCode::CHAOTIC) + be_u64(mean) + be_u64(variance),
    {
        self.bytecode.push(OpCode::CHAOTIC.to_byte());
        self.emit_u64(mean);
        self.emit_u64(variance);
        assert(self.code() =~= old(self).code() + op1(OpCode::CHAOTIC) + be_u64(mean) + be_u64(variance));
    }

    /// Emits a `LET` instruction with a variable name.
    pub fn emit_let(&mut self, name: &str)
        ensures
            final(self).code() == old(self).code() + op1(OpCode::LET) + name_code(name@),
    {
        self.bytecode.push(OpCode::LET.to_byte());
        self.emit_string(name);
        assert(self.code() =~= old(self).code() + op1(OpCode::LET) + name_code(name@));
    }

    /// Emits a string: its UTF-8 length as a big-endian `u16` (modulo 65536),
    /// then its UTF-8 bytes.
    pub fn emit_string(&mut self, s: &str)
        ensures
            final(self).code() == old(self).code() + name_code(s@),
    {
        let bytes = s.as_bytes();
        let len: u16 = (bytes.len() % 65536) as u16;
        self.bytecode.push((len >> 8u16) as u8);
        self.bytecode.push(len as u8);
        let ghost mid = self.bytecode@;
        let mut i: usize = 0;
        while i < bytes.len()
            invariant
                i <= bytes@.len(),
                bytes@ == encode_utf8(s@),
                self.bytecode@ == mid + bytes@.subrange(0, i as int),
            decreases bytes@.len() - i,
        {
            self.bytecode.push(bytes[i]);
            i = i + 1;
            assert(self.bytecode@ =~= mid + bytes@.subrange(0, i as int));
        }
        assert(bytes@.subrange(0, bytes@.len() as int) =~= bytes@);
        assert(self.code() =~= old(self).code() + name_code(s@));
    }
}

impl Default for Compiler {
    fn default() -> (r: Self)
        ensures
            r.code() == Seq::<u8>::empty(),
    {
        Compiler::new()
    }
}

} // verus!
