//! The decision part of the stack machine that runs Lorenz bytecode.
//!
//! The machine decodes instructions, keeps the value stack and the system
//! state, and never looks inside a value.  Each `step` executes one
//! instruction: loads, stores and pops it carries out itself; for the
//! arithmetic on probability clouds and the final collapse it hands the
//! caller an `Effect`, after which the caller pushes the result (`push`).

use vstd::prelude::*;
use vstd::utf8::{decode_utf8, valid_utf8};
use crate::compiler::{OpCode, opcode_of};
use crate::state::SystemState;
use crate::text::{describe_utf8_error, push_char, push_str, string_from_utf8, utf8_error_text};

verus! {

/// Errors of the machine.
#[derive(Debug, PartialEq)]
pub enum VmError {
    /// The bytecode ended before a `COLLAPSE`.
    NoCollapse,
    /// A byte that encodes no opcode.
    UnknownOpcode(u8),
    /// A name operand without its two length bytes.
    TruncatedStringLength,
    /// A name operand shorter than its length says.
    TruncatedStringData,
    /// A name operand that is not valid UTF-8 (the bytes).
    InvalidUtf8(Vec<u8>),
    /// A number operand without its eight bytes.
    TruncatedOperand,
    /// An instruction popped more values than the stack held.
    StackUnderflow,
    /// `LOAD_VAR` of a name that has no value.
    UndefinedVariable(String),
    /// `CHAOTIC` with a variance that is negative or not a number.
    NegativeVariance,
    /// `PROPAGATE` with a time step that is negative or not a number.
    NegativeTimeStep,
}

/// The lowercase hexadecimal digit of `d` (below 16).
pub open spec fn hex_digit(d: u8) -> char {
    if d < 10 {
        (('0' as u8) + d) as char
    } else {
        (('a' as u8) + d - 10) as char
    }
}

/// A byte as two lowercase hexadecimal digits.
pub open spec fn hex2(b: u8) -> Seq<char> {
    seq![hex_digit(b / 16), hex_digit(b % 16)]
}

/// The message that reports a machine error.
pub open spec fn vm_error_text(e: VmError) -> Seq<char> {
    match e {
        VmError::NoCollapse => "Execution ended without COLLAPSE instruction"@,
        VmError::UnknownOpcode(b) => "Unknown opcode: 0x"@ + hex2(b),
        VmError::TruncatedStringLength => "Truncated bytecode: missing string length"@,
        VmError::TruncatedStringData => "Truncated bytecode: missing string data"@,
        VmError::InvalidUtf8(bytes) => "Invalid UTF-8 in variable name: "@ + utf8_error_text(bytes@),
        VmError::TruncatedOperand => "Truncated bytecode: missing f64 operand"@,
        VmError::StackUnderflow => "Stack underflow: not enough values"@,
        VmError::UndefinedVariable(name) => "Runtime Error: Undefined variable '"@ + name@ + "'"@,
        VmError::NegativeVariance => "variance must be non-negative"@,
        VmError::NegativeTimeStep => "time_step must be non-negative"@,
    }
}

fn hex_char(d: u8) -> (r: char)
    requires
        d < 16,
    ensures
        r == hex_digit(d),
{
    if d < 10 {
        (('0' as u8) + d) as char
    } else {
        (('a' as u8) + d - 10) as char
    }
}

impl VmError {
    /// The message that reports this error.
    pub fn message(&self) -> (r: String)
        ensures
            r@ == vm_error_text(*self),
    {
        match self {
            VmError::NoCollapse => "Execution ended without COLLAPSE instruction".to_owned(),
            VmError::UnknownOpcode(b) => {
                let mut s = "Unknown opcode: 0x".to_owned();
                push_char(&mut s, hex_char(*b / 16));
                push_char(&mut s, hex_char(*b % 16));
                assert(s@ =~= vm_error_text(*self));
                s
            },
            VmError::TruncatedStringLength => "Truncated bytecode: missing string length".to_owned(),
            VmError::TruncatedStringData => "Truncated bytecode: missing string data".to_owned(),
            VmError::InvalidUtf8(bytes) => {
                let mut s = "Invalid UTF-8 in variable name: ".to_owned();
                let detail = describe_utf8_error(bytes.as_slice());
                push_str(&mut s, detail.as_str());
                s
            },
            VmError::TruncatedOperand => "Truncated bytecode: missing f64 operand".to_owned(),
            VmError::StackUnderflow => "Stack underflow: not enough values".to_owned(),
            VmError::UndefinedVariable(name) => {
                let mut s = "Runtime Error: Undefined variable '".to_owned();
                push_str(&mut s, name.as_str());
                push_str(&mut s, "'");
                s
            },
            VmError::NegativeVariance => "variance must be non-negative".to_owned(),
            VmError::NegativeTimeStep => "time_step must be non-negative".to_owned(),
        }
    }
}

/// An instruction, as decoded from the bytecode.
pub enum Op {
    LoadVar(Seq<char>),
    Literal(u64),
    Add,
    Propagate(u64),
    Collapse,
    Chaotic(u64, u64),
    Let(Seq<char>),
    Pop,
}

/// A decoding error.
pub enum Fault {
    NoCollapse,
    UnknownOpcode(u8),
    TruncatedStringLength,
    TruncatedStringData,
    InvalidUtf8(Seq<u8>),
    TruncatedOperand,
}

/// `e` is the machine error that reports the decoding error `f`.
pub open spec fn reports(e: VmError, f: Fault) -> bool {
    match f {
        Fault::NoCollapse => e is NoCollapse,
        Fault::UnknownOpcode(b) => e == VmError::UnknownOpcode(b),
        Fault::TruncatedStringLength => e is TruncatedStringLength,
        Fault::TruncatedStringData => e is TruncatedStringData,
        Fault::InvalidUtf8(bytes) => e matches VmError::InvalidUtf8(v) && v@ == bytes,
        Fault::TruncatedOperand => e is TruncatedOperand,
    }
}

/// The `u16` whose big-endian bytes are `hi`, `lo`.
pub open spec fn u16_of(hi: u8, lo: u8) -> u16 {
    ((hi as u16) << 8u16) | (lo as u16)
}

/// The `u64` whose big-endian bytes are `b[0..8]`.
pub open spec fn u64_of(b: Seq<u8>) -> u64 {
    ((b[0] as u64) << 56u64) | ((b[1] as u64) << 48u64) | ((b[2] as u64) << 40u64) | ((b[3] as u64) << 32u64)
        | ((b[4] as u64) << 24u64) | ((b[5] as u64) << 16u64) | ((b[6] as u64) << 8u64) | (b[7] as u64)
}

/// Reads a name operand at `ip`: a big-endian `u16` length, then that many
/// bytes of UTF-8.  Gives the name and the position after it.
pub open spec fn decode_name(code: Seq<u8>, ip: int) -> Result<(Seq<char>, int), Fault> {
    if ip + 2 > code.len() {
        Err(Fault::TruncatedStringLength)
    } else {
        let len: int = u16_of(code[ip], code[ip + 1]) as int;
        let p: int = ip + 2;
        if p + len > code.len() {
            Err(Fault::TruncatedStringData)
        } else {
            let bytes = code.subrange(p, p + len);
            if valid_utf8(bytes) {
                Ok((decode_utf8(bytes), p + len))
            } else {
                Err(Fault::InvalidUtf8(bytes))
            }
        }
    }
}

/// Reads a number operand at `ip`: eight big-endian bytes of a binary64 bit
/// pattern.  Gives the bits and the position after them.
pub open spec fn decode_number(code: Seq<u8>, ip: int) -> Result<(u64, int), Fault> {
    if ip + 8 > code.len() {
        Err(Fault::TruncatedOperand)
    } else {
        Ok((u64_of(code.subrange(ip, ip + 8)), ip + 8))
    }
}

/// The instruction at `ip` and the position after it, or the decoding error.
pub open spec fn decode_at(code: Seq<u8>, ip: int) -> Result<(Op, int), Fault> {
    if ip >= code.len() {
        Err(Fault::NoCollapse)
    } else {
        match opcode_of(code[ip]) {
            None => Err(Fault::UnknownOpcode(code[ip])),
            Some(OpCode::LOAD_VAR) => match decode_name(code, ip + 1) {
                Ok((n, p)) => Ok((Op::LoadVar(n), p)),
                Err(f) => Err(f),
            },
            Some(OpCode::LITERAL) => match decode_number(code, ip + 1) {
                Ok((v, p)) => Ok((Op::Literal(v), p)),
                Err(f) => Err(f),
            },
            Some(OpCode::ADD) => Ok((Op::Add, ip + 1)),
            Some(OpCode::PROPAGATE) => match decode_number(code, ip + 1) {
                Ok((v, p)) => Ok((Op::Propagate(v), p)),
                Err(f) => Err(f),
            },
            Some(OpCode::COLLAPSE) => Ok((Op::Collapse, ip + 1)),
            Some(OpCode::CHAOTIC) => match decode_number(code, ip + 1) {
                Ok((m, p)) => match decode_number(code, p) {
                    Ok((v, p2)) => Ok((Op::Chaotic(m, v), p2)),
                    Err(f) => Err(f),
                },
                Err(f) => Err(f),
            },
            Some(OpCode::LET) => match decode_name(code, ip + 1) {
                Ok((n, p)) => Ok((Op::Let(n), p)),
                Err(f) => Err(f),
            },
            Some(OpCode::POP) => Ok((Op::Pop, ip + 1)),
        }
    }
}

/// Where the instruction pointer is left when reading a name operand at
/// `ip` fails: before the length, before the bytes, or after them.
pub open spec fn name_stop(code: Seq<u8>, ip: int) -> int {
    if ip + 2 > code.len() {
        ip
    } else if ip + 2 + u16_of(code[ip], code[ip + 1]) as int > code.len() {
        ip + 2
    } else {
        ip + 2 + u16_of(code[ip], code[ip + 1]) as int
    }
}

/// Where the instruction pointer is left when decoding the instruction at
/// `ip` fails: on the opcode byte when there is none or it is unknown,
/// otherwise past the opcode and the operand bytes read before the error.
pub open spec fn stop_at(code: Seq<u8>, ip: int) -> int {
    if ip >= code.len() {
        ip
    } else {
        match opcode_of(code[ip]) {
            None => ip,
            Some(OpCode::LOAD_VAR) => name_stop(code, ip + 1),
            Some(OpCode::LET) => name_stop(code, ip + 1),
            Some(OpCode::CHAOTIC) => if decode_number(code, ip + 1) is Ok {
                ip + 9
            } else {
                ip + 1
            },
            _ => ip + 1,
        }
    }
}

/// The binary64 number with bits `x` is at least zero: `+0.0` to `+inf`, or
/// `-0.0`; every other bit pattern is negative or not a number.
pub open spec fn non_negative(x: u64) -> bool {
    x <= 0x7ff0_0000_0000_0000 || x == 0x8000_0000_0000_0000
}

/// Whether the binary64 number with bits `x` is at least zero.
pub fn is_non_negative(x: u64) -> (r: bool)
    ensures
        r == non_negative(x),
{
    x <= 0x7ff0_0000_0000_0000 || x == 0x8000_0000_0000_0000
}

/// What the caller is asked to do after one instruction.
#[derive(Debug)]
pub enum Effect<V> {
    /// The machine carried the instruction out itself (`LOAD_VAR`, `LET`, `POP`).
    Done,
    /// `LITERAL`: push a deterministic value (zero variance) with these bits.
    Literal(u64),
    /// `ADD`: push the sum of the two values (left, right).
    Add(V, V),
    /// `PROPAGATE`: push the value propagated by the time step (bits).
    Propagate(V, u64),
    /// `COLLAPSE`: execution ends; collapse the value to a number.
    Collapse(V),
    /// `CHAOTIC`: push a new chaotic value (mean bits, variance bits).
    Chaotic(u64, u64),
}

/// One step of instruction `op` on stack `s` with variables `vars`: the result
/// `r`, and the stack `s2` and variables `vars2` after it.
pub open spec fn stepped<V: Clone>(
    op: Op,
    s: Seq<V>,
    vars: Map<Seq<char>, V>,
    r: Result<Effect<V>, VmError>,
    s2: Seq<V>,
    vars2: Map<Seq<char>, V>,
) -> bool {
    let n: nat = s.len();
    let underflow = r == Err::<Effect<V>, VmError>(VmError::StackUnderflow);
    match op {
        Op::LoadVar(name) => vars2 == vars && if vars.dom().contains(name) {
            &&& r == Ok::<Effect<V>, VmError>(Effect::Done)
            &&& s2.len() == n + 1
            &&& s2.subrange(0, n as int) == s
            &&& cloned(vars[name], s2[n as int])
        } else {
            r matches Err(VmError::UndefinedVariable(x)) && x@ == name && s2 == s
        },
        Op::Literal(v) => r == Ok::<Effect<V>, VmError>(Effect::Literal(v)) && s2 == s && vars2 == vars,
        Op::Chaotic(m, v) => s2 == s && vars2 == vars && if non_negative(v) {
            r == Ok::<Effect<V>, VmError>(Effect::Chaotic(m, v))
        } else {
            r == Err::<Effect<V>, VmError>(VmError::NegativeVariance)
        },
        Op::Add => vars2 == vars && if n >= 2 {
            r == Ok::<Effect<V>, VmError>(Effect::Add(s[n - 2], s[n - 1])) && s2 == s.subrange(0, n - 2)
        } else {
            underflow && s2 == Seq::<V>::empty()
        },
        Op::Propagate(t) => vars2 == vars && if n >= 1 {
            s2 == s.drop_last() && if non_negative(t) {
                r == Ok::<Effect<V>, VmError>(Effect::Propagate(s[n - 1], t))
            } else {
                r == Err::<Effect<V>, VmError>(VmError::NegativeTimeStep)
            }
        } else {
            underflow && s2 == s
        },
        Op::Collapse => vars2 == vars && if n >= 1 {
            r == Ok::<Effect<V>, VmError>(Effect::Collapse(s[n - 1])) && s2 == s.drop_last()
        } else {
            underflow && s2 == s
        },
        Op::Let(name) => if n >= 1 {
            r == Ok::<Effect<V>, VmError>(Effect::Done) && s2 == s.drop_last()
                && vars2 == vars.insert(name, s[n - 1])
        } else {
            underflow && s2 == s && vars2 == vars
        },
        Op::Pop => vars2 == vars && if n >= 1 {
            r == Ok::<Effect<V>, VmError>(Effect::Done) && s2 == s.drop_last()
        } else {
            underflow && s2 == s
        },
    }
}

/// Stack-based machine over bytecode; the values on its stack and in its
/// variables are the caller's (probability clouds), which it only moves.
pub struct ChaosVM<V> {
    /// The bytecode instructions to execute.
    pub code: Vec<u8>,
    /// Instruction pointer: the position of the next byte to execute.
    pub ip: usize,
    /// The execution stack.
    pub stack: Vec<V>,
    /// The system state (variables and covariances).
    pub state: SystemState<V>,
}

impl<V: Clone> ChaosVM<V> {
    /// Creates a machine at the start of `code`, with an empty stack and the
    /// given state.
    pub fn new(code: Vec<u8>, state: SystemState<V>) -> (r: Self)
        ensures
            r.code == code,
            r.ip == 0,
            r.stack@ == Seq::<V>::empty(),
            r.state == state,
    {
        ChaosVM { code, ip: 0, stack: Vec::new(), state }
    }

    /// Reads a name operand at the instruction pointer.
    fn read_string(&mut self) -> (r: Result<String, VmError>)
        ensures
            final(self).code == old(self).code,
            final(self).stack == old(self).stack,
            final(self).state == old(self).state,
            match decode_name(old(self).code@, old(self).ip as int) {
                Ok((n, p)) => r matches Ok(s) && s@ == n && final(self).ip == p,
                Err(f) => r matches Err(e) && reports(e, f)
                    && final(self).ip == name_stop(old(self).code@, old(self).ip as int),
            },
    {
        let n: usize = self.code.len();
        if self.ip > n || n - self.ip < 2 {
            return Err(VmError::TruncatedStringLength);
        }
        let hi: u8 = self.code[self.ip];
        let lo: u8 = self.code[self.ip + 1];
        let len: usize = (((hi as u16) << 8u16) | (lo as u16)) as usize;
        self.ip = self.ip + 2;
        if n - self.ip < len {
            return Err(VmError::TruncatedStringData);
        }
        let start: usize = self.ip;
        let mut bytes: Vec<u8> = Vec::new();
        let mut i: usize = 0;
        while i < len
            invariant
                self.code@ == old(self).code@,
                self.code@.len() == n,
                start + len <= n,
                i <= len,
                bytes@ == self.code@.subrange(start as int, start + i),
            decreases len - i,
        {
            bytes.push(self.code[start + i]);
            i = i + 1;
            assert(bytes@ =~= self.code@.subrange(start as int, start + i));
        }
        self.ip = start + len;
        match string_from_utf8(bytes.as_slice()) {
            Some(s) => Ok(s),
            None => Err(VmError::InvalidUtf8(bytes)),
        }
    }

    /// Reads a number operand (eight big-endian bytes of binary64 bits).
    fn read_f64(&mut self) -> (r: Result<u64, VmError>)
        ensures
            final(self).code == old(self).code,
            final(self).stack == old(self).stack,
            final(self).state == old(self).state,
            match decode_number(old(self).code@, old(self).ip as int) {
                Ok((v, p)) => r == Ok::<u64, VmError>(v) && final(self).ip == p,
                Err(f) => r matches Err(e) && reports(e, f) && final(self).ip == old(self).ip,
            },
    {
        let n: usize = self.code.len();
        if self.ip > n || n - self.ip < 8 {
            return Err(VmError::TruncatedOperand);
        }
        let i: usize = self.ip;
        let v: u64 = ((self.code[i] as u64) << 56u64) | ((self.code[i + 1] as u64) << 48u64)
            | ((self.code[i + 2] as u64) << 40u64) | ((self.code[i + 3] as u64) << 32u64)
            | ((self.code[i + 4] as u64) << 24u64) | ((self.code[i + 5] as u64) << 16u64)
            | ((self.code[i + 6] as u64) << 8u64) | (self.code[i + 7] as u64);
        self.ip = i + 8;
        assert(self.code@.subrange(i as int, i + 8)[0] == self.code@[i as int]);
        assert(self.code@.subrange(i as int, i + 8)[7] == self.code@[i + 7]);
        Ok(v)
    }

    /// Pops a value, or reports a stack underflow.
    fn stack_pop(&mut self) -> (r: Result<V, VmError>)
        ensures
            final(self).code == old(self).code,
            final(self).ip == old(self).ip,
            final(self).state == old(self).state,
            old(self).stack@.len() > 0 ==> r == Ok::<V, VmError>(old(self).stack@.last())
                && final(self).stack@ == old(self).stack@.drop_last(),
            old(self).stack@.len() == 0 ==> r == Err::<V, VmError>(VmError::StackUnderflow)
                && final(self).stack@ == old(self).stack@,
    {
        match self.stack.pop() {
            Some(v) => Ok(v),
            None => Err(VmError::StackUnderflow),
        }
    }

    /// Pushes a value that the caller computed for the last effect.
    pub fn push(&mut self, value: V)
        ensures
            final(self).code == old(self).code,
            final(self).ip == old(self).ip,
            final(self).state == old(self).state,
            final(self).stack@ == old(self).stack@.push(value),
    {
        self.stack.push(value);
    }

    /// Executes the instruction at the instruction pointer.
    ///
    /// On success the instruction pointer is past the instruction and the
    /// caller is told what is left to do; on an error the run is over.
    pub fn step(&mut self) -> (r: Result<Effect<V>, VmError>)
        requires
            old(self).state.wf(),
        ensures
            final(self).code == old(self).code,
            final(self).state.wf(),
            final(self).state.covs() == old(self).state.covs(),
            match decode_at(old(self).code@, old(self).ip as int) {
                Err(f) => r matches Err(e) && reports(e, f) && final(self).stack == old(self).stack
                    && final(self).state == old(self).state
                    && final(self).ip == stop_at(old(self).code@, old(self).ip as int),
                Ok((op, next)) => final(self).ip == next
                    && stepped(op, old(self).stack@, old(self).state.vars(), r, final(self).stack@,
                        final(self).state.vars()),
            },
    {
        if self.ip >= self.code.len() {
            return Err(VmError::NoCollapse);
        }
        let byte: u8 = self.code[self.ip];
        let op = match OpCode::from_byte(byte) {
            Some(op) => op,
            None => return Err(VmError::UnknownOpcode(byte)),
        };
        self.ip = self.ip + 1;
        match op {
            OpCode::LOAD_VAR => {
                let name = match self.read_string() {
                    Ok(name) => name,
                    Err(e) => return Err(e),
                };
                match self.state.get_var(name.as_str()) {
                    Some(v) => {
                        let c = v.clone();
                        self.stack.push(c);
                        assert(self.stack@.subrange(0, old(self).stack@.len() as int) =~= old(self).stack@);
                        assert(cloned(*v, c));
                        Ok(Effect::Done)
                    },
                    None => Err(VmError::UndefinedVariable(name)),
                }
            },
            OpCode::LITERAL => {
                match self.read_f64() {
                    Ok(v) => Ok(Effect::Literal(v)),
                    Err(e) => Err(e),
                }
            },
            OpCode::ADD => {
                let b = match self.stack_pop() {
                    Ok(v) => v,
                    Err(e) => {
                        assert(self.stack@ =~= Seq::<V>::empty());
                        return Err(e);
                    },
                };
                let a = match self.stack_pop() {
                    Ok(v) => v,
                    Err(e) => {
                        assert(self.stack@ =~= Seq::<V>::empty());
                        return Err(e);
                    },
                };
                assert(old(self).stack@.subrange(0, old(self).stack@.len() - 2) =~= self.stack@);
                Ok(Effect::Add(a, b))
            },
            OpCode::PROPAGATE => {
                let time_step: u64 = match self.read_f64() {
                    Ok(v) => v,
                    Err(e) => return Err(e),
                };
                match self.stack_pop() {
                    Ok(v) => if is_non_negative(time_step) {
                        Ok(Effect::Propagate(v, time_step))
                    } else {
                        Err(VmError::NegativeTimeStep)
                    },
                    Err(e) => Err(e),
                }
            },
            OpCode::COLLAPSE => {
                match self.stack_pop() {
                    Ok(v) => Ok(Effect::Collapse(v)),
                    Err(e) => Err(e),
                }
            },
            OpCode::CHAOTIC => {
                let mean: u64 = match self.read_f64() {
                    Ok(v) => v,
                    Err(e) => return Err(e),
                };
                let variance: u64 = match self.read_f64() {
                    Ok(v) => v,
                    Err(e) => return Err(e),
                };
                if is_non_negative(variance) {
                    Ok(Effect::Chaotic(mean, variance))
                } else {
                    Err(VmError::NegativeVariance)
                }
            },
            OpCode::LET => {
                let name = match self.read_string() {
                    Ok(s) => s,
                    Err(e) => return Err(e),
                };
                match self.stack_pop() {
                    Ok(v) => {
                        self.state.add_var(name, v);
                        Ok(Effect::Done)
                    },
                    Err(e) => Err(e),
                }
            },
            OpCode::POP => {
                match self.stack_pop() {
                    Ok(_) => Ok(Effect::Done),
                    Err(e) => Err(e),
                }
            },
        }
    }
}

} // verus!
