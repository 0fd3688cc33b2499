//! Properties that relate the compiler, the machine and the system state.

use vstd::prelude::*;
use vstd::utf8::{decode_utf8, encode_utf8, valid_utf8};
use crate::ast::Expr;
use crate::compiler::{
    OpCode, be_u16, be_u64, block_code, compile_spec, name_code, op1, opcode_byte, opcode_of, pops_after,
};
use crate::state::{SystemState, symmetric};
use crate::vm::{Effect, Fault, Op, VmError, decode_at, decode_name, decode_number, stepped, u16_of, u64_of};

verus! {

/// The bytes of one instruction.
pub open spec fn op_code(op: Op) -> Seq<u8> {
    match op {
        Op::LoadVar(n) => op1(OpCode::LOAD_VAR) + name_code(n),
        Op::Literal(v) => op1(OpCode::LITERAL) + be_u64(v),
        Op::Add => op1(OpCode::ADD),
        Op::Propagate(t) => op1(OpCode::PROPAGATE) + be_u64(t),
        Op::Collapse => op1(OpCode::COLLAPSE),
        Op::Chaotic(m, v) => op1(OpCode::CHAOTIC) + be_u64(m) + be_u64(v),
        Op::Let(n) => op1(OpCode::LET) + name_code(n),
        Op::Pop => op1(OpCode::POP),
    }
}

/// The bytes of a sequence of instructions.
pub open spec fn ops_code(ops: Seq<Op>) -> Seq<u8>
    decreases ops.len(),
{
    if ops.len() == 0 {
        seq![]
    } else {
        ops_code(ops.drop_last()) + op_code(ops.last())
    }
}

/// The instructions an expression compiles to, in order.
pub open spec fn expr_ops(e: Expr) -> Seq<Op>
    decreases e, 0int,
{
    match e {
        Expr::Var(n) => seq![Op::LoadVar(n@)],
        Expr::Literal(v) => seq![Op::Literal(v)],
        Expr::Add(l, r) => expr_ops(*l) + expr_ops(*r) + seq![Op::Add],
        Expr::Propagate(i, t) => expr_ops(*i) + seq![Op::Propagate(t)],
        Expr::Collapse(i) => expr_ops(*i) + seq![Op::Collapse],
        Expr::ChaoticConstructor(m, v) => seq![Op::Chaotic(m, v)],
        Expr::Let(n, x) => expr_ops(*x) + seq![Op::Let(n@)],
        Expr::Block(es) => block_ops(es@, es@.len() as int),
    }
}

/// The instructions of the first `n` statements of a block.
pub open spec fn block_ops(es: Seq<Expr>, n: int) -> Seq<Op>
    decreases es, n,
{
    if n <= 0 || n > es.len() {
        seq![]
    } else {
        block_ops(es, n - 1) + expr_ops(es[n - 1]) + (if pops_after(es[n - 1], n - 1, es.len() as int) {
            seq![Op::Pop]
        } else {
            seq![]
        })
    }
}

/// A name operand fits its 16-bit length prefix.
pub open spec fn op_fits(op: Op) -> bool {
    match op {
        Op::LoadVar(n) => encode_utf8(n).len() < 65536,
        Op::Let(n) => encode_utf8(n).len() < 65536,
        _ => true,
    }
}

/// Every name in the expression fits the 16-bit length prefix.
pub open spec fn names_fit(e: Expr) -> bool {
    forall|k: int| 0 <= k < expr_ops(e).len() ==> op_fits(#[trigger] expr_ops(e)[k])
}

/// Where instruction `k` of `ops` starts in their bytes.
pub open spec fn op_offset(ops: Seq<Op>, k: int) -> int {
    ops_code(ops.take(k)).len() as int
}

proof fn lemma_ops_code_add(a: Seq<Op>, b: Seq<Op>)
    ensures
        ops_code(a + b) == ops_code(a) + ops_code(b),
    decreases b.len(),
{
    if b.len() == 0 {
        assert(a + b =~= a);
        assert(ops_code(a) + ops_code(b) =~= ops_code(a));
    } else {
        lemma_ops_code_add(a, b.drop_last());
        assert((a + b).drop_last() =~= a + b.drop_last());
        assert((a + b).last() == b.last());
        assert(ops_code(a + b) =~= ops_code(a) + ops_code(b));
    }
}

proof fn lemma_ops_code_one(op: Op)
    ensures
        ops_code(seq![op]) == op_code(op),
{
    let s1 = seq![op];
    assert(s1.drop_last() =~= Seq::<Op>::empty());
    assert(s1.last() == op);
    assert(ops_code(Seq::<Op>::empty()) == Seq::<u8>::empty());
    assert(ops_code(s1) == ops_code(s1.drop_last()) + op_code(s1.last()));
    assert(Seq::<u8>::empty() + op_code(op) =~= op_code(op));
}

/// Compiling an expression gives the bytes of its instructions.
proof fn lemma_compile_ops(e: Expr)
    ensures
        compile_spec(e) == ops_code(expr_ops(e)),
    decreases e, 0int,
{
    match e {
        Expr::Var(n) => {
            lemma_ops_code_one(Op::LoadVar(n@));
        },
        Expr::Literal(v) => {
            lemma_ops_code_one(Op::Literal(v));
        },
        Expr::Add(l, r) => {
            lemma_compile_ops(*l);
            lemma_compile_ops(*r);
            lemma_ops_code_add(expr_ops(*l) + expr_ops(*r), seq![Op::Add]);
            lemma_ops_code_add(expr_ops(*l), expr_ops(*r));
            lemma_ops_code_one(Op::Add);
        },
        Expr::Propagate(i, t) => {
            lemma_compile_ops(*i);
            lemma_ops_code_add(expr_ops(*i), seq![Op::Propagate(t)]);
            lemma_ops_code_one(Op::Propagate(t));
            assert(compile_spec(e) =~= ops_code(expr_ops(e)));
        },
        Expr::Collapse(i) => {
            lemma_compile_ops(*i);
            lemma_ops_code_add(expr_ops(*i), seq![Op::Collapse]);
            lemma_ops_code_one(Op::Collapse);
        },
        Expr::ChaoticConstructor(m, v) => {
            lemma_ops_code_one(Op::Chaotic(m, v));
        },
        Expr::Let(n, x) => {
            lemma_compile_ops(*x);
            lemma_ops_code_add(expr_ops(*x), seq![Op::Let(n@)]);
            lemma_ops_code_one(Op::Let(n@));
            assert(compile_spec(e) =~= ops_code(expr_ops(e)));
        },
        Expr::Block(es) => {
            assert(decreases_to!(e => e->Block_0));
            lemma_block_ops(es@, es@.len() as int);
        },
    }
}

proof fn lemma_block_ops(es: Seq<Expr>, n: int)
    ensures
        block_code(es, n) == ops_code(block_ops(es, n)),
    decreases es, n,
{
    if n <= 0 || n > es.len() {
    } else {
        let s = es[n - 1];
        lemma_block_ops(es, n - 1);
        lemma_compile_ops(s);
        let tail: Seq<Op> = if pops_after(s, n - 1, es.len() as int) { seq![Op::Pop] } else { seq![] };
        lemma_ops_code_add(block_ops(es, n - 1) + expr_ops(s), tail);
        lemma_ops_code_add(block_ops(es, n - 1), expr_ops(s));
        if pops_after(s, n - 1, es.len() as int) {
            lemma_ops_code_one(Op::Pop);
        } else {
            assert(ops_code(tail) =~= Seq::<u8>::empty());
        }
        assert(block_code(es, n) =~= ops_code(block_ops(es, n)));
    }
}

proof fn lemma_be_u16(n: u16)
    ensures
        u16_of(be_u16(n)[0], be_u16(n)[1]) == n,
{
    let hi: u8 = (n >> 8u16) as u8;
    let lo: u8 = n as u8;
    assert(((hi as u16) << 8u16) | (lo as u16) == n) by (bit_vector)
        requires
            hi == (n >> 8u16) as u8,
            lo == n as u8,
    ;
}

proof fn lemma_be_u64(x: u64)
    ensures
        u64_of(be_u64(x)) == x,
{
    let b = be_u64(x);
    let b0: u8 = (x >> 56u64) as u8;
    let b1: u8 = (x >> 48u64) as u8;
    let b2: u8 = (x >> 40u64) as u8;
    let b3: u8 = (x >> 32u64) as u8;
    let b4: u8 = (x >> 24u64) as u8;
    let b5: u8 = (x >> 16u64) as u8;
    let b6: u8 = (x >> 8u64) as u8;
    let b7: u8 = x as u8;
    assert(((b0 as u64) << 56u64) | ((b1 as u64) << 48u64) | ((b2 as u64) << 40u64) | ((b3 as u64) << 32u64)
        | ((b4 as u64) << 24u64) | ((b5 as u64) << 16u64) | ((b6 as u64) << 8u64) | (b7 as u64) == x)
        by (bit_vector)
        requires
            b0 == (x >> 56u64) as u8,
            b1 == (x >> 48u64) as u8,
            b2 == (x >> 40u64) as u8,
            b3 == (x >> 32u64) as u8,
            b4 == (x >> 24u64) as u8,
            b5 == (x >> 16u64) as u8,
            b6 == (x >> 8u64) as u8,
            b7 == x as u8,
    ;
}

/// A number operand written at `p` is read back.
proof fn lemma_decode_number(code: Seq<u8>, p: int, x: u64)
    requires
        0 <= p,
        p + 8 <= code.len(),
        code.subrange(p, p + 8) == be_u64(x),
    ensures
        decode_number(code, p) == Ok::<(u64, int), Fault>((x, p + 8)),
{
    lemma_be_u64(x);
}

/// A name operand written at `p` is read back.
proof fn lemma_decode_name(code: Seq<u8>, p: int, n: Seq<char>)
    requires
        0 <= p,
        encode_utf8(n).len() < 65536,
        p + name_code(n).len() <= code.len(),
        code.subrange(p, p + name_code(n).len()) == name_code(n),
    ensures
        decode_name(code, p) == Ok::<(Seq<char>, int), Fault>((n, p + name_code(n).len())),
{
    let b = encode_utf8(n);
    let len: u16 = (b.len() % 65536) as u16;
    lemma_be_u16(len);
    assert(code[p] == name_code(n)[0]);
    assert(code[p + 1] == name_code(n)[1]);
    assert(len as int == b.len());
    assert(code.subrange(p + 2, p + 2 + b.len()) =~= b) by {
        assert forall|i: int| 0 <= i < b.len() implies code.subrange(p + 2, p + 2 + b.len())[i] == b[i] by {
            assert(code.subrange(p, p + name_code(n).len())[i + 2] == name_code(n)[i + 2]);
        }
    }
    vstd::utf8::encode_utf8_valid_utf8(n);
    vstd::utf8::encode_utf8_decode_utf8(n);
}

/// An instruction written at `p` is decoded back, with the position after it.
proof fn lemma_decode_op(code: Seq<u8>, p: int, op: Op)
    requires
        0 <= p,
        op_fits(op),
        p + op_code(op).len() <= code.len(),
        code.subrange(p, p + op_code(op).len()) == op_code(op),
    ensures
        decode_at(code, p) == Ok::<(Op, int), Fault>((op, p + op_code(op).len())),
{
    let c = op_code(op);
    assert(code[p] == c[0]);
    match op {
        Op::LoadVar(n) => {
            assert(code.subrange(p + 1, p + 1 + name_code(n).len()) =~= name_code(n)) by {
                assert forall|i: int| 0 <= i < name_code(n).len() implies
                    code.subrange(p + 1, p + 1 + name_code(n).len())[i] == name_code(n)[i] by {
                    assert(code.subrange(p, p + c.len())[i + 1] == c[i + 1]);
                }
            }
            lemma_decode_name(code, p + 1, n);
        },
        Op::Let(n) => {
            assert(code.subrange(p + 1, p + 1 + name_code(n).len()) =~= name_code(n)) by {
                assert forall|i: int| 0 <= i < name_code(n).len() implies
                    code.subrange(p + 1, p + 1 + name_code(n).len())[i] == name_code(n)[i] by {
                    assert(code.subrange(p, p + c.len())[i + 1] == c[i + 1]);
                }
            }
            lemma_decode_name(code, p + 1, n);
        },
        Op::Literal(v) => {
            assert(code.subrange(p + 1, p + 9) =~= be_u64(v)) by {
                assert forall|i: int| 0 <= i < 8 implies code.subrange(p + 1, p + 9)[i] == be_u64(v)[i] by {
                    assert(code.subrange(p, p + c.len())[i + 1] == c[i + 1]);
                }
            }
            lemma_decode_number(code, p + 1, v);
        },
        Op::Propagate(v) => {
            assert(code.subrange(p + 1, p + 9) =~= be_u64(v)) by {
                assert forall|i: int| 0 <= i < 8 implies code.subrange(p + 1, p + 9)[i] == be_u64(v)[i] by {
                    assert(code.subrange(p, p + c.len())[i + 1] == c[i + 1]);
                }
            }
            lemma_decode_number(code, p + 1, v);
        },
        Op::Chaotic(m, v) => {
            assert(code.subrange(p + 1, p + 9) =~= be_u64(m)) by {
                assert forall|i: int| 0 <= i < 8 implies code.subrange(p + 1, p + 9)[i] == be_u64(m)[i] by {
                    assert(code.subrange(p, p + c.len())[i + 1] == c[i + 1]);
                }
            }
            assert(code.subrange(p + 9, p + 17) =~= be_u64(v)) by {
                assert forall|i: int| 0 <= i < 8 implies code.subrange(p + 9, p + 17)[i] == be_u64(v)[i] by {
                    assert(code.subrange(p, p + c.len())[i + 9] == c[i + 9]);
                }
            }
            lemma_decode_number(code, p + 1, m);
            lemma_decode_number(code, p + 9, v);
        },
        _ => {},
    }
}

/// A block compiles statement by statement.
///
/// Law: the code of a block is, for each statement in order, the code of
/// the statement followed by a `POP` (0x08) exactly when the statement is
/// not the last and not a `let`; so the code of the first `n` statements is
/// a prefix of the block's code, and an empty block compiles to nothing.
pub proof fn law_block_code(v: Vec<Expr>, n: int)
    requires
        0 <= n < v@.len(),
    ensures
        compile_spec(Expr::Block(v)) == block_code(v@, v@.len() as int),
        block_code(v@, n + 1) == block_code(v@, n) + compile_spec(v@[n]) + (if !(v@[n] is Let) && n + 1 < v@.len() {
            seq![0x08u8]
        } else {
            Seq::<u8>::empty()
        }),
        compile_spec(Expr::Block(v)).take(block_code(v@, n).len() as int) == block_code(v@, n),
        v@.len() == 0 ==> compile_spec(Expr::Block(v)) == Seq::<u8>::empty(),
{
    lemma_block_prefix(v@, n, v@.len() as int);
}

proof fn lemma_block_prefix(es: Seq<Expr>, n: int, m: int)
    requires
        0 <= n <= m <= es.len(),
    ensures
        block_code(es, n).len() <= block_code(es, m).len(),
        block_code(es, m).take(block_code(es, n).len() as int) == block_code(es, n),
    decreases m - n,
{
    if n < m {
        lemma_block_prefix(es, n, m - 1);
        let a = block_code(es, m - 1);
        assert(block_code(es, m) == a + compile_spec(es[m - 1]) + (if pops_after(es[m - 1], m - 1, es.len() as int) {
            op1(OpCode::POP)
        } else {
            seq![]
        }));
        assert(block_code(es, m).take(a.len() as int) =~= a);
        assert(block_code(es, m).take(block_code(es, n).len() as int) =~= a.take(block_code(es, n).len() as int));
    } else {
        assert(block_code(es, m).take(block_code(es, n).len() as int) =~= block_code(es, n));
    }
}

/// The opcode byte of every opcode is read back as that opcode.
///
/// Law: `OpCode::from_byte` undoes `OpCode::to_byte`, and the bytes that
/// encode an opcode are exactly 0x01 to 0x08.
pub proof fn law_opcode_roundtrip(op: OpCode, b: u8)
    ensures
        opcode_of(opcode_byte(op)) == Some(op),
        opcode_of(b) is Some <==> 0x01 <= b <= 0x08,
        opcode_of(b) matches Some(o) ==> opcode_byte(o) == b,
{
}

/// The machine reads back what the compiler writes.
///
/// Law: when every variable name of `e` is shorter than 65536 bytes of
/// UTF-8, decoding the compiled bytecode of `e` at the start of its `k`-th
/// instruction gives that instruction and the start of the next one; past
/// the last instruction the bytecode ends.  So the machine runs, in order,
/// exactly the instructions of a post-order walk of `e`.
pub proof fn law_decode_compiled(e: Expr, k: int)
    requires
        names_fit(e),
        0 <= k < expr_ops(e).len(),
    ensures
        compile_spec(e) == ops_code(expr_ops(e)),
        op_offset(expr_ops(e), expr_ops(e).len() as int) == compile_spec(e).len(),
        decode_at(compile_spec(e), op_offset(expr_ops(e), k)) == Ok::<(Op, int), Fault>(
            (expr_ops(e)[k], op_offset(expr_ops(e), k + 1)),
        ),
{
    let ops = expr_ops(e);
    let code = compile_spec(e);
    lemma_compile_ops(e);
    assert(ops.take(ops.len() as int) =~= ops);
    let pre = ops.take(k);
    let op = ops[k];
    let post = ops.skip(k + 1);
    assert(ops =~= pre + seq![op] + post);
    lemma_ops_code_add(pre + seq![op], post);
    lemma_ops_code_add(pre, seq![op]);
    lemma_ops_code_one(op);
    assert(ops.take(k + 1) =~= pre + seq![op]);
    let p: int = op_offset(ops, k);
    assert(code == ops_code(pre) + op_code(op) + ops_code(post));
    assert(code.subrange(p, p + op_code(op).len()) =~= op_code(op));
    assert(op_fits(ops[k]));
    lemma_decode_op(code, p, op);
}

/// Past the last instruction of a compiled expression the bytecode ends,
/// which the machine reports as a run without `COLLAPSE`.
pub proof fn law_compiled_end(e: Expr)
    ensures
        decode_at(compile_spec(e), compile_spec(e).len() as int) == Err::<(Op, int), Fault>(Fault::NoCollapse),
{
}

/// Covariance is symmetric in every well-formed state.
///
/// Law: `covariance(a, b) == covariance(b, a)` for all names, whether or not
/// a covariance was set for them (unset reads as zero both ways).
pub proof fn law_covariance_symmetric<V>(s: SystemState<V>, a: Seq<char>, b: Seq<char>)
    requires
        s.wf(),
    ensures
        s.covariance_of(a, b) == s.covariance_of(b, a),
{
    assert(symmetric(s.covs()));
    if s.covs().dom().contains((a, b)) {
        assert(s.covs().dom().contains((b, a)));
    }
    if s.covs().dom().contains((b, a)) {
        assert(s.covs().dom().contains((a, b)));
    }
}

/// A covariance reads back as it was set, in both orders, and no other pair
/// changes.
///
/// Law: after `set_covariance(a, b, v)` on state `s`, giving `t`,
/// `covariance(a, b) == covariance(b, a) == v`, and every other pair reads as
/// it did in `s`.
pub proof fn law_covariance_read_after_set<V>(
    s: SystemState<V>,
    t: SystemState<V>,
    a: Seq<char>,
    b: Seq<char>,
    v: u64,
    x: Seq<char>,
    y: Seq<char>,
)
    requires
        t.covs() == s.covs().insert((a, b), v).insert((b, a), v),
    ensures
        t.covariance_of(a, b) == v,
        t.covariance_of(b, a) == v,
        (x, y) != (a, b) && (x, y) != (b, a) ==> t.covariance_of(x, y) == s.covariance_of(x, y),
{
}

/// The covariances after successive `set_covariance(a, b, v)` calls, one for
/// each `(a, b, v)` of `sets` in order, starting from `m`.
pub open spec fn after_sets(
    m: Map<(Seq<char>, Seq<char>), u64>,
    sets: Seq<(Seq<char>, Seq<char>, u64)>,
) -> Map<(Seq<char>, Seq<char>), u64>
    decreases sets.len(),
{
    if sets.len() == 0 {
        m
    } else {
        let (a, b, v) = sets.last();
        after_sets(m, sets.drop_last()).insert((a, b), v).insert((b, a), v)
    }
}

/// The value of the last of `sets` given for the pair `a`, `b` in either
/// order, if any.
pub open spec fn last_set(sets: Seq<(Seq<char>, Seq<char>, u64)>, a: Seq<char>, b: Seq<char>) -> Option<u64>
    decreases sets.len(),
{
    if sets.len() == 0 {
        None
    } else {
        let (x, y, v) = sets.last();
        if (x == a && y == b) || (x == b && y == a) {
            Some(v)
        } else {
            last_set(sets.drop_last(), a, b)
        }
    }
}

/// Over any series of `set_covariance` calls, a pair reads the value of the
/// last call on it, in either order, or what it read before the series.
///
/// Law: if `t` is `s` after `set_covariance(a_k, b_k, v_k)` for each entry of
/// `sets` in order, then `covariance(a, b)` and `covariance(b, a)` in `t`
/// are the `v` of the last entry on `{a, b}`; when there is none, they are
/// as in `s` (zero for a new state).
pub proof fn law_covariance_last_set<V>(
    s: SystemState<V>,
    t: SystemState<V>,
    sets: Seq<(Seq<char>, Seq<char>, u64)>,
    a: Seq<char>,
    b: Seq<char>,
)
    requires
        t.covs() == after_sets(s.covs(), sets),
    ensures
        t.covariance_of(a, b) == (match last_set(sets, a, b) {
            Some(v) => v,
            None => s.covariance_of(a, b),
        }),
        t.covariance_of(b, a) == (match last_set(sets, a, b) {
            Some(v) => v,
            None => s.covariance_of(b, a),
        }),
{
    lemma_after_sets(s.covs(), sets, a, b);
}

proof fn lemma_after_sets(
    m: Map<(Seq<char>, Seq<char>), u64>,
    sets: Seq<(Seq<char>, Seq<char>, u64)>,
    a: Seq<char>,
    b: Seq<char>,
)
    ensures
        match last_set(sets, a, b) {
            Some(v) => after_sets(m, sets).dom().contains((a, b)) && after_sets(m, sets)[(a, b)] == v
                && after_sets(m, sets).dom().contains((b, a)) && after_sets(m, sets)[(b, a)] == v,
            None => after_sets(m, sets).dom().contains((a, b)) == m.dom().contains((a, b))
                && after_sets(m, sets)[(a, b)] == m[(a, b)]
                && after_sets(m, sets).dom().contains((b, a)) == m.dom().contains((b, a))
                && after_sets(m, sets)[(b, a)] == m[(b, a)],
        },
    decreases sets.len(),
{
    if sets.len() > 0 {
        lemma_after_sets(m, sets.drop_last(), a, b);
    }
}

/// A variable reads back as it was added, and no other variable changes.
///
/// Law: after `add_var(name, v)` on state `s`, giving `t`,
/// `get_var(name)` is `v`, and every other name reads as it did in `s`.
pub proof fn law_var_read_after_add<V>(s: SystemState<V>, t: SystemState<V>, name: Seq<char>, v: V, other: Seq<char>)
    requires
        t.vars() == s.vars().insert(name, v),
    ensures
        t.vars().dom().contains(name),
        t.vars()[name] == v,
        other != name ==> (t.vars().dom().contains(other) == s.vars().dom().contains(other)),
        other != name && s.vars().dom().contains(other) ==> t.vars()[other] == s.vars()[other],
{
}

/// What `LET name` stores, a following `LOAD_VAR name` pushes back.
///
/// Law: from a stack `s0` with at least one value, a `LET` of `name` and
/// then a `LOAD_VAR` of `name` both succeed and leave a stack of the same
/// height whose top is a clone of the value that was on top, and whose other
/// values are unchanged.
pub proof fn law_load_after_let<V: Clone>(
    name: Seq<char>,
    s0: Seq<V>,
    vars0: Map<Seq<char>, V>,
    r1: Result<Effect<V>, VmError>,
    s1: Seq<V>,
    vars1: Map<Seq<char>, V>,
    r2: Result<Effect<V>, VmError>,
    s2: Seq<V>,
    vars2: Map<Seq<char>, V>,
)
    requires
        s0.len() >= 1,
        stepped(Op::Let(name), s0, vars0, r1, s1, vars1),
        stepped(Op::LoadVar(name), s1, vars1, r2, s2, vars2),
    ensures
        r1 == Ok::<Effect<V>, VmError>(Effect::Done),
        r2 == Ok::<Effect<V>, VmError>(Effect::Done),
        s2.len() == s0.len(),
        s2.subrange(0, s0.len() - 1) == s0.subrange(0, s0.len() - 1),
        vstd::pervasive::cloned(s0.last(), s2.last()),
        vars2 == vars0.insert(name, s0.last()),
{
    assert(vars1.dom().contains(name));
    assert(s1 =~= s0.subrange(0, s0.len() - 1));
}

/// A `CHAOTIC` instruction is refused for its variance alone.
///
/// Law: the bytes `0x06`, a mean `m` and a variance `v` (each eight
/// big-endian bytes) decode as one `CHAOTIC` instruction; a step of it, on
/// any stack and whatever the mean, asks for a new cloud with exactly these
/// two operands when `v` is the bit pattern of a number at least zero
/// (`+0.0` to `+inf`, or `-0.0`), and otherwise reports a negative variance;
/// it leaves the stack and the variables as they were.
pub proof fn law_chaotic_decided_by_variance<V: Clone>(
    code: Seq<u8>,
    p: int,
    m: u64,
    v: u64,
    s: Seq<V>,
    vars: Map<Seq<char>, V>,
    r: Result<Effect<V>, VmError>,
    s2: Seq<V>,
    vars2: Map<Seq<char>, V>,
)
    requires
        0 <= p,
        p + 17 <= code.len(),
        code.subrange(p, p + 17) == seq![0x06u8] + be_u64(m) + be_u64(v),
        stepped(Op::Chaotic(m, v), s, vars, r, s2, vars2),
    ensures
        decode_at(code, p) == Ok::<(Op, int), Fault>((Op::Chaotic(m, v), p + 17)),
        (v <= 0x7ff0_0000_0000_0000 || v == 0x8000_0000_0000_0000) ==> r == Ok::<Effect<V>, VmError>(
            Effect::Chaotic(m, v),
        ),
        !(v <= 0x7ff0_0000_0000_0000 || v == 0x8000_0000_0000_0000) ==> r == Err::<Effect<V>, VmError>(
            VmError::NegativeVariance,
        ),
        s2 == s,
        vars2 == vars,
{
    assert(op_code(Op::Chaotic(m, v)) =~= seq![0x06u8] + be_u64(m) + be_u64(v));
    lemma_decode_op(code, p, Op::Chaotic(m, v));
}

/// A `LITERAL` instruction accepts every number.
///
/// Law: the bytes `0x02` and eight big-endian bytes of `v` decode as one
/// `LITERAL` of `v`, and a step of it asks for a deterministic value with
/// exactly the bits `v`, whatever they are (negative, zero or not a
/// number), leaving stack and variables as they were.
pub proof fn law_literal_any_number<V: Clone>(
    code: Seq<u8>,
    p: int,
    v: u64,
    s: Seq<V>,
    vars: Map<Seq<char>, V>,
    r: Result<Effect<V>, VmError>,
    s2: Seq<V>,
    vars2: Map<Seq<char>, V>,
)
    requires
        0 <= p,
        p + 9 <= code.len(),
        code.subrange(p, p + 9) == seq![0x02u8] + be_u64(v),
        stepped(Op::Literal(v), s, vars, r, s2, vars2),
    ensures
        decode_at(code, p) == Ok::<(Op, int), Fault>((Op::Literal(v), p + 9)),
        r == Ok::<Effect<V>, VmError>(Effect::Literal(v)),
        s2 == s,
        vars2 == vars,
{
    assert(op_code(Op::Literal(v)) =~= seq![0x02u8] + be_u64(v));
    lemma_decode_op(code, p, Op::Literal(v));
}

/// A `PROPAGATE` instruction takes the top value and is refused for its
/// time step alone.
///
/// Law: the bytes `0x04` and eight big-endian bytes of `dt` decode as one
/// `PROPAGATE` of `dt`.  On an empty stack its step reports a stack
/// underflow.  Otherwise it takes the top value off the stack and asks for
/// it to be propagated by exactly `dt` when `dt` is the bit pattern of a
/// number at least zero (`+0.0` to `+inf`, or `-0.0`), and reports a
/// negative time step otherwise, whatever the value is.
pub proof fn law_propagate_decided_by_time_step<V: Clone>(
    code: Seq<u8>,
    p: int,
    dt: u64,
    s: Seq<V>,
    vars: Map<Seq<char>, V>,
    r: Result<Effect<V>, VmError>,
    s2: Seq<V>,
    vars2: Map<Seq<char>, V>,
)
    requires
        0 <= p,
        p + 9 <= code.len(),
        code.subrange(p, p + 9) == seq![0x04u8] + be_u64(dt),
        stepped(Op::Propagate(dt), s, vars, r, s2, vars2),
    ensures
        decode_at(code, p) == Ok::<(Op, int), Fault>((Op::Propagate(dt), p + 9)),
        s.len() == 0 ==> r == Err::<Effect<V>, VmError>(VmError::StackUnderflow) && s2 == s,
        s.len() > 0 ==> s2 == s.subrange(0, s.len() - 1),
        s.len() > 0 && (dt <= 0x7ff0_0000_0000_0000 || dt == 0x8000_0000_0000_0000) ==> r == Ok::<
            Effect<V>,
            VmError,
        >(Effect::Propagate(s[s.len() - 1], dt)),
        s.len() > 0 && !(dt <= 0x7ff0_0000_0000_0000 || dt == 0x8000_0000_0000_0000) ==> r == Err::<
            Effect<V>,
            VmError,
        >(VmError::NegativeTimeStep),
        vars2 == vars,
{
    assert(op_code(Op::Propagate(dt)) =~= seq![0x04u8] + be_u64(dt));
    lemma_decode_op(code, p, Op::Propagate(dt));
}

/// `ADD`, `COLLAPSE` and `POP` take their values from the top of the stack.
///
/// Law: with two values or more, `ADD` takes the top two and asks for their
/// sum with the lower one as the left operand; with one or more, `COLLAPSE`
/// takes the top value and asks for it to be collapsed, and `POP` drops it;
/// with fewer each reports a stack underflow.  None changes the variables.
pub proof fn law_stack_operations<V: Clone>(
    op: Op,
    s: Seq<V>,
    vars: Map<Seq<char>, V>,
    r: Result<Effect<V>, VmError>,
    s2: Seq<V>,
    vars2: Map<Seq<char>, V>,
)
    requires
        op is Add || op is Collapse || op is Pop,
        stepped(op, s, vars, r, s2, vars2),
    ensures
        vars2 == vars,
        op is Add && s.len() >= 2 ==> r == Ok::<Effect<V>, VmError>(Effect::Add(s[s.len() - 2], s[s.len() - 1]))
            && s2 == s.subrange(0, s.len() - 2),
        op is Collapse && s.len() >= 1 ==> r == Ok::<Effect<V>, VmError>(Effect::Collapse(s[s.len() - 1]))
            && s2 == s.subrange(0, s.len() - 1),
        op is Pop && s.len() >= 1 ==> r == Ok::<Effect<V>, VmError>(Effect::Done) && s2 == s.subrange(
            0,
            s.len() - 1,
        ),
        s.len() < (if op is Add { 2int } else { 1 }) ==> r == Err::<Effect<V>, VmError>(VmError::StackUnderflow),
{
}

/// The kind of an instruction: 0 `LOAD_VAR`, 1 `LITERAL`, 2 `ADD`,
/// 3 `PROPAGATE`, 4 `COLLAPSE`, 5 `CHAOTIC`, 6 `LET`, 7 `POP`.
pub open spec fn op_kind(op: Op) -> int {
    match op {
        Op::LoadVar(_) => 0,
        Op::Literal(_) => 1,
        Op::Add => 2,
        Op::Propagate(_) => 3,
        Op::Collapse => 4,
        Op::Chaotic(_, _) => 5,
        Op::Let(_) => 6,
        Op::Pop => 7,
    }
}

/// How many instructions of kind `k` a sequence holds.
pub open spec fn count_kind(ops: Seq<Op>, k: int) -> nat
    decreases ops.len(),
{
    if ops.len() == 0 {
        0
    } else {
        count_kind(ops.drop_last(), k) + if op_kind(ops.last()) == k { 1nat } else { 0nat }
    }
}

/// How many nodes of an expression call for an instruction of kind `k`:
/// for kinds 0 to 6 the variable references, literals, additions,
/// propagations, collapses, chaotic constructors and `let`s; for kind 7 the
/// statements of blocks that leave a value which the next statement does
/// not use (every statement but the last that is not a `let`).
pub open spec fn count_nodes(e: Expr, k: int) -> nat
    decreases e, 0int,
{
    match e {
        Expr::Var(_) => if k == 0 { 1 } else { 0 },
        Expr::Literal(_) => if k == 1 { 1 } else { 0 },
        Expr::Add(l, r) => count_nodes(*l, k) + count_nodes(*r, k) + if k == 2 { 1nat } else { 0nat },
        Expr::Propagate(i, _) => count_nodes(*i, k) + if k == 3 { 1nat } else { 0nat },
        Expr::Collapse(i) => count_nodes(*i, k) + if k == 4 { 1nat } else { 0nat },
        Expr::ChaoticConstructor(_, _) => if k == 5 { 1 } else { 0 },
        Expr::Let(_, x) => count_nodes(*x, k) + if k == 6 { 1nat } else { 0nat },
        Expr::Block(es) => count_block(es@, es@.len() as int, k),
    }
}

/// `count_nodes` over the first `n` statements of a block.
pub open spec fn count_block(es: Seq<Expr>, n: int, k: int) -> nat
    decreases es, n,
{
    if n <= 0 || n > es.len() {
        0
    } else {
        count_block(es, n - 1, k) + count_nodes(es[n - 1], k) + if k == 7 && n < es.len() && !(es[n
            - 1] is Let) {
            1nat
        } else {
            0nat
        }
    }
}

proof fn lemma_count_add(a: Seq<Op>, b: Seq<Op>, k: int)
    ensures
        count_kind(a + b, k) == count_kind(a, k) + count_kind(b, k),
    decreases b.len(),
{
    if b.len() == 0 {
        assert(a + b =~= a);
    } else {
        lemma_count_add(a, b.drop_last(), k);
        assert((a + b).drop_last() =~= a + b.drop_last());
    }
}

proof fn lemma_count_one(op: Op, k: int)
    ensures
        count_kind(seq![op], k) == if op_kind(op) == k { 1nat } else { 0nat },
{
    let one = seq![op];
    assert(one.drop_last() =~= Seq::<Op>::empty());
    assert(one.last() == op);
    assert(count_kind(Seq::<Op>::empty(), k) == 0);
    assert(count_kind(one, k) == count_kind(one.drop_last(), k) + if op_kind(one.last()) == k { 1nat } else { 0nat });
}

proof fn lemma_count_nodes(e: Expr, k: int)
    ensures
        count_kind(expr_ops(e), k) == count_nodes(e, k),
    decreases e, 0int,
{
    match e {
        Expr::Var(n) => lemma_count_one(Op::LoadVar(n@), k),
        Expr::Literal(v) => lemma_count_one(Op::Literal(v), k),
        Expr::ChaoticConstructor(m, v) => lemma_count_one(Op::Chaotic(m, v), k),
        Expr::Add(l, r) => {
            lemma_count_nodes(*l, k);
            lemma_count_nodes(*r, k);
            lemma_count_add(expr_ops(*l) + expr_ops(*r), seq![Op::Add], k);
            lemma_count_add(expr_ops(*l), expr_ops(*r), k);
            lemma_count_one(Op::Add, k);
        },
        Expr::Propagate(i, t) => {
            lemma_count_nodes(*i, k);
            lemma_count_add(expr_ops(*i), seq![Op::Propagate(t)], k);
            lemma_count_one(Op::Propagate(t), k);
        },
        Expr::Collapse(i) => {
            lemma_count_nodes(*i, k);
            lemma_count_add(expr_ops(*i), seq![Op::Collapse], k);
            lemma_count_one(Op::Collapse, k);
        },
        Expr::Let(n, x) => {
            lemma_count_nodes(*x, k);
            lemma_count_add(expr_ops(*x), seq![Op::Let(n@)], k);
            lemma_count_one(Op::Let(n@), k);
        },
        Expr::Block(es) => lemma_count_block(es@, es@.len() as int, k),
    }
}

proof fn lemma_count_block(es: Seq<Expr>, n: int, k: int)
    requires
        0 <= n <= es.len(),
    ensures
        count_kind(block_ops(es, n), k) == count_block(es, n, k),
    decreases es, n,
{
    if n == 0 {
        assert(block_ops(es, 0) =~= Seq::<Op>::empty());
    } else {
        lemma_count_block(es, n - 1, k);
        lemma_count_nodes(es[n - 1], k);
        let pre = block_ops(es, n - 1);
        let body = expr_ops(es[n - 1]);
        let tail = if pops_after(es[n - 1], n - 1, es.len() as int) { seq![Op::Pop] } else { Seq::<Op>::empty() };
        assert(block_ops(es, n) == pre + body + tail);
        lemma_count_add(pre + body, tail, k);
        lemma_count_add(pre, body, k);
        if pops_after(es[n - 1], n - 1, es.len() as int) {
            lemma_count_one(Op::Pop, k);
        } else {
            assert(count_kind(Seq::<Op>::empty(), k) == 0);
        }
    }
}

/// Each node of an expression gives exactly one instruction.
///
/// Law: the code of `e` is its instructions, and for every kind of
/// instruction there are exactly as many of them as nodes of `e` that call
/// for one: one `LOAD_VAR` per variable reference, one `PROPAGATE` per
/// `propagate`, and so on, and one `POP` per block statement whose value is
/// dropped.  So no nested node is lost or repeated.
pub proof fn law_one_instruction_per_node(e: Expr, k: int)
    ensures
        compile_spec(e) == ops_code(expr_ops(e)),
        count_kind(expr_ops(e), k) == count_nodes(e, k),
{
    lemma_compile_ops(e);
    lemma_count_nodes(e, k);
}

/// An expression without blocks, its names as character sequences.
pub enum Tree {
    Var(Seq<char>),
    Lit(u64),
    Add(Box<Tree>, Box<Tree>),
    Prop(Box<Tree>, u64),
    Coll(Box<Tree>),
    Chaotic(u64, u64),
    Let(Seq<char>, Box<Tree>),
}

/// The expression holds no block.
pub open spec fn block_free(e: Expr) -> bool
    decreases e,
{
    match e {
        Expr::Add(l, r) => block_free(*l) && block_free(*r),
        Expr::Propagate(i, _) => block_free(*i),
        Expr::Collapse(i) => block_free(*i),
        Expr::Let(_, x) => block_free(*x),
        Expr::Block(_) => false,
        _ => true,
    }
}

/// The tree of a block-free expression.
pub open spec fn tree_of(e: Expr) -> Tree
    decreases e,
{
    match e {
        Expr::Var(n) => Tree::Var(n@),
        Expr::Literal(v) => Tree::Lit(v),
        Expr::Add(l, r) => Tree::Add(Box::new(tree_of(*l)), Box::new(tree_of(*r))),
        Expr::Propagate(i, t) => Tree::Prop(Box::new(tree_of(*i)), t),
        Expr::Collapse(i) => Tree::Coll(Box::new(tree_of(*i))),
        Expr::ChaoticConstructor(m, v) => Tree::Chaotic(m, v),
        Expr::Let(n, x) => Tree::Let(n@, Box::new(tree_of(*x))),
        Expr::Block(_) => Tree::Lit(0),
    }
}

/// Reading one instruction back into trees on a stack: a value instruction
/// pushes a leaf, an operation replaces its operands on top by the tree it
/// builds of them, and `POP` drops the top tree.
pub open spec fn rebuild_step(st: Seq<Tree>, op: Op) -> Seq<Tree> {
    let n = st.len();
    match op {
        Op::LoadVar(x) => st.push(Tree::Var(x)),
        Op::Literal(v) => st.push(Tree::Lit(v)),
        Op::Chaotic(m, v) => st.push(Tree::Chaotic(m, v)),
        Op::Add => if n >= 2 {
            st.subrange(0, n - 2).push(Tree::Add(Box::new(st[n - 2]), Box::new(st[n - 1])))
        } else {
            st
        },
        Op::Propagate(t) => if n >= 1 {
            st.drop_last().push(Tree::Prop(Box::new(st[n - 1]), t))
        } else {
            st
        },
        Op::Collapse => if n >= 1 {
            st.drop_last().push(Tree::Coll(Box::new(st[n - 1])))
        } else {
            st
        },
        Op::Let(x) => if n >= 1 {
            st.drop_last().push(Tree::Let(x, Box::new(st[n - 1])))
        } else {
            st
        },
        Op::Pop => if n >= 1 {
            st.drop_last()
        } else {
            st
        },
    }
}

/// Reading instructions back into trees, from the stack `st`.
pub open spec fn rebuild(st: Seq<Tree>, ops: Seq<Op>) -> Seq<Tree>
    decreases ops.len(),
{
    if ops.len() == 0 {
        st
    } else {
        rebuild_step(rebuild(st, ops.drop_last()), ops.last())
    }
}

/// The trees of the statements of a block that its code leaves: those the
/// compiler does not follow by a `POP` (the last, and the `let`s).
pub open spec fn kept_trees(es: Seq<Expr>, n: int) -> Seq<Tree>
    decreases n,
{
    if n <= 0 || n > es.len() {
        seq![]
    } else if pops_after(es[n - 1], n - 1, es.len() as int) {
        kept_trees(es, n - 1)
    } else {
        kept_trees(es, n - 1).push(tree_of(es[n - 1]))
    }
}

proof fn lemma_rebuild_add(st: Seq<Tree>, a: Seq<Op>, b: Seq<Op>)
    ensures
        rebuild(st, a + b) == rebuild(rebuild(st, a), b),
    decreases b.len(),
{
    if b.len() == 0 {
        assert(a + b =~= a);
    } else {
        lemma_rebuild_add(st, a, b.drop_last());
        assert((a + b).drop_last() =~= a + b.drop_last());
    }
}

proof fn lemma_rebuild_one(st: Seq<Tree>, op: Op)
    ensures
        rebuild(st, seq![op]) == rebuild_step(st, op),
{
    let one = seq![op];
    assert(one.drop_last() =~= Seq::<Op>::empty());
    assert(one.last() == op);
    assert(rebuild(st, Seq::<Op>::empty()) == st);
    assert(rebuild(st, one) == rebuild_step(rebuild(st, one.drop_last()), one.last()));
}

proof fn lemma_rebuild_expr(st: Seq<Tree>, e: Expr)
    requires
        block_free(e),
    ensures
        rebuild(st, expr_ops(e)) == st.push(tree_of(e)),
    decreases e,
{
    match e {
        Expr::Var(n) => lemma_rebuild_one(st, Op::LoadVar(n@)),
        Expr::Literal(v) => lemma_rebuild_one(st, Op::Literal(v)),
        Expr::ChaoticConstructor(m, v) => lemma_rebuild_one(st, Op::Chaotic(m, v)),
        Expr::Add(l, r) => {
            lemma_rebuild_expr(st, *l);
            lemma_rebuild_expr(st.push(tree_of(*l)), *r);
            lemma_rebuild_add(st, expr_ops(*l), expr_ops(*r));
            lemma_rebuild_add(st, expr_ops(*l) + expr_ops(*r), seq![Op::Add]);
            let s2 = st.push(tree_of(*l)).push(tree_of(*r));
            lemma_rebuild_one(s2, Op::Add);
            assert(s2.subrange(0, s2.len() - 2) =~= st);
        },
        Expr::Propagate(i, t) => {
            lemma_rebuild_expr(st, *i);
            lemma_rebuild_add(st, expr_ops(*i), seq![Op::Propagate(t)]);
            lemma_rebuild_one(st.push(tree_of(*i)), Op::Propagate(t));
            assert(st.push(tree_of(*i)).drop_last() =~= st);
        },
        Expr::Collapse(i) => {
            lemma_rebuild_expr(st, *i);
            lemma_rebuild_add(st, expr_ops(*i), seq![Op::Collapse]);
            lemma_rebuild_one(st.push(tree_of(*i)), Op::Collapse);
            assert(st.push(tree_of(*i)).drop_last() =~= st);
        },
        Expr::Let(n, x) => {
            lemma_rebuild_expr(st, *x);
            lemma_rebuild_add(st, expr_ops(*x), seq![Op::Let(n@)]);
            lemma_rebuild_one(st.push(tree_of(*x)), Op::Let(n@));
            assert(st.push(tree_of(*x)).drop_last() =~= st);
        },
        Expr::Block(_) => {},
    }
}

proof fn lemma_rebuild_block(es: Seq<Expr>, n: int)
    requires
        0 <= n <= es.len(),
        forall|i: int| 0 <= i < es.len() ==> block_free(#[trigger] es[i]),
    ensures
        rebuild(seq![], block_ops(es, n)) == kept_trees(es, n),
    decreases n,
{
    if n == 0 {
        assert(block_ops(es, 0) =~= Seq::<Op>::empty());
    } else {
        lemma_rebuild_block(es, n - 1);
        let s = es[n - 1];
        assert(block_free(s));
        let pre = block_ops(es, n - 1);
        let body = expr_ops(s);
        let tail = if pops_after(s, n - 1, es.len() as int) { seq![Op::Pop] } else { Seq::<Op>::empty() };
        assert(block_ops(es, n) == pre + body + tail);
        lemma_rebuild_add(seq![], pre + body, tail);
        lemma_rebuild_add(seq![], pre, body);
        lemma_rebuild_expr(kept_trees(es, n - 1), s);
        if pops_after(s, n - 1, es.len() as int) {
            lemma_rebuild_one(kept_trees(es, n - 1).push(tree_of(s)), Op::Pop);
            assert(kept_trees(es, n - 1).push(tree_of(s)).drop_last() =~= kept_trees(es, n - 1));
        } else {
            assert(rebuild(kept_trees(es, n - 1).push(tree_of(s)), tail) == kept_trees(es, n - 1).push(tree_of(s)));
        }
    }
}

/// The code of an expression reads back as the expression.
///
/// Law: reading the instructions of a block-free expression `e` back into
/// trees, each operation taking its operands from the stack, leaves exactly
/// the tree of `e`: every node with its operands (names, numbers, time
/// steps) and its arguments in order.  So the compiler loses, repeats,
/// reorders and alters nothing.
pub proof fn law_code_reads_back(e: Expr)
    requires
        block_free(e),
    ensures
        compile_spec(e) == ops_code(expr_ops(e)),
        rebuild(seq![], expr_ops(e)) == seq![tree_of(e)],
{
    lemma_compile_ops(e);
    lemma_rebuild_expr(seq![], e);
    assert(Seq::<Tree>::empty().push(tree_of(e)) =~= seq![tree_of(e)]);
}

/// The code of a block reads back as the statements it keeps.
///
/// Law: reading the instructions of a block of block-free statements back
/// into trees leaves the trees of the statements whose values the code
/// keeps, in order: the `let`s and the last statement; the value of every
/// other statement is dropped by its `POP`.
pub proof fn law_block_reads_back(v: Vec<Expr>)
    requires
        forall|i: int| 0 <= i < v@.len() ==> block_free(#[trigger] v@[i]),
    ensures
        compile_spec(Expr::Block(v)) == ops_code(expr_ops(Expr::Block(v))),
        rebuild(seq![], expr_ops(Expr::Block(v))) == kept_trees(v@, v@.len() as int),
{
    lemma_compile_ops(Expr::Block(v));
    lemma_rebuild_block(v@, v@.len() as int);
}

} // verus!