//! Stack discipline of compiled code: how many values each instruction
//! takes and leaves, and why the programs the parser accepts never run the
//! machine's stack dry.

use vstd::prelude::*;
use crate::ast::Expr;
use crate::compiler::pops_after;
use crate::laws::{block_ops, expr_ops};
use crate::lexer::Token;
use crate::parser::{
    p_atom, p_chaotic, p_collapse, p_expr, p_expr_rest, p_let, p_propagate, p_statement, p_statements, p_term,
    program_result, rem, skip_semis, tok_at, word_collapse, word_propagate, lemma_consumes,
};
use crate::vm::{Effect, Op, VmError, stepped};

verus! {

/// How many values an instruction takes off the stack.
pub open spec fn needs(op: Op) -> int {
    match op {
        Op::Add => 2,
        Op::Propagate(_) | Op::Collapse | Op::Let(_) | Op::Pop => 1,
        _ => 0,
    }
}

/// By how much an instruction changes the height of the stack, counting
/// `COLLAPSE` as leaving its collapsed result in place.
pub open spec fn effect(op: Op) -> int {
    match op {
        Op::LoadVar(_) | Op::Literal(_) | Op::Chaotic(_, _) => 1,
        Op::Add | Op::Let(_) | Op::Pop => -1,
        Op::Propagate(_) | Op::Collapse => 0,
    }
}

/// The height of the stack after `ops`, relative to before them.
pub open spec fn height(ops: Seq<Op>) -> int
    decreases ops.len(),
{
    if ops.len() == 0 {
        0
    } else {
        height(ops.drop_last()) + effect(ops.last())
    }
}

/// Started on a stack of height `h`, every instruction of `ops` finds the
/// values it takes.
pub open spec fn never_underflows(ops: Seq<Op>, h: int) -> bool {
    forall|k: int| 0 <= k < ops.len() ==> needs(#[trigger] ops[k]) <= h + height(ops.take(k))
}

/// How many values an expression leaves on the stack: none for a `let`, the
/// last statement's for a block (none for an empty one), one otherwise.
pub open spec fn pushes(e: Expr) -> int
    decreases e, 0int,
{
    match e {
        Expr::Let(_, _) => 0,
        Expr::Block(es) => block_pushes(es@),
        _ => 1,
    }
}

/// What the last statement of a block leaves on the stack.
pub open spec fn block_pushes(es: Seq<Expr>) -> int
    decreases es, 1int,
{
    if es.len() == 0 {
        0
    } else {
        pushes(es[es.len() - 1])
    }
}

/// Every operand leaves exactly one value, and every statement of a block
/// that is followed by a `POP` leaves one value for it.
pub open spec fn stacks(e: Expr) -> bool
    decreases e, 0int,
{
    match e {
        Expr::Add(l, r) => stacks(*l) && stacks(*r) && pushes(*l) == 1 && pushes(*r) == 1,
        Expr::Propagate(i, _) => stacks(*i) && pushes(*i) == 1,
        Expr::Collapse(i) => stacks(*i) && pushes(*i) == 1,
        Expr::Let(_, i) => stacks(*i) && pushes(*i) == 1,
        Expr::Block(es) => block_stacks(es@, es@.len() as int),
        _ => true,
    }
}

/// `stacks` for the first `n` statements of a block.
pub open spec fn block_stacks(es: Seq<Expr>, n: int) -> bool
    decreases es, n,
{
    if n <= 0 || n > es.len() {
        true
    } else {
        &&& block_stacks(es, n - 1)
        &&& stacks(es[n - 1])
        &&& pops_after(es[n - 1], n - 1, es.len() as int) ==> pushes(es[n - 1]) == 1
    }
}

/// An expression of the grammar: no `let` and no block inside.
pub open spec fn simple(e: Expr) -> bool
    decreases e,
{
    match e {
        Expr::Add(l, r) => simple(*l) && simple(*r),
        Expr::Propagate(i, _) => simple(*i),
        Expr::Collapse(i) => simple(*i),
        Expr::Let(_, _) => false,
        Expr::Block(_) => false,
        _ => true,
    }
}

/// A statement of the grammar: an expression, or a `let` of one.
pub open spec fn statement(e: Expr) -> bool {
    simple(e) || (e matches Expr::Let(_, i) && simple(*i))
}

proof fn lemma_height_add(a: Seq<Op>, b: Seq<Op>)
    ensures
        height(a + b) == height(a) + height(b),
    decreases b.len(),
{
    if b.len() == 0 {
        assert(a + b =~= a);
    } else {
        lemma_height_add(a, b.drop_last());
        assert((a + b).drop_last() =~= a + b.drop_last());
    }
}

proof fn lemma_underflow_add(a: Seq<Op>, b: Seq<Op>, h: int)
    requires
        never_underflows(a, h),
        never_underflows(b, h + height(a)),
    ensures
        never_underflows(a + b, h),
{
    assert forall|k: int| 0 <= k < (a + b).len() implies needs(#[trigger] (a + b)[k]) <= h + height((a + b).take(k)) by {
        if k < a.len() {
            assert((a + b).take(k) =~= a.take(k));
            assert((a + b)[k] == a[k]);
        } else {
            let j: int = k - a.len();
            assert((a + b).take(k) =~= a + b.take(j));
            lemma_height_add(a, b.take(j));
            assert((a + b)[k] == b[j]);
        }
    }
}

proof fn lemma_one(op: Op, h: int)
    requires
        needs(op) <= h,
    ensures
        never_underflows(seq![op], h),
        height(seq![op]) == effect(op),
{
    assert(seq![op].take(0) =~= Seq::<Op>::empty());
    assert(seq![op].drop_last() =~= Seq::<Op>::empty());
}

proof fn lemma_raise(ops: Seq<Op>, h: int, h2: int)
    requires
        never_underflows(ops, h),
        h <= h2,
    ensures
        never_underflows(ops, h2),
{
}

proof fn lemma_empty(h: int)
    ensures
        never_underflows(Seq::<Op>::empty(), h),
        height(Seq::<Op>::empty()) == 0,
{
}

/// The stack discipline of one expression.
proof fn lemma_stacks(e: Expr)
    requires
        stacks(e),
    ensures
        never_underflows(expr_ops(e), 0),
        height(expr_ops(e)) == pushes(e),
        pushes(e) >= 0,
    decreases e, 0int,
{
    match e {
        Expr::Var(n) => lemma_one(Op::LoadVar(n@), 0),
        Expr::Literal(v) => lemma_one(Op::Literal(v), 0),
        Expr::ChaoticConstructor(m, v) => lemma_one(Op::Chaotic(m, v), 0),
        Expr::Add(l, r) => {
            lemma_stacks(*l);
            lemma_stacks(*r);
            let (ol, or) = (expr_ops(*l), expr_ops(*r));
            lemma_raise(or, 0, 1);
            lemma_underflow_add(ol, or, 0);
            lemma_height_add(ol, or);
            lemma_one(Op::Add, 2);
            lemma_underflow_add(ol + or, seq![Op::Add], 0);
            lemma_height_add(ol + or, seq![Op::Add]);
        },
        Expr::Propagate(i, t) => {
            lemma_stacks(*i);
            lemma_one(Op::Propagate(t), 1);
            lemma_underflow_add(expr_ops(*i), seq![Op::Propagate(t)], 0);
            lemma_height_add(expr_ops(*i), seq![Op::Propagate(t)]);
        },
        Expr::Collapse(i) => {
            lemma_stacks(*i);
            lemma_one(Op::Collapse, 1);
            lemma_underflow_add(expr_ops(*i), seq![Op::Collapse], 0);
            lemma_height_add(expr_ops(*i), seq![Op::Collapse]);
        },
        Expr::Let(n, x) => {
            lemma_stacks(*x);
            lemma_one(Op::Let(n@), 1);
            lemma_underflow_add(expr_ops(*x), seq![Op::Let(n@)], 0);
            lemma_height_add(expr_ops(*x), seq![Op::Let(n@)]);
        },
        Expr::Block(es) => {
            lemma_block_stacks(es@, es@.len() as int);
        },
    }
}

/// The stack discipline of the first `n` statements of a block: no height
/// is left before the last statement, and the last leaves its own.
proof fn lemma_block_stacks(es: Seq<Expr>, n: int)
    requires
        0 <= n <= es.len(),
        block_stacks(es, n),
    ensures
        never_underflows(block_ops(es, n), 0),
        height(block_ops(es, n)) == (if n == es.len() { block_pushes(es) } else { 0 }),
        block_pushes(es) >= 0 || n < es.len(),
    decreases es, n,
{
    if n == 0 {
        lemma_empty(0);
        assert(block_ops(es, 0) =~= Seq::<Op>::empty());
    } else {
        lemma_block_stacks(es, n - 1);
        let s = es[n - 1];
        lemma_stacks(s);
        let pre = block_ops(es, n - 1);
        let body = expr_ops(s);
        let tail = if pops_after(s, n - 1, es.len() as int) { seq![Op::Pop] } else { Seq::<Op>::empty() };
        assert(block_ops(es, n) == pre + body + tail);
        assert(height(pre) == 0);
        lemma_underflow_add(pre, body, 0);
        lemma_height_add(pre, body);
        if pops_after(s, n - 1, es.len() as int) {
            lemma_one(Op::Pop, 1);
        } else {
            lemma_empty(height(pre + body));
        }
        lemma_underflow_add(pre + body, tail, 0);
        lemma_height_add(pre + body, tail);
    }
}

/// An expression of the grammar keeps the stack discipline and leaves one value.
proof fn lemma_simple(e: Expr)
    requires
        simple(e),
    ensures
        stacks(e),
        pushes(e) == 1,
    decreases e,
{
    match e {
        Expr::Add(l, r) => {
            lemma_simple(*l);
            lemma_simple(*r);
        },
        Expr::Propagate(i, _) => lemma_simple(*i),
        Expr::Collapse(i) => lemma_simple(*i),
        _ => {},
    }
}

proof fn lemma_expr_simple(t: Seq<Token>, pos: int)
    ensures
        p_expr(t, pos) matches Ok((e, _)) ==> simple(e),
    decreases rem(t, pos), 3nat,
{
    lemma_term_simple(t, pos);
    if let Ok((left, k)) = p_term(t, pos) {
        lemma_consumes(t, pos);
        lemma_rest_simple(t, pos + k, left);
    }
}

proof fn lemma_rest_simple(t: Seq<Token>, pos: int, left: Expr)
    requires
        simple(left),
    ensures
        p_expr_rest(t, pos, left) matches Ok((e, _)) ==> simple(e),
    decreases rem(t, pos), 2nat,
{
    if tok_at(t, pos) == Some(Token::Plus) {
        lemma_term_simple(t, pos + 1);
        if let Ok((right, k)) = p_term(t, pos + 1) {
            lemma_consumes(t, pos + 1);
            lemma_rest_simple(t, pos + 1 + k, Expr::Add(Box::new(left), Box::new(right)));
        }
    }
}

proof fn lemma_term_simple(t: Seq<Token>, pos: int)
    ensures
        p_term(t, pos) matches Ok((e, _)) ==> simple(e),
    decreases rem(t, pos), 1nat,
{
    match tok_at(t, pos) {
        Some(Token::Identifier(n)) => {
            if n@ == word_propagate() {
                lemma_propagate_simple(t, pos);
            } else if n@ == word_collapse() {
                lemma_collapse_simple(t, pos);
            } else {
                lemma_atom_simple(t, pos);
            }
        },
        Some(Token::Chaotic) => {},
        _ => lemma_atom_simple(t, pos),
    }
}

proof fn lemma_propagate_simple(t: Seq<Token>, pos: int)
    ensures
        p_propagate(t, pos) matches Ok((e, _)) ==> simple(e),
    decreases rem(t, pos), 0nat,
{
    if tok_at(t, pos + 1) is Some {
        lemma_expr_simple(t, pos + 2);
    }
}

proof fn lemma_collapse_simple(t: Seq<Token>, pos: int)
    ensures
        p_collapse(t, pos) matches Ok((e, _)) ==> simple(e),
    decreases rem(t, pos), 0nat,
{
    if tok_at(t, pos + 1) is Some {
        lemma_expr_simple(t, pos + 2);
    }
}

proof fn lemma_atom_simple(t: Seq<Token>, pos: int)
    ensures
        p_atom(t, pos) matches Ok((e, _)) ==> simple(e),
    decreases rem(t, pos), 0nat,
{
    if tok_at(t, pos) == Some(Token::LParen) {
        lemma_expr_simple(t, pos + 1);
    }
}

proof fn lemma_statement(t: Seq<Token>, pos: int)
    ensures
        p_statement(t, pos) matches Ok((e, _)) ==> statement(e),
{
    if tok_at(t, pos) == Some(Token::Let) {
        lemma_expr_simple(t, pos + 3);
    } else {
        lemma_expr_simple(t, pos);
    }
}

proof fn lemma_statements(t: Seq<Token>, pos: int)
    ensures
        p_statements(t, pos) matches Ok(ss) ==> forall|i: int| 0 <= i < ss.len() ==> statement(#[trigger] ss[i]),
    decreases rem(t, pos),
{
    let p: int = pos + skip_semis(t, pos);
    if tok_at(t, p) is Some {
        lemma_statement(t, p);
        if let Ok((s, k)) = p_statement(t, p) {
            lemma_consumes(t, p);
            lemma_statements(t, p + k);
            if let Ok(ss) = p_statements(t, p + k) {
                assert(p_statements(t, pos) == Ok::<Seq<Expr>, crate::parser::ParseError>(seq![s] + ss));
                assert forall|i: int| 0 <= i < (seq![s] + ss).len() implies statement(#[trigger] (seq![s] + ss)[i]) by {
                    if i > 0 {
                        assert((seq![s] + ss)[i] == ss[i - 1]);
                    }
                }
            }
        }
    }
}

proof fn lemma_statement_stacks(e: Expr)
    requires
        statement(e),
    ensures
        stacks(e),
        !(e is Let) ==> pushes(e) == 1,
{
    match e {
        Expr::Let(_, i) => lemma_simple(*i),
        _ => lemma_simple(e),
    }
}

proof fn lemma_statements_block(es: Seq<Expr>, n: int)
    requires
        0 <= n <= es.len(),
        forall|i: int| 0 <= i < es.len() ==> statement(#[trigger] es[i]),
    ensures
        block_stacks(es, n),
    decreases n,
{
    if n > 0 {
        lemma_statements_block(es, n - 1);
        lemma_statement_stacks(es[n - 1]);
    }
}

/// Compiled code keeps the stack discipline.
///
/// Law: when every operand of `e` leaves one value and every statement of a
/// block that the compiler follows with a `POP` leaves one value, the code
/// of `e`, run from an empty stack, never takes a value the stack does not
/// hold, and leaves `pushes(e)` values.
pub proof fn law_stack_discipline(e: Expr)
    requires
        stacks(e),
    ensures
        never_underflows(expr_ops(e), 0),
        height(expr_ops(e)) == pushes(e),
{
    lemma_stacks(e);
}

/// Parsed programs never run the machine's stack dry.
///
/// Law: every program that the parser accepts from the tokens `t` keeps the
/// stack discipline: its compiled code, run from an empty stack, never pops
/// more values than were pushed, and leaves one value, or none when its
/// last statement is a `let`.
pub proof fn law_parsed_never_underflows(t: Seq<Token>, e: Expr)
    requires
        program_result(p_statements(t, 0), Ok(e)),
    ensures
        stacks(e),
        never_underflows(expr_ops(e), 0),
        height(expr_ops(e)) == pushes(e),
        pushes(e) == (if e is Let || (e matches Expr::Block(es) && es@.last() is Let) { 0int } else { 1 }),
{
    lemma_statements(t, 0);
    let ss = p_statements(t, 0)->Ok_0;
    if ss.len() == 1 {
        assert(statement(ss[0]));
        lemma_statement_stacks(e);
        assert(!(e is Block));
    } else {
        let es = e->Block_0;
        assert(es@ == ss);
        lemma_statements_block(ss, ss.len() as int);
        let last = ss[ss.len() - 1];
        assert(statement(last));
        lemma_statement_stacks(last);
        assert(es@.last() == last);
        assert(pushes(e) == pushes(last));
    }
    lemma_stacks(e);
}

/// The step asks the caller to push a value it computes.
pub open spec fn asks_for_push<V>(r: Result<Effect<V>, VmError>) -> bool {
    r matches Ok(e) && (e is Literal || e is Chaotic || e is Add || e is Propagate)
}

/// One instruction of the machine finds the values it needs exactly when
/// the stack holds them, and changes the height by its effect.
///
/// Law: a step of `op` on a stack of `needs(op)` values or more does not
/// report a stack underflow; one on fewer does; and a step that succeeds
/// without ending the run, together with the push it asks for, changes the
/// height by `effect(op)`.
pub proof fn law_step_height<V: Clone>(
    op: Op,
    s: Seq<V>,
    vars: Map<Seq<char>, V>,
    r: Result<Effect<V>, VmError>,
    s2: Seq<V>,
    vars2: Map<Seq<char>, V>,
)
    requires
        stepped(op, s, vars, r, s2, vars2),
    ensures
        (r == Err::<Effect<V>, VmError>(VmError::StackUnderflow)) <==> s.len() < needs(op),
        r is Ok && !(op is Collapse) ==> s2.len() + (if asks_for_push(r) { 1int } else { 0 }) == s.len()
            + effect(op),
{
}

} // verus!
