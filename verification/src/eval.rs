//! The decisions of direct evaluation that do not depend on numbers: which
//! variable reference fails first, and whether an empty block is met.
//!
//! Evaluation walks an expression left to right (the left operand of an
//! addition before the right, a block's statements in order) and stops at
//! the first reference to a variable the state does not hold; an empty
//! block fails as a missing variable named `empty block`.  Whatever does
//! not fail is floating-point work on the values.

use vstd::prelude::*;
use crate::ast::{EvalError, Expr};
use crate::state::SystemState;

verus! {

/// The name that evaluation of `e` reports as missing first, if any.
pub open spec fn eval_failure<V>(e: Expr, vars: Map<Seq<char>, V>) -> Option<Seq<char>>
    decreases e, 0int,
{
    match e {
        Expr::Var(n) => if vars.dom().contains(n@) {
            None
        } else {
            Some(n@)
        },
        Expr::Add(l, r) => match eval_failure(*l, vars) {
            Some(x) => Some(x),
            None => eval_failure(*r, vars),
        },
        Expr::Propagate(i, _) => eval_failure(*i, vars),
        Expr::Collapse(i) => eval_failure(*i, vars),
        Expr::Let(_, i) => eval_failure(*i, vars),
        Expr::Block(es) => if es@.len() == 0 {
            Some("empty block"@)
        } else {
            block_failure(es@, 0, vars)
        },
        _ => None,
    }
}

/// The first failure among the statements of `es` from index `i` on.
pub open spec fn block_failure<V>(es: Seq<Expr>, i: int, vars: Map<Seq<char>, V>) -> Option<Seq<char>>
    decreases es, es.len() - i,
{
    if 0 <= i < es.len() {
        match eval_failure(es[i], vars) {
            Some(x) => Some(x),
            None => block_failure(es, i + 1, vars),
        }
    } else {
        None
    }
}

/// The error that evaluating `expr` in `state` reports, or `None` when it
/// reports none.
pub fn eval_error<V>(expr: &Expr, state: &SystemState<V>) -> (r: Option<EvalError>)
    requires
        state.wf(),
    ensures
        match eval_failure(*expr, state.vars()) {
            None => r is None,
            Some(n) => r matches Some(EvalError::VarNotFound(s)) && s@ == n,
        },
    decreases expr,
{
    match expr {
        Expr::Var(name) => match state.get_var(name.as_str()) {
            Some(_) => None,
            None => Some(EvalError::VarNotFound(name.clone())),
        },
        Expr::Add(left, right) => match eval_error(left, state) {
            Some(e) => Some(e),
            None => eval_error(right, state),
        },
        Expr::Propagate(inner, _) => eval_error(inner, state),
        Expr::Collapse(inner) => eval_error(inner, state),
        Expr::Let(_, inner) => eval_error(inner, state),
        Expr::Block(exprs) => {
            let n: usize = exprs.len();
            if n == 0 {
                proof {
                    reveal_strlit("empty block");
                }
                return Some(EvalError::VarNotFound("empty block".to_owned()));
            }
            let mut i: usize = 0;
            while i < n
                invariant
                    n == exprs@.len(),
                    n > 0,
                    i <= n,
                    state.wf(),
                    *expr == Expr::Block(*exprs),
                    eval_failure(*expr, state.vars()) == block_failure(exprs@, i as int, state.vars()),
                decreases n - i,
            {
                let e = &exprs[i];
                proof {
                    let ghost v = *exprs;
                    assert(decreases_to!(v => v@));
                    assert(decreases_to!(v@ => v@[i as int]));
                    assert(decreases_to!(*expr => (*expr)->Block_0));
                    assert((*expr)->Block_0 == v);
                }
                match eval_error(e, state) {
                    Some(err) => return Some(err),
                    None => {},
                }
                i = i + 1;
            }
            None
        },
        _ => None,
    }
}

} // verus!
