//! What the grammar, the lexer and evaluation are for, stated over all
//! inputs.

use vstd::prelude::*;
use crate::ast::Expr;
use crate::eval::{block_failure, eval_failure};
use crate::lexer::{
    LexError, Lexeme, Token, is_ident_char, line_end, symbol_lexeme, lex_from, number_end, skip_blank, skip_digits, skip_ident,
};
use crate::parser::{ParseError, p_expr, p_expr_rest, p_statement, p_term, tok_at};
use crate::text::{is_digit, unicode_alphabetic};

verus! {

/// The argument of `collapse` is a whole expression.
///
/// Law: wherever the tokens hold `collapse` `(`, then an expression `e`
/// read over `k` tokens, then `)`, a term read there is `Collapse(e)` over
/// `k + 3` tokens.  So `collapse(a + b)` is the collapse of the sum.
pub proof fn law_collapse_of_expression(t: Seq<Token>, pos: int, name: String, e: Expr, k: nat)
    requires
        tok_at(t, pos) == Some(Token::Identifier(name)),
        name@ == seq!['c', 'o', 'l', 'l', 'a', 'p', 's', 'e'],
        tok_at(t, pos + 1) == Some(Token::LParen),
        p_expr(t, pos + 2) == Ok::<(Expr, nat), ParseError>((e, k)),
        tok_at(t, pos + 2 + k) == Some(Token::RParen),
    ensures
        p_term(t, pos) == Ok::<(Expr, nat), ParseError>((Expr::Collapse(Box::new(e)), k + 3)),
{
}

/// The first argument of `propagate` is a whole expression.
///
/// Law: wherever the tokens hold `propagate` `(`, then an expression `e`
/// read over `k` tokens, then `,`, a number `dt` and `)`, a term read there
/// is `Propagate(e, dt)` over `k + 5` tokens.
pub proof fn law_propagate_of_expression(t: Seq<Token>, pos: int, name: String, e: Expr, k: nat, dt: u64)
    requires
        tok_at(t, pos) == Some(Token::Identifier(name)),
        name@ == seq!['p', 'r', 'o', 'p', 'a', 'g', 'a', 't', 'e'],
        tok_at(t, pos + 1) == Some(Token::LParen),
        p_expr(t, pos + 2) == Ok::<(Expr, nat), ParseError>((e, k)),
        tok_at(t, pos + 2 + k) == Some(Token::Comma),
        tok_at(t, pos + 3 + k) == Some(Token::Number(dt)),
        tok_at(t, pos + 4 + k) == Some(Token::RParen),
    ensures
        p_term(t, pos) == Ok::<(Expr, nat), ParseError>((Expr::Propagate(Box::new(e), dt), k + 5)),
{
}

proof fn lemma_digit_run(input: Seq<char>, a: int, b: int)
    requires
        0 <= a <= b <= input.len(),
        forall|x: int| a <= x < b ==> is_digit(#[trigger] input[x]),
        b == input.len() || !is_digit(input[b]),
    ensures
        skip_digits(input, a) == b,
    decreases b - a,
{
    if a < b {
        lemma_digit_run(input, a + 1, b);
    }
}

/// A numeric literal takes all its digits.
///
/// Law: where the input holds digits from `p` to `q`, a `.` at `q`, digits
/// from `q + 1` to `e`, and no digit at `e`, the literal read at `p` ends at
/// `e`, and the lexer reads the whole text from `p` to `e` as one number.
/// Without a `.`, the run of digits from `p` to `q` is one number likewise.
pub proof fn law_number_takes_all_digits(input: Seq<char>, p: int, q: int, e: int)
    requires
        0 <= p < q < e <= input.len(),
        forall|x: int| p <= x < q ==> is_digit(#[trigger] input[x]),
        forall|x: int| q < x < e ==> is_digit(#[trigger] input[x]),
        e == input.len() || !is_digit(input[e]),
    ensures
        input[q] == '.' ==> number_end(input, p) == e,
        input[q] == '.' ==> lex_from(input, p).0.len() >= 1 && lex_from(input, p).0[0] == Lexeme::Number(
            input.subrange(p, e),
        ),
        !is_digit(input[q]) && input[q] != '.' ==> number_end(input, p) == q
            && lex_from(input, p).0.len() >= 1 && lex_from(input, p).0[0] == Lexeme::Number(
            input.subrange(p, q),
        ),
{
    if !is_digit(input[q]) {
        lemma_digit_run(input, p, q);
    }
    if input[q] == '.' {
        lemma_digit_run(input, q + 1, e);
    }
    assert(skip_blank(input, p) == p);
    assert(input.subrange(p, e)[0] == input[p]);
    assert(input.subrange(p, q)[0] == input[p]);
}

/// Every name of a variable referred to is in `vars`, and no block is empty.
pub open spec fn all_defined<V>(e: Expr, vars: Map<Seq<char>, V>) -> bool
    decreases e, 0int,
{
    match e {
        Expr::Var(n) => vars.dom().contains(n@),
        Expr::Add(l, r) => all_defined(*l, vars) && all_defined(*r, vars),
        Expr::Propagate(i, _) => all_defined(*i, vars),
        Expr::Collapse(i) => all_defined(*i, vars),
        Expr::Let(_, i) => all_defined(*i, vars),
        Expr::Block(es) => es@.len() > 0 && all_defined_from(es@, 0, vars),
        _ => true,
    }
}

/// `all_defined` for the statements of a block from index `i` on.
pub open spec fn all_defined_from<V>(es: Seq<Expr>, i: int, vars: Map<Seq<char>, V>) -> bool
    decreases es, es.len() - i,
{
    if 0 <= i < es.len() {
        all_defined(es[i], vars) && all_defined_from(es, i + 1, vars)
    } else {
        true
    }
}

/// The expression refers to a variable named `name`.
pub open spec fn mentions(e: Expr, name: Seq<char>) -> bool
    decreases e, 0int,
{
    match e {
        Expr::Var(n) => n@ == name,
        Expr::Add(l, r) => mentions(*l, name) || mentions(*r, name),
        Expr::Propagate(i, _) => mentions(*i, name),
        Expr::Collapse(i) => mentions(*i, name),
        Expr::Let(_, i) => mentions(*i, name),
        Expr::Block(es) => mentions_from(es@, 0, name),
        _ => false,
    }
}

/// `mentions` for the statements of a block from index `i` on.
pub open spec fn mentions_from(es: Seq<Expr>, i: int, name: Seq<char>) -> bool
    decreases es, es.len() - i,
{
    if 0 <= i < es.len() {
        mentions(es[i], name) || mentions_from(es, i + 1, name)
    } else {
        false
    }
}

/// The expression holds an empty block.
pub open spec fn has_empty_block(e: Expr) -> bool
    decreases e, 0int,
{
    match e {
        Expr::Add(l, r) => has_empty_block(*l) || has_empty_block(*r),
        Expr::Propagate(i, _) => has_empty_block(*i),
        Expr::Collapse(i) => has_empty_block(*i),
        Expr::Let(_, i) => has_empty_block(*i),
        Expr::Block(es) => es@.len() == 0 || empty_block_from(es@, 0),
        _ => false,
    }
}

/// `has_empty_block` for the statements of a block from index `i` on.
pub open spec fn empty_block_from(es: Seq<Expr>, i: int) -> bool
    decreases es, es.len() - i,
{
    if 0 <= i < es.len() {
        has_empty_block(es[i]) || empty_block_from(es, i + 1)
    } else {
        false
    }
}

/// Parentheses group a whole expression.
///
/// Law: wherever the tokens hold `(`, an expression `e` read over `k`
/// tokens, and `)`, a term read there is `e` itself over `k + 2` tokens.
pub proof fn law_parenthesized_expression(t: Seq<Token>, pos: int, e: Expr, k: nat)
    requires
        tok_at(t, pos) == Some(Token::LParen),
        p_expr(t, pos + 1) == Ok::<(Expr, nat), ParseError>((e, k)),
        tok_at(t, pos + 1 + k) == Some(Token::RParen),
    ensures
        p_term(t, pos) == Ok::<(Expr, nat), ParseError>((e, k + 2)),
{
}

/// A `let` binds a whole expression.
///
/// Law: wherever the tokens hold `let`, a name, `=` and an expression `e`
/// read over `k` tokens, the statement read there is `Let(name, e)` over
/// `k + 3` tokens.
pub proof fn law_let_of_expression(t: Seq<Token>, pos: int, name: String, e: Expr, k: nat)
    requires
        tok_at(t, pos) == Some(Token::Let),
        tok_at(t, pos + 1) == Some(Token::Identifier(name)),
        tok_at(t, pos + 2) == Some(Token::Equals),
        p_expr(t, pos + 3) == Ok::<(Expr, nat), ParseError>((e, k)),
    ensures
        p_statement(t, pos) == Ok::<(Expr, nat), ParseError>((Expr::Let(name, Box::new(e)), k + 3)),
{
}

/// `chaotic(m, v)` reads its two numbers in order.
///
/// Law: the tokens `chaotic ( m , v )` are the term `ChaoticConstructor(m, v)`
/// over six tokens.
pub proof fn law_chaotic_reads_two_numbers(t: Seq<Token>, pos: int, m: u64, v: u64)
    requires
        tok_at(t, pos) == Some(Token::Chaotic),
        tok_at(t, pos + 1) == Some(Token::LParen),
        tok_at(t, pos + 2) == Some(Token::Number(m)),
        tok_at(t, pos + 3) == Some(Token::Comma),
        tok_at(t, pos + 4) == Some(Token::Number(v)),
        tok_at(t, pos + 5) == Some(Token::RParen),
    ensures
        p_term(t, pos) == Ok::<(Expr, nat), ParseError>((Expr::ChaoticConstructor(m, v), 6)),
{
}

/// Addition is read from left to right.
///
/// Law: terms `a`, `b`, `c` separated by `+`, and no `+` after the last,
/// are read as `(a + b) + c`; two terms as `a + b`; one term alone as itself.
pub proof fn law_sum_left_to_right(
    t: Seq<Token>,
    pos: int,
    a: Expr,
    ka: nat,
    b: Expr,
    kb: nat,
    c: Expr,
    kc: nat,
)
    requires
        p_term(t, pos) == Ok::<(Expr, nat), ParseError>((a, ka)),
    ensures
        tok_at(t, pos + ka) != Some(Token::Plus) ==> p_expr(t, pos) == Ok::<(Expr, nat), ParseError>((a, ka)),
        tok_at(t, pos + ka) == Some(Token::Plus) && p_term(t, pos + ka + 1) == Ok::<(Expr, nat), ParseError>(
            (b, kb),
        ) && tok_at(t, pos + ka + 1 + kb) != Some(Token::Plus) ==> p_expr(t, pos) == Ok::<(Expr, nat), ParseError>(
            (Expr::Add(Box::new(a), Box::new(b)), ka + 1 + kb),
        ),
        tok_at(t, pos + ka) == Some(Token::Plus) && p_term(t, pos + ka + 1) == Ok::<(Expr, nat), ParseError>(
            (b, kb),
        ) && tok_at(t, pos + ka + 1 + kb) == Some(Token::Plus) && p_term(t, pos + ka + 2 + kb) == Ok::<
            (Expr, nat),
            ParseError,
        >((c, kc)) && tok_at(t, pos + ka + 2 + kb + kc) != Some(Token::Plus) ==> p_expr(t, pos) == Ok::<
            (Expr, nat),
            ParseError,
        >(
            (
                Expr::Add(Box::new(Expr::Add(Box::new(a), Box::new(b))), Box::new(c)),
                ka + 2 + kb + kc,
            ),
        ),
{
    let ab = Expr::Add(Box::new(a), Box::new(b));
    let abc = Expr::Add(Box::new(ab), Box::new(c));
    if tok_at(t, pos + ka) == Some(Token::Plus) && p_term(t, pos + ka + 1) == Ok::<(Expr, nat), ParseError>((b, kb))
        && tok_at(t, pos + ka + 1 + kb) == Some(Token::Plus) && p_term(t, pos + ka + 2 + kb) == Ok::<
        (Expr, nat),
        ParseError,
    >((c, kc)) && tok_at(t, pos + ka + 2 + kb + kc) != Some(Token::Plus) {
        assert(p_expr_rest(t, pos + ka + 2 + kb + kc, abc) == Ok::<(Expr, nat), ParseError>((abc, 0)));
        assert(p_expr_rest(t, pos + ka + 1 + kb, ab) == Ok::<(Expr, nat), ParseError>((abc, 1 + kc)));
        assert(p_expr_rest(t, pos + ka, a) == Ok::<(Expr, nat), ParseError>((abc, 2 + kb + kc)));
    }
}

proof fn lemma_ident_run(input: Seq<char>, a: int, b: int)
    requires
        0 <= a <= b <= input.len(),
        forall|x: int| a <= x < b ==> is_ident_char(#[trigger] input[x]),
        b == input.len() || !is_ident_char(input[b]),
    ensures
        skip_ident(input, a) == b,
    decreases b - a,
{
    if a < b {
        lemma_ident_run(input, a + 1, b);
    }
}

/// A word takes all its letters, digits and underscores.
///
/// Law: where the input holds a letter or `_` at `p`, then letters, digits
/// or `_` up to `e`, and none at `e`, the lexer reads the whole word from `p`
/// to `e` as one lexeme: `let` and `chaotic` as their keywords, anything
/// else as an identifier.  (That the first character is no digit, sign,
/// slash or symbol holds of every letter; it is stated because the letter
/// class is named, not written out.)
pub proof fn law_word_takes_all_letters(input: Seq<char>, p: int, e: int)
    requires
        0 <= p < e <= input.len(),
        unicode_alphabetic(input[p]) || input[p] == '_',
        !is_digit(input[p]) && input[p] != '-' && input[p] != '/' && symbol_lexeme(input[p]) is None,
        forall|x: int| p <= x < e ==> is_ident_char(#[trigger] input[x]),
        e == input.len() || !is_ident_char(input[e]),
    ensures
        lex_from(input, p).0.len() >= 1,
        lex_from(input, p).0[0] == (if input.subrange(p, e) == seq!['l', 'e', 't'] {
            Lexeme::Let
        } else if input.subrange(p, e) == seq!['c', 'h', 'a', 'o', 't', 'i', 'c'] {
            Lexeme::Chaotic
        } else {
            Lexeme::Identifier(input.subrange(p, e))
        }),
{
    lemma_ident_run(input, p, e);
    assert(is_ident_char(input[p]));
    assert(skip_blank(input, p) == p);
}

/// A minus sign directly before digits belongs to the number.
///
/// Law: where the input holds `-` at `p`, digits from `p + 1` to `e` (at
/// least one), and then neither a digit nor `.`, the lexer reads the text
/// from `p` to `e`, minus sign included, as one number; a `-` followed by
/// no digit and no `.` is the error `ExpectedNumber`.
pub proof fn law_negative_number(input: Seq<char>, p: int, e: int)
    requires
        0 <= p < e <= input.len(),
        input[p] == '-',
        forall|x: int| p < x < e ==> is_digit(#[trigger] input[x]),
        e == input.len() || (!is_digit(input[e]) && input[e] != '.'),
    ensures
        e > p + 1 ==> lex_from(input, p).0.len() >= 1 && lex_from(input, p).0[0] == Lexeme::Number(
            input.subrange(p, e),
        ),
        e == p + 1 ==> lex_from(input, p) == (Seq::<Lexeme>::empty(), Some(LexError::ExpectedNumber)),
{
    lemma_digit_run(input, p + 1, e);
    assert(skip_blank(input, p) == p);
    assert(input.subrange(p, e)[0] == '-');
    if e == p + 1 {
        assert(input.subrange(p, e) =~= seq!['-']);
    } else {
        assert(input.subrange(p, e).len() > 1);
    }
}

/// A comment runs to the end of its line.
///
/// Law: where the input holds `//` at `p` and no newline from `p + 2` up to
/// `e`, with a newline or the end of the input at `e`, the lexer reads from
/// `p` exactly what it reads from `e`: the comment gives no token.
pub proof fn law_comment_to_end_of_line(input: Seq<char>, p: int, e: int)
    requires
        0 <= p,
        p + 2 <= e <= input.len(),
        input[p] == '/',
        input[p + 1] == '/',
        forall|x: int| p + 2 <= x < e ==> #[trigger] input[x] != '\n',
        e == input.len() || input[e] == '\n',
    ensures
        lex_from(input, p) == lex_from(input, e),
{
    lemma_line_run(input, p + 2, e);
    assert(skip_blank(input, p) == p);
}

proof fn lemma_line_run(input: Seq<char>, a: int, b: int)
    requires
        0 <= a <= b <= input.len(),
        forall|x: int| a <= x < b ==> #[trigger] input[x] != '\n',
        b == input.len() || input[b] == '\n',
    ensures
        line_end(input, a) == b,
    decreases b - a,
{
    if a < b {
        lemma_line_run(input, a + 1, b);
    }
}

/// A name or a number alone is an atom.
///
/// Law: an identifier other than `propagate` and `collapse` is read as the
/// variable of that name, and a number token as the literal of its value,
/// each over one token.
pub proof fn law_atoms(t: Seq<Token>, pos: int, name: String, v: u64)
    ensures
        tok_at(t, pos) == Some(Token::Identifier(name)) && name@ != seq!['p', 'r', 'o', 'p', 'a', 'g', 'a', 't', 'e']
            && name@ != seq!['c', 'o', 'l', 'l', 'a', 'p', 's', 'e'] ==> p_term(t, pos) == Ok::<(Expr, nat), ParseError>(
            (Expr::Var(name), 1),
        ),
        tok_at(t, pos) == Some(Token::Number(v)) ==> p_term(t, pos) == Ok::<(Expr, nat), ParseError>(
            (Expr::Literal(v), 1),
        ),
{
}

proof fn lemma_eval<V>(e: Expr, vars: Map<Seq<char>, V>)
    ensures
        (eval_failure(e, vars) is None) == all_defined(e, vars),
        eval_failure(e, vars) matches Some(n) ==> ((n == "empty block"@ && has_empty_block(e)) || (
        !vars.dom().contains(n) && mentions(e, n))),
    decreases e, 0int,
{
    match e {
        Expr::Add(l, r) => {
            lemma_eval(*l, vars);
            lemma_eval(*r, vars);
        },
        Expr::Propagate(i, _) => lemma_eval(*i, vars),
        Expr::Collapse(i) => lemma_eval(*i, vars),
        Expr::Let(_, i) => lemma_eval(*i, vars),
        Expr::Block(es) => {
            if es@.len() > 0 {
                lemma_eval_from(es@, 0, vars);
            }
        },
        _ => {},
    }
}

proof fn lemma_eval_from<V>(es: Seq<Expr>, i: int, vars: Map<Seq<char>, V>)
    requires
        0 <= i,
    ensures
        (block_failure(es, i, vars) is None) == all_defined_from(es, i, vars),
        block_failure(es, i, vars) matches Some(n) ==> ((n == "empty block"@ && empty_block_from(es, i)) || (
        !vars.dom().contains(n) && mentions_from(es, i, n))),
    decreases es, es.len() - i,
{
    if i < es.len() {
        lemma_eval(es[i], vars);
        lemma_eval_from(es, i + 1, vars);
    }
}

/// Evaluation reports a missing variable exactly when one is referred to.
///
/// Law: evaluating `e` against variables `vars` reports nothing exactly
/// when every variable that `e` refers to, anywhere in it (inside
/// additions, propagations, collapses, `let`s and blocks), is in `vars` and
/// no block in it is empty; what it reports is a name that `e` refers to
/// and `vars` lacks, or the empty block.
pub proof fn law_eval_reports_missing<V>(e: Expr, vars: Map<Seq<char>, V>)
    ensures
        (eval_failure(e, vars) is None) == all_defined(e, vars),
        eval_failure(e, vars) matches Some(n) ==> ((n == "empty block"@ && has_empty_block(e)) || (
        !vars.dom().contains(n) && mentions(e, n))),
{
    lemma_eval(e, vars);
}

/// A check that evaluation makes: a reference to the variable of that name,
/// or an empty block.
pub enum Check {
    Ref(Seq<char>),
    EmptyBlock,
}

/// The checks that evaluating `e` makes, in the order it makes them: left
/// operand before right, statements of a block in order.
pub open spec fn checks(e: Expr) -> Seq<Check>
    decreases e, 0int,
{
    match e {
        Expr::Var(n) => seq![Check::Ref(n@)],
        Expr::Add(l, r) => checks(*l) + checks(*r),
        Expr::Propagate(i, _) => checks(*i),
        Expr::Collapse(i) => checks(*i),
        Expr::Let(_, i) => checks(*i),
        Expr::Block(es) => if es@.len() == 0 {
            seq![Check::EmptyBlock]
        } else {
            checks_from(es@, 0)
        },
        _ => seq![],
    }
}

/// The checks of the statements of a block from index `i` on.
pub open spec fn checks_from(es: Seq<Expr>, i: int) -> Seq<Check>
    decreases es, es.len() - i,
{
    if 0 <= i < es.len() {
        checks(es[i]) + checks_from(es, i + 1)
    } else {
        seq![]
    }
}

/// The first check that fails against `vars`: a name not among them, or an
/// empty block (reported by the name `empty block`).
pub open spec fn first_failed<V>(cs: Seq<Check>, vars: Map<Seq<char>, V>) -> Option<Seq<char>>
    decreases cs.len(),
{
    if cs.len() == 0 {
        None
    } else {
        match cs[0] {
            Check::Ref(n) => if vars.dom().contains(n) {
                first_failed(cs.drop_first(), vars)
            } else {
                Some(n)
            },
            Check::EmptyBlock => Some("empty block"@),
        }
    }
}

proof fn lemma_first_failed_add<V>(a: Seq<Check>, b: Seq<Check>, vars: Map<Seq<char>, V>)
    ensures
        first_failed(a + b, vars) == (match first_failed(a, vars) {
            Some(x) => Some(x),
            None => first_failed(b, vars),
        }),
    decreases a.len(),
{
    if a.len() == 0 {
        assert(a + b =~= b);
    } else {
        assert((a + b)[0] == a[0]);
        assert((a + b).drop_first() =~= a.drop_first() + b);
        lemma_first_failed_add(a.drop_first(), b, vars);
    }
}

proof fn lemma_order<V>(e: Expr, vars: Map<Seq<char>, V>)
    ensures
        eval_failure(e, vars) == first_failed(checks(e), vars),
    decreases e, 0int,
{
    match e {
        Expr::Var(n) => {
            let cs = seq![Check::Ref(n@)];
            assert(cs.drop_first() =~= Seq::<Check>::empty());
            assert(first_failed(Seq::<Check>::empty(), vars) is None);
            assert(cs[0] == Check::Ref(n@));
        },
        Expr::Add(l, r) => {
            lemma_order(*l, vars);
            lemma_order(*r, vars);
            lemma_first_failed_add(checks(*l), checks(*r), vars);
        },
        Expr::Propagate(i, _) => lemma_order(*i, vars),
        Expr::Collapse(i) => lemma_order(*i, vars),
        Expr::Let(_, i) => lemma_order(*i, vars),
        Expr::Block(es) => {
            if es@.len() > 0 {
                lemma_order_from(es@, 0, vars);
            }
        },
        _ => {},
    }
}

proof fn lemma_order_from<V>(es: Seq<Expr>, i: int, vars: Map<Seq<char>, V>)
    requires
        0 <= i,
    ensures
        block_failure(es, i, vars) == first_failed(checks_from(es, i), vars),
    decreases es, es.len() - i,
{
    if i < es.len() {
        lemma_order(es[i], vars);
        lemma_order_from(es, i + 1, vars);
        lemma_first_failed_add(checks(es[i]), checks_from(es, i + 1), vars);
    }
}

/// Evaluation reports the first failing reference, in evaluation order.
///
/// Law: of the variable references and empty blocks of `e`, taken in the
/// order evaluation meets them (left operand before right, statements in
/// order, the argument of `propagate`, `collapse` and `let` in its place),
/// evaluation reports the first reference to a name not in `vars`, or the
/// first empty block; and nothing when there is none.
pub proof fn law_eval_reports_first_failure<V>(e: Expr, vars: Map<Seq<char>, V>)
    ensures
        eval_failure(e, vars) == first_failed(checks(e), vars),
{
    lemma_order(e, vars);
}

} // verus!
