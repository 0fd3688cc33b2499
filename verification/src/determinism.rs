//! Parsing is a function of its input: with a number conversion that gives
//! one result per text, every result that the contract of `parse` allows is
//! the same up to which `String` values hold the names.  So `parse` gives
//! what `Parser::new` followed by `Parser::parse` gives.

use vstd::prelude::*;
use crate::ast::Expr;
use crate::lexer::{LexError, Token, deterministic, law_tokenize_deterministic, outcomes_alike, token_alike, tokenized};
use crate::parser::{
    ParseError, Parser, expect_at, kind, lemma_consumes, number_at, p_atom, p_chaotic, p_collapse, p_expr,
    p_expr_rest, p_let, p_propagate, p_statement, p_statements, p_term, parsed, program_result, rem, skip_semis,
    tok_at, word_collapse, word_propagate,
};

verus! {

/// Two optional tokens are alike.
pub open spec fn opt_token_alike(a: Option<Token>, b: Option<Token>) -> bool {
    match a {
        None => b is None,
        Some(x) => b matches Some(y) && token_alike(x, y),
    }
}

/// Two token sequences are alike, token by token.
pub open spec fn tokens_alike(t1: Seq<Token>, t2: Seq<Token>) -> bool {
    t1.len() == t2.len() && forall|i: int| 0 <= i < t1.len() ==> #[trigger] token_alike(t1[i], t2[i])
}

/// Two parse errors are alike: the same error, with tokens and texts
/// compared by their characters.
pub open spec fn error_alike(e1: ParseError, e2: ParseError) -> bool {
    match e1 {
        ParseError::Lex(l1) => e2 matches ParseError::Lex(l2) && outcomes_alike(Err(l1), Err(l2)),
        ParseError::Expected { expected, found } => e2 matches ParseError::Expected { expected: x2, found: f2 }
            && token_alike(expected, x2) && opt_token_alike(found, f2),
        ParseError::ExpectedNumber { found } => e2 matches ParseError::ExpectedNumber { found: f2 } && opt_token_alike(
            found,
            f2,
        ),
        ParseError::ExpectedIdentifier { found } => e2 matches ParseError::ExpectedIdentifier { found: f2 }
            && opt_token_alike(found, f2),
        ParseError::UnexpectedToken(t) => e2 matches ParseError::UnexpectedToken(t2) && token_alike(t, t2),
        _ => e2 == e1,
    }
}

/// Two expressions are alike: the same tree, names compared by their characters.
pub open spec fn expr_alike(a: Expr, b: Expr) -> bool
    decreases a, 0int,
{
    match a {
        Expr::Var(x) => b matches Expr::Var(y) && x@ == y@,
        Expr::Literal(v) => b == Expr::Literal(v),
        Expr::Add(l, r) => b matches Expr::Add(l2, r2) && expr_alike(*l, *l2) && expr_alike(*r, *r2),
        Expr::Propagate(i, t) => b matches Expr::Propagate(i2, t2) && t == t2 && expr_alike(*i, *i2),
        Expr::Collapse(i) => b matches Expr::Collapse(i2) && expr_alike(*i, *i2),
        Expr::ChaoticConstructor(m, v) => b == Expr::ChaoticConstructor(m, v),
        Expr::Let(n, x) => b matches Expr::Let(n2, x2) && n@ == n2@ && expr_alike(*x, *x2),
        Expr::Block(es) => b matches Expr::Block(es2) && es@.len() == es2@.len() && block_alike(
            es@,
            es2@,
            es@.len() as int,
        ),
    }
}

/// The first `n` statements of two blocks are alike.
pub open spec fn block_alike(s1: Seq<Expr>, s2: Seq<Expr>, n: int) -> bool
    decreases s1, n,
{
    if n <= 0 || n > s1.len() {
        true
    } else {
        block_alike(s1, s2, n - 1) && expr_alike(s1[n - 1], s2[n - 1])
    }
}

/// Two results of reading a part of the grammar are alike.
pub open spec fn read_alike(r1: Result<(Expr, nat), ParseError>, r2: Result<(Expr, nat), ParseError>) -> bool {
    match r1 {
        Ok((e1, k1)) => r2 matches Ok((e2, k2)) && k1 == k2 && expr_alike(e1, e2),
        Err(x) => r2 matches Err(y) && error_alike(x, y),
    }
}

/// Two results of reading statements are alike.
pub open spec fn statements_alike(r1: Result<Seq<Expr>, ParseError>, r2: Result<Seq<Expr>, ParseError>) -> bool {
    match r1 {
        Ok(s1) => r2 matches Ok(s2) && s1.len() == s2.len() && forall|i: int|
            0 <= i < s1.len() ==> #[trigger] expr_alike(s1[i], s2[i]),
        Err(x) => r2 matches Err(y) && error_alike(x, y),
    }
}

/// Two results of parsing are alike.
pub open spec fn result_alike(r1: Result<Expr, ParseError>, r2: Result<Expr, ParseError>) -> bool {
    match r1 {
        Ok(e1) => r2 matches Ok(e2) && expr_alike(e1, e2),
        Err(x) => r2 matches Err(y) && error_alike(x, y),
    }
}

proof fn lemma_tok(t1: Seq<Token>, t2: Seq<Token>, p: int)
    requires
        tokens_alike(t1, t2),
    ensures
        opt_token_alike(tok_at(t1, p), tok_at(t2, p)),
        tok_at(t1, p) is Some ==> kind(tok_at(t1, p)->0) == kind(tok_at(t2, p)->0),
        (tok_at(t1, p) == Some(Token::Plus)) == (tok_at(t2, p) == Some(Token::Plus)),
        (tok_at(t1, p) == Some(Token::Semicolon)) == (tok_at(t2, p) == Some(Token::Semicolon)),
        (tok_at(t1, p) == Some(Token::Let)) == (tok_at(t2, p) == Some(Token::Let)),
        (tok_at(t1, p) == Some(Token::LParen)) == (tok_at(t2, p) == Some(Token::LParen)),
{
    if 0 <= p < t1.len() {
        assert(token_alike(t1[p], t2[p]));
    }
}

proof fn lemma_expect(t1: Seq<Token>, t2: Seq<Token>, p: int, x: Token)
    requires
        tokens_alike(t1, t2),
    ensures
        expect_at(t1, p, x) is Ok == expect_at(t2, p, x) is Ok,
        expect_at(t1, p, x) matches Err(e1) ==> (expect_at(t2, p, x) matches Err(e2) && error_alike(e1, e2)),
{
    lemma_tok(t1, t2, p);
    assert(token_alike(x, x));
}

proof fn lemma_number(t1: Seq<Token>, t2: Seq<Token>, p: int)
    requires
        tokens_alike(t1, t2),
    ensures
        number_at(t1, p) matches Ok(v) ==> number_at(t2, p) == Ok::<u64, ParseError>(v),
        number_at(t1, p) matches Err(e1) ==> (number_at(t2, p) matches Err(e2) && error_alike(e1, e2)),
{
    lemma_tok(t1, t2, p);
}

proof fn lemma_expr_alike(t1: Seq<Token>, t2: Seq<Token>, pos: int)
    requires
        tokens_alike(t1, t2),
    ensures
        read_alike(p_expr(t1, pos), p_expr(t2, pos)),
    decreases rem(t1, pos), 3nat,
{
    lemma_term_alike(t1, t2, pos);
    if let Ok((l1, k)) = p_term(t1, pos) {
        let l2 = p_term(t2, pos)->Ok_0.0;
        lemma_consumes(t1, pos);
        lemma_rest_alike(t1, t2, pos + k, l1, l2);
    }
}

proof fn lemma_rest_alike(t1: Seq<Token>, t2: Seq<Token>, pos: int, l1: Expr, l2: Expr)
    requires
        tokens_alike(t1, t2),
        expr_alike(l1, l2),
    ensures
        read_alike(p_expr_rest(t1, pos, l1), p_expr_rest(t2, pos, l2)),
    decreases rem(t1, pos), 2nat,
{
    lemma_tok(t1, t2, pos);
    if tok_at(t1, pos) == Some(Token::Plus) {
        lemma_term_alike(t1, t2, pos + 1);
        if let Ok((r1, k)) = p_term(t1, pos + 1) {
            let r2 = p_term(t2, pos + 1)->Ok_0.0;
            lemma_consumes(t1, pos + 1);
            let a1 = Expr::Add(Box::new(l1), Box::new(r1));
            let a2 = Expr::Add(Box::new(l2), Box::new(r2));
            assert(expr_alike(a1, a2));
            lemma_rest_alike(t1, t2, pos + 1 + k, a1, a2);
        }
    }
}

proof fn lemma_term_alike(t1: Seq<Token>, t2: Seq<Token>, pos: int)
    requires
        tokens_alike(t1, t2),
    ensures
        read_alike(p_term(t1, pos), p_term(t2, pos)),
    decreases rem(t1, pos), 1nat,
{
    lemma_tok(t1, t2, pos);
    match tok_at(t1, pos) {
        Some(Token::Identifier(n)) => {
            if n@ == word_propagate() {
                lemma_propagate_alike(t1, t2, pos);
            } else if n@ == word_collapse() {
                lemma_collapse_alike(t1, t2, pos);
            } else {
                lemma_atom_alike(t1, t2, pos);
            }
        },
        Some(Token::Chaotic) => lemma_chaotic_alike(t1, t2, pos),
        _ => lemma_atom_alike(t1, t2, pos),
    }
}

proof fn lemma_propagate_alike(t1: Seq<Token>, t2: Seq<Token>, pos: int)
    requires
        tokens_alike(t1, t2),
    ensures
        read_alike(p_propagate(t1, pos), p_propagate(t2, pos)),
    decreases rem(t1, pos), 0nat,
{
    lemma_expect(t1, t2, pos + 1, Token::LParen);
    if expect_at(t1, pos + 1, Token::LParen) is Ok {
        lemma_expr_alike(t1, t2, pos + 2);
        if let Ok((_, k)) = p_expr(t1, pos + 2) {
            lemma_expect(t1, t2, pos + 2 + k, Token::Comma);
            lemma_number(t1, t2, pos + 3 + k);
            lemma_expect(t1, t2, pos + 4 + k, Token::RParen);
        }
    }
}

proof fn lemma_collapse_alike(t1: Seq<Token>, t2: Seq<Token>, pos: int)
    requires
        tokens_alike(t1, t2),
    ensures
        read_alike(p_collapse(t1, pos), p_collapse(t2, pos)),
    decreases rem(t1, pos), 0nat,
{
    lemma_expect(t1, t2, pos + 1, Token::LParen);
    if expect_at(t1, pos + 1, Token::LParen) is Ok {
        lemma_expr_alike(t1, t2, pos + 2);
        if let Ok((_, k)) = p_expr(t1, pos + 2) {
            lemma_expect(t1, t2, pos + 2 + k, Token::RParen);
        }
    }
}

proof fn lemma_chaotic_alike(t1: Seq<Token>, t2: Seq<Token>, pos: int)
    requires
        tokens_alike(t1, t2),
    ensures
        read_alike(p_chaotic(t1, pos), p_chaotic(t2, pos)),
{
    lemma_expect(t1, t2, pos + 1, Token::LParen);
    lemma_number(t1, t2, pos + 2);
    lemma_expect(t1, t2, pos + 3, Token::Comma);
    lemma_number(t1, t2, pos + 4);
    lemma_expect(t1, t2, pos + 5, Token::RParen);
}

proof fn lemma_atom_alike(t1: Seq<Token>, t2: Seq<Token>, pos: int)
    requires
        tokens_alike(t1, t2),
    ensures
        read_alike(p_atom(t1, pos), p_atom(t2, pos)),
    decreases rem(t1, pos), 0nat,
{
    lemma_tok(t1, t2, pos);
    if tok_at(t1, pos) == Some(Token::LParen) {
        lemma_expr_alike(t1, t2, pos + 1);
        if let Ok((_, k)) = p_expr(t1, pos + 1) {
            lemma_expect(t1, t2, pos + 1 + k, Token::RParen);
        }
    }
}

proof fn lemma_statement_alike(t1: Seq<Token>, t2: Seq<Token>, pos: int)
    requires
        tokens_alike(t1, t2),
    ensures
        read_alike(p_statement(t1, pos), p_statement(t2, pos)),
{
    lemma_tok(t1, t2, pos);
    if tok_at(t1, pos) == Some(Token::Let) {
        lemma_tok(t1, t2, pos + 1);
        lemma_expect(t1, t2, pos + 2, Token::Equals);
        lemma_expr_alike(t1, t2, pos + 3);
        assert(read_alike(p_let(t1, pos), p_let(t2, pos)));
    } else {
        lemma_expr_alike(t1, t2, pos);
    }
}

proof fn lemma_semis(t1: Seq<Token>, t2: Seq<Token>, pos: int)
    requires
        tokens_alike(t1, t2),
    ensures
        skip_semis(t1, pos) == skip_semis(t2, pos),
    decreases rem(t1, pos),
{
    lemma_tok(t1, t2, pos);
    if tok_at(t1, pos) == Some(Token::Semicolon) {
        lemma_semis(t1, t2, pos + 1);
    }
}

proof fn lemma_statements_alike(t1: Seq<Token>, t2: Seq<Token>, pos: int)
    requires
        tokens_alike(t1, t2),
    ensures
        statements_alike(p_statements(t1, pos), p_statements(t2, pos)),
    decreases rem(t1, pos),
{
    lemma_semis(t1, t2, pos);
    let p = pos + skip_semis(t1, pos);
    lemma_tok(t1, t2, p);
    if tok_at(t1, p) is Some {
        lemma_statement_alike(t1, t2, p);
        if let Ok((s1, k)) = p_statement(t1, p) {
            let s2 = p_statement(t2, p)->Ok_0.0;
            lemma_consumes(t1, p);
            lemma_statements_alike(t1, t2, p + k);
            if let Ok(ss1) = p_statements(t1, p + k) {
                let ss2 = p_statements(t2, p + k)->Ok_0;
                let a = seq![s1] + ss1;
                let b = seq![s2] + ss2;
                assert(p_statements(t1, pos) == Ok::<Seq<Expr>, ParseError>(a));
                assert(p_statements(t2, pos) == Ok::<Seq<Expr>, ParseError>(b));
                assert forall|i: int| 0 <= i < a.len() implies #[trigger] expr_alike(a[i], b[i]) by {
                    if i > 0 {
                        assert(a[i] == ss1[i - 1]);
                        assert(b[i] == ss2[i - 1]);
                        assert(expr_alike(ss1[i - 1], ss2[i - 1]));
                    }
                }
            }
        }
    }
}

proof fn lemma_block_alike(s1: Seq<Expr>, s2: Seq<Expr>, n: int)
    requires
        0 <= n <= s1.len(),
        s1.len() == s2.len(),
        forall|i: int| 0 <= i < s1.len() ==> #[trigger] expr_alike(s1[i], s2[i]),
    ensures
        block_alike(s1, s2, n),
    decreases n,
{
    if n > 0 {
        lemma_block_alike(s1, s2, n - 1);
        assert(expr_alike(s1[n - 1], s2[n - 1]));
    }
}

/// Parsing is deterministic.
///
/// Law: with a number conversion that gives one result per text, any two
/// results that `parse`'s contract allows for one input are alike: both the
/// same error, or both the same expression, names compared by their
/// characters.
pub proof fn law_parse_deterministic<F: Fn(&str) -> Option<u64>>(
    f: F,
    input: Seq<char>,
    r1: Result<Expr, ParseError>,
    r2: Result<Expr, ParseError>,
)
    requires
        deterministic(f),
        parsed(f, input, r1),
        parsed(f, input, r2),
    ensures
        result_alike(r1, r2),
{
    let lexed1: Result<Seq<Token>, LexError> = if exists|le: LexError|
        tokenized(f, input, 0, Err(le)) && r1 == Err::<Expr, ParseError>(ParseError::Lex(le)) {
        Err(choose|le: LexError| tokenized(f, input, 0, Err(le)) && r1 == Err::<Expr, ParseError>(ParseError::Lex(le)))
    } else {
        Ok(choose|toks: Seq<Token>| tokenized(f, input, 0, Ok(toks)) && program_result(p_statements(toks, 0), r1))
    };
    let lexed2: Result<Seq<Token>, LexError> = if exists|le: LexError|
        tokenized(f, input, 0, Err(le)) && r2 == Err::<Expr, ParseError>(ParseError::Lex(le)) {
        Err(choose|le: LexError| tokenized(f, input, 0, Err(le)) && r2 == Err::<Expr, ParseError>(ParseError::Lex(le)))
    } else {
        Ok(choose|toks: Seq<Token>| tokenized(f, input, 0, Ok(toks)) && program_result(p_statements(toks, 0), r2))
    };
    law_tokenize_deterministic(f, input, 0, lexed1, lexed2);
    if let Ok(t1) = lexed1 {
        let t2 = lexed2->Ok_0;
        assert(tokens_alike(t1, t2));
        lemma_statements_alike(t1, t2, 0);
        if let Ok(ss1) = p_statements(t1, 0) {
            let ss2 = p_statements(t2, 0)->Ok_0;
            if ss1.len() == 1 {
                assert(expr_alike(ss1[0], ss2[0]));
            } else if ss1.len() > 1 {
                lemma_block_alike(ss1, ss2, ss1.len() as int);
                let v1 = r1->Ok_0->Block_0;
                let v2 = r2->Ok_0->Block_0;
                assert(v1@ == ss1 && v2@ == ss2);
            }
        }
    }
}

/// `Parser::new` followed by `Parser::parse` gives a result that `parse`'s
/// contract allows.
///
/// Law: when `Parser::new(input)` fails with `Lex(le)`, or succeeds with a
/// parser `p` at position 0 whose `parse` gives `r`, that outcome is one
/// that `parse(input)` may give; with a conversion that gives one result per
/// text, it is therefore alike to what `parse(input)` gives
/// (`law_parse_deterministic`).
pub proof fn law_new_then_parse<F: Fn(&str) -> Option<u64>>(
    f: F,
    input: Seq<char>,
    created: Result<Parser, ParseError>,
    r: Result<Expr, ParseError>,
)
    requires
        created matches Ok(p) ==> p.wf() && p.position() == 0 && tokenized(f, input, 0, Ok(p.tokens()))
            && program_result(p_statements(p.tokens(), p.position()), r),
        created matches Err(e) ==> e matches ParseError::Lex(le) && tokenized(f, input, 0, Err(le)) && r == Err::<
            Expr,
            ParseError,
        >(e),
    ensures
        parsed(f, input, r),
{
    match created {
        Ok(p) => {
            assert(tokenized(f, input, 0, Ok(p.tokens())) && program_result(p_statements(p.tokens(), 0), r));
        },
        Err(e) => {
            let le = e->Lex_0;
            assert(tokenized(f, input, 0, Err(le)) && r == Err::<Expr, ParseError>(ParseError::Lex(le)));
        },
    }
}

} // verus!
