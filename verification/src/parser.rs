//! Recursive-descent parser for the chaotic expression language.
//!
//! Grammar:
//! ```text
//! program       := statement*            (statements separated by `;` or newlines)
//! statement     := let_stmt | expression
//! let_stmt      := 'let' IDENTIFIER '=' expression
//! expression    := term ('+' term)*
//! term          := function_call | chaotic_call | atom
//! atom          := IDENTIFIER | NUMBER | '(' expression ')'
//! function_call := 'propagate' '(' expression ',' NUMBER ')'
//!                | 'collapse' '(' expression ')'
//! chaotic_call  := 'chaotic' '(' NUMBER ',' NUMBER ')'
//! ```
//!
//! The specification functions below give, for a token sequence and a
//! position, the expression that is read there and the number of tokens it
//! takes, or the error that stops the parser.

use vstd::prelude::*;
use crate::ast::Expr;
use crate::lexer::{
    LexError, Lexer, Token, deterministic, law_tokenize_deterministic, outcomes_alike, result_tokens, tokenized,
};
use crate::text::str_eq;

verus! {

/// Errors of the parser.
#[derive(Debug, PartialEq)]
pub enum ParseError {
    /// The input could not be tokenized.
    Lex(LexError),
    /// A token of the kind `expected` was required; `found` is what came
    /// instead (`None` at the end of input).
    Expected { expected: Token, found: Option<Token> },
    /// A number was required.
    ExpectedNumber { found: Option<Token> },
    /// An identifier was required after `let`.
    ExpectedIdentifier { found: Option<Token> },
    /// A `)` where an expression should start.
    UnexpectedRParen,
    /// Another token where an expression should start.
    UnexpectedToken(Token),
    /// The input ended where an expression should start.
    UnexpectedEnd,
    /// The input holds no statement.
    EmptyInput,
}

/// The token at `pos`, if any.
pub open spec fn tok_at(t: Seq<Token>, pos: int) -> Option<Token> {
    if 0 <= pos < t.len() {
        Some(t[pos])
    } else {
        None
    }
}

/// The number of tokens from `pos` to the end (0 past the end).
pub open spec fn rem(t: Seq<Token>, pos: int) -> nat {
    if pos < t.len() {
        (t.len() - pos) as nat
    } else {
        0
    }
}

/// The variant of a token, ignoring its payload.
pub open spec fn kind(t: Token) -> int {
    match t {
        Token::Identifier(_) => 0,
        Token::Number(_) => 1,
        Token::Plus => 2,
        Token::LParen => 3,
        Token::RParen => 4,
        Token::Comma => 5,
        Token::Semicolon => 6,
        Token::Equals => 7,
        Token::Let => 8,
        Token::Chaotic => 9,
    }
}

/// Requires a token of the same variant as `expected` at `pos`.
pub open spec fn expect_at(t: Seq<Token>, pos: int, expected: Token) -> Result<(), ParseError> {
    match tok_at(t, pos) {
        None => Err(ParseError::Expected { expected, found: None }),
        Some(x) => if kind(x) == kind(expected) {
            Ok(())
        } else {
            Err(ParseError::Expected { expected, found: Some(x) })
        },
    }
}

/// Requires a number at `pos`.
pub open spec fn number_at(t: Seq<Token>, pos: int) -> Result<u64, ParseError> {
    match tok_at(t, pos) {
        Some(Token::Number(v)) => Ok(v),
        Some(x) => Err(ParseError::ExpectedNumber { found: Some(x) }),
        None => Err(ParseError::ExpectedNumber { found: None }),
    }
}

pub open spec fn word_propagate() -> Seq<char> {
    seq!['p', 'r', 'o', 'p', 'a', 'g', 'a', 't', 'e']
}

pub open spec fn word_collapse() -> Seq<char> {
    seq!['c', 'o', 'l', 'l', 'a', 'p', 's', 'e']
}

/// `expression := term ('+' term)*` at `pos`.
pub open spec fn p_expr(t: Seq<Token>, pos: int) -> Result<(Expr, nat), ParseError>
    decreases rem(t, pos), 3nat,
{
    match p_term(t, pos) {
        Ok((left, k)) => match p_expr_rest(t, pos + k, left) {
            Ok((e, k2)) => Ok((e, k + k2)),
            Err(err) => Err(err),
        },
        Err(err) => Err(err),
    }
}

/// The `('+' term)*` part of an expression, with `left` read so far.
pub open spec fn p_expr_rest(t: Seq<Token>, pos: int, left: Expr) -> Result<(Expr, nat), ParseError>
    decreases rem(t, pos), 2nat,
{
    if tok_at(t, pos) == Some(Token::Plus) {
        match p_term(t, pos + 1) {
            Ok((right, k)) => match p_expr_rest(t, pos + 1 + k, Expr::Add(Box::new(left), Box::new(right))) {
                Ok((e, k2)) => Ok((e, 1 + k + k2)),
                Err(err) => Err(err),
            },
            Err(err) => Err(err),
        }
    } else {
        Ok((left, 0))
    }
}

/// `term := function_call | chaotic_call | atom` at `pos`.
pub open spec fn p_term(t: Seq<Token>, pos: int) -> Result<(Expr, nat), ParseError>
    decreases rem(t, pos), 1nat,
{
    match tok_at(t, pos) {
        Some(Token::Identifier(n)) => if n@ == word_propagate() {
            p_propagate(t, pos)
        } else if n@ == word_collapse() {
            p_collapse(t, pos)
        } else {
            p_atom(t, pos)
        },
        Some(Token::Chaotic) => p_chaotic(t, pos),
        _ => p_atom(t, pos),
    }
}

/// `'propagate' '(' expression ',' NUMBER ')'` at `pos`.
pub open spec fn p_propagate(t: Seq<Token>, pos: int) -> Result<(Expr, nat), ParseError>
    decreases rem(t, pos), 0nat,
{
    match expect_at(t, pos + 1, Token::LParen) {
        Err(err) => Err(err),
        Ok(_) => match p_expr(t, pos + 2) {
            Err(err) => Err(err),
            Ok((inner, k)) => match expect_at(t, pos + 2 + k, Token::Comma) {
                Err(err) => Err(err),
                Ok(_) => match number_at(t, pos + 3 + k) {
                    Err(err) => Err(err),
                    Ok(time_step) => match expect_at(t, pos + 4 + k, Token::RParen) {
                        Err(err) => Err(err),
                        Ok(_) => Ok((Expr::Propagate(Box::new(inner), time_step), 5 + k)),
                    },
                },
            },
        },
    }
}

/// `'collapse' '(' expression ')'` at `pos`.
pub open spec fn p_collapse(t: Seq<Token>, pos: int) -> Result<(Expr, nat), ParseError>
    decreases rem(t, pos), 0nat,
{
    match expect_at(t, pos + 1, Token::LParen) {
        Err(err) => Err(err),
        Ok(_) => match p_expr(t, pos + 2) {
            Err(err) => Err(err),
            Ok((inner, k)) => match expect_at(t, pos + 2 + k, Token::RParen) {
                Err(err) => Err(err),
                Ok(_) => Ok((Expr::Collapse(Box::new(inner)), 3 + k)),
            },
        },
    }
}

/// `'chaotic' '(' NUMBER ',' NUMBER ')'` at `pos`.
pub open spec fn p_chaotic(t: Seq<Token>, pos: int) -> Result<(Expr, nat), ParseError>
    decreases rem(t, pos), 0nat,
{
    match expect_at(t, pos + 1, Token::LParen) {
        Err(err) => Err(err),
        Ok(_) => match number_at(t, pos + 2) {
            Err(err) => Err(err),
            Ok(mean) => match expect_at(t, pos + 3, Token::Comma) {
                Err(err) => Err(err),
                Ok(_) => match number_at(t, pos + 4) {
                    Err(err) => Err(err),
                    Ok(variance) => match expect_at(t, pos + 5, Token::RParen) {
                        Err(err) => Err(err),
                        Ok(_) => Ok((Expr::ChaoticConstructor(mean, variance), 6)),
                    },
                },
            },
        },
    }
}

/// `atom := IDENTIFIER | NUMBER | '(' expression ')'` at `pos`.
pub open spec fn p_atom(t: Seq<Token>, pos: int) -> Result<(Expr, nat), ParseError>
    decreases rem(t, pos), 0nat,
{
    match tok_at(t, pos) {
        Some(Token::Identifier(n)) => Ok((Expr::Var(n), 1)),
        Some(Token::Number(v)) => Ok((Expr::Literal(v), 1)),
        Some(Token::LParen) => match p_expr(t, pos + 1) {
            Err(err) => Err(err),
            Ok((e, k)) => match expect_at(t, pos + 1 + k, Token::RParen) {
                Err(err) => Err(err),
                Ok(_) => Ok((e, k + 2)),
            },
        },
        Some(Token::RParen) => Err(ParseError::UnexpectedRParen),
        Some(x) => Err(ParseError::UnexpectedToken(x)),
        None => Err(ParseError::UnexpectedEnd),
    }
}

/// `let_stmt := 'let' IDENTIFIER '=' expression` at `pos`.
pub open spec fn p_let(t: Seq<Token>, pos: int) -> Result<(Expr, nat), ParseError> {
    match tok_at(t, pos + 1) {
        Some(Token::Identifier(name)) => match expect_at(t, pos + 2, Token::Equals) {
            Err(err) => Err(err),
            Ok(_) => match p_expr(t, pos + 3) {
                Err(err) => Err(err),
                Ok((e, k)) => Ok((Expr::Let(name, Box::new(e)), 3 + k)),
            },
        },
        Some(x) => Err(ParseError::ExpectedIdentifier { found: Some(x) }),
        None => Err(ParseError::ExpectedIdentifier { found: None }),
    }
}

/// `statement := let_stmt | expression` at `pos`.
pub open spec fn p_statement(t: Seq<Token>, pos: int) -> Result<(Expr, nat), ParseError> {
    if tok_at(t, pos) == Some(Token::Let) {
        p_let(t, pos)
    } else {
        p_expr(t, pos)
    }
}

/// The number of semicolons from `pos` on.
pub open spec fn skip_semis(t: Seq<Token>, pos: int) -> nat
    decreases rem(t, pos),
{
    if tok_at(t, pos) == Some(Token::Semicolon) {
        1 + skip_semis(t, pos + 1)
    } else {
        0
    }
}

/// Every expression or statement that is read takes at least one token.
pub proof fn lemma_consumes(t: Seq<Token>, pos: int)
    ensures
        p_term(t, pos) matches Ok((_, k)) ==> k >= 1,
        p_expr(t, pos) matches Ok((_, k)) ==> k >= 1,
        p_statement(t, pos) matches Ok((_, k)) ==> k >= 1,
{
}

/// The statements from `pos` to the end of the tokens.
pub open spec fn p_statements(t: Seq<Token>, pos: int) -> Result<Seq<Expr>, ParseError>
    decreases rem(t, pos),
{
    let p: int = pos + skip_semis(t, pos);
    if tok_at(t, p) is None {
        Ok(seq![])
    } else {
        match p_statement(t, p) {
            Err(err) => Err(err),
            Ok((s, k)) => {
                proof {
                    lemma_consumes(t, p);
                }
                match p_statements(t, p + k) {
                    Err(err) => Err(err),
                    Ok(ss) => Ok(seq![s] + ss),
                }
            },
        }
    }
}

/// Shifts the count of tokens taken by `n`.
pub open spec fn taken_after(r: Result<(Expr, nat), ParseError>, n: nat) -> Result<(Expr, nat), ParseError> {
    match r {
        Ok((e, k)) => Ok((e, n + k)),
        Err(err) => Err(err),
    }
}

/// The parser's result `r` and end position `end` agree with the
/// specification's outcome `s` for a parse that started at `start`.
pub open spec fn agrees(s: Result<(Expr, nat), ParseError>, start: int, r: Result<Expr, ParseError>, end: int) -> bool {
    match s {
        Ok((e, k)) => r == Ok::<Expr, ParseError>(e) && end == start + k,
        Err(err) => r == Err::<Expr, ParseError>(err),
    }
}

/// What a whole program parses to, given the statements read from it.
pub open spec fn program_result(s: Result<Seq<Expr>, ParseError>, r: Result<Expr, ParseError>) -> bool {
    match s {
        Err(err) => r == Err::<Expr, ParseError>(err),
        Ok(ss) => if ss.len() == 0 {
            r == Err::<Expr, ParseError>(ParseError::EmptyInput)
        } else if ss.len() == 1 {
            r == Ok::<Expr, ParseError>(ss[0])
        } else {
            r matches Ok(Expr::Block(v)) && v@ == ss
        },
    }
}

/// Recursive descent parser over the tokens of one input.
pub struct Parser {
    tokens: Vec<Token>,
    pos: usize,
}

impl Parser {
    /// The tokens being parsed.
    pub closed spec fn tokens(&self) -> Seq<Token> {
        self.tokens@
    }

    /// The position of the next token to read.
    pub closed spec fn position(&self) -> int {
        self.pos as int
    }

    /// The position lies within the tokens.
    pub closed spec fn wf(&self) -> bool {
        self.pos <= self.tokens@.len()
    }

    /// A well-formed parser's position lies between the first token and the
    /// end of the tokens.
    pub proof fn lemma_position(&self)
        requires
            self.wf(),
        ensures
            0 <= self.position() <= self.tokens().len(),
    {
    }

    /// Creates a parser over the tokens of `input`, positioned at the first.
    ///
    /// `number_value` converts the text of a numeric literal to the bit
    /// pattern of its binary64 value, or rejects it.
    pub fn new<F: Fn(&str) -> Option<u64>>(input: &str, number_value: &F) -> (r: Result<Self, ParseError>)
        requires
            forall|t: &str| #[trigger] number_value.requires((t,)),
        ensures
            r matches Ok(p) ==> p.wf() && p.position() == 0
                && tokenized(*number_value, input@, 0, Ok(p.tokens())),
            r matches Err(e) ==> e matches ParseError::Lex(le)
                && tokenized(*number_value, input@, 0, Err(le)),
    {
        let mut lexer = Lexer::new(input);
        match lexer.tokenize(number_value) {
            Ok(tokens) => Ok(Parser { tokens, pos: 0 }),
            Err(e) => Err(ParseError::Lex(e)),
        }
    }

    /// Consumes and returns the current token.
    fn advance(&mut self) -> (r: Option<Token>)
        requires
            old(self).wf(),
        ensures
            final(self).wf(),
            final(self).tokens == old(self).tokens,
            r == tok_at(old(self).tokens@, old(self).pos as int),
            final(self).pos == (if r is Some { old(self).pos + 1 } else { old(self).pos as int }),
    {
        if self.pos < self.tokens.len() {
            let t = self.tokens[self.pos].copy();
            self.pos = self.pos + 1;
            Some(t)
        } else {
            None
        }
    }

    /// Consumes the current token, which must be of the same variant as `expected`.
    fn expect(&mut self, expected: Token) -> (r: Result<(), ParseError>)
        requires
            old(self).wf(),
        ensures
            final(self).wf(),
            final(self).tokens == old(self).tokens,
            r == expect_at(old(self).tokens@, old(self).pos as int, expected),
            r is Ok ==> final(self).pos == old(self).pos + 1,
    {
        match self.advance() {
            None => Err(ParseError::Expected { expected, found: None }),
            Some(token) => {
                if token_kind(&token) == token_kind(&expected) {
                    Ok(())
                } else {
                    Err(ParseError::Expected { expected, found: Some(token) })
                }
            },
        }
    }

    /// Consumes a number token and returns its value.
    fn parse_number(&mut self) -> (r: Result<u64, ParseError>)
        requires
            old(self).wf(),
        ensures
            final(self).wf(),
            final(self).tokens == old(self).tokens,
            r == number_at(old(self).tokens@, old(self).pos as int),
            r is Ok ==> final(self).pos == old(self).pos + 1,
    {
        match self.advance() {
            Some(Token::Number(value)) => Ok(value),
            Some(token) => Err(ParseError::ExpectedNumber { found: Some(token) }),
            None => Err(ParseError::ExpectedNumber { found: None }),
        }
    }

    /// Parses a full expression: `term ('+' term)*`.
    pub fn parse_expr(&mut self) -> (r: Result<Expr, ParseError>)
        requires
            old(self).wf(),
        ensures
            final(self).wf(),
            final(self).tokens() == old(self).tokens(),
            agrees(p_expr(old(self).tokens(), old(self).position()), old(self).position(), r, final(self).position()),
        decreases old(self).tokens().len() - old(self).position(), 3nat,
    {
        let ghost t = self.tokens@;
        let ghost start = self.pos as int;
        let mut left = match self.parse_term() {
            Ok(e) => e,
            Err(err) => return Err(err),
        };
        proof {
            lemma_consumes(t, start);
        }
        while self.pos < self.tokens.len() && token_kind(&self.tokens[self.pos]) == 2
            invariant
                self.wf(),
                self.tokens@ == t,
                t == old(self).tokens@,
                start == old(self).pos as int,
                start < self.pos,
                p_expr(t, start) == taken_after(p_expr_rest(t, self.pos as int, left), (self.pos - start) as nat),
            decreases t.len() - self.pos,
        {
            let ghost p = self.pos as int;
            self.advance();
            let right = match self.parse_term() {
                Ok(e) => e,
                Err(err) => return Err(err),
            };
            proof {
                lemma_consumes(t, p + 1);
            }
            left = Expr::add(left, right);
        }
        Ok(left)
    }

    /// Parses a term: function call, chaotic constructor or atom.
    fn parse_term(&mut self) -> (r: Result<Expr, ParseError>)
        requires
            old(self).wf(),
        ensures
            final(self).wf(),
            final(self).tokens() == old(self).tokens(),
            agrees(p_term(old(self).tokens(), old(self).position()), old(self).position(), r, final(self).position()),
        decreases old(self).tokens().len() - old(self).position(), 1nat,
    {
        proof {
            reveal_strlit("propagate");
            reveal_strlit("collapse");
            assert("propagate"@ =~= word_propagate());
            assert("collapse"@ =~= word_collapse());
        }
        if self.pos < self.tokens.len() {
            match &self.tokens[self.pos] {
                Token::Identifier(name) => {
                    if str_eq(name.as_str(), "propagate") {
                        return self.parse_propagate();
                    } else if str_eq(name.as_str(), "collapse") {
                        return self.parse_collapse();
                    }
                },
                Token::Chaotic => {
                    return self.parse_chaotic();
                },
                _ => {},
            }
        }
        self.parse_atom()
    }

    /// Parses `propagate '(' expression ',' number ')'`.
    fn parse_propagate(&mut self) -> (r: Result<Expr, ParseError>)
        requires
            old(self).wf(),
            old(self).pos < old(self).tokens@.len(),
        ensures
            final(self).wf(),
            final(self).tokens() == old(self).tokens(),
            agrees(p_propagate(old(self).tokens(), old(self).position()), old(self).position(), r, final(self).position()),
        decreases old(self).tokens().len() - old(self).position(), 0nat,
    {
        self.advance();
        if let Err(err) = self.expect(Token::LParen) {
            return Err(err);
        }
        let inner = match self.parse_expr() {
            Ok(e) => e,
            Err(err) => return Err(err),
        };
        if let Err(err) = self.expect(Token::Comma) {
            return Err(err);
        }
        let time_step: u64 = match self.parse_number() {
            Ok(v) => v,
            Err(err) => return Err(err),
        };
        if let Err(err) = self.expect(Token::RParen) {
            return Err(err);
        }
        Ok(Expr::propagate(inner, time_step))
    }

    /// Parses `collapse '(' expression ')'`.
    fn parse_collapse(&mut self) -> (r: Result<Expr, ParseError>)
        requires
            old(self).wf(),
            old(self).pos < old(self).tokens@.len(),
        ensures
            final(self).wf(),
            final(self).tokens() == old(self).tokens(),
            agrees(p_collapse(old(self).tokens(), old(self).position()), old(self).position(), r, final(self).position()),
        decreases old(self).tokens().len() - old(self).position(), 0nat,
    {
        self.advance();
        if let Err(err) = self.expect(Token::LParen) {
            return Err(err);
        }
        let inner = match self.parse_expr() {
            Ok(e) => e,
            Err(err) => return Err(err),
        };
        if let Err(err) = self.expect(Token::RParen) {
            return Err(err);
        }
        Ok(Expr::collapse(inner))
    }

    /// Parses `chaotic '(' number ',' number ')'`.
    fn parse_chaotic(&mut self) -> (r: Result<Expr, ParseError>)
        requires
            old(self).wf(),
            old(self).pos < old(self).tokens@.len(),
        ensures
            final(self).wf(),
            final(self).tokens() == old(self).tokens(),
            agrees(p_chaotic(old(self).tokens(), old(self).position()), old(self).position(), r, final(self).position()),
        decreases old(self).tokens().len() - old(self).position(), 0nat,
    {
        self.advance();
        if let Err(err) = self.expect(Token::LParen) {
            return Err(err);
        }
        let mean: u64 = match self.parse_number() {
            Ok(v) => v,
            Err(err) => return Err(err),
        };
        if let Err(err) = self.expect(Token::Comma) {
            return Err(err);
        }
        let variance: u64 = match self.parse_number() {
            Ok(v) => v,
            Err(err) => return Err(err),
        };
        if let Err(err) = self.expect(Token::RParen) {
            return Err(err);
        }
        Ok(Expr::chaotic(mean, variance))
    }

    /// Parses an atom: identifier, number, or parenthesized expression.
    fn parse_atom(&mut self) -> (r: Result<Expr, ParseError>)
        requires
            old(self).wf(),
        ensures
            final(self).wf(),
            final(self).tokens() == old(self).tokens(),
            agrees(p_atom(old(self).tokens(), old(self).position()), old(self).position(), r, final(self).position()),
        decreases old(self).tokens().len() - old(self).position(), 0nat,
    {
        if self.pos >= self.tokens.len() {
            return Err(ParseError::UnexpectedEnd);
        }
        let kind: u8 = token_kind(&self.tokens[self.pos]);
        if kind == 0 || kind == 1 {
            match self.advance() {
                Some(Token::Identifier(name)) => Ok(Expr::Var(name)),
                Some(Token::Number(value)) => Ok(Expr::lit(value)),
                _ => Err(ParseError::UnexpectedEnd),
            }
        } else if kind == 3 {
            self.advance();
            let expr = match self.parse_expr() {
                Ok(e) => e,
                Err(err) => return Err(err),
            };
            if let Err(err) = self.expect(Token::RParen) {
                return Err(err);
            }
            Ok(expr)
        } else if kind == 4 {
            Err(ParseError::UnexpectedRParen)
        } else {
            Err(ParseError::UnexpectedToken(self.tokens[self.pos].copy()))
        }
    }

    /// Parses `let IDENTIFIER '=' expression`.
    fn parse_let(&mut self) -> (r: Result<Expr, ParseError>)
        requires
            old(self).wf(),
            old(self).pos < old(self).tokens@.len(),
        ensures
            final(self).wf(),
            final(self).tokens() == old(self).tokens(),
            agrees(p_let(old(self).tokens(), old(self).position()), old(self).position(), r, final(self).position()),
    {
        self.advance();
        let name = match self.advance() {
            Some(Token::Identifier(name)) => name,
            Some(token) => return Err(ParseError::ExpectedIdentifier { found: Some(token) }),
            None => return Err(ParseError::ExpectedIdentifier { found: None }),
        };
        if let Err(err) = self.expect(Token::Equals) {
            return Err(err);
        }
        let expr = match self.parse_expr() {
            Ok(e) => e,
            Err(err) => return Err(err),
        };
        Ok(Expr::Let(name, Box::new(expr)))
    }

    /// Parses a statement: a `let` binding or an expression.
    fn parse_statement(&mut self) -> (r: Result<Expr, ParseError>)
        requires
            old(self).wf(),
        ensures
            final(self).wf(),
            final(self).tokens() == old(self).tokens(),
            agrees(p_statement(old(self).tokens(), old(self).position()), old(self).position(), r, final(self).position()),
    {
        if self.pos < self.tokens.len() && token_kind(&self.tokens[self.pos]) == 8 {
            self.parse_let()
        } else {
            self.parse_expr()
        }
    }

    /// Skips semicolons.
    fn skip_semicolons(&mut self)
        requires
            old(self).wf(),
        ensures
            final(self).wf(),
            final(self).tokens() == old(self).tokens(),
            final(self).position() == old(self).position() + skip_semis(old(self).tokens(), old(self).position()),
    {
        let ghost t = self.tokens@;
        let ghost start = self.pos as int;
        while self.pos < self.tokens.len() && token_kind(&self.tokens[self.pos]) == 6
            invariant
                self.wf(),
                self.tokens@ == t,
                t == old(self).tokens@,
                start == old(self).pos as int,
                start <= self.pos,
                skip_semis(t, start) == (self.pos - start) + skip_semis(t, self.pos as int),
            decreases t.len() - self.pos,
        {
            self.pos = self.pos + 1;
        }
    }

    /// Parses the remaining tokens as a program.
    ///
    /// A program of one statement is that statement; of several, a block.
    pub fn parse(&mut self) -> (r: Result<Expr, ParseError>)
        requires
            old(self).wf(),
        ensures
            final(self).wf(),
            final(self).tokens() == old(self).tokens(),
            program_result(p_statements(old(self).tokens(), old(self).position()), r),
    {
        let ghost t = self.tokens@;
        let ghost start = self.pos as int;
        let mut statements: Vec<Expr> = Vec::new();
        proof {
            lemma_statements_skip(t, start);
        }
        self.skip_semicolons();
        assert(seq![] + Seq::<Expr>::empty() =~= Seq::<Expr>::empty());
        loop
            invariant
                self.wf(),
                self.tokens@ == t,
                t == old(self).tokens@,
                start == old(self).pos as int,
                p_statements(t, start) == with_prefix(statements@, p_statements(t, self.pos as int)),
            ensures
                self.wf(),
                self.tokens@ == t,
                p_statements(t, start) == Ok::<Seq<Expr>, ParseError>(statements@),
            decreases t.len() - self.pos,
        {
            let ghost p0 = self.pos as int;
            proof {
                lemma_statements_skip(t, p0);
            }
            self.skip_semicolons();
            let ghost p = self.pos as int;
            if self.pos >= self.tokens.len() {
                assert(p_statements(t, p) == Ok::<Seq<Expr>, ParseError>(seq![]));
                assert(statements@ + Seq::<Expr>::empty() =~= statements@);
                break;
            }
            proof {
                lemma_skip_semis_end(t, p0);
            }
            let stmt = match self.parse_statement() {
                Ok(e) => e,
                Err(err) => return Err(err),
            };
            proof {
                lemma_consumes(t, p);
                let k: nat = (self.pos - p) as nat;
                assert(p_statement(t, p) == Ok::<(Expr, nat), ParseError>((stmt, k)));
                match p_statements(t, self.pos as int) {
                    Ok(ss) => {
                        assert(statements@.push(stmt) + ss =~= statements@ + (seq![stmt] + ss));
                    },
                    Err(_) => {},
                }
            }
            statements.push(stmt);
        }
        let n: usize = statements.len();
        if n == 0 {
            Err(ParseError::EmptyInput)
        } else if n == 1 {
            Ok(statements.remove(0))
        } else {
            Ok(Expr::Block(statements))
        }
    }
}

/// `r`, with `pre` put before the statements when it succeeded.
pub open spec fn with_prefix(pre: Seq<Expr>, r: Result<Seq<Expr>, ParseError>) -> Result<Seq<Expr>, ParseError> {
    match r {
        Ok(ss) => Ok(pre + ss),
        Err(err) => Err(err),
    }
}

/// After the semicolons from `pos`, the next token is not a semicolon.
pub proof fn lemma_skip_semis_end(t: Seq<Token>, pos: int)
    ensures
        tok_at(t, pos + skip_semis(t, pos)) != Some(Token::Semicolon),
    decreases rem(t, pos),
{
    if tok_at(t, pos) == Some(Token::Semicolon) {
        lemma_skip_semis_end(t, pos + 1);
        assert(pos + skip_semis(t, pos) == pos + 1 + skip_semis(t, pos + 1));
    }
}

/// Reading statements from `pos` is reading them after its semicolons.
pub proof fn lemma_statements_skip(t: Seq<Token>, pos: int)
    ensures
        p_statements(t, pos) == p_statements(t, pos + skip_semis(t, pos)),
{
    lemma_skip_semis_end(t, pos);
    let p: int = pos + skip_semis(t, pos);
    assert(skip_semis(t, p) == 0);
}

/// The variant of a token, ignoring its payload.
pub fn token_kind(t: &Token) -> (r: u8)
    ensures
        r == kind(*t),
{
    match t {
        Token::Identifier(_) => 0,
        Token::Number(_) => 1,
        Token::Plus => 2,
        Token::LParen => 3,
        Token::RParen => 4,
        Token::Comma => 5,
        Token::Semicolon => 6,
        Token::Equals => 7,
        Token::Let => 8,
        Token::Chaotic => 9,
    }
}

/// `r` is what parsing `input` gives: the lexer's error, or the program read
/// from the tokens the lexer gives.
pub open spec fn parsed<F: Fn(&str) -> Option<u64>>(f: F, input: Seq<char>, r: Result<Expr, ParseError>) -> bool {
    ||| exists|le: LexError| tokenized(f, input, 0, Err(le)) && r == Err::<Expr, ParseError>(ParseError::Lex(le))
    ||| exists|toks: Seq<Token>| tokenized(f, input, 0, Ok(toks)) && program_result(p_statements(toks, 0), r)
}

/// Parsing fails on the lexer's error exactly when the lexer fails.
///
/// Law: with a conversion that gives one result per text, when tokenizing
/// `input` fails with `e`, parsing it fails with `ParseError::Lex` of that
/// error; when tokenizing succeeds with `toks`, parsing gives the program
/// read from tokens alike to `toks`.
pub proof fn law_parse_follows_lexer<F: Fn(&str) -> Option<u64>>(
    f: F,
    input: Seq<char>,
    lexed: Result<Seq<Token>, LexError>,
    r: Result<Expr, ParseError>,
)
    requires
        deterministic(f),
        tokenized(f, input, 0, lexed),
        parsed(f, input, r),
    ensures
        lexed matches Err(e) ==> (r matches Err(ParseError::Lex(e2)) && outcomes_alike(lexed, Err(e2))),
        lexed is Ok ==> exists|toks: Seq<Token>|
            outcomes_alike(lexed, Ok(toks)) && #[trigger] program_result(p_statements(toks, 0), r),
{
    if exists|le: LexError| tokenized(f, input, 0, Err(le)) && r == Err::<Expr, ParseError>(ParseError::Lex(le)) {
        let le = choose|le: LexError| tokenized(f, input, 0, Err(le)) && r == Err::<Expr, ParseError>(ParseError::Lex(le));
        law_tokenize_deterministic(f, input, 0, lexed, Err(le));
    } else {
        let toks = choose|toks: Seq<Token>| tokenized(f, input, 0, Ok(toks)) && program_result(p_statements(toks, 0), r);
        law_tokenize_deterministic(f, input, 0, lexed, Ok(toks));
    }
}

/// Parses a string into an `Expr`.
///
/// `number_value` converts the text of a numeric literal to the bit pattern
/// of its binary64 value, or rejects it.
pub fn parse<F: Fn(&str) -> Option<u64>>(input: &str, number_value: &F) -> (r: Result<Expr, ParseError>)
    requires
        forall|t: &str| #[trigger] number_value.requires((t,)),
    ensures
        parsed(*number_value, input@, r),
{
    match Parser::new(input, number_value) {
        Ok(mut parser) => {
            let r = parser.parse();
            proof {
                let toks = parser.tokens();
                assert(tokenized(*number_value, input@, 0, Ok(toks)));
            }
            r
        },
        Err(e) => Err(e),
    }
}

} // verus!
