//! The messages that report lexing and parsing errors.
//!
//! A message shows the tokens involved as their `Debug` form; a number
//! token shows its binary64 value, whose text the caller gives (`number`),
//! and a rejected numeric literal is reported with the reason the caller's
//! conversion gives (`reason`).

use vstd::prelude::*;
use crate::lexer::{LexError, Token};
use crate::parser::ParseError;
use crate::text::{debug_str, push_char, push_str, str_debug};

verus! {

/// `text` is a text that `number` may give for the number with bits `v`.
pub open spec fn number_shown<F: Fn(u64) -> String>(number: F, v: u64, text: Seq<char>) -> bool {
    exists|s: String| s@ == text && #[trigger] number.ensures((v,), s)
}

/// `text` is a text that `reason` may give for the literal `lit`.
pub open spec fn reason_given<G: Fn(&str) -> String>(reason: G, lit: Seq<char>, text: Seq<char>) -> bool {
    exists|l: &str, s: String| l@ == lit && s@ == text && #[trigger] reason.ensures((l,), s)
}

/// The `Debug` form of a token other than a number.
pub open spec fn plain_token_text(t: Token) -> Seq<char> {
    match t {
        Token::Identifier(s) => "Identifier("@ + str_debug(s@) + ")"@,
        Token::Number(_) => "Number"@,
        Token::Plus => "Plus"@,
        Token::LParen => "LParen"@,
        Token::RParen => "RParen"@,
        Token::Comma => "Comma"@,
        Token::Semicolon => "Semicolon"@,
        Token::Equals => "Equals"@,
        Token::Let => "Let"@,
        Token::Chaotic => "Chaotic"@,
    }
}

/// `text` is the `Debug` form of token `t`, a number shown as `number` gives it.
pub open spec fn token_shown<F: Fn(u64) -> String>(number: F, t: Token, text: Seq<char>) -> bool {
    match t {
        Token::Number(v) => exists|x: Seq<char>| number_shown(number, v, x) && text == "Number("@ + x + ")"@,
        _ => text == plain_token_text(t),
    }
}

/// `text` shows what was found: a token, or the end of the input.
pub open spec fn found_shown<F: Fn(u64) -> String>(number: F, found: Option<Token>, text: Seq<char>) -> bool {
    match found {
        Some(t) => token_shown(number, t, text),
        None => text == "end of input"@,
    }
}

/// `m` is the message of the parse error `e`.
pub open spec fn parse_error_message<F: Fn(u64) -> String, G: Fn(&str) -> String>(
    number: F,
    reason: G,
    e: ParseError,
    m: Seq<char>,
) -> bool {
    match e {
        ParseError::Lex(le) => match le {
            LexError::ExpectedNumber => m == "Expected number"@,
            LexError::InvalidNumber(lit) => exists|why: Seq<char>|
                reason_given(reason, lit@, why) && m == "Invalid number '"@ + lit@ + "': "@ + why,
            LexError::UnexpectedChar(c) => m == "Unexpected character: '"@ + seq![c] + "'"@,
        },
        ParseError::Expected { expected, found } => exists|x: Seq<char>, y: Seq<char>|
            token_shown(number, expected, x) && found_shown(number, found, y) && m == "Expected "@ + x
                + ", found "@ + y,
        ParseError::ExpectedNumber { found } => exists|y: Seq<char>|
            found_shown(number, found, y) && m == "Expected number, found "@ + y,
        ParseError::ExpectedIdentifier { found } => exists|y: Seq<char>|
            found_shown(number, found, y) && m == "Expected identifier after 'let', found "@ + y,
        ParseError::UnexpectedRParen => m == "Unexpected ')'"@,
        ParseError::UnexpectedToken(t) => exists|x: Seq<char>|
            token_shown(number, t, x) && m == "Unexpected token: "@ + x,
        ParseError::UnexpectedEnd => m == "Unexpected end of expression"@,
        ParseError::EmptyInput => m == "Empty input"@,
    }
}

/// The `Debug` form of a token.
pub fn token_text<F: Fn(u64) -> String>(t: &Token, number: &F) -> (r: String)
    requires
        forall|v: u64| #[trigger] number.requires((v,)),
    ensures
        token_shown(*number, *t, r@),
{
    match t {
        Token::Identifier(s) => {
            let mut r = "Identifier(".to_owned();
            let d = debug_str(s.as_str());
            push_str(&mut r, d.as_str());
            push_str(&mut r, ")");
            r
        },
        Token::Number(v) => {
            let x = number(*v);
            let mut r = "Number(".to_owned();
            push_str(&mut r, x.as_str());
            push_str(&mut r, ")");
            assert(number_shown(*number, *v, x@));
            r
        },
        Token::Plus => "Plus".to_owned(),
        Token::LParen => "LParen".to_owned(),
        Token::RParen => "RParen".to_owned(),
        Token::Comma => "Comma".to_owned(),
        Token::Semicolon => "Semicolon".to_owned(),
        Token::Equals => "Equals".to_owned(),
        Token::Let => "Let".to_owned(),
        Token::Chaotic => "Chaotic".to_owned(),
    }
}

fn found_text<F: Fn(u64) -> String>(found: &Option<Token>, number: &F) -> (r: String)
    requires
        forall|v: u64| #[trigger] number.requires((v,)),
    ensures
        found_shown(*number, *found, r@),
{
    match found {
        Some(t) => token_text(t, number),
        None => "end of input".to_owned(),
    }
}

impl ParseError {
    /// The message that reports this error.
    ///
    /// `number` gives the text that shows a number's value; `reason` gives
    /// why the number conversion rejected a literal.
    pub fn message<F: Fn(u64) -> String, G: Fn(&str) -> String>(&self, number: &F, reason: &G) -> (r: String)
        requires
            forall|v: u64| #[trigger] number.requires((v,)),
            forall|l: &str| #[trigger] reason.requires((l,)),
        ensures
            parse_error_message(*number, *reason, *self, r@),
    {
        match self {
            ParseError::Lex(le) => match le {
                LexError::ExpectedNumber => "Expected number".to_owned(),
                LexError::InvalidNumber(lit) => {
                    let why = reason(lit.as_str());
                    let mut r = "Invalid number '".to_owned();
                    push_str(&mut r, lit.as_str());
                    push_str(&mut r, "': ");
                    push_str(&mut r, why.as_str());
                    assert(reason_given(*reason, lit@, why@));
                    r
                },
                LexError::UnexpectedChar(c) => {
                    let mut r = "Unexpected character: '".to_owned();
                    push_char(&mut r, *c);
                    push_str(&mut r, "'");
                    assert(r@ =~= "Unexpected character: '"@ + seq![*c] + "'"@);
                    r
                },
            },
            ParseError::Expected { expected, found } => {
                let x = token_text(expected, number);
                let y = found_text(found, number);
                let mut r = "Expected ".to_owned();
                push_str(&mut r, x.as_str());
                push_str(&mut r, ", found ");
                push_str(&mut r, y.as_str());
                assert(token_shown(*number, *expected, x@) && found_shown(*number, *found, y@));
                r
            },
            ParseError::ExpectedNumber { found } => {
                let y = found_text(found, number);
                let mut r = "Expected number, found ".to_owned();
                push_str(&mut r, y.as_str());
                assert(found_shown(*number, *found, y@));
                r
            },
            ParseError::ExpectedIdentifier { found } => {
                let y = found_text(found, number);
                let mut r = "Expected identifier after 'let', found ".to_owned();
                push_str(&mut r, y.as_str());
                assert(found_shown(*number, *found, y@));
                r
            },
            ParseError::UnexpectedRParen => "Unexpected ')'".to_owned(),
            ParseError::UnexpectedToken(t) => {
                let x = token_text(t, number);
                let mut r = "Unexpected token: ".to_owned();
                push_str(&mut r, x.as_str());
                assert(token_shown(*number, *t, x@));
                r
            },
            ParseError::UnexpectedEnd => "Unexpected end of expression".to_owned(),
            ParseError::EmptyInput => "Empty input".to_owned(),
        }
    }
}

} // verus!
