//! The lexer: source text to tokens.
//!
//! A numeric literal's value is an IEEE-754 binary64 number, carried here by
//! its bit pattern (`u64`).  The text of a literal is turned into that bit
//! pattern by a conversion the caller hands in (the standard library's float
//! parsing); everything else about tokenizing is decided here.

use vstd::prelude::*;
use crate::text::{
    is_alphabetic, is_alphanumeric, is_ascii_digit, is_digit, is_whitespace, push_char, str_eq,
    chars_of, unicode_alphabetic, unicode_numeric, unicode_white_space,
};

verus! {

/// Tokens of the Lorenz language.
#[derive(Debug, PartialEq)]
pub enum Token {
    /// An identifier (variable name): e.g. `temp`, `humidity`.
    Identifier(String),
    /// A numeric literal, as the bit pattern of its binary64 value.
    Number(u64),
    /// `+`
    Plus,
    /// `(`
    LParen,
    /// `)`
    RParen,
    /// `,`
    Comma,
    /// `;`
    Semicolon,
    /// `=`
    Equals,
    /// Keyword `let`.
    Let,
    /// Keyword `chaotic`.
    Chaotic,
}

impl Token {
    /// An exact copy of the token.
    pub fn copy(&self) -> (r: Token)
        ensures
            r == *self,
    {
        match self {
            Token::Identifier(s) => Token::Identifier(s.clone()),
            Token::Number(v) => Token::Number(*v),
            Token::Plus => Token::Plus,
            Token::LParen => Token::LParen,
            Token::RParen => Token::RParen,
            Token::Comma => Token::Comma,
            Token::Semicolon => Token::Semicolon,
            Token::Equals => Token::Equals,
            Token::Let => Token::Let,
            Token::Chaotic => Token::Chaotic,
        }
    }
}

/// Errors of the lexer.
#[derive(Debug, PartialEq)]
pub enum LexError {
    /// A `-` that is not followed by a number.
    ExpectedNumber,
    /// A numeric literal whose text the float conversion rejected.
    InvalidNumber(String),
    /// A character that starts no token.
    UnexpectedChar(char),
}

/// A token as the lexer reads it, before numeric literals are converted:
/// a number is still its source text.
pub enum Lexeme {
    Identifier(Seq<char>),
    Number(Seq<char>),
    Plus,
    LParen,
    RParen,
    Comma,
    Semicolon,
    Equals,
    Let,
    Chaotic,
}

/// Whitespace that separates tokens: every Unicode whitespace except newline.
pub open spec fn is_blank(c: char) -> bool {
    unicode_white_space(c) && c != '\n'
}

/// A character that may continue an identifier: a letter, a numeric
/// character or `_`, and never whitespace.
pub open spec fn is_ident_char(c: char) -> bool {
    !unicode_white_space(c) && (unicode_alphabetic(c) || unicode_numeric(c) || c == '_')
}

/// The first position at or after `pos` that is not blank.
pub open spec fn skip_blank(input: Seq<char>, pos: int) -> int
    decreases input.len() - pos,
{
    if 0 <= pos < input.len() && is_blank(input[pos]) {
        skip_blank(input, pos + 1)
    } else {
        pos
    }
}

/// The first position at or after `pos` that is not an ASCII digit.
pub open spec fn skip_digits(input: Seq<char>, pos: int) -> int
    decreases input.len() - pos,
{
    if 0 <= pos < input.len() && is_digit(input[pos]) {
        skip_digits(input, pos + 1)
    } else {
        pos
    }
}

/// The first position at or after `pos` that cannot continue an identifier.
pub open spec fn skip_ident(input: Seq<char>, pos: int) -> int
    decreases input.len() - pos,
{
    if 0 <= pos < input.len() && is_ident_char(input[pos]) {
        skip_ident(input, pos + 1)
    } else {
        pos
    }
}

/// The end of a numeric literal that starts at `pos`:
/// an optional `-`, digits, and optionally `.` followed by digits.
pub open spec fn number_end(input: Seq<char>, pos: int) -> int {
    let p1: int = if 0 <= pos < input.len() && input[pos] == '-' { pos + 1 } else { pos };
    let p2: int = skip_digits(input, p1);
    if 0 <= p2 < input.len() && input[p2] == '.' {
        skip_digits(input, p2 + 1)
    } else {
        p2
    }
}

/// The keyword that a word spells, or an identifier.
pub open spec fn word_lexeme(w: Seq<char>) -> Lexeme {
    if w == seq!['l', 'e', 't'] {
        Lexeme::Let
    } else if w == seq!['c', 'h', 'a', 'o', 't', 'i', 'c'] {
        Lexeme::Chaotic
    } else {
        Lexeme::Identifier(w)
    }
}

/// `t` is the token for the word `w`: a keyword or an identifier.
pub open spec fn word_token(t: Token, w: Seq<char>) -> bool {
    match word_lexeme(w) {
        Lexeme::Let => t is Let,
        Lexeme::Chaotic => t is Chaotic,
        Lexeme::Identifier(x) => t matches Token::Identifier(s) && s@ == x,
        _ => false,
    }
}

/// The token that a one-character symbol stands for, if any.
pub open spec fn symbol_lexeme(c: char) -> Option<Lexeme> {
    if c == '+' {
        Some(Lexeme::Plus)
    } else if c == '(' {
        Some(Lexeme::LParen)
    } else if c == ')' {
        Some(Lexeme::RParen)
    } else if c == ',' {
        Some(Lexeme::Comma)
    } else if c == ';' {
        Some(Lexeme::Semicolon)
    } else if c == '=' {
        Some(Lexeme::Equals)
    } else {
        None
    }
}

/// The first position at or after `pos` that holds a newline, or the end of
/// the input: where a `//` comment stops.
pub open spec fn line_end(input: Seq<char>, pos: int) -> int
    decreases input.len() - pos,
{
    if 0 <= pos < input.len() && input[pos] != '\n' {
        line_end(input, pos + 1)
    } else {
        pos
    }
}

/// A `//` comment starts at `p`.
pub open spec fn comment_at(input: Seq<char>, p: int) -> bool {
    0 <= p && p + 1 < input.len() && input[p] == '/' && input[p + 1] == '/'
}

pub proof fn lemma_line_end(input: Seq<char>, pos: int)
    requires
        0 <= pos,
    ensures
        pos <= line_end(input, pos),
        line_end(input, pos) <= input.len() || line_end(input, pos) == pos,
        line_end(input, pos) < input.len() ==> input[line_end(input, pos)] == '\n',
    decreases input.len() - pos,
{
    if pos < input.len() {
        lemma_line_end(input, pos + 1);
    }
}

pub proof fn lemma_skip_bounds(input: Seq<char>, pos: int)
    requires
        0 <= pos,
    ensures
        pos <= skip_blank(input, pos),
        pos <= skip_digits(input, pos),
        pos <= skip_ident(input, pos),
        pos < input.len() && is_digit(input[pos]) ==> pos < skip_digits(input, pos),
        pos < input.len() && is_ident_char(input[pos]) ==> pos < skip_ident(input, pos),
        skip_blank(input, pos) <= input.len() || skip_blank(input, pos) == pos,
        skip_digits(input, pos) <= input.len() || skip_digits(input, pos) == pos,
        skip_ident(input, pos) <= input.len() || skip_ident(input, pos) == pos,
        0 <= skip_blank(input, pos) < input.len() ==> !is_blank(input[skip_blank(input, pos)]),
    decreases input.len() - pos,
{
    if pos < input.len() {
        lemma_skip_bounds(input, pos + 1);
    }
}

pub proof fn lemma_number_end(input: Seq<char>, pos: int)
    requires
        0 <= pos < input.len(),
        is_digit(input[pos]) || input[pos] == '-',
    ensures
        pos < number_end(input, pos) <= input.len(),
{
    lemma_skip_bounds(input, pos);
    lemma_skip_bounds(input, pos + 1);
    let p1: int = if input[pos] == '-' { pos + 1 } else { pos };
    let p2: int = skip_digits(input, p1);
    lemma_skip_bounds(input, p1);
    if 0 <= p2 < input.len() && input[p2] == '.' {
        lemma_skip_bounds(input, p2 + 1);
    }
}

/// What the lexer reads from position `pos` on: the lexemes, and the error
/// that stops it, if any.  Numeric literals stay text here.
pub open spec fn lex_from(input: Seq<char>, pos: int) -> (Seq<Lexeme>, Option<LexError>)
    decreases input.len() - pos,
    when 0 <= pos
{
    let p: int = skip_blank(input, pos);
    proof {
        lemma_skip_bounds(input, pos);
        lemma_line_end(input, p + 2);
        if 0 <= p < input.len() {
            lemma_skip_bounds(input, p);
            if is_digit(input[p]) || input[p] == '-' {
                lemma_number_end(input, p);
            }
        }
    }
    if p >= input.len() {
        (seq![], None)
    } else {
        let c = input[p];
        if c == '\n' {
            lex_from(input, p + 1)
        } else if comment_at(input, p) {
            lex_from(input, line_end(input, p + 2))
        } else if symbol_lexeme(c) is Some {
            let rest = lex_from(input, p + 1);
            (seq![symbol_lexeme(c)->0] + rest.0, rest.1)
        } else if is_digit(c) || c == '-' {
            let e: int = number_end(input, p);
            let text = input.subrange(p, e);
            if text == seq!['-'] {
                (seq![], Some(LexError::ExpectedNumber))
            } else {
                let rest = lex_from(input, e);
                (seq![Lexeme::Number(text)] + rest.0, rest.1)
            }
        } else if unicode_alphabetic(c) || c == '_' {
            let e: int = skip_ident(input, p);
            let rest = lex_from(input, e);
            (seq![word_lexeme(input.subrange(p, e))] + rest.0, rest.1)
        } else {
            (seq![], Some(LexError::UnexpectedChar(c)))
        }
    }
}

/// The number conversion `f` turns the text `text` into `r`.
pub open spec fn converts<F: Fn(&str) -> Option<u64>>(f: F, text: Seq<char>, r: Option<u64>) -> bool {
    exists|s: &str| s@ == text && #[trigger] f.ensures((s,), r)
}

/// The conversion accepts `text`, giving some value.
pub open spec fn accepts<F: Fn(&str) -> Option<u64>>(f: F, text: Seq<char>) -> bool {
    exists|v: u64| converts(f, text, Some(v))
}

/// A token is what a lexeme becomes: a number its converted value, anything
/// else itself.
pub open spec fn token_of<F: Fn(&str) -> Option<u64>>(f: F, t: Token, l: Lexeme) -> bool {
    match l {
        Lexeme::Identifier(w) => t matches Token::Identifier(s) && s@ == w,
        Lexeme::Number(text) => t matches Token::Number(v) && converts(f, text, Some(v)),
        Lexeme::Plus => t is Plus,
        Lexeme::LParen => t is LParen,
        Lexeme::RParen => t is RParen,
        Lexeme::Comma => t is Comma,
        Lexeme::Semicolon => t is Semicolon,
        Lexeme::Equals => t is Equals,
        Lexeme::Let => t is Let,
        Lexeme::Chaotic => t is Chaotic,
    }
}

/// `toks` are the lexemes `ls`, each converted.
pub open spec fn tokens_of<F: Fn(&str) -> Option<u64>>(
    f: F,
    toks: Seq<Token>,
    ls: Seq<Lexeme>,
) -> bool {
    &&& toks.len() == ls.len()
    &&& forall|i: int| 0 <= i < toks.len() ==> #[trigger] token_of(f, toks[i], ls[i])
}

/// The outcome of tokenizing `input` from `pos`, given conversion `f`:
/// the lexemes converted in order; or the first numeric literal that `f`
/// rejects; or the lexical error that stops the lexer.
pub open spec fn tokenized<F: Fn(&str) -> Option<u64>>(
    f: F,
    input: Seq<char>,
    pos: int,
    r: Result<Seq<Token>, LexError>,
) -> bool {
    let (ls, fail) = lex_from(input, pos);
    match r {
        Ok(toks) => fail is None && tokens_of(f, toks, ls),
        Err(LexError::InvalidNumber(t)) => exists|k: int|
            {
                &&& 0 <= k < ls.len()
                &&& ls[k] == Lexeme::Number(t@)
                &&& converts(f, t@, None)
                &&& forall|j: int|
                    0 <= j < k ==> (#[trigger] ls[j] matches Lexeme::Number(u) ==> accepts(f, u))
            },
        Err(e) => fail == Some(e) && forall|j: int|
            0 <= j < ls.len() ==> (#[trigger] ls[j] matches Lexeme::Number(u) ==> accepts(f, u)),
    }
}

/// Lexing from `pos` is lexing from the first non-blank position after it.
pub proof fn lemma_lex_skip(input: Seq<char>, pos: int)
    requires
        0 <= pos,
    ensures
        lex_from(input, pos) == lex_from(input, skip_blank(input, pos)),
    decreases input.len() - pos,
{
    lemma_skip_bounds(input, pos);
    if 0 <= pos < input.len() && is_blank(input[pos]) {
        lemma_lex_skip(input, pos + 1);
        assert(lex_from(input, pos) == lex_from(input, pos + 1));
    } else {
        assert(skip_blank(input, pos) == pos);
    }
}

/// The result of tokenizing, with the vector of tokens seen as a sequence.
pub open spec fn result_tokens(r: Result<Vec<Token>, LexError>) -> Result<Seq<Token>, LexError> {
    match r {
        Ok(v) => Ok(v@),
        Err(e) => Err(e),
    }
}

/// Lexer that turns a string into tokens.
pub struct Lexer {
    input: Vec<char>,
    pos: usize,
}

impl Lexer {
    /// The characters being read.
    pub closed spec fn chars(&self) -> Seq<char> {
        self.input@
    }

    /// The position of the next character to read.
    pub closed spec fn position(&self) -> int {
        self.pos as int
    }

    /// The position lies within the input.
    pub closed spec fn wf(&self) -> bool {
        self.pos <= self.input@.len()
    }

    /// A well-formed lexer's position lies between the start and the end of
    /// its characters.
    pub proof fn lemma_position(&self)
        requires
            self.wf(),
        ensures
            0 <= self.position() <= self.chars().len(),
    {
    }

    /// Creates a lexer positioned at the start of `input`.
    pub fn new(input: &str) -> (r: Self)
        ensures
            r.chars() == input@,
            r.position() == 0,
            r.wf(),
    {
        Lexer { input: chars_of(input), pos: 0 }
    }

    /// The current character, without consuming it.
    pub fn peek(&self) -> (r: Option<char>)
        ensures
            r == (if self.position() < self.chars().len() {
                Some(self.chars()[self.position()])
            } else {
                None
            }),
    {
        if self.pos < self.input.len() {
            Some(self.input[self.pos])
        } else {
            None
        }
    }

    /// Consumes and returns the current character.
    pub fn advance(&mut self) -> (r: Option<char>)
        ensures
            final(self).chars() == old(self).chars(),
            old(self).position() < old(self).chars().len() ==> r == Some(old(self).chars()[old(self).position()])
                && final(self).position() == old(self).position() + 1,
            old(self).position() >= old(self).chars().len() ==> r is None
                && final(self).position() == old(self).position(),
    {
        if self.pos < self.input.len() {
            let c = self.input[self.pos];
            self.pos = self.pos + 1;
            Some(c)
        } else {
            None
        }
    }

    /// Skips whitespace other than newlines.
    pub fn skip_whitespace(&mut self)
        requires
            old(self).wf(),
        ensures
            final(self).wf(),
            final(self).chars() == old(self).chars(),
            final(self).position() == skip_blank(old(self).chars(), old(self).position()),
    {
        let ghost start = self.pos as int;
        while self.pos < self.input.len() && is_whitespace(self.input[self.pos])
            && self.input[self.pos] != '\n'
            invariant
                self.input == old(self).input,
                0 <= start <= self.pos <= self.input@.len(),
                skip_blank(self.input@, start) == skip_blank(self.input@, self.pos as int),
            decreases self.input@.len() - self.pos,
        {
            self.pos = self.pos + 1;
        }
    }

    /// Skips a `//` comment: its two slashes and the rest of the line, up to
    /// (not including) the newline.
    fn skip_comment(&mut self)
        requires
            comment_at(old(self).input@, old(self).pos as int),
        ensures
            final(self).input == old(self).input,
            final(self).pos == line_end(old(self).input@, old(self).pos + 2),
            old(self).pos + 2 <= final(self).pos <= final(self).input@.len(),
    {
        let ghost start = self.pos + 2;
        let n: usize = self.input.len();
        assert(self.pos + 2 <= n);
        self.pos = self.pos + 2;
        proof {
            lemma_line_end(self.input@, start);
        }
        while self.pos < self.input.len() && self.input[self.pos] != '\n'
            invariant
                self.input == old(self).input,
                start <= self.pos <= self.input@.len(),
                line_end(self.input@, start) == line_end(self.input@, self.pos as int),
            decreases self.input@.len() - self.pos,
        {
            self.pos = self.pos + 1;
        }
    }

    /// Reads digits, appending them to `s`.
    fn read_digits(&mut self, s: &mut String)
        requires
            old(self).pos <= old(self).input@.len(),
        ensures
            final(self).input == old(self).input,
            final(self).pos == skip_digits(old(self).input@, old(self).pos as int),
            final(s)@ == old(s)@ + old(self).input@.subrange(old(self).pos as int, final(self).pos as int),
    {
        let ghost start = self.pos as int;
        let ghost inp = self.input@;
        while self.pos < self.input.len() && is_ascii_digit(self.input[self.pos])
            invariant
                self.input == old(self).input,
                self.input@ == inp,
                0 <= start <= self.pos <= inp.len(),
                skip_digits(inp, start) == skip_digits(inp, self.pos as int),
                s@ == old(s)@ + inp.subrange(start, self.pos as int),
            decreases inp.len() - self.pos,
        {
            let c = self.input[self.pos];
            let ghost p0 = self.pos as int;
            push_char(s, c);
            self.pos = self.pos + 1;
            assert(inp.subrange(start, p0 + 1) =~= inp.subrange(start, p0) + seq![c]);
        }
    }

    /// Reads a numeric literal (`-`? digits (`.` digits)?) and converts it.
    fn read_number<F: Fn(&str) -> Option<u64>>(&mut self, number_value: &F) -> (r: Result<u64, LexError>)
        requires
            old(self).pos < old(self).input@.len(),
            is_digit(old(self).input@[old(self).pos as int]) || old(self).input@[old(self).pos as int] == '-',
            forall|t: &str| #[trigger] number_value.requires((t,)),
        ensures
            final(self).input == old(self).input,
            final(self).pos == number_end(old(self).input@, old(self).pos as int),
            ({
                let text = old(self).input@.subrange(old(self).pos as int, final(self).pos as int);
                &&& text == seq!['-'] ==> r == Err::<u64, LexError>(LexError::ExpectedNumber)
                &&& text != seq!['-'] ==> match r {
                    Ok(v) => converts(*number_value, text, Some(v)),
                    Err(e) => e matches LexError::InvalidNumber(t) && t@ == text
                        && converts(*number_value, text, None),
                }
            }),
    {
        let ghost input = self.input@;
        let ghost start = self.pos as int;
        let first: usize = self.pos;
        let n: usize = self.input.len();
        let mut s = String::new();
        if self.input[self.pos] == '-' {
            push_char(&mut s, '-');
            self.pos = self.pos + 1;
        }
        assert(s@ =~= input.subrange(start, self.pos as int));
        proof {
            lemma_skip_bounds(input, self.pos as int);
        }
        self.read_digits(&mut s);
        let ghost p2 = self.pos as int;
        if self.pos < self.input.len() && self.input[self.pos] == '.' {
            push_char(&mut s, '.');
            self.pos = self.pos + 1;
            assert(s@ =~= input.subrange(start, self.pos as int));
            proof {
                lemma_skip_bounds(input, self.pos as int);
            }
            self.read_digits(&mut s);
            assert(s@ =~= input.subrange(start, self.pos as int));
        }
        assert(s@ =~= input.subrange(start, self.pos as int));
        proof {
            lemma_number_end(input, start);
        }
        if self.pos - 1 == first && self.input[first] == '-' {
            assert(s@ == seq!['-']);
            return Err(LexError::ExpectedNumber);
        }
        assert(s@ != seq!['-']) by {
            if s@ =~= seq!['-'] {
                assert(s@.len() == 1);
                assert(s@[0] == '-');
                assert(s@[0] == input[start]);
            }
        }
        let value = number_value(s.as_str());
        match value {
            Some(v) => Ok(v),
            None => Err(LexError::InvalidNumber(s)),
        }
    }

    /// Tokenizes the input from the current position to its end.
    ///
    /// `number_value` converts the text of a numeric literal to the bit
    /// pattern of its binary64 value, or rejects it.
    pub fn tokenize<F: Fn(&str) -> Option<u64>>(&mut self, number_value: &F) -> (r: Result<Vec<Token>, LexError>)
        requires
            old(self).wf(),
            forall|t: &str| #[trigger] number_value.requires((t,)),
        ensures
            final(self).wf(),
            final(self).chars() == old(self).chars(),
            tokenized(*number_value, old(self).chars(), old(self).position(), result_tokens(r)),
    {
        let ghost input = self.input@;
        let ghost start = self.pos as int;
        let ghost f = *number_value;
        let ghost mut lexed: Seq<Lexeme> = seq![];
        let mut tokens: Vec<Token> = Vec::new();
        loop
            invariant
                self.input@ == input,
                input == old(self).input@,
                start == old(self).pos as int,
                self.pos <= input.len(),
                0 <= start,
                f == *number_value,
                forall|t: &str| #[trigger] number_value.requires((t,)),
                lex_from(input, start) == (lexed + lex_from(input, self.pos as int).0, lex_from(input, self.pos as int).1),
                tokens_of(f, tokens@, lexed),
            decreases input.len() - self.pos,
        {
            let ghost before = self.pos as int;
            proof {
                lemma_lex_skip(input, before);
                lemma_skip_bounds(input, before);
            }
            self.skip_whitespace();
            let ghost p = self.pos as int;
            assert(lex_from(input, before) == lex_from(input, p));
            match self.peek() {
                None => {
                    assert(lex_from(input, p) == (Seq::<Lexeme>::empty(), None::<LexError>));
                    assert(lexed + Seq::<Lexeme>::empty() =~= lexed);
                    return Ok(tokens);
                },
                Some(ch) => {
                    if ch == '\n' {
                        self.advance();
                        assert(lex_from(input, p) == lex_from(input, p + 1));
                    } else if ch == '/' && self.input.len() - self.pos > 1 && self.input[self.pos + 1] == '/' {
                        self.skip_comment();
                        assert(lex_from(input, p) == lex_from(input, self.pos as int));
                    } else if ch == '+' || ch == '(' || ch == ')' || ch == ',' || ch == ';' || ch == '=' {
                        self.advance();
                        let tok = if ch == '+' {
                            Token::Plus
                        } else if ch == '(' {
                            Token::LParen
                        } else if ch == ')' {
                            Token::RParen
                        } else if ch == ',' {
                            Token::Comma
                        } else if ch == ';' {
                            Token::Semicolon
                        } else {
                            Token::Equals
                        };
                        let ghost l = symbol_lexeme(ch)->0;
                        assert(token_of(f, tok, l));
                        tokens.push(tok);
                        proof {
                            assert(lex_from(input, p).0 == seq![l] + lex_from(input, p + 1).0);
                            assert(lexed + lex_from(input, p).0 =~= lexed.push(l) + lex_from(input, p + 1).0);
                            lexed = lexed.push(l);
                            assert forall|i: int| 0 <= i < tokens@.len() implies #[trigger] token_of(f, tokens@[i], lexed[i]) by {
                                if i < tokens@.len() - 1 {
                                    assert(token_of(f, tokens@[i], lexed[i]));
                                }
                            }
                        }
                    } else if is_ascii_digit(ch) || ch == '-' {
                        proof {
                            lemma_number_end(input, p);
                        }
                        match self.read_number(number_value) {
                            Ok(v) => {
                                let ghost text = input.subrange(p, self.pos as int);
                                let ghost l = Lexeme::Number(text);
                                tokens.push(Token::Number(v));
                                proof {
                                    assert(lex_from(input, p).0 == seq![l] + lex_from(input, self.pos as int).0);
                                    assert(lexed + lex_from(input, p).0 =~= lexed.push(l) + lex_from(input, self.pos as int).0);
                                    lexed = lexed.push(l);
                                    assert forall|i: int| 0 <= i < tokens@.len() implies #[trigger] token_of(f, tokens@[i], lexed[i]) by {
                                        if i < tokens@.len() - 1 {
                                            assert(token_of(f, tokens@[i], lexed[i]));
                                        }
                                    }
                                }
                            },
                            Err(e) => {
                                proof {
                                    let ls = lex_from(input, start).0;
                                    assert forall|j: int| 0 <= j < lexed.len() implies (#[trigger] ls[j] matches Lexeme::Number(u) ==> accepts(f, u)) by {
                                        assert(ls[j] == lexed[j]);
                                        assert(token_of(f, tokens@[j], lexed[j]));
                                    }
                                    if e is InvalidNumber {
                                        assert(ls[lexed.len() as int] == lex_from(input, p).0[0]);
                                    } else {
                                        assert(lex_from(input, p) == (Seq::<Lexeme>::empty(), Some(LexError::ExpectedNumber)));
                                        assert(ls =~= lexed);
                                    }
                                }
                                return Err(e);
                            },
                        }
                    } else if is_alphabetic(ch) || ch == '_' {
                        proof {
                            lemma_skip_bounds(input, p);
                        }
                        let tok = self.read_identifier();
                        let ghost l = word_lexeme(input.subrange(p, self.pos as int));
                        assert(token_of(f, tok, l));
                        tokens.push(tok);
                        proof {
                            assert(lex_from(input, p).0 == seq![l] + lex_from(input, self.pos as int).0);
                            assert(lexed + lex_from(input, p).0 =~= lexed.push(l) + lex_from(input, self.pos as int).0);
                            lexed = lexed.push(l);
                            assert forall|i: int| 0 <= i < tokens@.len() implies #[trigger] token_of(f, tokens@[i], lexed[i]) by {
                                if i < tokens@.len() - 1 {
                                    assert(token_of(f, tokens@[i], lexed[i]));
                                }
                            }
                        }
                    } else {
                        proof {
                            let ls = lex_from(input, start).0;
                            assert(lex_from(input, p) == (Seq::<Lexeme>::empty(), Some(LexError::UnexpectedChar(ch))));
                            assert(ls =~= lexed);
                            assert forall|j: int| 0 <= j < ls.len() implies (#[trigger] ls[j] matches Lexeme::Number(u) ==> accepts(f, u)) by {
                                assert(token_of(f, tokens@[j], lexed[j]));
                            }
                        }
                        return Err(LexError::UnexpectedChar(ch));
                    }
                },
            }
        }
    }

    /// Reads an identifier or keyword.
    fn read_identifier(&mut self) -> (r: Token)
        requires
            old(self).pos < old(self).input@.len(),
            is_ident_char(old(self).input@[old(self).pos as int]),
        ensures
            final(self).input == old(self).input,
            final(self).pos == skip_ident(old(self).input@, old(self).pos as int),
            word_token(r, old(self).input@.subrange(old(self).pos as int, final(self).pos as int)),
    {
        let ghost start = self.pos as int;
        let ghost inp = self.input@;
        let mut s = String::new();
        while self.pos < self.input.len() && (is_alphanumeric(self.input[self.pos]) || self.input[self.pos] == '_')
            invariant
                self.input == old(self).input,
                self.input@ == inp,
                0 <= start <= self.pos <= inp.len(),
                skip_ident(inp, start) == skip_ident(inp, self.pos as int),
                s@ == inp.subrange(start, self.pos as int),
            decreases inp.len() - self.pos,
        {
            let c = self.input[self.pos];
            let ghost p0 = self.pos as int;
            push_char(&mut s, c);
            self.pos = self.pos + 1;
            assert(inp.subrange(start, p0 + 1) =~= inp.subrange(start, p0) + seq![c]);
        }
        proof {
            reveal_strlit("let");
            reveal_strlit("chaotic");
            assert("let"@ =~= seq!['l', 'e', 't']);
            assert("chaotic"@ =~= seq!['c', 'h', 'a', 'o', 't', 'i', 'c']);
        }
        if str_eq(s.as_str(), "let") {
            Token::Let
        } else if str_eq(s.as_str(), "chaotic") {
            Token::Chaotic
        } else {
            Token::Identifier(s)
        }
    }
}

/// The conversion gives one result for a text, however the text is held.
pub open spec fn deterministic<F: Fn(&str) -> Option<u64>>(f: F) -> bool {
    forall|s1: &str, s2: &str, r1: Option<u64>, r2: Option<u64>|
        s1@ == s2@ && #[trigger] f.ensures((s1,), r1) && #[trigger] f.ensures((s2,), r2) ==> r1 == r2
}

/// Two tokens are alike: the same, an identifier compared by its characters.
pub open spec fn token_alike(x: Token, y: Token) -> bool {
    match x {
        Token::Identifier(s) => y matches Token::Identifier(t) && s@ == t@,
        _ => x == y,
    }
}

/// Two outcomes of tokenizing are alike: alike tokens in order, or the same
/// error (a rejected literal compared by its characters).
pub open spec fn outcomes_alike(r1: Result<Seq<Token>, LexError>, r2: Result<Seq<Token>, LexError>) -> bool {
    match r1 {
        Ok(t1) => r2 matches Ok(t2) && t1.len() == t2.len() && forall|i: int|
            0 <= i < t1.len() ==> #[trigger] token_alike(t1[i], t2[i]),
        Err(LexError::InvalidNumber(s1)) => r2 matches Err(LexError::InvalidNumber(s2)) && s1@ == s2@,
        Err(e1) => r2 == Err::<Seq<Token>, LexError>(e1),
    }
}

proof fn lemma_converts_unique<F: Fn(&str) -> Option<u64>>(f: F, text: Seq<char>, r1: Option<u64>, r2: Option<u64>)
    requires
        deterministic(f),
        converts(f, text, r1),
        converts(f, text, r2),
    ensures
        r1 == r2,
{
    let s1 = choose|s: &str| s@ == text && #[trigger] f.ensures((s,), r1);
    let s2 = choose|s: &str| s@ == text && #[trigger] f.ensures((s,), r2);
    assert(f.ensures((s1,), r1) && f.ensures((s2,), r2));
}

/// Tokenizing is deterministic when the number conversion is.
///
/// Law: with a conversion that gives one result per text, any two outcomes
/// of tokenizing the same input from the same position are alike; in
/// particular both succeed or both fail, with the same error.
pub proof fn law_tokenize_deterministic<F: Fn(&str) -> Option<u64>>(
    f: F,
    input: Seq<char>,
    pos: int,
    r1: Result<Seq<Token>, LexError>,
    r2: Result<Seq<Token>, LexError>,
)
    requires
        deterministic(f),
        tokenized(f, input, pos, r1),
        tokenized(f, input, pos, r2),
    ensures
        outcomes_alike(r1, r2),
{
    let (ls, fail) = lex_from(input, pos);
    match r1 {
        Ok(t1) => match r2 {
            Ok(t2) => {
                assert forall|i: int| 0 <= i < t1.len() implies #[trigger] token_alike(t1[i], t2[i]) by {
                    assert(token_of(f, t1[i], ls[i]));
                    assert(token_of(f, t2[i], ls[i]));
                    if let Lexeme::Number(text) = ls[i] {
                        lemma_converts_unique(f, text, Some(t1[i]->Number_0), Some(t2[i]->Number_0));
                    }
                }
            },
            Err(LexError::InvalidNumber(t)) => {
                let k = choose|k: int| {
                    &&& 0 <= k < ls.len()
                    &&& ls[k] == Lexeme::Number(t@)
                    &&& converts(f, t@, None)
                    &&& forall|j: int| 0 <= j < k ==> (#[trigger] ls[j] matches Lexeme::Number(u) ==> accepts(f, u))
                };
                assert(token_of(f, t1[k], ls[k]));
                lemma_converts_unique(f, t@, None, Some(t1[k]->Number_0));
            },
            Err(_) => {},
        },
        Err(LexError::InvalidNumber(s1)) => {
            let k1 = choose|k: int| {
                &&& 0 <= k < ls.len()
                &&& ls[k] == Lexeme::Number(s1@)
                &&& converts(f, s1@, None)
                &&& forall|j: int| 0 <= j < k ==> (#[trigger] ls[j] matches Lexeme::Number(u) ==> accepts(f, u))
            };
            match r2 {
                Ok(t2) => {
                    assert(token_of(f, t2[k1], ls[k1]));
                    lemma_converts_unique(f, s1@, None, Some(t2[k1]->Number_0));
                },
                Err(LexError::InvalidNumber(s2)) => {
                    let k2 = choose|k: int| {
                        &&& 0 <= k < ls.len()
                        &&& ls[k] == Lexeme::Number(s2@)
                        &&& converts(f, s2@, None)
                        &&& forall|j: int| 0 <= j < k ==> (#[trigger] ls[j] matches Lexeme::Number(u) ==> accepts(f, u))
                    };
                    if k1 < k2 {
                        assert(ls[k1] matches Lexeme::Number(u) ==> accepts(f, u));
                        let v = choose|v: u64| converts(f, s1@, Some(v));
                        lemma_converts_unique(f, s1@, None, Some(v));
                    } else if k2 < k1 {
                        assert(ls[k2] matches Lexeme::Number(u) ==> accepts(f, u));
                        let v = choose|v: u64| converts(f, s2@, Some(v));
                        lemma_converts_unique(f, s2@, None, Some(v));
                    }
                },
                Err(_) => {
                    assert(ls[k1] matches Lexeme::Number(u) ==> accepts(f, u));
                    let v = choose|v: u64| converts(f, s1@, Some(v));
                    lemma_converts_unique(f, s1@, None, Some(v));
                },
            }
        },
        Err(e1) => match r2 {
            Err(LexError::InvalidNumber(s2)) => {
                let k2 = choose|k: int| {
                    &&& 0 <= k < ls.len()
                    &&& ls[k] == Lexeme::Number(s2@)
                    &&& converts(f, s2@, None)
                    &&& forall|j: int| 0 <= j < k ==> (#[trigger] ls[j] matches Lexeme::Number(u) ==> accepts(f, u))
                };
                assert(ls[k2] matches Lexeme::Number(u) ==> accepts(f, u));
                let v = choose|v: u64| converts(f, s2@, Some(v));
                lemma_converts_unique(f, s2@, None, Some(v));
            },
            _ => {},
        },
    }
}

} // verus!
