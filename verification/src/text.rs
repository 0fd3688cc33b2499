//! Character classes and string operations that the lexer and parser take
//! from the standard library.

use vstd::prelude::*;
use vstd::std_specs::iter::IteratorSpec;

verus! {

/// Whether a character has the Unicode `White_Space` property: U+0009 to
/// U+000D, U+0020, U+0085, U+00A0, U+1680, U+2000 to U+200A, U+2028,
/// U+2029, U+202F, U+205F and U+3000.
pub open spec fn unicode_white_space(c: char) -> bool {
    ||| '\u{9}' <= c <= '\u{d}'
    ||| c == ' '
    ||| c == '\u{85}'
    ||| c == '\u{a0}'
    ||| c == '\u{1680}'
    ||| '\u{2000}' <= c <= '\u{200a}'
    ||| c == '\u{2028}'
    ||| c == '\u{2029}'
    ||| c == '\u{202f}'
    ||| c == '\u{205f}'
    ||| c == '\u{3000}'
}

/// Whether a character has the Unicode `Alphabetic` property.
pub uninterp spec fn unicode_alphabetic(c: char) -> bool;

/// Whether a character has the Unicode general category of a number
/// (`Nd`, `Nl` or `No`).
pub uninterp spec fn unicode_numeric(c: char) -> bool;

/// Whether a character has the Unicode `White_Space` property, as
/// `char::is_whitespace` answers it: a comparison with the list in
/// `unicode_white_space`.
pub(crate) fn is_whitespace(c: char) -> (r: bool)
    ensures
        r == unicode_white_space(c),
{
    ('\u{9}' <= c && c <= '\u{d}') || c == ' ' || c == '\u{85}' || c == '\u{a0}' || c == '\u{1680}'
        || ('\u{2000}' <= c && c <= '\u{200a}') || c == '\u{2028}' || c == '\u{2029}' || c == '\u{202f}'
        || c == '\u{205f}' || c == '\u{3000}'
}

/// `char::is_alphabetic`: true exactly for the characters of the Unicode
/// `Alphabetic` property; the table itself is not written out here.  Of it
/// the contract also says that among ASCII characters it holds exactly the
/// letters, and that it holds no `White_Space` character (those are controls
/// and separators, which `Alphabetic` leaves out).
#[verifier::external_body]
pub(crate) fn is_alphabetic(c: char) -> (r: bool)
    ensures
        r == unicode_alphabetic(c),
        c <= '\u{7f}' ==> (r <==> ('a' <= c <= 'z' || 'A' <= c <= 'Z')),
        unicode_white_space(c) ==> !r,
{
    c.is_alphabetic()
}

/// `char::is_numeric`: true exactly for the characters of the Unicode general
/// categories `Nd`, `Nl` and `No`; the table itself is not written out here.
/// Of it the contract also says that among ASCII characters it holds exactly
/// `'0'` to `'9'`, and that it holds no `White_Space` character (those are in
/// the categories `Cc`, `Zs`, `Zl` and `Zp`).
#[verifier::external_body]
pub(crate) fn is_numeric(c: char) -> (r: bool)
    ensures
        r == unicode_numeric(c),
        c <= '\u{7f}' ==> (r <==> ('0' <= c <= '9')),
        unicode_white_space(c) ==> !r,
{
    c.is_numeric()
}

/// `char::is_alphanumeric`, which std documents as `is_alphabetic() || is_numeric()`.
pub(crate) fn is_alphanumeric(c: char) -> (r: bool)
    ensures
        r == (unicode_alphabetic(c) || unicode_numeric(c)),
        unicode_white_space(c) ==> !r,
{
    is_alphabetic(c) || is_numeric(c)
}

/// ASCII decimal digit, as `char::is_ascii_digit` defines it.
pub open spec fn is_digit(c: char) -> bool {
    '0' <= c && c <= '9'
}

/// `char::is_ascii_digit`, written out: `'0'..='9'`.
pub(crate) fn is_ascii_digit(c: char) -> (r: bool)
    ensures
        r == is_digit(c),
{
    '0' <= c && c <= '9'
}

/// `String::push`: appends one character.
#[verifier::external_body]
pub(crate) fn push_char(s: &mut String, c: char)
    ensures
        final(s)@ == old(s)@.push(c),
{
    s.push(c)
}

/// `String::push_str`: appends a string.
#[verifier::external_body]
pub(crate) fn push_str(s: &mut String, t: &str)
    ensures
        final(s)@ == old(s)@ + t@,
{
    s.push_str(t)
}

/// What std's `Display` for the error of `String::from_utf8` writes for these
/// bytes (it describes invalid or incomplete UTF-8 at some index); empty when
/// the bytes are valid UTF-8.
pub uninterp spec fn utf8_error_text(bytes: Seq<u8>) -> Seq<char>;

/// The `Display` text of the error of `String::from_utf8` on `bytes`, or the
/// empty string when there is no error.  The text itself is named by
/// `utf8_error_text`, not written out.
#[verifier::external_body]
pub(crate) fn describe_utf8_error(bytes: &[u8]) -> (r: String)
    ensures
        r@ == utf8_error_text(bytes@),
{
    match String::from_utf8(bytes.to_vec()) {
        Err(e) => format!("{}", e),
        Ok(_) => String::new(),
    }
}

/// `<str as PartialEq>::eq`: two strings are equal when their characters are.
#[verifier::external_body]
pub(crate) fn str_eq(a: &str, b: &str) -> (r: bool)
    ensures
        r == (a@ == b@),
{
    a == b
}

/// The characters of a string, in order.
pub(crate) fn chars_of(s: &str) -> (r: Vec<char>)
    ensures
        r@ == s@,
{
    broadcast use vstd::string::group_string_axioms;

    let mut it = s.chars();
    let mut v: Vec<char> = Vec::new();
    loop
        invariant
            v@ + it.remaining() == s@,
            it.decrease() is Some,
        decreases it.decrease()->0,
    {
        match it.next() {
            Some(c) => {
                v.push(c);
            },
            None => {
                assert(v@ + it.remaining() =~= v@);
                return v;
            },
        }
    }
}

/// `String::from_utf8`: `Some` exactly when the bytes are valid UTF-8, and then
/// the string they encode.
#[verifier::external_body]
pub(crate) fn string_from_utf8(bytes: &[u8]) -> (r: Option<String>)
    ensures
        r is Some <==> vstd::utf8::valid_utf8(bytes@),
        r matches Some(s) ==> s@ == vstd::utf8::decode_utf8(bytes@),
{
    String::from_utf8(bytes.to_vec()).ok()
}

/// What `<str as Debug>::fmt` writes for a string: the characters in double
/// quotes, each escaped as `char::escape_debug` does.
pub uninterp spec fn str_debug(s: Seq<char>) -> Seq<char>;

/// The `Debug` text of a string (`format!("{:?}", s)`); the escaping is
/// named by `str_debug`, not written out.
#[verifier::external_body]
pub(crate) fn debug_str(s: &str) -> (r: String)
    ensures
        r@ == str_debug(s@),
{
    format!("{:?}", s)
}

} // verus!
