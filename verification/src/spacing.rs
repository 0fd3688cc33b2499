//! Whitespace only separates tokens: replacing whitespace by other
//! whitespace, or adding whitespace at either end of the input, leaves what
//! the lexer reads unchanged.

use vstd::prelude::*;
use crate::lexer::{
    comment_at, is_blank, is_ident_char, lemma_lex_skip, lemma_line_end, lemma_number_end, lemma_skip_bounds,
    lex_from, line_end, number_end, skip_blank, skip_digits, skip_ident, symbol_lexeme, Lexeme, LexError,
};
use crate::text::{is_digit, unicode_alphabetic, unicode_white_space};

verus! {

/// The same character, or two whitespace characters.
pub open spec fn same_or_ws(x: char, y: char) -> bool {
    x == y || (unicode_white_space(x) && unicode_white_space(y))
}

/// All characters from `i` on are whitespace.
pub open spec fn all_ws_from(s: Seq<char>, i: int) -> bool {
    forall|x: int| i <= x < s.len() ==> unicode_white_space(#[trigger] s[x])
}

/// At offset `k` past `i` in `a` and `j` in `b`: where both have a
/// character they agree up to whitespace; where only one has, it is
/// whitespace.
pub open spec fn agree_at(a: Seq<char>, i: int, b: Seq<char>, j: int, k: int) -> bool {
    let p = i + k;
    let q = j + k;
    if p < a.len() && q < b.len() {
        same_or_ws(a[p], b[q])
    } else if p < a.len() {
        unicode_white_space(a[p])
    } else if q < b.len() {
        unicode_white_space(b[q])
    } else {
        true
    }
}

/// At offset `k`, where both have a character, both or neither are newlines.
pub open spec fn newline_at(a: Seq<char>, i: int, b: Seq<char>, j: int, k: int) -> bool {
    i + k < a.len() && j + k < b.len() ==> ((a[i + k] == '\n') == (b[j + k] == '\n'))
}

/// Position `k` of `a` lies in a `//` comment: from its slashes up to and
/// including the newline that ends it.
pub open spec fn in_comment(a: Seq<char>, k: int) -> bool {
    exists|p: int| #[trigger] comment_at(a, p) && p <= k <= line_end(a, p + 2)
}

/// At offset `k`, inside a comment of `a`, both or neither are newlines.
pub open spec fn newline_kept_at(a: Seq<char>, i: int, b: Seq<char>, j: int, k: int) -> bool {
    in_comment(a, i + k) ==> newline_at(a, i, b, j, k)
}

/// `a` from `i` and `b` from `j` differ only in their whitespace, and keep
/// as newlines, and as not newlines, the characters of `a`'s comments,
/// whose end a newline decides.
pub open spec fn spaced_alike(a: Seq<char>, i: int, b: Seq<char>, j: int) -> bool {
    &&& 0 <= i <= a.len()
    &&& 0 <= j <= b.len()
    &&& forall|k: int| 0 <= k ==> #[trigger] agree_at(a, i, b, j, k)
    &&& forall|k: int| 0 <= k ==> #[trigger] newline_kept_at(a, i, b, j, k)
}

proof fn lemma_shift(a: Seq<char>, i: int, b: Seq<char>, j: int, d: int)
    requires
        spaced_alike(a, i, b, j),
        0 <= d,
        i + d <= a.len(),
        j + d <= b.len(),
    ensures
        spaced_alike(a, i + d, b, j + d),
{
    assert forall|k: int| 0 <= k implies #[trigger] agree_at(a, i + d, b, j + d, k) by {
        assert(agree_at(a, i, b, j, k + d));
    }
    assert forall|k: int| 0 <= k implies #[trigger] newline_kept_at(a, i + d, b, j + d, k) by {
        assert(newline_kept_at(a, i, b, j, k + d));
    }
}

/// A whitespace character at `i` is skipped.
proof fn lemma_ws_step(s: Seq<char>, i: int)
    requires
        0 <= i < s.len(),
        unicode_white_space(s[i]),
    ensures
        lex_from(s, i) == lex_from(s, i + 1),
{
    if s[i] == '\n' {
        assert(skip_blank(s, i) == i);
    } else {
        lemma_lex_skip(s, i);
        lemma_lex_skip(s, i + 1);
        assert(skip_blank(s, i) == skip_blank(s, i + 1));
    }
}

/// Nothing but whitespace reads as nothing.
proof fn lemma_ws_rest(s: Seq<char>, i: int)
    requires
        0 <= i <= s.len(),
        all_ws_from(s, i),
    ensures
        lex_from(s, i) == (Seq::<Lexeme>::empty(), None::<LexError>),
    decreases s.len() - i,
{
    if i < s.len() {
        lemma_ws_step(s, i);
        lemma_ws_rest(s, i + 1);
    } else {
        assert(skip_blank(s, i) == i);
    }
}

/// Where `a` has a non-whitespace character, `b` has the same one.
proof fn lemma_same_char(a: Seq<char>, i: int, b: Seq<char>, j: int, k: int)
    requires
        spaced_alike(a, i, b, j),
        0 <= k,
        i + k < a.len(),
        !unicode_white_space(a[i + k]),
    ensures
        j + k < b.len(),
        b[j + k] == a[i + k],
{
    assert(agree_at(a, i, b, j, k));
}

/// Where `b` has a non-whitespace character, `a` has the same one.
proof fn lemma_same_char_b(a: Seq<char>, i: int, b: Seq<char>, j: int, k: int)
    requires
        spaced_alike(a, i, b, j),
        0 <= k,
        j + k < b.len(),
        !unicode_white_space(b[j + k]),
    ensures
        i + k < a.len(),
        b[j + k] == a[i + k],
{
    assert(agree_at(a, i, b, j, k));
}

proof fn lemma_digits_lock(a: Seq<char>, i: int, b: Seq<char>, j: int, d: int)
    requires
        spaced_alike(a, i, b, j),
        0 <= d,
        i + d <= a.len(),
        j + d <= b.len(),
    ensures
        skip_digits(a, i + d) - i == skip_digits(b, j + d) - j,
        skip_digits(a, i + d) <= a.len(),
        forall|x: int| i + d <= x < skip_digits(a, i + d) ==> is_digit(#[trigger] a[x]),
    decreases a.len() - (i + d),
{
    let p = i + d;
    let q = j + d;
    if p < a.len() && is_digit(a[p]) {
        lemma_same_char(a, i, b, j, d);
        lemma_digits_lock(a, i, b, j, d + 1);
    } else {
        if q < b.len() && is_digit(b[q]) {
            lemma_same_char_b(a, i, b, j, d);
        }
    }
}

proof fn lemma_ident_lock(a: Seq<char>, i: int, b: Seq<char>, j: int, d: int)
    requires
        spaced_alike(a, i, b, j),
        0 <= d,
        i + d <= a.len(),
        j + d <= b.len(),
    ensures
        skip_ident(a, i + d) - i == skip_ident(b, j + d) - j,
        skip_ident(a, i + d) <= a.len(),
        forall|x: int| i + d <= x < skip_ident(a, i + d) ==> !unicode_white_space(#[trigger] a[x]),
    decreases a.len() - (i + d),
{
    let p = i + d;
    let q = j + d;
    if p < a.len() && is_ident_char(a[p]) {
        lemma_same_char(a, i, b, j, d);
        lemma_ident_lock(a, i, b, j, d + 1);
    } else {
        if q < b.len() && is_ident_char(b[q]) {
            lemma_same_char_b(a, i, b, j, d);
        }
    }
}

/// With newlines kept, a comment ends at the same offset in both, or each
/// ends in whitespace that runs to the end.
proof fn lemma_line_lock(a: Seq<char>, i: int, b: Seq<char>, j: int, d: int)
    requires
        spaced_alike(a, i, b, j),
        forall|k: int| d <= k && i + k <= line_end(a, i + d) ==> #[trigger] newline_at(a, i, b, j, k),
        0 <= d,
        i + d <= a.len(),
        j + d <= b.len(),
    ensures
        line_end(a, i + d) - i == line_end(b, j + d) - j || (all_ws_from(a, line_end(a, i + d)) && all_ws_from(
            b,
            line_end(b, j + d),
        )),
        line_end(a, i + d) <= a.len(),
        line_end(b, j + d) <= b.len(),
    decreases a.len() - (i + d) + b.len() - (j + d),
{
    let p = i + d;
    let q = j + d;
    lemma_line_end(a, p);
    lemma_line_end(b, q);
    if p < a.len() && q < b.len() {
        assert(newline_at(a, i, b, j, d));
        if a[p] != '\n' {
            lemma_line_lock(a, i, b, j, d + 1);
        }
    } else if p >= a.len() {
        assert forall|y: int| line_end(b, q) <= y < b.len() implies unicode_white_space(#[trigger] b[y]) by {
            assert(agree_at(a, i, b, j, y - j));
        }
    } else {
        assert forall|x: int| line_end(a, p) <= x < a.len() implies unicode_white_space(#[trigger] a[x]) by {
            assert(agree_at(a, i, b, j, x - i));
        }
    }
}

/// Characters that are all non-whitespace in `a` are the same in `b`.
proof fn lemma_same_text(a: Seq<char>, i: int, b: Seq<char>, j: int, n: int)
    requires
        spaced_alike(a, i, b, j),
        0 <= n,
        i + n <= a.len(),
        forall|x: int| i <= x < i + n ==> !unicode_white_space(#[trigger] a[x]),
    ensures
        j + n <= b.len(),
        a.subrange(i, i + n) == b.subrange(j, j + n),
{
    if n > 0 {
        lemma_same_char(a, i, b, j, n - 1);
    }
    assert forall|t: int| 0 <= t < n implies #[trigger] a.subrange(i, i + n)[t] == b.subrange(j, j + n)[t] by {
        lemma_same_char(a, i, b, j, t);
    }
    assert(a.subrange(i, i + n) =~= b.subrange(j, j + n));
}

/// A comment starts at the same place in both.
proof fn lemma_comment_alike(a: Seq<char>, i: int, b: Seq<char>, j: int)
    requires
        spaced_alike(a, i, b, j),
        i < a.len(),
        !unicode_white_space(a[i]),
    ensures
        comment_at(a, i) == comment_at(b, j),
{
    lemma_same_char(a, i, b, j, 0);
    if comment_at(a, i) {
        lemma_same_char(a, i, b, j, 1);
    }
    if comment_at(b, j) {
        lemma_same_char_b(a, i, b, j, 1);
    }
}

/// What is read from `a` at `i` and from `b` at `j` is the same.
proof fn lemma_spaced(a: Seq<char>, i: int, b: Seq<char>, j: int)
    requires
        spaced_alike(a, i, b, j),
    ensures
        lex_from(a, i) == lex_from(b, j),
    decreases a.len() - i,
{
    if i == a.len() || j == b.len() {
        assert forall|x: int| i <= x < a.len() implies unicode_white_space(#[trigger] a[x]) by {
            assert(agree_at(a, i, b, j, x - i));
        }
        assert forall|y: int| j <= y < b.len() implies unicode_white_space(#[trigger] b[y]) by {
            assert(agree_at(a, i, b, j, y - j));
        }
        lemma_ws_rest(a, i);
        lemma_ws_rest(b, j);
    } else if unicode_white_space(a[i]) {
        assert(agree_at(a, i, b, j, 0));
        lemma_ws_step(a, i);
        lemma_ws_step(b, j);
        lemma_shift(a, i, b, j, 1);
        lemma_spaced(a, i + 1, b, j + 1);
    } else {
        let c = a[i];
        lemma_same_char(a, i, b, j, 0);
        assert(skip_blank(a, i) == i);
        assert(skip_blank(b, j) == j);
        lemma_skip_bounds(a, i);
        lemma_skip_bounds(b, j);
        lemma_comment_alike(a, i, b, j);
        if comment_at(a, i) {
            lemma_line_end(a, i + 2);
            assert forall|k: int| 2 <= k && i + k <= line_end(a, i + 2) implies #[trigger] newline_at(a, i, b, j, k) by {
                assert(newline_kept_at(a, i, b, j, k));
                assert(comment_at(a, i) && i <= i + k <= line_end(a, i + 2));
                assert(in_comment(a, i + k));
            }
            lemma_line_end(b, j + 2);
            lemma_line_lock(a, i, b, j, 2);
            let ea = line_end(a, i + 2);
            let eb = line_end(b, j + 2);
            assert(lex_from(a, i) == lex_from(a, ea));
            assert(lex_from(b, j) == lex_from(b, eb));
            if ea - i == eb - j {
                lemma_shift(a, i, b, j, ea - i);
                lemma_spaced(a, ea, b, eb);
            } else {
                lemma_ws_rest(a, ea);
                lemma_ws_rest(b, eb);
            }
        } else if symbol_lexeme(c) is Some {
            lemma_shift(a, i, b, j, 1);
            lemma_spaced(a, i + 1, b, j + 1);
        } else if is_digit(c) || c == '-' {
            lemma_number_end(a, i);
            lemma_number_end(b, j);
            let d1: int = if c == '-' { 1 } else { 0 };
            lemma_digits_lock(a, i, b, j, d1);
            lemma_skip_bounds(a, i + d1);
            lemma_skip_bounds(b, j + d1);
            let p2 = skip_digits(a, i + d1);
            let q2 = skip_digits(b, j + d1);
            let dot_a = p2 < a.len() && a[p2] == '.';
            let dot_b = q2 < b.len() && b[q2] == '.';
            if dot_a {
                lemma_same_char(a, i, b, j, p2 - i);
            }
            if dot_b {
                lemma_same_char_b(a, i, b, j, q2 - j);
            }
            assert(dot_a == dot_b);
            if dot_a {
                lemma_digits_lock(a, i, b, j, p2 + 1 - i);
            }
            let ea = number_end(a, i);
            let eb = number_end(b, j);
            assert(ea - i == eb - j);
            assert forall|x: int| i <= x < ea implies !unicode_white_space(#[trigger] a[x]) by {
                if x < i + d1 {
                } else if x < p2 {
                    assert(is_digit(a[x]));
                } else if x == p2 {
                } else {
                    assert(is_digit(a[x]));
                }
            }
            lemma_same_text(a, i, b, j, ea - i);
            lemma_shift(a, i, b, j, ea - i);
            lemma_spaced(a, ea, b, eb);
        } else if unicode_alphabetic(c) || c == '_' {
            lemma_ident_lock(a, i, b, j, 0);
            let ea = skip_ident(a, i);
            let eb = skip_ident(b, j);
            lemma_same_text(a, i, b, j, ea - i);
            lemma_shift(a, i, b, j, ea - i);
            lemma_spaced(a, ea, b, eb);
        }
    }
}

/// Whitespace only separates tokens.
///
/// Law: replacing whitespace characters of an input by other whitespace
/// characters, and adding whitespace before and after it, does not change
/// what the lexer reads: the same tokens, and the same error if any.  A
/// newline ends a `//` comment, so inside a comment, up to and including the
/// newline that ends it, the replacement keeps newlines as newlines and other
/// whitespace as other whitespace.
pub proof fn law_whitespace_separates(a: Seq<char>, b: Seq<char>, pre: Seq<char>, post: Seq<char>)
    requires
        b.len() == a.len(),
        forall|k: int| 0 <= k < a.len() ==> #[trigger] same_or_ws(a[k], b[k]),
        forall|k: int| 0 <= k < a.len() && #[trigger] in_comment(a, k) ==> ((a[k] == '\n') == (b[k] == '\n')),
        all_ws_from(pre, 0),
        all_ws_from(post, 0),
    ensures
        lex_from(pre + b + post, 0) == lex_from(a, 0),
{
    let s = pre + b + post;
    let n = pre.len() as int;
    assert forall|k: int| 0 <= k implies #[trigger] agree_at(a, 0, s, n, k) by {
        if k < a.len() {
            assert(s[n + k] == b[k]);
            assert(same_or_ws(a[k], b[k]));
        } else if n + k < s.len() {
            assert(s[n + k] == post[k - a.len()]);
        }
    }
    assert forall|k: int| 0 <= k implies #[trigger] newline_kept_at(a, 0, s, n, k) by {
        if k < a.len() {
            assert(s[n + k] == b[k]);
        }
    }
    lemma_spaced(a, 0, s, n);
    lemma_skip_pre(s, pre, 0);
}

/// Leading whitespace is skipped.
proof fn lemma_skip_pre(s: Seq<char>, pre: Seq<char>, i: int)
    requires
        0 <= i <= pre.len() <= s.len(),
        forall|x: int| 0 <= x < pre.len() ==> s[x] == pre[x],
        all_ws_from(pre, 0),
    ensures
        lex_from(s, i) == lex_from(s, pre.len() as int),
    decreases pre.len() - i,
{
    if i < pre.len() {
        assert(unicode_white_space(pre[i]));
        lemma_ws_step(s, i);
        lemma_skip_pre(s, pre, i + 1);
    }
}

} // verus!
