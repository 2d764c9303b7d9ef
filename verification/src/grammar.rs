//! The token grammar, stated over the UTF-8 bytes of a template.
//!
//! ```text
//! token := '$' index (':' index?)? '?'?
//! index := '-'? digit+
//! ```
//!
//! A token starts at every `$` that an index follows, and runs as far as the
//! grammar lets it. A match holds no `$` behind its first byte, so no token
//! starts inside another: the tokens of a text are the matches at all its
//! positions, and their spans do not overlap. An index that does not fit a
//! signed 64-bit integer names no argument: such a match gives no token and
//! its bytes stay literal text.

use crate::arg::{Argument, ArgumentToken};
use std::ops::Range;
use vstd::prelude::*;

verus! {

/// The grammar as a regular expression, for tools that want one. Its groups
/// are the first index, the colon, the second index and the question mark.
/// The scanner of this library finds the same matches without it.
pub const TOKEN_MATCHER_PATTERN: &'static str = r"\$(-?[0-9]+)(?:(:)(-?[0-9]+)?)?(\?)?";

/// `$`, which starts a token.
pub const DOLLAR: u8 = 0x24;

/// `-`, the sign of an index that counts from the back.
pub const MINUS: u8 = 0x2d;

/// `:`, which makes a token a range.
pub const COLON: u8 = 0x3a;

/// `?`, which makes a token optional.
pub const QUESTION: u8 = 0x3f;

/// The digit `0`.
pub const ZERO: u8 = 0x30;

/// The digit `9`.
pub const NINE: u8 = 0x39;

/// Whether `b` is an ASCII decimal digit.
pub open spec fn is_digit(b: u8) -> bool {
    ZERO <= b <= NINE
}

/// Where the longest run of digits that starts at `p` ends (`p` itself where
/// no digit stands at `p`).
pub open spec fn digits_end(s: Seq<u8>, p: int) -> int
    decreases s.len() - p,
{
    if 0 <= p < s.len() && is_digit(s[p]) {
        digits_end(s, p + 1)
    } else {
        p
    }
}

/// The number that the digits `s[from..to)` write in base ten.
pub open spec fn digits_value(s: Seq<u8>, from: int, to: int) -> int
    decreases to - from,
{
    if to <= from {
        0
    } else {
        10 * digits_value(s, from, to - 1) + (s[to - 1] - ZERO)
    }
}

/// An index literal: its value and where it ends.
pub struct Literal {
    pub value: int,
    pub end: int,
}

/// The index literal that starts at `p`: an optional minus sign and the
/// longest run of digits behind it, at least one.
pub open spec fn index_at(s: Seq<u8>, p: int) -> Option<Literal> {
    let signed = 0 <= p < s.len() && s[p] == MINUS;
    let from = if signed { p + 1 } else { p };
    let to = digits_end(s, from);
    if to == from {
        None
    } else if signed {
        Some(Literal { value: -digits_value(s, from, to), end: to })
    } else {
        Some(Literal { value: digits_value(s, from, to), end: to })
    }
}

/// A match of the grammar: its indices, of any size, whether it has a colon
/// and a question mark, and where it ends.
pub struct Lexeme {
    pub first: int,
    pub ranged: bool,
    pub second: Option<int>,
    pub optional: bool,
    pub end: int,
}

/// The longest match of the grammar that starts at `p`: a `$` and an index;
/// then, where a colon follows, the colon and, where one follows it, a second
/// index; then, where one follows, a question mark.
pub open spec fn lexeme_at(s: Seq<u8>, p: int) -> Option<Lexeme> {
    if 0 <= p < s.len() && s[p] == DOLLAR {
        match index_at(s, p + 1) {
            None => None,
            Some(first) => {
                let ranged = first.end < s.len() && s[first.end] == COLON;
                let second = if ranged { index_at(s, first.end + 1) } else { None };
                let mark = match second {
                    Some(lit) => lit.end,
                    None => if ranged { first.end + 1 } else { first.end },
                };
                let optional = mark < s.len() && s[mark] == QUESTION;
                Some(
                    Lexeme {
                        first: first.value,
                        ranged,
                        second: match second {
                            Some(lit) => Some(lit.value),
                            None => None,
                        },
                        optional,
                        end: if optional { mark + 1 } else { mark },
                    },
                )
            },
        }
    } else {
        None
    }
}

/// Whether `v` is a value of a signed 64-bit integer.
pub open spec fn fits(v: int) -> bool {
    i64::MIN <= v <= i64::MAX
}

/// The token that a match at `p` stands for.
pub open spec fn argument_of(p: int, lx: Lexeme) -> Argument {
    Argument {
        range: Range { start: p as usize, end: lx.end as usize },
        optional: lx.optional,
        token: if lx.ranged {
            ArgumentToken::Joint(
                lx.first as i64,
                match lx.second {
                    Some(v) => Some(v as i64),
                    None => None,
                },
            )
        } else {
            ArgumentToken::Single(lx.first as i64)
        },
    }
}

/// The token that starts at `p`, if one does.
pub open spec fn token_at(s: Seq<u8>, p: int) -> Option<Argument> {
    match lexeme_at(s, p) {
        Some(lx) => if fits(lx.first) && (lx.second matches Some(v) ==> fits(v)) {
            Some(argument_of(p, lx))
        } else {
            None
        },
        None => None,
    }
}

/// The tokens that start before position `n`, in the order of the text.
pub open spec fn tokens_upto(s: Seq<u8>, n: int) -> Seq<Argument>
    decreases n,
{
    if n <= 0 {
        Seq::empty()
    } else {
        match token_at(s, n - 1) {
            Some(a) => tokens_upto(s, n - 1).push(a),
            None => tokens_upto(s, n - 1),
        }
    }
}

/// The tokens of a text, in the order of the text.
pub open spec fn tokens_of(s: Seq<u8>) -> Seq<Argument> {
    tokens_upto(s, s.len() as int)
}


/// A run of digits ends at or behind its start, inside the text, and holds
/// digits only.
pub proof fn lemma_digits_end(s: Seq<u8>, p: int)
    requires
        0 <= p <= s.len(),
    ensures
        p <= digits_end(s, p) <= s.len(),
        forall|q: int| p <= q < digits_end(s, p) ==> is_digit(#[trigger] s[q]),
    decreases s.len() - p,
{
    if p < s.len() && is_digit(s[p]) {
        lemma_digits_end(s, p + 1);
    }
}

/// An index literal is not empty, ends inside the text, and is made of a
/// minus sign and digits.
pub proof fn lemma_index_shape(s: Seq<u8>, p: int)
    requires
        0 <= p <= s.len(),
        index_at(s, p) is Some,
    ensures
        p < index_at(s, p)->0.end <= s.len(),
        is_digit(s[index_at(s, p)->0.end - 1]),
        forall|q: int|
            p <= q < index_at(s, p)->0.end ==> #[trigger] s[q] == MINUS || is_digit(s[q]),
{
    let signed = p < s.len() && s[p] == MINUS;
    let from = if signed { p + 1 } else { p };
    lemma_digits_end(s, from);
}

/// A match takes up at least two bytes, ends inside the text, holds no `$`
/// behind its first byte, and is ASCII throughout.
pub proof fn lemma_lexeme_shape(s: Seq<u8>, p: int)
    requires
        lexeme_at(s, p) is Some,
    ensures
        0 <= p,
        p + 2 <= lexeme_at(s, p)->0.end <= s.len(),
        s[p] == DOLLAR,
        forall|q: int| p < q < lexeme_at(s, p)->0.end ==> #[trigger] s[q] != DOLLAR,
        forall|q: int| p <= q < lexeme_at(s, p)->0.end ==> #[trigger] s[q] < 0x80,
{
    let first = index_at(s, p + 1)->0;
    lemma_index_shape(s, p + 1);
    let ranged = first.end < s.len() && s[first.end] == COLON;
    if ranged {
        if index_at(s, first.end + 1) is Some {
            lemma_index_shape(s, first.end + 1);
        }
    }
}

/// Over a stretch without `$` no token starts.
pub proof fn lemma_tokens_upto_plain(s: Seq<u8>, a: int, b: int)
    requires
        0 <= a <= b <= s.len(),
        forall|q: int| a <= q < b ==> #[trigger] s[q] != DOLLAR,
    ensures
        tokens_upto(s, b) == tokens_upto(s, a),
    decreases b - a,
{
    if a < b {
        lemma_tokens_upto_plain(s, a, b - 1);
    }
}

/// A text without `$` has no tokens.
pub proof fn lemma_plain_text(s: Seq<u8>)
    requires
        forall|q: int| 0 <= q < s.len() ==> #[trigger] s[q] != DOLLAR,
    ensures
        tokens_of(s) == Seq::<Argument>::empty(),
{
    lemma_tokens_upto_plain(s, 0, s.len() as int);
}

/// Behind a match the scan goes on at its end: no token starts inside it.
pub proof fn lemma_tokens_upto_step(s: Seq<u8>, p: int)
    requires
        0 <= p < s.len(),
    ensures
        match lexeme_at(s, p) {
            Some(lx) => p < lx.end <= s.len() && tokens_upto(s, lx.end) == match token_at(s, p) {
                Some(a) => tokens_upto(s, p).push(a),
                None => tokens_upto(s, p),
            },
            None => tokens_upto(s, p + 1) == tokens_upto(s, p),
        },
{
    match lexeme_at(s, p) {
        Some(lx) => {
            lemma_lexeme_shape(s, p);
            lemma_tokens_upto_plain(s, p + 1, lx.end);
        },
        None => {},
    }
}


/// The spans of the tokens lie inside a text of `len` bytes, from left to
/// right, and no two overlap; none is empty.
pub open spec fn spans_in_order(tokens: Seq<Argument>, len: int) -> bool {
    &&& forall|k: int|
        0 <= k < tokens.len() ==> (#[trigger] tokens[k]).range.start < tokens[k].range.end <= len
    &&& forall|j: int, k: int|
        0 <= j < k < tokens.len() ==> (#[trigger] tokens[j]).range.end
            <= (#[trigger] tokens[k]).range.start
}

/// Each token is the one that the grammar finds where its span starts, and
/// the spans start from left to right.
pub open spec fn placed(s: Seq<u8>, tokens: Seq<Argument>) -> bool {
    &&& forall|k: int|
        0 <= k < tokens.len() ==> token_at(s, (#[trigger] tokens[k]).range.start as int) == Some(
            tokens[k],
        )
    &&& forall|j: int, k: int|
        0 <= j < k < tokens.len() ==> (#[trigger] tokens[j]).range.start
            < (#[trigger] tokens[k]).range.start
}

/// The span of a token covers its match: it starts at the `$`, takes up at
/// least two bytes, ends inside the text, holds no second `$`, and is ASCII
/// throughout.
pub proof fn lemma_token_span(s: Seq<u8>, p: int)
    requires
        s.len() <= usize::MAX,
        token_at(s, p) is Some,
    ensures
        lexeme_at(s, p) is Some,
        token_at(s, p)->0.range.start == p,
        token_at(s, p)->0.range.end == lexeme_at(s, p)->0.end,
        p + 2 <= token_at(s, p)->0.range.end <= s.len(),
        s[p] == DOLLAR,
        forall|q: int| p < q < token_at(s, p)->0.range.end ==> #[trigger] s[q] != DOLLAR,
        forall|q: int| p <= q < token_at(s, p)->0.range.end ==> #[trigger] s[q] < 0x80,
{
    lemma_lexeme_shape(s, p);
}

/// The tokens that start before `n` are placed, and start before `n`.
pub proof fn lemma_tokens_upto_placed(s: Seq<u8>, n: int)
    requires
        s.len() <= usize::MAX,
        0 <= n <= s.len(),
    ensures
        placed(s, tokens_upto(s, n)),
        forall|k: int|
            0 <= k < tokens_upto(s, n).len() ==> (#[trigger] tokens_upto(s, n)[k]).range.start < n,
    decreases n,
{
    if n > 0 {
        lemma_tokens_upto_placed(s, n - 1);
        if token_at(s, n - 1) is Some {
            lemma_token_span(s, n - 1);
        }
    }
}

/// Placed tokens do not overlap.
pub proof fn lemma_placed_in_order(s: Seq<u8>, tokens: Seq<Argument>)
    requires
        s.len() <= usize::MAX,
        placed(s, tokens),
    ensures
        spans_in_order(tokens, s.len() as int),
{
    assert forall|k: int| 0 <= k < tokens.len() implies (#[trigger] tokens[k]).range.start
        < tokens[k].range.end <= s.len() by {
        lemma_token_span(s, tokens[k].range.start as int);
    }
    assert forall|j: int, k: int| 0 <= j < k < tokens.len() implies (#[trigger] tokens[j]).range.end
        <= (#[trigger] tokens[k]).range.start by {
        lemma_token_span(s, tokens[j].range.start as int);
        lemma_token_span(s, tokens[k].range.start as int);
    }
}

/// The tokens of a text are placed, and their spans are in order.
pub proof fn lemma_tokens_of_placed(s: Seq<u8>)
    requires
        s.len() <= usize::MAX,
    ensures
        placed(s, tokens_of(s)),
        spans_in_order(tokens_of(s), s.len() as int),
{
    lemma_tokens_upto_placed(s, s.len() as int);
    lemma_placed_in_order(s, tokens_of(s));
}

} // verus!
