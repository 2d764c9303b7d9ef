//! How a token is written, and that the grammar reads it back.

use crate::arg::{Argument, ArgumentToken};
use crate::grammar::{
    digits_end, digits_value, index_at, is_digit, lemma_lexeme_shape, lemma_tokens_upto_plain,
    lexeme_at, token_at, tokens_of, tokens_upto, Literal, COLON, DOLLAR, MINUS, QUESTION, ZERO,
};
use vstd::prelude::*;
use vstd::utf8::{encode_utf8, is_ascii_chars, is_ascii_chars_encode_utf8};

verus! {

/// The digits that write `n`, a number that is not negative, in base ten.
pub open spec fn digits_of(n: int) -> Seq<u8>
    decreases n,
{
    if n < 10 {
        seq![(ZERO + n) as u8]
    } else {
        digits_of(n / 10).push((ZERO + n % 10) as u8)
    }
}

/// An index as it is written: a minus sign where it is negative, then its
/// digits.
pub open spec fn index_text(i: int) -> Seq<u8> {
    if i < 0 {
        seq![MINUS] + digits_of(-i)
    } else {
        digits_of(i)
    }
}

/// What follows the first index of a token.
pub open spec fn tail_text(token: ArgumentToken, optional: bool) -> Seq<u8> {
    let range = match token {
        ArgumentToken::Single(_) => Seq::empty(),
        ArgumentToken::Joint(_, None) => seq![COLON],
        ArgumentToken::Joint(_, Some(end)) => seq![COLON] + index_text(end as int),
    };
    if optional {
        range.push(QUESTION)
    } else {
        range
    }
}

/// The first index of a token.
pub open spec fn first_index(token: ArgumentToken) -> int {
    match token {
        ArgumentToken::Single(i) => i as int,
        ArgumentToken::Joint(start, _) => start as int,
    }
}

/// A token as it is written in a template, such as `$1`, `$-2:`, `$0:3?`.
pub open spec fn token_text(token: ArgumentToken, optional: bool) -> Seq<u8> {
    seq![DOLLAR] + index_text(first_index(token)) + tail_text(token, optional)
}

/// The text whose characters have the given bytes as their codes.
pub open spec fn as_text(bytes: Seq<u8>) -> Seq<char> {
    Seq::new(bytes.len(), |k: int| bytes[k] as char)
}

/// The template that is the token and nothing else.
pub open spec fn written(token: ArgumentToken, optional: bool) -> Seq<char> {
    as_text(token_text(token, optional))
}

/// The digits of a number are digits, at least one, and write the number.
pub proof fn lemma_digits_of(n: int)
    requires
        0 <= n,
    ensures
        digits_of(n).len() >= 1,
        forall|k: int| 0 <= k < digits_of(n).len() ==> is_digit(#[trigger] digits_of(n)[k]),
        digits_value(digits_of(n), 0, digits_of(n).len() as int) == n,
    decreases n,
{
    if n >= 10 {
        lemma_digits_of(n / 10);
        let front = digits_of(n / 10);
        let all = digits_of(n);
        lemma_digits_value_same(front, 0, all, 0, front.len() as int);
    } else {
        let all = digits_of(n);
        assert(digits_value(all, 0, 0) == 0);
    }
}

/// The value of a run of digits is that of the same digits elsewhere.
pub proof fn lemma_digits_value_same(s: Seq<u8>, p: int, t: Seq<u8>, q: int, n: int)
    requires
        0 <= n,
        0 <= p,
        p + n <= s.len(),
        0 <= q,
        q + n <= t.len(),
        forall|k: int| p <= k < p + n ==> #[trigger] s[k] == t[k - p + q],
    ensures
        digits_value(s, p, p + n) == digits_value(t, q, q + n),
    decreases n,
{
    if n > 0 {
        lemma_digits_value_same(s, p, t, q, n - 1);
        assert(s[p + n - 1] == t[q + n - 1]);
    }
}

/// A run of digits ends where the first byte that is no digit stands.
pub proof fn lemma_digits_end_at(s: Seq<u8>, p: int, to: int)
    requires
        0 <= p <= to <= s.len(),
        forall|k: int| p <= k < to ==> is_digit(#[trigger] s[k]),
        to < s.len() ==> !is_digit(s[to]),
    ensures
        digits_end(s, p) == to,
    decreases to - p,
{
    if p < to {
        lemma_digits_end_at(s, p + 1, to);
    }
}

/// An index that is written at `p`, with no digit behind it, is read back.
pub proof fn lemma_index_read(s: Seq<u8>, p: int, i: int)
    requires
        0 <= p,
        p + index_text(i).len() <= s.len(),
        s.subrange(p, p + index_text(i).len()) == index_text(i),
        p + index_text(i).len() < s.len() ==> !is_digit(s[p + index_text(i).len()]),
    ensures
        index_at(s, p) == Some(Literal { value: i, end: p + index_text(i).len() }),
{
    let text = index_text(i);
    let to = p + text.len();
    let n = if i < 0 { -i } else { i };
    lemma_digits_of(n);
    let digits = digits_of(n);
    let from = if i < 0 { p + 1 } else { p };
    assert forall|k: int| 0 <= k < text.len() implies s[p + k] == text[k] by {
        assert(s.subrange(p, to)[k] == s[p + k]);
    }
    assert(s[p] == text[0]);
    assert forall|k: int| from <= k < to implies is_digit(#[trigger] s[k]) by {
        assert(s[k] == text[k - p]);
        assert(text[k - p] == digits[k - from]);
    }
    lemma_digits_end_at(s, from, to);
    assert forall|k: int| from <= k < from + digits.len() implies #[trigger] s[k] == digits[k
        - from + 0] by {
        assert(s[k] == text[k - p]);
    }
    lemma_digits_value_same(s, from, digits, 0, digits.len() as int);
}

/// A token that is written alone is read back: the text has that one token,
/// and the token spans the text.
pub proof fn lemma_token_read(token: ArgumentToken, optional: bool)
    ensures
        token_text(token, optional).len() <= usize::MAX,
        tokens_of(token_text(token, optional)) == seq![
            Argument {
                range: 0..(token_text(token, optional).len() as usize),
                optional,
                token,
            },
        ],
        encode_utf8(written(token, optional)) == token_text(token, optional),
{
    let s = token_text(token, optional);
    let first = first_index(token);
    let head = index_text(first);
    let tail = tail_text(token, optional);
    let e1: int = 1 + head.len() as int;
    lemma_index_len(first);
    assert(s.subrange(1, e1) =~= head);
    assert(forall|k: int| 0 <= k < tail.len() ==> s[e1 + k] == tail[k]);
    match token {
        ArgumentToken::Single(_) => {
            lemma_index_read(s, 1, first);
        },
        ArgumentToken::Joint(_, None) => {
            assert(s[e1] == tail[0]);
            lemma_index_read(s, 1, first);
            if optional {
                assert(s[e1 + 1] == tail[1]);
            }
            assert(index_at(s, e1 + 1) is None);
        },
        ArgumentToken::Joint(_, Some(end)) => {
            let second = index_text(end as int);
            lemma_index_len(end as int);
            assert(s[e1] == tail[0]);
            lemma_index_read(s, 1, first);
            let e2: int = e1 + 1 + second.len() as int;
            assert(s.subrange(e1 + 1, e2) =~= second);
            if optional {
                assert(s[e2] == tail[e2 - e1]);
            }
            lemma_index_read(s, e1 + 1, end as int);
        },
    }
    let lx = lexeme_at(s, 0)->0;
    assert(lexeme_at(s, 0) is Some);
    assert(lx.end == s.len());
    lemma_lexeme_shape(s, 0);
    lemma_tokens_upto_plain(s, 1, s.len() as int);
    let arg = Argument { range: 0..(s.len() as usize), optional, token };
    assert(token_at(s, 0) == Some(arg));
    assert(tokens_upto(s, 1) == tokens_upto(s, 0).push(arg));
    assert(tokens_upto(s, 0).push(arg) =~= seq![arg]);
    lemma_ascii_text(s);
}

/// ASCII bytes are the UTF-8 of the text that has them as its characters.
pub proof fn lemma_ascii_text(s: Seq<u8>)
    requires
        forall|k: int| 0 <= k < s.len() ==> #[trigger] s[k] < 0x80,
    ensures
        encode_utf8(as_text(s)) == s,
{
    let text = as_text(s);
    assert(is_ascii_chars(text)) by {
        assert forall|k: int| 0 <= k < text.len() implies '\0' <= #[trigger] text[k]
            <= '\u{7f}' by {
            assert(s[k] < 0x80);
        }
    }
    is_ascii_chars_encode_utf8(text);
    assert forall|k: int| 0 <= k < s.len() implies encode_utf8(text)[k] == s[k] by {
        assert(text[k] as u8 == encode_utf8(text)[k]);
        assert(s[k] < 0x80);
    }
    assert(encode_utf8(text) =~= s);
}

/// Ten to the `k`-th.
pub open spec fn ten_to(k: nat) -> int
    decreases k,
{
    if k == 0 {
        1
    } else {
        10 * ten_to((k - 1) as nat)
    }
}

/// A written index of a signed 64-bit integer takes up at most twenty bytes.
pub proof fn lemma_index_len(i: int)
    requires
        i64::MIN <= i <= i64::MAX,
    ensures
        1 <= index_text(i).len() <= 20,
{
    let n = if i < 0 { -i } else { i };
    assert(ten_to(19) == 10_000_000_000_000_000_000int) by {
        reveal_with_fuel(ten_to, 20);
    }
    lemma_digits_len(n, 19);
}

/// A number below ten to the `k`-th has at most `k` digits.
pub proof fn lemma_digits_len(n: int, k: nat)
    requires
        0 <= n < ten_to(k),
        k >= 1,
    ensures
        1 <= digits_of(n).len() <= k,
    decreases k,
{
    if n >= 10 {
        if k > 1 {
            lemma_digits_len(n / 10, (k - 1) as nat);
        } else {
            assert(ten_to(1) == 10) by {
                reveal_with_fuel(ten_to, 2);
            }
        }
    }
}

} // verus!
