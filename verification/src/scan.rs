//! The scanner: executable code that reads the token grammar.

use crate::arg::{Argument, ArgumentToken};
use crate::grammar::{
    digits_end, digits_value, fits, index_at, is_digit, lemma_index_shape, lexeme_at, token_at,
    COLON, DOLLAR, MINUS, NINE, QUESTION, ZERO,
};
use std::ops::Range;
use vstd::prelude::*;

verus! {

/// The largest magnitude of a signed 64-bit integer, that of `i64::MIN`.
pub const LIMIT: u64 = 0x8000_0000_0000_0000;

/// Tests a byte for being an ASCII decimal digit.
pub(crate) fn digit(b: u8) -> (r: bool)
    ensures
        r == is_digit(b),
{
    ZERO <= b && b <= NINE
}

/// Reads the run of digits at `from`: where it ends, and the number it
/// writes where that is at most `LIMIT`.
pub(crate) fn scan_digits(bytes: &[u8], from: usize) -> (r: (usize, Option<u64>))
    requires
        from <= bytes@.len(),
    ensures
        r.0 == digits_end(bytes@, from as int),
        match r.1 {
            Some(m) => m == digits_value(bytes@, from as int, r.0 as int) && m <= LIMIT,
            None => digits_value(bytes@, from as int, r.0 as int) > LIMIT,
        },
{
    let mut i: usize = from;
    let mut magnitude: u64 = 0;
    let mut over: bool = false;
    while i < bytes.len() && digit(bytes[i])
        invariant
            from <= i <= bytes@.len(),
            digits_end(bytes@, from as int) == digits_end(bytes@, i as int),
            !over ==> magnitude == digits_value(bytes@, from as int, i as int) && magnitude
                <= LIMIT,
            over ==> digits_value(bytes@, from as int, i as int) > LIMIT,
        decreases bytes@.len() - i,
    {
        let d: u64 = (bytes[i] - ZERO) as u64;
        if !over {
            if magnitude > (LIMIT - d) / 10 {
                over = true;
            } else {
                magnitude = magnitude * 10 + d;
            }
        }
        i += 1;
    }
    if over {
        (i, None)
    } else {
        (i, Some(magnitude))
    }
}

/// Reads the index literal at `p`: where it ends (`p` where there is none),
/// and its value where that fits a signed 64-bit integer.
pub(crate) fn scan_index(bytes: &[u8], p: usize) -> (r: (usize, Option<i64>))
    requires
        p <= bytes@.len(),
    ensures
        match index_at(bytes@, p as int) {
            None => r.0 == p && r.1 is None,
            Some(lit) => r.0 == lit.end && r.1 == if fits(lit.value) {
                Some(lit.value as i64)
            } else {
                None
            },
        },
{
    let signed = p < bytes.len() && bytes[p] == MINUS;
    let from: usize = if signed { p + 1 } else { p };
    let (to, magnitude) = scan_digits(bytes, from);
    if to == from {
        return (p, None);
    }
    let value = match magnitude {
        None => None,
        Some(m) => if signed {
            if m == LIMIT {
                Some(i64::MIN)
            } else {
                Some(-(m as i64))
            }
        } else if m == LIMIT {
            None
        } else {
            Some(m as i64)
        },
    };
    (to, value)
}

/// Reads the match of the grammar at `p`: where the scan goes on, and the
/// token where the match is one.
pub(crate) fn scan_token(bytes: &[u8], p: usize) -> (r: (usize, Option<Argument>))
    requires
        p < bytes@.len(),
    ensures
        r.1 == token_at(bytes@, p as int),
        r.0 == match lexeme_at(bytes@, p as int) {
            Some(lx) => lx.end,
            None => p + 1,
        },
{
    if bytes[p] != DOLLAR {
        return (p + 1, None);
    }
    let (e1, first) = scan_index(bytes, p + 1);
    if e1 == p + 1 {
        proof {
            if index_at(bytes@, p + 1) is Some {
                lemma_index_shape(bytes@, p + 1);
            }
        }
        return (p + 1, None);
    }
    proof {
        lemma_index_shape(bytes@, p + 1);
    }
    let ranged = e1 < bytes.len() && bytes[e1] == COLON;
    let mut mark: usize = e1;
    let mut second: Option<i64> = None;
    let mut sound: bool = first.is_some();
    if ranged {
        let (e2, value) = scan_index(bytes, e1 + 1);
        if e2 == e1 + 1 {
            proof {
                if index_at(bytes@, e1 + 1) is Some {
                    lemma_index_shape(bytes@, e1 + 1);
                }
            }
            mark = e1 + 1;
        } else {
            proof {
                lemma_index_shape(bytes@, e1 + 1);
            }
            mark = e2;
            second = value;
            sound = sound && value.is_some();
        }
    }
    let optional = mark < bytes.len() && bytes[mark] == QUESTION;
    let end: usize = if optional { mark + 1 } else { mark };
    if !sound {
        return (end, None);
    }
    let token = if ranged {
        ArgumentToken::Joint(first.unwrap(), second)
    } else {
        ArgumentToken::Single(first.unwrap())
    };
    (end, Some(Argument { range: Range { start: p, end }, optional, token }))
}

} // verus!
