//! Which arguments a token names.
//!
//! An index counts from the front from 0 and from the back from -1, and must
//! name one of the arguments. An optional token whose index, or whose first
//! index, names none selects nothing. An optional range whose second index
//! lies behind the last argument runs to the last argument; one whose second
//! index lies before the first argument selects nothing. Of a token that is
//! not optional every index must name an argument: a second index equal to the
//! number of arguments is out of range like any larger one.

use crate::arg::{Argument, ArgumentToken};
use vstd::prelude::*;

verus! {

/// An index that names none of the arguments: the index as the token has it,
/// and the number of arguments.
#[derive(Debug, Clone, Copy, PartialEq, Eq)]
pub struct ResolutionError {
    pub index: i64,
    pub len: usize,
}

/// The position that the index `i` names among `len` arguments.
pub open spec fn resolved(i: int, len: int) -> Option<int> {
    let at = if i < 0 { len + i } else { i };
    if 0 <= at < len {
        Some(at)
    } else {
        None
    }
}

/// The positions from `a` up to `b`, both included.
pub open spec fn ascending(a: int, b: int) -> Seq<int> {
    Seq::new((b - a + 1) as nat, |k: int| a + k)
}

/// The positions from `a` down to `b`, both included.
pub open spec fn descending(a: int, b: int) -> Seq<int> {
    Seq::new((a - b + 1) as nat, |k: int| a - k)
}

/// The positions of the arguments that a token stands for, in the order in
/// which they are written out, or the index that names no argument.
pub open spec fn selection(arg: Argument, len: usize) -> Result<Seq<int>, ResolutionError> {
    match arg.token {
        ArgumentToken::Single(i) => match resolved(i as int, len as int) {
            Some(at) => Ok(seq![at]),
            None => if arg.optional {
                Ok(Seq::empty())
            } else {
                Err(ResolutionError { index: i, len })
            },
        },
        ArgumentToken::Joint(start, end) => match resolved(start as int, len as int) {
            None => if arg.optional {
                Ok(Seq::empty())
            } else {
                Err(ResolutionError { index: start, len })
            },
            Some(a) => match end {
                None => Ok(ascending(a, len - 1)),
                Some(e) => match resolved(e as int, len as int) {
                    Some(b) => if a <= b {
                        Ok(ascending(a, b))
                    } else {
                        Ok(descending(a, b))
                    },
                    None => if !arg.optional {
                        Err(ResolutionError { index: e, len })
                    } else if e >= 0 {
                        Ok(ascending(a, len - 1))
                    } else {
                        Ok(Seq::empty())
                    },
                },
            },
        },
    }
}

/// The texts of a list of arguments.
pub open spec fn texts(args: Seq<&str>) -> Seq<Seq<char>> {
    Seq::new(args.len(), |i: int| args[i]@)
}

/// The arguments at the given positions.
pub open spec fn picked(args: Seq<Seq<char>>, at: Seq<int>) -> Seq<Seq<char>> {
    Seq::new(at.len(), |k: int| args[at[k]])
}

/// The arguments at the positions from `a` up to `b`.
pub(crate) fn take_up<'a>(arguments: &[&'a str], a: usize, b: usize) -> (r: Vec<&'a str>)
    requires
        a <= b < arguments@.len(),
    ensures
        texts(r@) == picked(texts(arguments@), ascending(a as int, b as int)),
{
    let mut out: Vec<&'a str> = Vec::new();
    let mut i: usize = a;
    while i <= b
        invariant
            a <= i <= b + 1,
            b < arguments@.len(),
            out@.len() == i - a,
            forall|k: int| 0 <= k < out@.len() ==> out@[k] == arguments@[a + k],
        decreases b + 1 - i,
    {
        out.push(arguments[i]);
        i += 1;
    }
    assert(texts(out@) =~= picked(texts(arguments@), ascending(a as int, b as int)));
    out
}

/// The arguments at the positions from `a` down to `b`.
pub(crate) fn take_down<'a>(arguments: &[&'a str], a: usize, b: usize) -> (r: Vec<&'a str>)
    requires
        b <= a < arguments@.len(),
    ensures
        texts(r@) == picked(texts(arguments@), descending(a as int, b as int)),
{
    let len = arguments.len();
    let mut out: Vec<&'a str> = Vec::new();
    let mut i: usize = a + 1;
    while i > b
        invariant
            b <= i <= a + 1,
            a < len == arguments@.len(),
            out@.len() == a + 1 - i,
            forall|k: int| 0 <= k < out@.len() ==> out@[k] == arguments@[a - k],
        decreases i,
    {
        i -= 1;
        out.push(arguments[i]);
    }
    assert(texts(out@) =~= picked(texts(arguments@), descending(a as int, b as int)));
    out
}

} // verus!
