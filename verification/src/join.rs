//! Joining texts with a separator.

use crate::select::texts;
use vstd::prelude::*;

verus! {

/// The parts written one behind the other, with `sep` between each two.
pub open spec fn joined(parts: Seq<Seq<char>>, sep: Seq<char>) -> Seq<char>
    decreases parts.len(),
{
    if parts.len() == 0 {
        Seq::empty()
    } else if parts.len() == 1 {
        parts[0]
    } else {
        joined(parts.drop_last(), sep) + sep + parts.last()
    }
}

/// `itertools::Itertools::join` on the items of a vector of string slices.
///
/// Trusted: the result is the first item, then for each further item the
/// separator and the item, which is `joined`. The function first asks for a
/// capacity of the separator's length in bytes times the number of further
/// items. A separator of at most one character has at most four bytes, no
/// more than an item takes up in the vector, so that product stays below the
/// size of the vector itself. A string too long for memory is not modelled,
/// as it is not for `Vec::push` in vstd.
#[verifier::external_body]
pub(crate) fn join(parts: &Vec<&str>, sep: &str) -> (out: String)
    requires
        sep@.len() <= 1,
    ensures
        out@ == joined(texts(parts@), sep@),
{
    itertools::Itertools::join(&mut parts.iter(), sep)
}

} // verus!
