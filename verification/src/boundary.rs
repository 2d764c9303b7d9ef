//! Character boundaries around ASCII bytes of UTF-8 text.

use vstd::prelude::*;
use vstd::utf8::{
    is_char_boundary, is_char_boundary_iff_is_leading_byte, length_of_first_scalar,
    pop_first_scalar, valid_utf8,
};

verus! {

/// In UTF-8 an ASCII byte is a character of its own: a character starts at
/// it, and the next starts right behind it.
pub proof fn lemma_boundary_at_ascii(bytes: Seq<u8>, i: int)
    requires
        valid_utf8(bytes),
        0 <= i < bytes.len(),
        bytes[i] < 0x80,
    ensures
        is_char_boundary(bytes, i),
        is_char_boundary(bytes, i + 1),
    decreases bytes.len(),
{
    is_char_boundary_iff_is_leading_byte(bytes, i);
    reveal_with_fuel(is_char_boundary, 2);
    if i > 0 {
        let width = length_of_first_scalar(bytes);
        let rest = pop_first_scalar(bytes);
        assert(is_char_boundary(rest, i - width));
        assert(rest[i - width] == bytes[i]);
        lemma_boundary_at_ascii(rest, i - width);
    }
}

} // verus!
