//! Rewriting a text: spans of it replaced by other bytes.

use vstd::prelude::*;
use vstd::utf8::{encode_utf8, is_char_boundary};

verus! {

/// One replacement: the bytes from `start` up to `end` give way to `with`.
pub struct Edit {
    pub start: int,
    pub end: int,
    pub with: Seq<u8>,
}

/// The text with one span replaced.
pub open spec fn spliced(text: Seq<u8>, e: Edit) -> Seq<u8> {
    text.subrange(0, e.start) + e.with + text.subrange(e.end, text.len() as int)
}

/// The edits lie inside a text of `len` bytes, from left to right, and no two
/// overlap.
pub open spec fn in_order(edits: Seq<Edit>, len: int) -> bool {
    &&& forall|k: int|
        0 <= k < edits.len() ==> 0 <= (#[trigger] edits[k]).start <= edits[k].end <= len
    &&& forall|j: int, k: int|
        0 <= j < k < edits.len() ==> (#[trigger] edits[j]).end <= (#[trigger] edits[k]).start
}

/// The text from `cursor` on, with the edits from the `k`-th on carried out:
/// the bytes before each span are kept, the span gives way to its
/// replacement.
pub open spec fn assembled_from(text: Seq<u8>, edits: Seq<Edit>, k: int, cursor: int) -> Seq<u8>
    decreases edits.len() - k,
{
    if k < 0 || k >= edits.len() {
        text.subrange(cursor, text.len() as int)
    } else {
        text.subrange(cursor, edits[k].start) + edits[k].with + assembled_from(
            text,
            edits,
            k + 1,
            edits[k].end,
        )
    }
}

/// The text with every edit carried out.
pub open spec fn assembled(text: Seq<u8>, edits: Seq<Edit>) -> Seq<u8> {
    assembled_from(text, edits, 0, 0)
}

/// Where the `k`-th edit starts, or the end of the text behind the last one.
pub open spec fn cut(text: Seq<u8>, edits: Seq<Edit>, k: int) -> int {
    if 0 <= k < edits.len() {
        edits[k].start
    } else {
        text.len() as int
    }
}

/// The text after the edits from the `k`-th on were carried out in place: up
/// to the `k`-th span nothing has moved.
pub open spec fn half_done(text: Seq<u8>, edits: Seq<Edit>, k: int) -> Seq<u8> {
    text.subrange(0, cut(text, edits, k)) + assembled_from(text, edits, k, cut(text, edits, k))
}

/// The edits carried out in place from the last to the first.
pub open spec fn rewritten_backward(text: Seq<u8>, edits: Seq<Edit>) -> Seq<u8>
    decreases edits.len(),
{
    if edits.len() == 0 {
        text
    } else {
        rewritten_backward(spliced(text, edits.last()), edits.drop_last())
    }
}

/// Literal bytes before the next span can be split off.
pub proof fn lemma_assembled_cursor(text: Seq<u8>, edits: Seq<Edit>, k: int, from: int, to: int)
    requires
        0 <= k <= edits.len(),
        0 <= from <= to <= cut(text, edits, k) <= text.len(),
    ensures
        assembled_from(text, edits, k, from) == text.subrange(from, to) + assembled_from(
            text,
            edits,
            k,
            to,
        ),
{
    let stop = cut(text, edits, k);
    assert(text.subrange(from, stop) =~= text.subrange(from, to) + text.subrange(to, stop));
    if k < edits.len() {
        let rest = edits[k].with + assembled_from(text, edits, k + 1, edits[k].end);
        assert(text.subrange(from, stop) + rest =~= text.subrange(from, to) + (text.subrange(
            to,
            stop,
        ) + rest));
        assert(assembled_from(text, edits, k, from) =~= text.subrange(from, stop) + rest);
        assert(assembled_from(text, edits, k, to) =~= text.subrange(to, stop) + rest);
    }
}

/// Carrying out the edit before the `k`-th in place moves nothing before it.
pub proof fn lemma_splice_step(text: Seq<u8>, edits: Seq<Edit>, k: int)
    requires
        in_order(edits, text.len() as int),
        0 < k <= edits.len(),
    ensures
        spliced(half_done(text, edits, k), edits[k - 1]) == half_done(text, edits, k - 1),
{
    let e = edits[k - 1];
    let stop = cut(text, edits, k);
    let now = half_done(text, edits, k);
    let tail = assembled_from(text, edits, k, stop);
    assert(e.end <= stop) by {
        if k < edits.len() {
            assert(edits[k - 1].end <= edits[k].start);
        }
    }
    lemma_assembled_cursor(text, edits, k, e.end, stop);
    let rest = e.with + assembled_from(text, edits, k, e.end);
    assert(now.subrange(0, e.start) =~= text.subrange(0, e.start));
    assert(now.subrange(e.end, now.len() as int) =~= text.subrange(e.end, stop) + tail);
    assert(half_done(text, edits, k - 1) =~= text.subrange(0, e.start) + rest);
    assert(spliced(now, e) =~= text.subrange(0, e.start) + rest);
}

/// Before any edit was carried out the text is as it was, and after all of
/// them it is assembled.
pub proof fn lemma_half_done_ends(text: Seq<u8>, edits: Seq<Edit>)
    requires
        in_order(edits, text.len() as int),
    ensures
        half_done(text, edits, edits.len() as int) == text,
        half_done(text, edits, 0) == assembled(text, edits),
{
    assert(half_done(text, edits, edits.len() as int) =~= text);
    lemma_assembled_cursor(text, edits, 0, 0, cut(text, edits, 0));
}

/// The edits from the `k`-th on carried out in place from the first to the
/// last, where the bytes behind the edits done so far have moved by `shift`.
pub open spec fn rewritten_forward(text: Seq<u8>, edits: Seq<Edit>, k: int, shift: int) -> Seq<u8>
    decreases edits.len() - k,
{
    if k < 0 || k >= edits.len() {
        text
    } else {
        let e = edits[k];
        rewritten_forward(
            spliced(text, Edit { start: e.start + shift, end: e.end + shift, with: e.with }),
            edits,
            k + 1,
            shift + e.with.len() - (e.end - e.start),
        )
    }
}

/// What the edits before the `k`-th put in place of the text before the
/// `k`-th span.
pub open spec fn assembled_upto(text: Seq<u8>, edits: Seq<Edit>, k: int) -> Seq<u8>
    decreases k,
{
    if k <= 0 || k > edits.len() {
        Seq::empty()
    } else {
        assembled_upto(text, edits, k - 1) + text.subrange(
            behind(edits, k - 1),
            edits[k - 1].start,
        ) + edits[k - 1].with
    }
}

/// Where the edit before the `k`-th ends, or the start of the text before the
/// first one.
pub open spec fn behind(edits: Seq<Edit>, k: int) -> int {
    if 0 < k <= edits.len() {
        edits[k - 1].end
    } else {
        0
    }
}

/// What the edits before the `k`-th have written, and behind it the rest of
/// the text with the other edits carried out, make up the assembled text.
pub proof fn lemma_assembled_split(text: Seq<u8>, edits: Seq<Edit>, k: int)
    requires
        in_order(edits, text.len() as int),
        0 <= k <= edits.len(),
    ensures
        assembled(text, edits) == assembled_upto(text, edits, k) + assembled_from(
            text,
            edits,
            k,
            behind(edits, k),
        ),
    decreases k,
{
    if k == 0 {
        assert(assembled_upto(text, edits, 0) + assembled_from(text, edits, 0, 0)
            =~= assembled_from(text, edits, 0, 0));
    } else {
        lemma_assembled_split(text, edits, k - 1);
        let e = edits[k - 1];
        let before = assembled_upto(text, edits, k - 1);
        let gap = text.subrange(behind(edits, k - 1), e.start);
        let after = assembled_from(text, edits, k, e.end);
        assert(assembled_from(text, edits, k - 1, behind(edits, k - 1)) == gap + e.with + after);
        assert(before + (gap + e.with + after) =~= (before + gap + e.with) + after);
    }
}

/// The edits carried out in place from the last to the first give the
/// assembled text.
pub proof fn lemma_rewritten_backward(text: Seq<u8>, edits: Seq<Edit>)
    requires
        in_order(edits, text.len() as int),
    ensures
        rewritten_backward(text, edits) == assembled(text, edits),
{
    lemma_half_done_ends(text, edits);
    lemma_backward_from(text, edits, edits.len() as int);
    assert(edits.subrange(0, edits.len() as int) =~= edits);
}

proof fn lemma_backward_from(text: Seq<u8>, edits: Seq<Edit>, k: int)
    requires
        in_order(edits, text.len() as int),
        0 <= k <= edits.len(),
    ensures
        rewritten_backward(half_done(text, edits, k), edits.subrange(0, k)) == half_done(
            text,
            edits,
            0,
        ),
    decreases k,
{
    if k > 0 {
        let done = edits.subrange(0, k);
        assert(done.last() == edits[k - 1]);
        assert(done.drop_last() =~= edits.subrange(0, k - 1));
        lemma_splice_step(text, edits, k);
        lemma_backward_from(text, edits, k - 1);
    }
}

/// The text after the edits before the `k`-th were carried out in place from
/// the left: behind the last of them nothing has changed, it has only moved.
pub open spec fn done_so_far(text: Seq<u8>, edits: Seq<Edit>, k: int) -> Seq<u8> {
    assembled_upto(text, edits, k) + text.subrange(behind(edits, k), text.len() as int)
}

proof fn lemma_forward_from(text: Seq<u8>, edits: Seq<Edit>, k: int)
    requires
        in_order(edits, text.len() as int),
        0 <= k <= edits.len(),
    ensures
        rewritten_forward(
            done_so_far(text, edits, k),
            edits,
            k,
            assembled_upto(text, edits, k).len() - behind(edits, k),
        ) == assembled(text, edits),
    decreases edits.len() - k,
{
    let now = done_so_far(text, edits, k);
    let head = assembled_upto(text, edits, k);
    let shift = head.len() - behind(edits, k);
    if k == edits.len() {
        lemma_assembled_split(text, edits, k);
    } else {
        let e = edits[k];
        assert(behind(edits, k) <= e.start) by {
            if k > 0 {
                assert(edits[k - 1].end <= edits[k].start);
            }
        }
        let moved = Edit { start: e.start + shift, end: e.end + shift, with: e.with };
        let gap = text.subrange(behind(edits, k), e.start);
        assert(now.subrange(0, moved.start) =~= head + gap);
        assert(now.subrange(moved.end, now.len() as int) =~= text.subrange(
            e.end,
            text.len() as int,
        ));
        assert(spliced(now, moved) =~= done_so_far(text, edits, k + 1));
        assert(assembled_upto(text, edits, k + 1).len() - behind(edits, k + 1) == shift
            + e.with.len() - (e.end - e.start));
        lemma_forward_from(text, edits, k + 1);
    }
}

/// The edits carried out in place from the first to the last give the
/// assembled text.
pub proof fn lemma_rewritten_forward(text: Seq<u8>, edits: Seq<Edit>)
    requires
        in_order(edits, text.len() as int),
    ensures
        rewritten_forward(text, edits, 0, 0) == assembled(text, edits),
{
    assert(done_so_far(text, edits, 0) =~= text);
    lemma_forward_from(text, edits, 0);
}

/// The order in which the edits are carried out does not matter: from the
/// right or from the left, in place, they give the same text, which is the
/// one assembled in one pass.
pub proof fn law_order_independence(text: Seq<u8>, edits: Seq<Edit>)
    requires
        in_order(edits, text.len() as int),
    ensures
        rewritten_backward(text, edits) == rewritten_forward(text, edits, 0, 0),
        rewritten_backward(text, edits) == assembled(text, edits),
{
    lemma_rewritten_backward(text, edits);
    lemma_rewritten_forward(text, edits);
}

/// `String::replace_range` over the range from `start` up to `end`.
///
/// Trusted: the bytes of the range give way to those of `with`, and the
/// bytes before and behind the range stay. The function panics where the
/// range does not lie inside the string or an end of it is no character
/// boundary, which the conditions leave out. A string too long for memory
/// is not modelled, as it is not for `Vec::push` in vstd.
#[verifier::external_body]
pub(crate) fn replace_range(text: &mut String, start: usize, end: usize, with: &str)
    requires
        start <= end <= encode_utf8(old(text)@).len(),
        is_char_boundary(encode_utf8(old(text)@), start as int),
        is_char_boundary(encode_utf8(old(text)@), end as int),
    ensures
        encode_utf8(final(text)@) == spliced(
            encode_utf8(old(text)@),
            (Edit { start: start as int, end: end as int, with: encode_utf8(with@) }),
        ),
{
    text.replace_range(start..end, with);
}

} // verus!
