//! What holds of parsing and replacing, for every template and every list of
//! arguments.

use crate::arg::{Argument, ArgumentToken, Expression};
use crate::grammar::{lemma_plain_text, lemma_tokens_of_placed, tokens_of, DOLLAR};
use crate::join::joined;
use crate::render::{edits_of, failure, outcome, rendered, replacement, separator};
use crate::select::{ascending, descending, picked, resolved, selection, ResolutionError};
use crate::splice::{
    assembled, assembled_from, law_order_independence, rewritten_backward, rewritten_forward,
};
use crate::written::{first_index, lemma_token_read, token_text, written};
use vstd::prelude::*;
use vstd::utf8::{encode_utf8, encode_utf8_decode_utf8};

verus! {

/// A text without tokens comes back unchanged, whatever the arguments.
pub proof fn law_no_tokens(text: Seq<char>, args: Seq<Seq<char>>)
    requires
        tokens_of(encode_utf8(text)).len() == 0,
    ensures
        outcome(text, args) == Ok::<Seq<char>, ResolutionError>(text),
{
    let bytes = encode_utf8(text);
    assert(rendered(text, args) =~= bytes);
    encode_utf8_decode_utf8(text);
}

/// A text without `$` comes back unchanged, whatever the arguments.
pub proof fn law_plain_text(text: Seq<char>, args: Seq<Seq<char>>)
    requires
        forall|q: int|
            0 <= q < encode_utf8(text).len() ==> #[trigger] encode_utf8(text)[q] != DOLLAR,
    ensures
        outcome(text, args) == Ok::<Seq<char>, ResolutionError>(text),
{
    lemma_plain_text(encode_utf8(text));
    law_no_tokens(text, args);
}

/// A template that is one token and nothing else gives what the token stands
/// for.
pub proof fn law_sole_token(text: Seq<char>, arg: Argument, args: Seq<Seq<char>>)
    requires
        tokens_of(encode_utf8(text)) == seq![arg],
        arg.range.start == 0,
        arg.range.end == encode_utf8(text).len(),
    ensures
        outcome(text, args) == replacement(arg, args),
{
    let bytes = encode_utf8(text);
    let tokens = tokens_of(bytes);
    let len = args.len() as usize;
    assert(tokens.last() == arg);
    assert(failure(tokens.drop_last(), len) is None);
    match selection(arg, len) {
        Err(e) => {
            assert(failure(tokens, len) == Some(e));
        },
        Ok(at) => {
            assert(failure(tokens, len) is None);
            let with = replacement(arg, args).unwrap();
            let edits = edits_of(tokens, args);
            assert(edits[0].with == encode_utf8(with));
            assert(assembled_from(bytes, edits, 1, edits[0].end) =~= Seq::<u8>::empty());
            assert(assembled(bytes, edits) =~= encode_utf8(with));
            encode_utf8_decode_utf8(with);
        },
    }
}

/// The arguments at the positions from `a` up to `b` are that stretch of the
/// list.
pub proof fn lemma_picked_ascending(args: Seq<Seq<char>>, a: int, b: int)
    requires
        0 <= a <= b < args.len(),
    ensures
        picked(args, ascending(a, b)) == args.subrange(a, b + 1),
{
    assert(picked(args, ascending(a, b)) =~= args.subrange(a, b + 1));
}

/// The arguments at the positions from `a` down to `b` are that stretch of
/// the list, turned round.
pub proof fn lemma_picked_descending(args: Seq<Seq<char>>, a: int, b: int)
    requires
        0 <= b <= a < args.len(),
    ensures
        picked(args, descending(a, b)) == args.subrange(b, a + 1).reverse(),
{
    assert(picked(args, descending(a, b)) =~= args.subrange(b, a + 1).reverse());
}

/// A template that is one written token and nothing else gives what the
/// token stands for.
pub proof fn law_written_token(token: ArgumentToken, optional: bool, args: Seq<Seq<char>>)
    ensures
        outcome(written(token, optional), args) == replacement(
            Argument { range: 0..0, optional, token },
            args,
        ),
{
    let bytes = token_text(token, optional);
    lemma_token_read(token, optional);
    let arg = Argument { range: 0..(bytes.len() as usize), optional, token };
    law_sole_token(written(token, optional), arg, args);
}

/// `$i` alone gives the argument that `i` names, from the front or, below
/// zero, from the back. Where `i` names none it is an error, which holds `i`
/// and the number of arguments.
pub proof fn law_single(i: i64, args: Seq<Seq<char>>)
    requires
        args.len() <= usize::MAX,
    ensures
        outcome(written(ArgumentToken::Single(i), false), args) == match resolved(
            i as int,
            args.len() as int,
        ) {
            Some(at) => Ok::<Seq<char>, ResolutionError>(args[at]),
            None => Err(ResolutionError { index: i, len: args.len() as usize }),
        },
{
    law_written_token(ArgumentToken::Single(i), false, args);
    match resolved(i as int, args.len() as int) {
        Some(at) => {
            assert(picked(args, seq![at]) =~= seq![args[at]]);
        },
        None => {},
    }
}

/// `$a:b`, where `a` names an argument that does not stand behind the one
/// that `b` names, gives the arguments from the one to the other, joined by
/// single spaces.
pub proof fn law_range_forward(a: i64, b: i64, optional: bool, args: Seq<Seq<char>>)
    requires
        args.len() <= usize::MAX,
        resolved(a as int, args.len() as int) is Some,
        resolved(b as int, args.len() as int) is Some,
        resolved(a as int, args.len() as int)->0 <= resolved(b as int, args.len() as int)->0,
    ensures
        outcome(written(ArgumentToken::Joint(a, Some(b)), optional), args) == Ok::<
            Seq<char>,
            ResolutionError,
        >(
            joined(
                args.subrange(
                    resolved(a as int, args.len() as int)->0,
                    resolved(b as int, args.len() as int)->0 + 1,
                ),
                separator(),
            ),
        ),
{
    law_written_token(ArgumentToken::Joint(a, Some(b)), optional, args);
    lemma_picked_ascending(
        args,
        resolved(a as int, args.len() as int)->0,
        resolved(b as int, args.len() as int)->0,
    );
}

/// `$a:b`, where `a` names an argument that stands behind the one that `b`
/// names, gives the arguments from the one back to the other, the last
/// first, joined by single spaces.
pub proof fn law_range_reversed(a: i64, b: i64, optional: bool, args: Seq<Seq<char>>)
    requires
        args.len() <= usize::MAX,
        resolved(a as int, args.len() as int) is Some,
        resolved(b as int, args.len() as int) is Some,
        resolved(a as int, args.len() as int)->0 > resolved(b as int, args.len() as int)->0,
    ensures
        outcome(written(ArgumentToken::Joint(a, Some(b)), optional), args) == Ok::<
            Seq<char>,
            ResolutionError,
        >(
            joined(
                args.subrange(
                    resolved(b as int, args.len() as int)->0,
                    resolved(a as int, args.len() as int)->0 + 1,
                ).reverse(),
                separator(),
            ),
        ),
{
    law_written_token(ArgumentToken::Joint(a, Some(b)), optional, args);
    lemma_picked_descending(
        args,
        resolved(a as int, args.len() as int)->0,
        resolved(b as int, args.len() as int)->0,
    );
}

/// `$a:` gives the arguments from the one that `a` names to the last, joined
/// by single spaces.
pub proof fn law_range_open(a: i64, optional: bool, args: Seq<Seq<char>>)
    requires
        args.len() <= usize::MAX,
        resolved(a as int, args.len() as int) is Some,
    ensures
        outcome(written(ArgumentToken::Joint(a, None), optional), args) == Ok::<
            Seq<char>,
            ResolutionError,
        >(
            joined(
                args.subrange(resolved(a as int, args.len() as int)->0, args.len() as int),
                separator(),
            ),
        ),
{
    law_written_token(ArgumentToken::Joint(a, None), optional, args);
    lemma_picked_ascending(args, resolved(a as int, args.len() as int)->0, args.len() - 1);
}

/// An optional range whose second index lies behind the last argument runs
/// to the last argument.
pub proof fn law_optional_range_past_end(a: i64, b: i64, args: Seq<Seq<char>>)
    requires
        args.len() <= usize::MAX,
        resolved(a as int, args.len() as int) is Some,
        b >= args.len(),
    ensures
        outcome(written(ArgumentToken::Joint(a, Some(b)), true), args) == Ok::<
            Seq<char>,
            ResolutionError,
        >(
            joined(
                args.subrange(resolved(a as int, args.len() as int)->0, args.len() as int),
                separator(),
            ),
        ),
{
    law_written_token(ArgumentToken::Joint(a, Some(b)), true, args);
    lemma_picked_ascending(args, resolved(a as int, args.len() as int)->0, args.len() - 1);
}

/// An optional token has no error. It gives the empty text where its index,
/// or the first index of a range, names no argument, and where the second
/// index of a range lies before the first argument.
pub proof fn law_optional(token: ArgumentToken, args: Seq<Seq<char>>)
    requires
        args.len() <= usize::MAX,
    ensures
        outcome(written(token, true), args) is Ok,
        resolved(first_index(token), args.len() as int) is None ==> outcome(
            written(token, true),
            args,
        ) == Ok::<Seq<char>, ResolutionError>(Seq::empty()),
        token matches ArgumentToken::Joint(_, Some(b)) && b < 0 && resolved(
            b as int,
            args.len() as int,
        ) is None ==> outcome(written(token, true), args) == Ok::<Seq<char>, ResolutionError>(
            Seq::empty(),
        ),
{
    law_written_token(token, true, args);
    assert(picked(args, Seq::<int>::empty()) =~= Seq::<Seq<char>>::empty());
}

/// A template whose tokens are all optional has no error.
pub proof fn law_all_optional(text: Seq<char>, args: Seq<Seq<char>>)
    requires
        forall|k: int|
            0 <= k < tokens_of(encode_utf8(text)).len() ==> (#[trigger] tokens_of(
                encode_utf8(text),
            )[k]).optional,
    ensures
        outcome(text, args) is Ok,
{
    let tokens = tokens_of(encode_utf8(text));
    lemma_no_failure(tokens, args.len() as usize, tokens.len() as int);
    assert(tokens.subrange(0, tokens.len() as int) =~= tokens);
}

/// Tokens that all select something have no error among them.
pub proof fn lemma_no_failure(tokens: Seq<Argument>, len: usize, n: int)
    requires
        0 <= n <= tokens.len(),
        forall|k: int| 0 <= k < n ==> selection(#[trigger] tokens[k], len) is Ok,
    ensures
        failure(tokens.subrange(0, n), len) is None,
    decreases n,
{
    if n > 0 {
        lemma_no_failure(tokens, len, n - 1);
        assert(tokens.subrange(0, n).drop_last() =~= tokens.subrange(0, n - 1));
        assert(tokens.subrange(0, n).last() == tokens[n - 1]);
    }
}

/// Parsing is a function of the text: what was parsed from the same text has
/// the same tokens.
pub proof fn law_parse_again(first: Expression, second: Expression)
    requires
        first.source() == second.source(),
        first.tokens() == tokens_of(encode_utf8(first.source())),
        second.tokens() == tokens_of(encode_utf8(second.source())),
    ensures
        first.tokens() == second.tokens(),
{
}

/// The tokens of a template can be replaced in any order: in place from the
/// last to the first, or from the first to the last, the text that comes
/// out is the same, since no two spans overlap.
pub proof fn law_replace_order(text: Seq<char>, args: Seq<Seq<char>>)
    requires
        encode_utf8(text).len() <= usize::MAX,
    ensures
        rendered(text, args) == rewritten_backward(
            encode_utf8(text),
            edits_of(tokens_of(encode_utf8(text)), args),
        ),
        rendered(text, args) == rewritten_forward(
            encode_utf8(text),
            edits_of(tokens_of(encode_utf8(text)), args),
            0,
            0,
        ),
{
    let bytes = encode_utf8(text);
    lemma_tokens_of_placed(bytes);
    law_order_independence(bytes, edits_of(tokens_of(bytes), args));
}

} // verus!
