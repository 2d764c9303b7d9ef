//! What `replace` gives: each token's span gives way to the arguments that
//! the token names, joined by single spaces.

use crate::arg::Argument;
use crate::grammar::tokens_of;
use crate::join::joined;
use crate::select::{picked, selection, ResolutionError};
use crate::splice::{assembled, Edit};
use vstd::prelude::*;
use vstd::utf8::{decode_utf8, encode_utf8};

verus! {

/// What is written between two arguments of one token.
pub open spec fn separator() -> Seq<char> {
    seq![' ']
}

/// The text that takes a token's place, or the index that names no argument.
pub open spec fn replacement(arg: Argument, args: Seq<Seq<char>>) -> Result<
    Seq<char>,
    ResolutionError,
> {
    match selection(arg, args.len() as usize) {
        Ok(at) => Ok(joined(picked(args, at), separator())),
        Err(e) => Err(e),
    }
}

/// The replacement of a token's span by the token's text.
pub open spec fn edit_of(arg: Argument, args: Seq<Seq<char>>) -> Edit {
    Edit {
        start: arg.range.start as int,
        end: arg.range.end as int,
        with: encode_utf8(replacement(arg, args).unwrap()),
    }
}

/// The replacements of all tokens.
pub open spec fn edits_of(tokens: Seq<Argument>, args: Seq<Seq<char>>) -> Seq<Edit> {
    Seq::new(tokens.len(), |k: int| edit_of(tokens[k], args))
}

/// The error of the last token, in the order of the text, that has one.
pub open spec fn failure(tokens: Seq<Argument>, len: usize) -> Option<ResolutionError>
    decreases tokens.len(),
{
    if tokens.len() == 0 {
        None
    } else {
        match selection(tokens.last(), len) {
            Err(e) => Some(e),
            Ok(_) => failure(tokens.drop_last(), len),
        }
    }
}

/// The UTF-8 bytes of the text with every token replaced.
pub open spec fn rendered(text: Seq<char>, args: Seq<Seq<char>>) -> Seq<u8> {
    assembled(encode_utf8(text), edits_of(tokens_of(encode_utf8(text)), args))
}

/// What replacing the tokens of `text` by `args` gives: the error of the last
/// token that has one, else the text with every token replaced.
pub open spec fn outcome(text: Seq<char>, args: Seq<Seq<char>>) -> Result<
    Seq<char>,
    ResolutionError,
> {
    match failure(tokens_of(encode_utf8(text)), args.len() as usize) {
        Some(e) => Err(e),
        None => Ok(decode_utf8(rendered(text, args))),
    }
}

} // verus!
