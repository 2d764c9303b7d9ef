//! Parsed templates and their tokens.

use crate::boundary::lemma_boundary_at_ascii;
use crate::grammar::{
    lemma_token_span, lemma_tokens_of_placed, lemma_tokens_upto_step, placed, spans_in_order,
    tokens_of, tokens_upto,
};
use crate::join::join;
use crate::render::{edit_of, edits_of, failure, outcome, rendered, replacement, separator};
use crate::scan::scan_token;
use crate::select::{resolved, take_down, take_up, texts, ResolutionError};
use crate::splice::{
    cut, half_done, in_order, lemma_half_done_ends, lemma_splice_step, replace_range, spliced,
};
use std::ops::Range;
use vstd::prelude::*;
use vstd::utf8::{
    encode_utf8, encode_utf8_decode_utf8, encode_utf8_valid_utf8, is_char_boundary,
};

verus! {

/// What a token refers to. Indices count from the front from 0, and from the
/// back from -1.
#[derive(Debug, Clone, Copy, PartialEq, Eq)]
pub enum ArgumentToken {
    /// One argument.
    Single(i64),
    /// The arguments from the first index to the second, both included, or to
    /// the last argument where there is no second index.
    Joint(i64, Option<i64>),
}

/// One placeholder of a template.
#[derive(Debug, PartialEq, Eq)]
pub struct Argument {
    /// The bytes of the template that the placeholder takes up.
    pub range: Range<usize>,
    /// Whether an index out of range gives the empty string and no error.
    pub optional: bool,
    pub token: ArgumentToken,
}

/// A parsed template: the text and its tokens, from left to right.
pub struct Expression<'a> {
    args: Vec<Argument>,
    text: &'a str,
}

impl<'a> Expression<'a> {
    /// The text of the template.
    pub closed spec fn source(&self) -> Seq<char> {
        self.text@
    }

    /// The tokens of the template, in the order of the text.
    pub closed spec fn tokens(&self) -> Seq<Argument> {
        self.args@
    }

    /// The tokens are those that the grammar finds in the text, and the
    /// text's length in bytes is one that a string has.
    #[verifier::type_invariant]
    spec fn parsed(&self) -> bool {
        &&& self.args@ == tokens_of(encode_utf8(self.text@))
        &&& encode_utf8(self.text@).len() <= usize::MAX
    }

    /// Finds the tokens of `text`. Text that the grammar does not match is
    /// literal text, so every text is a template.
    pub fn parse(text: &'a str) -> (e: Expression<'a>)
        ensures
            e.source() == text@,
            e.tokens() == tokens_of(encode_utf8(text@)),
            placed(encode_utf8(text@), e.tokens()),
            spans_in_order(e.tokens(), encode_utf8(text@).len() as int),
    {
        let bytes = text.as_bytes();
        let mut args: Vec<Argument> = Vec::new();
        let mut p: usize = 0;
        while p < bytes.len()
            invariant
                p <= bytes@.len(),
                args@ == tokens_upto(bytes@, p as int),
            decreases bytes@.len() - p,
        {
            proof {
                lemma_tokens_upto_step(bytes@, p as int);
            }
            let (next, token) = scan_token(bytes, p);
            match token {
                Some(a) => {
                    args.push(a);
                },
                None => {},
            }
            p = next;
        }
        proof {
            lemma_tokens_of_placed(bytes@);
        }
        Expression { args, text }
    }

    /// Writes the arguments that the tokens name in the tokens' place. An
    /// index that names no argument, in a token that is not optional, is an
    /// error: that of the last such token goes back, and no text.
    pub fn replace(&self, str_arguments: &[&str]) -> (out: Result<String, ResolutionError>)
        ensures
            match out {
                Ok(s) => outcome(self.source(), texts(str_arguments@)) == Ok::<
                    Seq<char>,
                    ResolutionError,
                >(s@) && encode_utf8(s@) == rendered(self.source(), texts(str_arguments@)),
                Err(e) => outcome(self.source(), texts(str_arguments@)) == Err::<
                    Seq<char>,
                    ResolutionError,
                >(e),
            },
    {
        let ghost bytes = encode_utf8(self.text@);
        let ghost len = str_arguments.len();
        let ghost tokens = self.args@;
        let ghost args = texts(str_arguments@);
        let ghost edits = edits_of(tokens, args);
        proof {
            use_type_invariant(self);
            lemma_tokens_of_placed(bytes);
            lemma_half_done_ends(bytes, edits);
            assert(tokens.subrange(0, tokens.len() as int) =~= tokens);
        }
        let mut copy = self.text.to_owned();
        let mut k: usize = self.args.len();
        while k > 0
            invariant
                k <= tokens.len(),
                tokens == self.args@,
                tokens == tokens_of(bytes),
                bytes == encode_utf8(self.text@),
                bytes.len() <= usize::MAX,
                args == texts(str_arguments@),
                len == args.len(),
                edits == edits_of(tokens, args),
                spans_in_order(tokens, bytes.len() as int),
                placed(bytes, tokens),
                in_order(edits, bytes.len() as int),
                encode_utf8(copy@) == half_done(bytes, edits, k as int),
                failure(tokens, len) == failure(tokens.subrange(0, k as int), len),
            decreases k,
        {
            k -= 1;
            let arg = &self.args[k];
            proof {
                let now = encode_utf8(copy@);
                encode_utf8_valid_utf8(copy@);
                lemma_token_span(bytes, arg.range.start as int);
                assert(edits[k as int].start == arg.range.start);
                assert(edits[k as int].end == arg.range.end);
                assert(arg.range.end <= cut(bytes, edits, k + 1)) by {
                    if k + 1 < tokens.len() {
                        assert(tokens[k as int].range.end <= tokens[k + 1].range.start);
                        assert(edits[k + 1].start == tokens[k + 1].range.start);
                    }
                }
                assert(now[arg.range.start as int] == bytes[arg.range.start as int]);
                assert(now[arg.range.end - 1] == bytes[arg.range.end - 1]);
                lemma_boundary_at_ascii(now, arg.range.start as int);
                lemma_boundary_at_ascii(now, arg.range.end - 1);
                assert(tokens.subrange(0, k + 1).last() == tokens[k as int]);
                assert(tokens.subrange(0, k + 1).drop_last() =~= tokens.subrange(0, k as int));
            }
            match Self::replace_arg(arg, &mut copy, str_arguments) {
                Err(e) => {
                    return Err(e);
                },
                Ok(()) => {
                    proof {
                        lemma_splice_step(bytes, edits, k + 1);
                    }
                },
            }
        }
        proof {
            encode_utf8_decode_utf8(copy@);
        }
        Ok(copy)
    }

    /// Resolves an index against `len` arguments: an index below zero counts
    /// from the back. An index that names none of the arguments is an error.
    pub fn clamp_and_reverse(i: i64, len: usize) -> (r: Result<usize, ResolutionError>)
        ensures
            match r {
                Ok(at) => resolved(i as int, len as int) == Some(at as int),
                Err(e) => resolved(i as int, len as int) is None && e == (ResolutionError {
                    index: i,
                    len,
                }),
            },
    {
        if i < 0 {
            let back: u64 = ((-(i + 1)) as u64) + 1;
            if back <= len as u64 {
                Ok((len as u64 - back) as usize)
            } else {
                Err(ResolutionError { index: i, len })
            }
        } else if (i as u64) < (len as u64) {
            Ok(i as usize)
        } else {
            Err(ResolutionError { index: i, len })
        }
    }

    /// Writes the arguments that one token names in the token's place in
    /// `text`, where the token lies from `arg.range.start` to `arg.range.end`.
    /// Where the token has an error, `text` stays as it is.
    fn replace_arg(arg: &Argument, text: &mut String, arguments: &[&str]) -> (r: Result<
        (),
        ResolutionError,
    >)
        requires
            arg.range.start <= arg.range.end <= encode_utf8(old(text)@).len(),
            is_char_boundary(encode_utf8(old(text)@), arg.range.start as int),
            is_char_boundary(encode_utf8(old(text)@), arg.range.end as int),
        ensures
            match r {
                Ok(()) => replacement(*arg, texts(arguments@)) is Ok && encode_utf8(final(text)@)
                    == spliced(encode_utf8(old(text)@), edit_of(*arg, texts(arguments@))),
                Err(e) => replacement(*arg, texts(arguments@)) == Err::<Seq<char>, ResolutionError>(
                    e,
                ) && final(text)@ == old(text)@,
            },
    {
        let len = arguments.len();
        let from = arg.range.start;
        let to = arg.range.end;
        proof {
            reveal_strlit("");
            reveal_strlit(" ");
            assert(" "@ =~= separator());
            assert(""@ =~= Seq::<char>::empty());
        }
        match arg.token {
            ArgumentToken::Single(start) => {
                match Self::clamp_and_reverse(start, len) {
                    Ok(at) => {
                        replace_range(text, from, to, arguments[at]);
                    },
                    Err(e) => {
                        if arg.optional {
                            replace_range(text, from, to, "");
                        } else {
                            return Err(e);
                        }
                    },
                }
            },
            ArgumentToken::Joint(start, end) => {
                let a = match Self::clamp_and_reverse(start, len) {
                    Ok(a) => a,
                    Err(e) => {
                        if arg.optional {
                            replace_range(text, from, to, "");
                            return Ok(());
                        } else {
                            return Err(e);
                        }
                    },
                };
                let picks: Vec<&str> = match end {
                    None => take_up(arguments, a, len - 1),
                    Some(e) => match Self::clamp_and_reverse(e, len) {
                        Ok(b) => if a <= b {
                            take_up(arguments, a, b)
                        } else {
                            take_down(arguments, a, b)
                        },
                        Err(err) => {
                            if !arg.optional {
                                return Err(err);
                            } else if e >= 0 {
                                take_up(arguments, a, len - 1)
                            } else {
                                Vec::new()
                            }
                        },
                    },
                };
                let replacement = join(&picks, " ");
                replace_range(text, from, to, replacement.as_str());
            },
        }
        Ok(())
    }

    /// The tokens, in the order of the text.
    pub fn args(&self) -> (r: &Vec<Argument>)
        ensures
            r@ == self.tokens(),
            r@ == tokens_of(encode_utf8(self.source())),
            placed(encode_utf8(self.source()), r@),
            spans_in_order(r@, encode_utf8(self.source()).len() as int),
    {
        proof {
            use_type_invariant(self);
            lemma_tokens_of_placed(encode_utf8(self.text@));
        }
        &self.args
    }

    /// The text of the template.
    pub fn text(&self) -> (r: &'a str)
        ensures
            r@ == self.source(),
    {
        self.text
    }
}

} // verus!
