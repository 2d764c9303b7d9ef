use argexpr::{Expression, ResolutionError};

fn replaced(text: &str, args: &[&str]) -> Result<String, ResolutionError> {
    Expression::parse(text).replace(args)
}

#[test]
fn text_without_tokens_is_unchanged() {
    assert_eq!(replaced("", &[]), Ok("".to_string()));
    assert_eq!(replaced("plain text", &[]), Ok("plain text".to_string()));
    assert_eq!(replaced("plain text", &["a", "b"]), Ok("plain text".to_string()));
    assert_eq!(replaced("costs 5$ or $abc", &["a"]), Ok("costs 5$ or $abc".to_string()));
    assert_eq!(replaced("na\u{ef}ve \u{1f600}", &["a"]), Ok("na\u{ef}ve \u{1f600}".to_string()));
}

#[test]
fn single_gives_the_argument() {
    let args = ["a", "b", "c"];
    assert_eq!(replaced("$0", &args), Ok("a".to_string()));
    assert_eq!(replaced("$1", &args), Ok("b".to_string()));
    assert_eq!(replaced("$2", &args), Ok("c".to_string()));
    assert_eq!(replaced("$-1", &args), Ok("c".to_string()));
    assert_eq!(replaced("$-2", &args), Ok("b".to_string()));
    assert_eq!(replaced("$-3", &args), Ok("a".to_string()));
}

#[test]
fn single_out_of_range_is_an_error() {
    let args = ["a", "b", "c"];
    assert_eq!(replaced("$3", &args), Err(ResolutionError { index: 3, len: 3 }));
    assert_eq!(replaced("$-4", &args), Err(ResolutionError { index: -4, len: 3 }));
    assert_eq!(replaced("$0", &[]), Err(ResolutionError { index: 0, len: 0 }));
    assert_eq!(replaced("$-1", &[]), Err(ResolutionError { index: -1, len: 0 }));
    assert_eq!(
        replaced("$9223372036854775807", &args),
        Err(ResolutionError { index: i64::MAX, len: 3 })
    );
    assert_eq!(
        replaced("$-9223372036854775808", &args),
        Err(ResolutionError { index: i64::MIN, len: 3 })
    );
}

#[test]
fn range_forward() {
    let args = ["a", "b", "c", "d"];
    assert_eq!(replaced("$0:3", &args), Ok("a b c d".to_string()));
    assert_eq!(replaced("$1:2", &args), Ok("b c".to_string()));
    assert_eq!(replaced("$2:2", &args), Ok("c".to_string()));
    assert_eq!(replaced("$-3:-2", &args), Ok("b c".to_string()));
    assert_eq!(replaced("$1:-1", &args), Ok("b c d".to_string()));
    assert_eq!(replaced("$-4:0", &args), Ok("a".to_string()));
}

#[test]
fn range_reversed() {
    let args = ["a", "b", "c", "d"];
    assert_eq!(replaced("$3:0", &args), Ok("d c b a".to_string()));
    assert_eq!(replaced("$2:1", &args), Ok("c b".to_string()));
    assert_eq!(replaced("$-1:-3", &args), Ok("d c b".to_string()));
    assert_eq!(replaced("$-1:0", &args), Ok("d c b a".to_string()));
    assert_eq!(replaced("$3:-4", &args), Ok("d c b a".to_string()));
}

#[test]
fn range_open() {
    let args = ["a", "b", "c", "d"];
    assert_eq!(replaced("$0:", &args), Ok("a b c d".to_string()));
    assert_eq!(replaced("$2:", &args), Ok("c d".to_string()));
    assert_eq!(replaced("$3:", &args), Ok("d".to_string()));
    assert_eq!(replaced("$-2:", &args), Ok("c d".to_string()));
}

#[test]
fn range_start_out_of_range_is_an_error() {
    let args = ["a", "b"];
    assert_eq!(replaced("$2:", &args), Err(ResolutionError { index: 2, len: 2 }));
    assert_eq!(replaced("$2:3", &args), Err(ResolutionError { index: 2, len: 2 }));
    assert_eq!(replaced("$-3:1", &args), Err(ResolutionError { index: -3, len: 2 }));
    assert_eq!(replaced("$-3:", &args), Err(ResolutionError { index: -3, len: 2 }));
    assert_eq!(replaced("$0:", &[]), Err(ResolutionError { index: 0, len: 0 }));
}

#[test]
fn range_end_out_of_range_is_an_error() {
    let args = ["a", "b"];
    assert_eq!(replaced("$0:2", &args), Err(ResolutionError { index: 2, len: 2 }));
    assert_eq!(replaced("$0:5", &args), Err(ResolutionError { index: 5, len: 2 }));
    assert_eq!(replaced("$1:-3", &args), Err(ResolutionError { index: -3, len: 2 }));
    assert_eq!(replaced("$-1:2", &args), Err(ResolutionError { index: 2, len: 2 }));
}

#[test]
fn range_start_is_looked_at_before_end() {
    assert_eq!(replaced("$7:9", &["a"]), Err(ResolutionError { index: 7, len: 1 }));
}

#[test]
fn optional_single_out_of_range_is_empty() {
    assert_eq!(replaced("[$0?]", &[]), Ok("[]".to_string()));
    assert_eq!(replaced("[$3?]", &["a", "b"]), Ok("[]".to_string()));
    assert_eq!(replaced("[$-3?]", &["a", "b"]), Ok("[]".to_string()));
    assert_eq!(replaced("[$1?]", &["a", "b"]), Ok("[b]".to_string()));
}

#[test]
fn optional_range_start_out_of_range_is_empty() {
    assert_eq!(replaced("[$0:?]", &[]), Ok("[]".to_string()));
    assert_eq!(replaced("[$2:?]", &["a", "b"]), Ok("[]".to_string()));
    assert_eq!(replaced("[$2:3?]", &["a", "b"]), Ok("[]".to_string()));
    assert_eq!(replaced("[$5:0?]", &["a", "b"]), Ok("[]".to_string()));
    assert_eq!(replaced("[$-3:1?]", &["a", "b"]), Ok("[]".to_string()));
}

#[test]
fn optional_range_end_behind_the_last_runs_to_the_last() {
    assert_eq!(replaced("[$0:2?]", &["a", "b"]), Ok("[a b]".to_string()));
    assert_eq!(replaced("[$1:9?]", &["a", "b"]), Ok("[b]".to_string()));
    assert_eq!(replaced("[$-1:2?]", &["a", "b"]), Ok("[b]".to_string()));
    assert_eq!(replaced("[$0:1?]", &["a"]), Ok("[a]".to_string()));
}

#[test]
fn optional_range_end_before_the_first_is_empty() {
    assert_eq!(replaced("[$1:-3?]", &["a", "b"]), Ok("[]".to_string()));
    assert_eq!(replaced("[$0:-2?]", &["a"]), Ok("[]".to_string()));
}

#[test]
fn optional_range_in_range_is_as_without_the_mark() {
    let args = ["a", "b", "c"];
    assert_eq!(replaced("$0:2?", &args), replaced("$0:2", &args));
    assert_eq!(replaced("$2:0?", &args), replaced("$2:0", &args));
    assert_eq!(replaced("$1:?", &args), replaced("$1:", &args));
    assert_eq!(replaced("$-1?", &args), replaced("$-1", &args));
}

#[test]
fn error_is_that_of_the_last_token() {
    let args = ["a"];
    assert_eq!(replaced("$4 $0 $5 $0", &args), Err(ResolutionError { index: 5, len: 1 }));
    assert_eq!(replaced("$4 $0 $5? $0", &args), Err(ResolutionError { index: 4, len: 1 }));
    assert_eq!(replaced("$1:2 $3:", &args), Err(ResolutionError { index: 3, len: 1 }));
}

#[test]
fn tokens_in_the_middle_of_text() {
    let args = ["one", "two", "three"];
    assert_eq!(
        replaced("<$0> and <$1:2>, then <$-1:0>.", &args),
        Ok("<one> and <two three>, then <three two one>.".to_string())
    );
    assert_eq!(replaced("$0$1$2", &args), Ok("onetwothree".to_string()));
    assert_eq!(replaced("$$0", &args), Ok("$one".to_string()));
    assert_eq!(replaced("$1-2", &args), Ok("two-2".to_string()));
}

#[test]
fn replacement_longer_and_shorter_than_token() {
    let args = ["", "a much longer argument than its token"];
    assert_eq!(
        replaced("$1|$0|$1|$0:1|$0", &args),
        Ok("a much longer argument than its token||a much longer argument than its token| a much longer argument than its token|".to_string())
    );
}

#[test]
fn arguments_are_not_read_again() {
    assert_eq!(replaced("$0 $1", &["$1", "$0"]), Ok("$1 $0".to_string()));
    assert_eq!(replaced("$0:", &["$9", "$0:?"]), Ok("$9 $0:?".to_string()));
}

#[test]
fn text_and_arguments_beyond_ascii() {
    let args = ["\u{e9}t\u{e9}", "\u{65e5}\u{672c}", "\u{1f600}"];
    assert_eq!(
        replaced("\u{fc}ber $0 \u{2192} $1:2 \u{2190} $-1:0!", &args),
        Ok("\u{fc}ber \u{e9}t\u{e9} \u{2192} \u{65e5}\u{672c} \u{1f600} \u{2190} \u{1f600} \u{65e5}\u{672c} \u{e9}t\u{e9}!".to_string())
    );
}

#[test]
fn empty_arguments_are_joined_as_they_are() {
    assert_eq!(replaced("[$0:]", &["", "", ""]), Ok("[  ]".to_string()));
    assert_eq!(replaced("[$0:1]", &["a", ""]), Ok("[a ]".to_string()));
    assert_eq!(replaced("[$1:0]", &["a", ""]), Ok("[ a]".to_string()));
}

#[test]
fn one_expression_many_argument_lists() {
    let e = Expression::parse("$0 + $-1 = $0:?");
    assert_eq!(e.replace(&["x"]), Ok("x + x = x".to_string()));
    assert_eq!(e.replace(&["x", "y"]), Ok("x + y = x y".to_string()));
    assert_eq!(e.replace(&[]), Err(ResolutionError { index: -1, len: 0 }));
    assert_eq!(e.replace(&["p", "q", "r"]), Ok("p + r = p q r".to_string()));
    assert_eq!(e.text(), "$0 + $-1 = $0:?");
    assert_eq!(e.args().len(), 3);
}

#[test]
fn index_too_large_to_read_stays_in_the_text() {
    assert_eq!(
        replaced("$9223372036854775808 $0", &["a"]),
        Ok("$9223372036854775808 a".to_string())
    );
}

#[test]
fn clamp_and_reverse_from_the_front() {
    assert_eq!(Expression::clamp_and_reverse(0, 3), Ok(0));
    assert_eq!(Expression::clamp_and_reverse(2, 3), Ok(2));
    assert_eq!(Expression::clamp_and_reverse(3, 3), Err(ResolutionError { index: 3, len: 3 }));
    assert_eq!(Expression::clamp_and_reverse(0, 0), Err(ResolutionError { index: 0, len: 0 }));
    assert_eq!(
        Expression::clamp_and_reverse(i64::MAX, 3),
        Err(ResolutionError { index: i64::MAX, len: 3 })
    );
}

#[test]
fn clamp_and_reverse_from_the_back() {
    assert_eq!(Expression::clamp_and_reverse(-1, 3), Ok(2));
    assert_eq!(Expression::clamp_and_reverse(-2, 3), Ok(1));
    assert_eq!(Expression::clamp_and_reverse(-3, 3), Ok(0));
    assert_eq!(Expression::clamp_and_reverse(-4, 3), Err(ResolutionError { index: -4, len: 3 }));
    assert_eq!(Expression::clamp_and_reverse(-1, 0), Err(ResolutionError { index: -1, len: 0 }));
    assert_eq!(
        Expression::clamp_and_reverse(i64::MIN, 3),
        Err(ResolutionError { index: i64::MIN, len: 3 })
    );
}

#[test]
fn replacing_from_either_side_gives_the_same() {
    // The same replacements carried out by hand from the left, on a text
    // whose offsets move, and what `replace` gives.
    let text = "$2 then $0:1, and $-1? at last";
    let args = ["a", "bb", "ccc"];
    let e = Expression::parse(text);
    let each: Vec<String> = e
        .args()
        .iter()
        .map(|a| Expression::parse(&text[a.range.clone()]).replace(&args).unwrap())
        .collect();
    let mut by_hand = text.to_string();
    let mut moved: isize = 0;
    for (a, with) in e.args().iter().zip(each.iter()) {
        let start = (a.range.start as isize + moved) as usize;
        let end = (a.range.end as isize + moved) as usize;
        by_hand.replace_range(start..end, with);
        moved += with.len() as isize - (a.range.end - a.range.start) as isize;
    }
    assert_eq!(e.replace(&args), Ok(by_hand));
    assert_eq!(e.replace(&args), Ok("ccc then a bb, and ccc at last".to_string()));
}
