use playground_rs::parser_combinator::combinators::{
    and, id, many, many0, many_mn, many_till, map_parsed, opt, or,
};
use playground_rs::parser_combinator::utils::{anything, ascii_digit, nothing, peek, tag};
use playground_rs::parser_combinator::{map_err, or_else, ParserResult};
use std::str::Chars;

fn digit(input: Chars<'_>) -> ParserResult<Chars<'_>, char, Option<char>> {
    ascii_digit(input)
}

fn end(input: Chars<'_>) -> ParserResult<Chars<'_>, (), Option<char>> {
    tag(';')(input)
}

fn any_char(input: Chars<'_>) -> ParserResult<Chars<'_>, char, Option<char>> {
    map_err(anything, |_| None)(input)
}

fn value(c: char) -> u32 {
    c.to_digit(10).unwrap()
}

fn left<T, E>(r: &ParserResult<Chars<'_>, T, E>) -> String {
    match r {
        Ok((rest, _)) => rest.as_str().to_string(),
        Err((rest, _)) => rest.as_str().to_string(),
    }
}

#[test]
fn id_hands_its_argument_back() {
    assert_eq!(id(5), 5);
    assert_eq!(id("x"), "x");
}

#[test]
fn nothing_reads_nothing() {
    let r: ParserResult<Chars<'_>, (), ()> = nothing("abc".chars());
    assert!(r.is_ok());
    assert_eq!(left(&r), "abc");
}

#[test]
fn anything_reads_one_item() {
    let r = anything("abc".chars());
    assert_eq!(left(&r), "bc");
    assert_eq!(r.ok().map(|(_, c)| c), Some('a'));
    let r = anything("".chars());
    assert!(r.is_err());
}

#[test]
fn ascii_digit_reads_a_digit_only() {
    let r = ascii_digit("7x".chars());
    assert_eq!(left(&r), "x");
    assert_eq!(r.ok().map(|(_, c)| c), Some('7'));
    let r = ascii_digit("x7".chars());
    assert_eq!(left(&r), "7");
    assert_eq!(r.err().map(|(_, e)| e), Some(Some('x')));
    let r = ascii_digit("".chars());
    assert_eq!(r.err().map(|(_, e)| e), Some(None));
    let r = ascii_digit("/".chars());
    assert!(r.is_err());
    let r = ascii_digit(":".chars());
    assert!(r.is_err());
    assert!(ascii_digit("0".chars()).is_ok());
    assert!(ascii_digit("9".chars()).is_ok());
}

#[test]
fn tag_reads_the_item_it_was_given() {
    let r = tag::<Chars<'_>>('a')("abc".chars());
    assert!(r.is_ok());
    assert_eq!(left(&r), "bc");
    let r = tag::<Chars<'_>>('a')("bc".chars());
    assert_eq!(left(&r), "c");
    assert_eq!(r.err().map(|(_, e)| e), Some(Some('b')));
    let r = tag::<Chars<'_>>('a')("".chars());
    assert_eq!(r.err().map(|(_, e)| e), Some(None));
}

#[test]
fn peek_leaves_the_input_where_it_was() {
    let r = peek(digit)("12".chars());
    assert_eq!(left(&r), "12");
    assert_eq!(r.ok().map(|(_, c)| c), Some('1'));
    let r = peek(digit)("x2".chars());
    assert!(r.is_err());
}

#[test]
fn map_parsed_hands_the_value_through() {
    let r = map_parsed(digit, value)("42".chars());
    assert_eq!(left(&r), "2");
    assert_eq!(r.ok().map(|(_, v)| v), Some(4));
    let r = map_parsed(digit, value)("x".chars());
    assert_eq!(r.err().map(|(_, e)| e), Some(Some('x')));
}

#[test]
fn map_err_hands_the_reason_through() {
    let r = map_err(digit, |e: Option<char>| e.is_some())("x".chars());
    assert_eq!(r.err().map(|(_, e)| e), Some(true));
    let r = map_err(digit, |e: Option<char>| e.is_some())("".chars());
    assert_eq!(r.err().map(|(_, e)| e), Some(false));
    let r = map_err(digit, |e: Option<char>| e.is_some())("5".chars());
    assert_eq!(r.ok().map(|(_, v)| v), Some('5'));
}

#[test]
fn and_reads_one_after_the_other() {
    let pair = |a: char, b: char| -> Result<u32, Option<char>> { Ok(value(a) * 10 + value(b)) };
    let r = and(digit, digit, pair)("123".chars());
    assert_eq!(left(&r), "3");
    assert_eq!(r.ok().map(|(_, v)| v), Some(12));
    let r = and(digit, digit, pair)("1x3".chars());
    assert_eq!(left(&r), "3");
    assert_eq!(r.err().map(|(_, e)| e), Some(Some('x')));
    let r = and(digit, digit, pair)("x23".chars());
    assert_eq!(left(&r), "23");
    let refuse = |_: char, b: char| -> Result<u32, Option<char>> { Err(Some(b)) };
    let r = and(digit, digit, refuse)("123".chars());
    assert_eq!(left(&r), "3");
    assert_eq!(r.err().map(|(_, e)| e), Some(Some('2')));
}

#[test]
fn or_takes_the_second_where_the_first_fails() {
    let r = or(tag::<Chars<'_>>('a'), tag::<Chars<'_>>('b'), id)("bc".chars());
    assert!(r.is_ok());
    assert_eq!(left(&r), "c");
    let r = or(tag::<Chars<'_>>('a'), tag::<Chars<'_>>('b'), id)("ac".chars());
    assert!(r.is_ok());
    assert_eq!(left(&r), "c");
    let r = or(tag::<Chars<'_>>('a'), tag::<Chars<'_>>('b'), id)("cd".chars());
    assert_eq!(left(&r), "d");
    assert_eq!(r.err().map(|(_, e)| e), Some(Some('c')));
    let r = or_else(digit, any_char)("x1".chars());
    assert_eq!(left(&r), "1");
    assert_eq!(r.ok().map(|(_, c)| c), Some('x'));
}

#[test]
fn opt_never_fails() {
    let r = opt(digit)("1a".chars());
    assert_eq!(left(&r), "a");
    assert_eq!(r.ok().map(|(_, v)| v), Some(Some('1')));
    let r = opt(digit)("a1".chars());
    assert_eq!(left(&r), "a1");
    assert_eq!(r.ok().map(|(_, v)| v), Some(None));
}

#[test]
fn many0_folds_what_is_read() {
    let number = |acc: u32, c: char| acc * 10 + value(c);
    let r = many0(digit, number, 0)("123ab".chars());
    assert_eq!(left(&r), "ab");
    assert_eq!(r.ok().map(|(_, v)| v), Some(123));
    let r = many0(digit, number, 7)("ab".chars());
    assert_eq!(left(&r), "ab");
    assert_eq!(r.ok().map(|(_, v)| v), Some(7));
}

#[test]
fn many_needs_one_run() {
    let greater = |a: char, b: char| a.max(b);
    let r = many(digit, greater)("1927x".chars());
    assert_eq!(left(&r), "x");
    assert_eq!(r.ok().map(|(_, v)| v), Some('9'));
    let r = many(digit, greater)("x1".chars());
    assert_eq!(left(&r), "1");
    assert_eq!(r.err().map(|(_, e)| e), Some(Some('x')));
}

#[test]
fn many_mn_counts_its_runs() {
    let number = |acc: u32, c: char| acc * 10 + value(c);
    let r = many_mn(digit, 2, 3, number, 0)("12345".chars());
    assert_eq!(left(&r), "45");
    assert_eq!(r.ok().map(|(_, v)| v), Some(123));
    let r = many_mn(digit, 2, 3, number, 0)("12a".chars());
    assert_eq!(left(&r), "a");
    assert_eq!(r.ok().map(|(_, v)| v), Some(12));
    let r = many_mn(digit, 2, 3, number, 0)("1a".chars());
    assert_eq!(left(&r), "a");
    assert_eq!(r.err().map(|(_, e)| e), Some((1, 1)));
    let r = many_mn(digit, 0, 0, number, 9)("12".chars());
    assert_eq!(left(&r), "12");
    assert_eq!(r.ok().map(|(_, v)| v), Some(9));
}

#[test]
fn many_till_stops_at_the_condition() {
    let number = |acc: u32, c: char| acc * 10 + value(c);
    let r = many_till(digit, end, number, 0)("12;3".chars());
    assert_eq!(left(&r), "3");
    assert_eq!(r.ok().map(|(_, v)| v), Some((12, Some(()))));
    let r = many_till(digit, end, number, 0)("12a".chars());
    assert_eq!(left(&r), "a");
    assert_eq!(r.ok().map(|(_, v)| v), Some((12, None)));
    let r = many_till(digit, end, number, 0)(";".chars());
    assert_eq!(left(&r), "");
    assert_eq!(r.ok().map(|(_, v)| v), Some((0, Some(()))));
}
