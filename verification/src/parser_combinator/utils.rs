use vstd::prelude::*;
use vstd::std_specs::iter::IteratorSpec;
use vstd::std_specs::cmp::PartialEqSpec;
use vstd::pervasive::cloned;
use crate::parser_combinator::ParserResult;

verus! {

/// Reads nothing and never fails.
pub fn nothing<IT: Iterator, E>(input: IT) -> (r: ParserResult<IT, (), E>)
    ensures
        r == Ok::<(IT, ()), (IT, E)>((input, ())),
{
    Ok((input, ()))
}

/// Reads the next item, whatever it is; fails at the end of the input.
pub fn anything<IT: Iterator<Item = T>, T>(input: IT) -> (r: ParserResult<IT, T, ()>)
    ensures
        input.obeys_prophetic_iter_laws() ==> match r {
            Ok((rest, item)) => input.remaining().len() > 0 && item == input.remaining()[0]
                && rest.remaining() == input.remaining().drop_first()
                && rest.obeys_prophetic_iter_laws(),
            Err((rest, _)) => input.remaining().len() == 0 && rest.remaining()
                == input.remaining() && rest.obeys_prophetic_iter_laws(),
        },
{
    let mut input = input;
    match input.next() {
        Some(item) => Ok((input, item)),
        None => Err((input, ())),
    }
}

/// Reads one decimal digit. Fails with the item that stands there instead,
/// or with nothing at the end of the input.
pub fn ascii_digit<IT: Iterator<Item = char>>(input: IT) -> (r: ParserResult<
    IT,
    char,
    Option<char>,
>)
    ensures
        input.obeys_prophetic_iter_laws() ==> match r {
            Ok((rest, c)) => input.remaining().len() > 0 && c == input.remaining()[0] && '0' <= c
                <= '9' && rest.remaining() == input.remaining().drop_first(),
            Err((rest, Some(c))) => input.remaining().len() > 0 && c == input.remaining()[0] && !(
            '0' <= c <= '9') && rest.remaining() == input.remaining().drop_first(),
            Err((rest, None)) => input.remaining().len() == 0 && rest.remaining()
                == input.remaining(),
        },
{
    match anything(input) {
        Ok((rest, c)) => {
            if '0' <= c && c <= '9' {
                Ok((rest, c))
            } else {
                Err((rest, Some(c)))
            }
        },
        Err((rest, _)) => Err((rest, None)),
    }
}

/// What `peek` makes of `q`, the result of a parser on a copy of the input `i`.
pub open spec fn peeked<IT, T, E>(i: IT, q: ParserResult<IT, T, E>) -> ParserResult<IT, T, E> {
    match q {
        Ok((_, v)) => Ok((i, v)),
        Err(e) => Err(e),
    }
}

/// The parser that reads what `p` reads and leaves the input where it was.
/// Where `p` fails, it fails as `p` does.
pub fn peek<IT: Iterator + Clone, T, E>(p: impl Fn(IT) -> ParserResult<IT, T, E>) -> (w: impl Fn(
    IT,
) -> ParserResult<IT, T, E>)
    requires
        forall|i: IT| p.requires((i,)),
    ensures
        forall|i: IT| w.requires((i,)),
        forall|i: IT, r: ParserResult<IT, T, E>|
            w.ensures((i,), r) ==> exists|c: IT, q: ParserResult<IT, T, E>|
                cloned(i, c) && #[trigger] p.ensures((c,), q) && r == peeked(i, q),
{
    move |input: IT| -> (r: ParserResult<IT, T, E>)
        ensures
            exists|c: IT, q: ParserResult<IT, T, E>|
                cloned(input, c) && #[trigger] p.ensures((c,), q) && r == peeked(input, q),
        {
            let c = input.clone();
            let ghost c0 = c;
            let q = p(c);
            let ghost q0 = q;
            let r = match q {
                Ok((_, v)) => Ok((input, v)),
                Err(e) => Err(e),
            };
            assert(cloned(input, c0) && p.ensures((c0,), q0) && r == peeked(input, q0));
            r
        }
}

/// The parser that reads one item that equals `c`. It fails with the item
/// that stands there instead, or with nothing at the end of the input.
pub fn tag<IT: Iterator>(c: IT::Item) -> (w: impl Fn(IT) -> ParserResult<
    IT,
    (),
    Option<IT::Item>,
>) where IT::Item: Eq
    ensures
        forall|i: IT| w.requires((i,)),
        forall|i: IT, r: ParserResult<IT, (), Option<IT::Item>>|
            w.ensures((i,), r) && i.obeys_prophetic_iter_laws() && <IT::Item>::obeys_eq_spec()
                ==> match r {
                Ok((rest, _)) => i.remaining().len() > 0 && i.remaining()[0].eq_spec(&c)
                    && rest.remaining() == i.remaining().drop_first(),
                Err((rest, Some(item))) => i.remaining().len() > 0 && item == i.remaining()[0]
                    && !item.eq_spec(&c) && rest.remaining() == i.remaining().drop_first(),
                Err((rest, None)) => i.remaining().len() == 0 && rest.remaining()
                    == i.remaining(),
            },
{
    move |input: IT| -> (r: ParserResult<IT, (), Option<IT::Item>>)
        ensures
            input.obeys_prophetic_iter_laws() && <IT::Item>::obeys_eq_spec() ==> match r {
                Ok((rest, _)) => input.remaining().len() > 0 && input.remaining()[0].eq_spec(&c)
                    && rest.remaining() == input.remaining().drop_first(),
                Err((rest, Some(item))) => input.remaining().len() > 0 && item
                    == input.remaining()[0] && !item.eq_spec(&c) && rest.remaining()
                    == input.remaining().drop_first(),
                Err((rest, None)) => input.remaining().len() == 0 && rest.remaining()
                    == input.remaining(),
            },
        {
            match anything(input) {
                Ok((rest, item)) => {
                    if item == c {
                        Ok((rest, ()))
                    } else {
                        Err((rest, Some(item)))
                    }
                },
                Err((rest, _)) => Err((rest, None)),
            }
        }
}

} // verus!
