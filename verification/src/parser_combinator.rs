use vstd::prelude::*;
use vstd::pervasive::cloned;

pub mod combinators;
pub mod utils;

verus! {

/// What a parser returns: the input that is left and the value that was
/// read, or the input that is left and why nothing was read.
pub type ParserResult<IT, T, E> = Result<(IT, T), (IT, E)>;

/// A parser: a function from an input to what it read and the input that is
/// left. Every function of that shape is one.
pub trait Parser<IT: Iterator, T, E>: Fn(IT) -> ParserResult<IT, T, E> + Sized {

}

impl<F: Fn(IT) -> ParserResult<IT, R, E>, R, E, IT: Iterator> Parser<IT, R, E> for F {

}

/// `r` is what comes of `q1`, the result of a first parser on a copy of the
/// input `i`: `q1` itself, or, where it is a failure, what a second parser
/// `snd` returns on `i`.
pub open spec fn fallen<IT, T, E, Q: Fn(IT) -> ParserResult<IT, T, E>>(
    snd: Q,
    i: IT,
    q1: ParserResult<IT, T, E>,
    r: ParserResult<IT, T, E>,
) -> bool {
    match q1 {
        Ok(_) => r == q1,
        Err(_) => snd.ensures((i,), r),
    }
}

/// The parser that reads what `fst` reads or, where `fst` fails, what `snd`
/// reads from the same place.
pub fn or_else<IT: Iterator + Clone, T, E>(
    fst: impl Parser<IT, T, E>,
    snd: impl Parser<IT, T, E>,
) -> (w: impl Fn(IT) -> ParserResult<IT, T, E>)
    requires
        forall|i: IT| fst.requires((i,)),
        forall|i: IT| snd.requires((i,)),
    ensures
        forall|i: IT| w.requires((i,)),
        forall|i: IT, r: ParserResult<IT, T, E>|
            w.ensures((i,), r) ==> exists|c: IT, q1: ParserResult<IT, T, E>|
                cloned(i, c) && #[trigger] fst.ensures((c,), q1) && fallen(snd, i, q1, r),
{
    move |input: IT| -> (r: ParserResult<IT, T, E>)
        ensures
            exists|c: IT, q1: ParserResult<IT, T, E>|
                cloned(input, c) && #[trigger] fst.ensures((c,), q1) && fallen(snd, input, q1, r),
        {
            let c = input.clone();
            let ghost c0 = c;
            let q1 = fst(c);
            let ghost g1 = q1;
            let r = match q1 {
                Ok(read) => Ok(read),
                Err(_) => snd(input),
            };
            assert(cloned(input, c0) && fst.ensures((c0,), g1) && fallen(snd, input, g1, r));
            r
        }
}

/// `r` is `q` with `f` applied to the reason of the failure.
pub open spec fn mapped_err<IT, T, E, E2, F: Fn(E) -> E2>(
    f: F,
    q: ParserResult<IT, T, E>,
    r: ParserResult<IT, T, E2>,
) -> bool {
    match q {
        Ok(read) => r == Ok::<(IT, T), (IT, E2)>(read),
        Err((rest, e)) => match r {
            Ok(_) => false,
            Err((left, e2)) => left == rest && f.ensures((e,), e2),
        },
    }
}

/// The parser that reads what `p` reads and, where `p` fails, hands the
/// reason through `f`.
pub fn map_err<IT: Iterator, T, E, E2>(p: impl Parser<IT, T, E>, f: impl Fn(E) -> E2) -> (w: impl Fn(
    IT,
) -> ParserResult<IT, T, E2>)
    requires
        forall|i: IT| p.requires((i,)),
        forall|e: E| f.requires((e,)),
    ensures
        forall|i: IT| w.requires((i,)),
        forall|i: IT, r: ParserResult<IT, T, E2>|
            w.ensures((i,), r) ==> exists|q: ParserResult<IT, T, E>|
                #[trigger] p.ensures((i,), q) && mapped_err(f, q, r),
{
    move |input: IT| -> (r: ParserResult<IT, T, E2>)
        ensures
            exists|q: ParserResult<IT, T, E>|
                #[trigger] p.ensures((input,), q) && mapped_err(f, q, r),
        {
            let q = p(input);
            let ghost q0 = q;
            let r = match q {
                Ok(read) => Ok(read),
                Err((rest, e)) => Err((rest, f(e))),
            };
            assert(p.ensures((input,), q0) && mapped_err(f, q0, r));
            r
        }
}

} // verus!
