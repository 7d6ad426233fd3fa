use vstd::prelude::*;
use vstd::pervasive::cloned;
use crate::parser_combinator::{fallen, or_else, ParserResult};

verus! {

/// Hands its argument back.
pub fn id<T>(t: T) -> (same: T)
    ensures
        same == t,
{
    t
}

/// `r` is `q` with `f` applied to the value that was read.
pub open spec fn mapped<IT, T, S, E, F: Fn(T) -> S>(
    f: F,
    q: ParserResult<IT, T, E>,
    r: ParserResult<IT, S, E>,
) -> bool {
    match q {
        Ok((rest, v)) => match r {
            Ok((left, s)) => left == rest && f.ensures((v,), s),
            Err(_) => false,
        },
        Err(e) => r == Err::<(IT, S), (IT, E)>(e),
    }
}

/// The parser that reads what `p` reads and hands the value through `f`.
pub fn map_parsed<IT: Iterator, T, S, E>(
    p: impl Fn(IT) -> ParserResult<IT, T, E>,
    f: impl Fn(T) -> S,
) -> (w: impl Fn(IT) -> ParserResult<IT, S, E>)
    requires
        forall|i: IT| p.requires((i,)),
        forall|v: T| f.requires((v,)),
    ensures
        forall|i: IT| w.requires((i,)),
        forall|i: IT, r: ParserResult<IT, S, E>|
            w.ensures((i,), r) ==> exists|q: ParserResult<IT, T, E>|
                #[trigger] p.ensures((i,), q) && mapped(f, q, r),
{
    move |input: IT| -> (r: ParserResult<IT, S, E>)
        ensures
            exists|q: ParserResult<IT, T, E>| #[trigger] p.ensures((input,), q) && mapped(f, q, r),
        {
            let q = p(input);
            let ghost q0 = q;
            let r = match q {
                Ok((rest, v)) => Ok((rest, f(v))),
                Err(e) => Err(e),
            };
            assert(p.ensures((input,), q0) && mapped(f, q0, r));
            r
        }
}

/// `r` is what comes of `q1`, the result of a first parser, when a second
/// parser `snd` goes on where the first stopped and `f` joins the two values.
pub open spec fn joined<IT, T1, T2, R, E, Q: Fn(IT) -> ParserResult<IT, T2, E>, F: Fn(
    T1,
    T2,
) -> Result<R, E>>(snd: Q, f: F, q1: ParserResult<IT, T1, E>, r: ParserResult<IT, R, E>) -> bool {
    match q1 {
        Err(e) => r == Err::<(IT, R), (IT, E)>(e),
        Ok((rest, v1)) => exists|q2: ParserResult<IT, T2, E>|
            #[trigger] snd.ensures((rest,), q2) && match q2 {
                Err(e) => r == Err::<(IT, R), (IT, E)>(e),
                Ok((left, v2)) => match r {
                    Ok((last, v)) => last == left && f.ensures((v1, v2), Ok(v)),
                    Err((last, e)) => last == left && f.ensures((v1, v2), Err(e)),
                },
            },
    }
}

/// The parser that reads what `fst` reads and then what `snd` reads, and joins
/// the two values by `f`. It fails where either fails or `f` refuses.
pub fn and<IT: Iterator, T1, T2, R, F, E>(
    fst: impl Fn(IT) -> ParserResult<IT, T1, E>,
    snd: impl Fn(IT) -> ParserResult<IT, T2, E>,
    f: F,
) -> (w: impl Fn(IT) -> ParserResult<IT, R, E>) where F: Fn(T1, T2) -> Result<R, E>
    requires
        forall|i: IT| fst.requires((i,)),
        forall|i: IT| snd.requires((i,)),
        forall|a: T1, b: T2| f.requires((a, b)),
    ensures
        forall|i: IT| w.requires((i,)),
        forall|i: IT, r: ParserResult<IT, R, E>|
            w.ensures((i,), r) ==> exists|q1: ParserResult<IT, T1, E>|
                #[trigger] fst.ensures((i,), q1) && joined(snd, f, q1, r),
{
    move |input: IT| -> (r: ParserResult<IT, R, E>)
        ensures
            exists|q1: ParserResult<IT, T1, E>|
                #[trigger] fst.ensures((input,), q1) && joined(snd, f, q1, r),
        {
            let q1 = fst(input);
            let ghost g1 = q1;
            let r = match q1 {
                Err(e) => Err(e),
                Ok((rest, v1)) => {
                    let q2 = snd(rest);
                    let ghost g2 = q2;
                    let r = match q2 {
                        Err(e) => Err(e),
                        Ok((left, v2)) => match f(v1, v2) {
                            Ok(v) => Ok((left, v)),
                            Err(e) => Err((left, e)),
                        },
                    };
                    assert(snd.ensures((rest,), g2));
                    r
                },
            };
            assert(fst.ensures((input,), g1) && joined(snd, f, g1, r));
            r
        }
}

/// `r` is what comes of `q1`, the result of a first parser on a copy of the
/// input `i`: its value handed through `f`, or, where it failed, what a second
/// parser `snd` reads from `i`, handed through `f`.
pub open spec fn either<IT, T, R, E, Q: Fn(IT) -> ParserResult<IT, T, E>, F: Fn(T) -> R>(
    snd: Q,
    f: F,
    i: IT,
    q1: ParserResult<IT, T, E>,
    r: ParserResult<IT, R, E>,
) -> bool {
    match q1 {
        Ok(_) => mapped(f, q1, r),
        Err(_) => exists|q2: ParserResult<IT, T, E>| #[trigger]
            snd.ensures((i,), q2) && mapped(f, q2, r),
    }
}

/// The parser that reads what `fst` reads or, where `fst` fails, what `snd`
/// reads from the same place, and hands the value through `f`.
pub fn or<IT, T, R, F, E>(
    fst: impl Fn(IT) -> ParserResult<IT, T, E>,
    snd: impl Fn(IT) -> ParserResult<IT, T, E>,
    f: F,
) -> (w: impl Fn(IT) -> ParserResult<IT, R, E>) where F: Fn(T) -> R, IT: Iterator + Clone
    requires
        forall|i: IT| fst.requires((i,)),
        forall|i: IT| snd.requires((i,)),
        forall|v: T| f.requires((v,)),
    ensures
        forall|i: IT| w.requires((i,)),
        forall|i: IT, r: ParserResult<IT, R, E>|
            w.ensures((i,), r) ==> exists|c: IT, q1: ParserResult<IT, T, E>|
                cloned(i, c) && #[trigger] fst.ensures((c,), q1) && either(snd, f, i, q1, r),
{
    let first = or_else(fst, snd);
    let w = map_parsed(first, f);
    proof {
        assert forall|i: IT, r: ParserResult<IT, R, E>| w.ensures((i,), r) implies exists|
            c: IT,
            q1: ParserResult<IT, T, E>,
        |
            cloned(i, c) && #[trigger] fst.ensures((c,), q1) && either(snd, f, i, q1, r) by {
            let q = choose|q: ParserResult<IT, T, E>|
                #[trigger] first.ensures((i,), q) && mapped(f, q, r);
            let (c, q1) = choose|c: IT, q1: ParserResult<IT, T, E>|
                cloned(i, c) && #[trigger] fst.ensures((c,), q1) && fallen(snd, i, q1, q);
            if q1 is Err {
                assert(snd.ensures((i,), q) && mapped(f, q, r));
            }
            assert(cloned(i, c) && fst.ensures((c,), q1) && either(snd, f, i, q1, r));
        }
    }
    w
}

fn nothing<IT: Iterator, E>(input: IT) -> (r: ParserResult<IT, (), E>)
    ensures
        r == Ok::<(IT, ()), (IT, E)>((input, ())),
{
    Ok((input, ()))
}

/// `q` with its value, where it has one, put into `Some`.
pub open spec fn wrapped<IT, T, E>(q: ParserResult<IT, T, E>) -> ParserResult<IT, Option<T>, E> {
    match q {
        Ok((rest, v)) => Ok((rest, Some(v))),
        Err(e) => Err(e),
    }
}

fn wrap<IT: Iterator, T, E>(p: impl Fn(IT) -> ParserResult<IT, T, E>) -> (w: impl Fn(
    IT,
) -> ParserResult<IT, Option<T>, E>)
    requires
        forall|i: IT| p.requires((i,)),
    ensures
        forall|i: IT| w.requires((i,)),
        forall|i: IT, r: ParserResult<IT, Option<T>, E>|
            w.ensures((i,), r) ==> exists|q: ParserResult<IT, T, E>|
                #[trigger] p.ensures((i,), q) && r == wrapped(q),
{
    move |input: IT| -> (r: ParserResult<IT, Option<T>, E>)
        ensures
            exists|q: ParserResult<IT, T, E>| #[trigger] p.ensures((input,), q) && r == wrapped(q),
        {
            let q = p(input);
            let ghost q0 = q;
            let r = match q {
                Ok((rest, v)) => Ok((rest, Some(v))),
                Err(e) => Err(e),
            };
            assert(p.ensures((input,), q0) && r == wrapped(q0));
            r
        }
}

/// What `opt` makes of `q`, the result of a parser on a copy of the input `i`.
pub open spec fn optional<IT, T, E>(i: IT, q: ParserResult<IT, T, E>) -> ParserResult<
    IT,
    Option<T>,
    E,
> {
    match q {
        Ok((rest, v)) => Ok((rest, Some(v))),
        Err(_) => Ok((i, None)),
    }
}

/// The parser that reads what `p` reads or, where `p` fails, nothing. It
/// never fails.
pub fn opt<IT: Iterator + Clone, T, E>(p: impl Fn(IT) -> ParserResult<IT, T, E>) -> (w: impl Fn(
    IT,
) -> ParserResult<IT, Option<T>, E>)
    requires
        forall|i: IT| p.requires((i,)),
    ensures
        forall|i: IT| w.requires((i,)),
        forall|i: IT, r: ParserResult<IT, Option<T>, E>|
            w.ensures((i,), r) ==> exists|c: IT, q: ParserResult<IT, T, E>|
                cloned(i, c) && #[trigger] p.ensures((c,), q) && r == optional(i, q),
{
    let some = wrap(p);
    let to_none = |_unit: ()| -> (o: Option<T>)
        ensures
            o is None,
        { None };
    let none = map_parsed(nothing::<IT, E>, to_none);
    let w = or(some, none, id);
    proof {
        assert forall|i: IT, r: ParserResult<IT, Option<T>, E>| w.ensures((i,), r) implies exists|
            c: IT,
            q: ParserResult<IT, T, E>,
        |
            cloned(i, c) && #[trigger] p.ensures((c,), q) && r == optional(i, q) by {
            let (c, q1) = choose|c: IT, q1: ParserResult<IT, Option<T>, E>|
                cloned(i, c) && #[trigger] some.ensures((c,), q1) && either(none, id, i, q1, r);
            let q = choose|q: ParserResult<IT, T, E>|
                #[trigger] p.ensures((c,), q) && q1 == wrapped(q);
            if q1 is Err {
                let q2 = choose|q2: ParserResult<IT, Option<T>, E>|
                    #[trigger] none.ensures((i,), q2) && mapped(id, q2, r);
                let q0 = choose|q0: ParserResult<IT, (), E>|
                    #[trigger] call_ensures(nothing::<IT, E>, (i,), q0) && mapped(to_none, q0, q2);
            }
            assert(cloned(i, c) && p.ensures((c,), q) && r == optional(i, q));
        }
    }
    w
}

/// From the input `start` with the value `first`, `n` runs of `p`, each on a
/// copy of the input that the run before it left, have all read something and
/// have left the input `cur`; `acc` is `first` with each value that was read
/// folded in by `f`, in the order in which they were read.
pub open spec fn folded<IT: Clone, T, R, E, P: Fn(IT) -> ParserResult<IT, T, E>, F: Fn(R, T) -> R>(
    p: P,
    f: F,
    n: nat,
    start: IT,
    first: R,
    cur: IT,
    acc: R,
) -> bool
    decreases n,
{
    if n == 0 {
        cur == start && acc == first
    } else {
        exists|before: IT, so_far: R, c: IT, v: T|
            #![trigger cloned(before, c), f.ensures((so_far, v), acc)]
            folded(p, f, (n - 1) as nat, start, first, before, so_far) && cloned(before, c)
                && p.ensures((c,), Ok((cur, v))) && f.ensures((so_far, v), acc)
    }
}

/// `p` reads nothing from a copy of `cur`.
pub open spec fn stops<IT: Clone, T, E, P: Fn(IT) -> ParserResult<IT, T, E>>(p: P, cur: IT) -> bool {
    exists|c: IT, e: (IT, E)| cloned(cur, c) && #[trigger] p.ensures((c,), Err(e))
}

/// Whenever `p` reads something from a copy of an input, it leaves an input
/// that `size` measures as smaller.
pub open spec fn shrinks<IT: Clone, T, E, P: Fn(IT) -> ParserResult<IT, T, E>>(
    p: P,
    size: spec_fn(IT) -> nat,
) -> bool {
    forall|i: IT, c: IT, rest: IT, v: T|
        #![trigger cloned(i, c), p.ensures((c,), Ok((rest, v)))]
        cloned(i, c) && p.ensures((c,), Ok((rest, v))) ==> size(rest) < size(i)
}

/// `p` cannot go on reading for ever: there is a measure of the input that
/// every successful run of `p` makes smaller.
pub open spec fn consuming<IT: Clone, T, E, P: Fn(IT) -> ParserResult<IT, T, E>>(p: P) -> bool {
    exists|size: spec_fn(IT) -> nat| shrinks(p, size)
}

/// The parser that runs `p` as often as `p` reads something, zero times
/// included, and folds the values into a copy of `init` by `f`. It never
/// fails.
pub fn many0<IT, T, R, F, E>(p: impl Fn(IT) -> ParserResult<IT, T, E>, f: F, init: R) -> (w: impl Fn(
    IT,
) -> ParserResult<IT, R, E>) where R: Clone, F: Fn(R, T) -> R, IT: Iterator + Clone
    requires
        forall|i: IT| p.requires((i,)),
        forall|a: R, v: T| f.requires((a, v)),
        consuming(p),
    ensures
        forall|i: IT| w.requires((i,)),
        forall|i: IT, r: ParserResult<IT, R, E>|
            w.ensures((i,), r) ==> match r {
                Ok((rest, acc)) => exists|n: nat, first: R|
                    cloned(init, first) && #[trigger] folded(p, f, n, i, first, rest, acc) && stops(
                        p,
                        rest,
                    ),
                Err(_) => false,
            },
{
    move |input: IT| -> (r: ParserResult<IT, R, E>)
        ensures
            match r {
                Ok((rest, acc)) => exists|n: nat, first: R|
                    cloned(init, first) && #[trigger] folded(p, f, n, input, first, rest, acc)
                        && stops(p, rest),
                Err(_) => false,
            },
        {
            let ghost size = choose|size: spec_fn(IT) -> nat| shrinks(p, size);
            let ghost start = input;
            let mut cur = input;
            let mut fold = init.clone();
            let ghost first = fold;
            let ghost mut n: nat = 0;
            loop
                invariant
                    forall|i: IT| p.requires((i,)),
                    forall|a: R, v: T| f.requires((a, v)),
                    shrinks(p, size),
                    folded(p, f, n, start, first, cur, fold),
                ensures
                    folded(p, f, n, start, first, cur, fold),
                    stops(p, cur),
                decreases size(cur),
            {
                let c = cur.clone();
                let ghost c0 = c;
                let ghost before = cur;
                let ghost so_far = fold;
                match p(c) {
                    Ok((rest, v)) => {
                        let ghost v0 = v;
                        fold = f(fold, v);
                        cur = rest;
                        proof {
                            assert(cloned(before, c0) && f.ensures((so_far, v0), fold));
                            n = n + 1;
                        }
                    },
                    Err(e) => {
                        assert(cloned(cur, c0) && p.ensures((c0,), Err(e)));
                        break ;
                    },
                }
            }
            assert(cloned(init, first) && folded(p, f, n, input, first, cur, fold) && stops(p, cur));
            let r = Ok((cur, fold));
            assert(folded(p, f, n, input, first, r->Ok_0.0, r->Ok_0.1));
            r
        }
}

/// The parser that runs `p` once and then as often as `p` reads something,
/// and folds the later values into the first by `f`. It fails where the first
/// run fails.
pub fn many<IT, R, F, E>(p: impl Fn(IT) -> ParserResult<IT, R, E>, f: F) -> (w: impl Fn(
    IT,
) -> ParserResult<IT, R, E>) where F: Fn(R, R) -> R, IT: Iterator + Clone
    requires
        forall|i: IT| p.requires((i,)),
        forall|a: R, v: R| f.requires((a, v)),
        consuming(p),
    ensures
        forall|i: IT| w.requires((i,)),
        forall|i: IT, r: ParserResult<IT, R, E>|
            w.ensures((i,), r) ==> exists|q: ParserResult<IT, R, E>|
                #[trigger] p.ensures((i,), q) && match q {
                    Err(e) => r == Err::<(IT, R), (IT, E)>(e),
                    Ok((start, first)) => match r {
                        Ok((rest, acc)) => exists|n: nat| #[trigger]
                            folded(p, f, n, start, first, rest, acc) && stops(p, rest),
                        Err(_) => false,
                    },
                },
{
    move |input: IT| -> (r: ParserResult<IT, R, E>)
        ensures
            exists|q: ParserResult<IT, R, E>|
                #[trigger] p.ensures((input,), q) && match q {
                    Err(e) => r == Err::<(IT, R), (IT, E)>(e),
                    Ok((start, first)) => match r {
                        Ok((rest, acc)) => exists|n: nat| #[trigger]
                            folded(p, f, n, start, first, rest, acc) && stops(p, rest),
                        Err(_) => false,
                    },
                },
        {
            let ghost size = choose|size: spec_fn(IT) -> nat| shrinks(p, size);
            let q = p(input);
            let ghost q0 = q;
            let (mut cur, mut fold) = match q {
                Ok(pair) => pair,
                Err(e) => {
                    assert(p.ensures((input,), q0));
                    return Err(e);
                },
            };
            let ghost start = cur;
            let ghost first = fold;
            let ghost mut n: nat = 0;
            loop
                invariant
                    forall|i: IT| p.requires((i,)),
                    forall|a: R, v: R| f.requires((a, v)),
                    shrinks(p, size),
                    folded(p, f, n, start, first, cur, fold),
                ensures
                    folded(p, f, n, start, first, cur, fold),
                    stops(p, cur),
                decreases size(cur),
            {
                let c = cur.clone();
                let ghost c0 = c;
                let ghost before = cur;
                let ghost so_far = fold;
                match p(c) {
                    Ok((rest, v)) => {
                        let ghost v0 = v;
                        fold = f(fold, v);
                        cur = rest;
                        proof {
                            assert(cloned(before, c0) && f.ensures((so_far, v0), fold));
                            n = n + 1;
                        }
                    },
                    Err(e) => {
                        assert(cloned(cur, c0) && p.ensures((c0,), Err(e)));
                        break ;
                    },
                }
            }
            let ghost end = cur;
            let ghost sum = fold;
            let r = Ok((cur, fold));
            assert(folded(p, f, n, start, first, r->Ok_0.0, r->Ok_0.1) && stops(p, r->Ok_0.0));
            assert(p.ensures((input,), q0) && q0 == Ok::<(IT, R), (IT, E)>((start, first)));
            r
        }
}

/// The parser that runs `p` as often as `p` reads something, but `n` times at
/// most, and folds the values into a copy of `init` by `f`. It fails, with
/// the number of runs that read something and what they folded, where that
/// number is under `m`.
pub fn many_mn<IT, T, R, F, E>(
    p: impl Fn(IT) -> ParserResult<IT, T, E>,
    m: usize,
    n: usize,
    f: F,
    init: R,
) -> (w: impl Fn(IT) -> ParserResult<IT, R, (usize, R)>) where
    R: Clone,
    F: Fn(R, T) -> R,
    IT: Iterator + Clone,

    requires
        m <= n,
        forall|i: IT| p.requires((i,)),
        forall|a: R, v: T| f.requires((a, v)),
    ensures
        forall|i: IT| w.requires((i,)),
        forall|i: IT, r: ParserResult<IT, R, (usize, R)>|
            w.ensures((i,), r) ==> exists|k: nat, first: R, rest: IT, acc: R|
                cloned(init, first) && #[trigger] folded(p, f, k, i, first, rest, acc) && k <= n
                    && (k == n || stops(p, rest)) && r == (if k >= m {
                    Ok::<(IT, R), (IT, (usize, R))>((rest, acc))
                } else {
                    Err::<(IT, R), (IT, (usize, R))>((rest, (k as usize, acc)))
                }),
{
    move |input: IT| -> (r: ParserResult<IT, R, (usize, R)>)
        ensures
            exists|k: nat, first: R, rest: IT, acc: R|
                cloned(init, first) && #[trigger] folded(p, f, k, input, first, rest, acc) && k
                    <= n && (k == n || stops(p, rest)) && r == (if k >= m {
                    Ok::<(IT, R), (IT, (usize, R))>((rest, acc))
                } else {
                    Err::<(IT, R), (IT, (usize, R))>((rest, (k as usize, acc)))
                }),
        {
            if n == 0 {
                let first = init.clone();
                let r = Ok((input, first));
                assert(cloned(init, first) && folded(p, f, 0, input, first, input, first));
                return r;
            }
            let ghost start = input;
            let mut cur = input;
            let mut fold = init.clone();
            let ghost first = fold;
            let mut count: usize = 0;
            loop
                invariant_except_break
                    count < n,
                invariant
                    forall|i: IT| p.requires((i,)),
                    forall|a: R, v: T| f.requires((a, v)),
                    folded(p, f, count as nat, start, first, cur, fold),
                ensures
                    count <= n,
                    count == n || stops(p, cur),
                decreases n - count,
            {
                let c = cur.clone();
                let ghost c0 = c;
                let ghost before = cur;
                let ghost so_far = fold;
                match p(c) {
                    Ok((rest, v)) => {
                        let ghost v0 = v;
                        fold = f(fold, v);
                        cur = rest;
                        count = count + 1;
                        proof {
                            assert(cloned(before, c0) && f.ensures((so_far, v0), fold));
                        }
                        if count == n {
                            break ;
                        }
                    },
                    Err(e) => {
                        assert(cloned(cur, c0) && p.ensures((c0,), Err(e)));
                        break ;
                    },
                }
            }
            let ghost end = cur;
            let ghost sum = fold;
            let r = if count >= m {
                Ok((cur, fold))
            } else {
                Err((cur, (count, fold)))
            };
            assert(cloned(init, first) && folded(p, f, count as nat, input, first, end, sum));
            r
        }
}

/// As `folded`, with this in addition: before each of the runs of `p`, the
/// parser `cond` read nothing from a copy of the same input.
pub open spec fn folded_until<
    IT: Clone,
    T,
    C,
    R,
    E,
    P: Fn(IT) -> ParserResult<IT, T, E>,
    Q: Fn(IT) -> ParserResult<IT, C, E>,
    F: Fn(R, T) -> R,
>(p: P, cond: Q, f: F, n: nat, start: IT, first: R, cur: IT, acc: R) -> bool
    decreases n,
{
    if n == 0 {
        cur == start && acc == first
    } else {
        exists|before: IT, so_far: R, c: IT, v: T|
            #![trigger cloned(before, c), f.ensures((so_far, v), acc)]
            folded_until(p, cond, f, (n - 1) as nat, start, first, before, so_far) && stops(
                cond,
                before,
            ) && cloned(before, c) && p.ensures((c,), Ok((cur, v))) && f.ensures((so_far, v), acc)
    }
}

/// The parser that runs `p` until `cond` reads something, or until `p` reads
/// nothing, and folds the values of `p` into a copy of `init` by `f`. Before
/// each run of `p` it tries `cond` at the same place. It never fails: the
/// result holds what `cond` read, if it read something.
pub fn many_till<IT, T, C, R, F, E>(
    p: impl Fn(IT) -> ParserResult<IT, T, E>,
    cond: impl Fn(IT) -> ParserResult<IT, C, E>,
    f: F,
    init: R,
) -> (w: impl Fn(IT) -> ParserResult<IT, (R, Option<C>), E>) where
    R: Clone,
    F: Fn(R, T) -> R,
    IT: Iterator + Clone,

    requires
        forall|i: IT| p.requires((i,)),
        forall|i: IT| cond.requires((i,)),
        forall|a: R, v: T| f.requires((a, v)),
        consuming(p),
    ensures
        forall|i: IT| w.requires((i,)),
        forall|i: IT, r: ParserResult<IT, (R, Option<C>), E>|
            w.ensures((i,), r) ==> match r {
                Ok((rest, (acc, met))) => exists|k: nat, first: R, cur: IT|
                    cloned(init, first) && #[trigger] folded_until(
                        p,
                        cond,
                        f,
                        k,
                        i,
                        first,
                        cur,
                        acc,
                    ) && match met {
                        Some(found) => exists|c: IT|
                            cloned(cur, c) && #[trigger] cond.ensures((c,), Ok((rest, found))),
                        None => rest == cur && stops(cond, cur) && stops(p, cur),
                    },
                Err(_) => false,
            },
{
    move |input: IT| -> (r: ParserResult<IT, (R, Option<C>), E>)
        ensures
            match r {
                Ok((rest, (acc, met))) => exists|k: nat, first: R, cur: IT|
                    cloned(init, first) && #[trigger] folded_until(
                        p,
                        cond,
                        f,
                        k,
                        input,
                        first,
                        cur,
                        acc,
                    ) && match met {
                        Some(found) => exists|c: IT|
                            cloned(cur, c) && #[trigger] cond.ensures((c,), Ok((rest, found))),
                        None => rest == cur && stops(cond, cur) && stops(p, cur),
                    },
                Err(_) => false,
            },
        {
            let ghost size = choose|size: spec_fn(IT) -> nat| shrinks(p, size);
            let ghost start = input;
            let mut cur = input;
            let mut fold = init.clone();
            let ghost first = fold;
            let ghost mut k: nat = 0;
            loop
                invariant
                    forall|i: IT| p.requires((i,)),
                    forall|i: IT| cond.requires((i,)),
                    forall|a: R, v: T| f.requires((a, v)),
                    shrinks(p, size),
                    cloned(init, first),
                    start == input,
                    folded_until(p, cond, f, k, start, first, cur, fold),
                decreases size(cur),
            {
                let cc = cur.clone();
                let ghost cc0 = cc;
                match cond(cc) {
                    Ok((remainder, found)) => {
                        let ghost end = cur;
                        let ghost q = Ok::<(IT, C), (IT, E)>((remainder, found));
                        let r = Ok((remainder, (fold, Some(found))));
                        assert(q == Ok::<(IT, C), (IT, E)>((r->Ok_0.0, r->Ok_0.1.1->Some_0)));
                        assert(cloned(end, cc0) && cond.ensures(
                            (cc0,),
                            Ok((r->Ok_0.0, r->Ok_0.1.1->Some_0)),
                        ));
                        assert(folded_until(p, cond, f, k, input, first, end, r->Ok_0.1.0));
                        return r;
                    },
                    Err(e) => {
                        assert(cloned(cur, cc0) && cond.ensures((cc0,), Err(e)));
                    },
                }
                let c = cur.clone();
                let ghost c0 = c;
                let ghost before = cur;
                let ghost so_far = fold;
                match p(c) {
                    Ok((remainder, v)) => {
                        let ghost v0 = v;
                        fold = f(fold, v);
                        cur = remainder;
                        proof {
                            assert(cloned(before, c0) && f.ensures((so_far, v0), fold));
                            k = k + 1;
                        }
                    },
                    Err(e) => {
                        assert(cloned(cur, c0) && p.ensures((c0,), Err(e)));
                        let ghost end = cur;
                        let r = Ok((cur, (fold, None)));
                        assert(folded_until(p, cond, f, k, input, first, end, r->Ok_0.1.0));
                        assert(stops(cond, end) && stops(p, end));
                        return r;
                    },
                }
            }
        }
}

} // verus!
