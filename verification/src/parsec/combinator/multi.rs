//! Repetition.
use crate::parsec::combinator::{accepts, describes, moves_forward, spec_many, spec_many1};
use crate::parsec::{
    lemma_reaches_self, outcome_view, Cursor, JsonError, Outcome, ParseResult, Remaining,
};
use vstd::prelude::*;

verus! {

broadcast use crate::parsec::group_cursor;

/// The outcome of a repetition that has collected `front` and whose rest
/// gave `rest`.
pub open spec fn after_collecting<T>(front: Seq<T>, rest: Outcome<Seq<T>>) -> Outcome<Seq<T>> {
    match rest {
        Outcome::Success(end, items) => Outcome::Success(end, front + items),
        failed => failed,
    }
}

/// `items` are what successive applications of `p` gave, the first on `s`,
/// each next one on the cursor that the one before left, each consuming
/// something, and the last leaving `end`.
pub open spec fn collects<'a, T, P: FnOnce(Remaining<'a>) -> ParseResult<'a, T>>(
    p: P,
    s: Remaining<'a>,
    items: Seq<T>,
    end: Remaining<'a>,
) -> bool
    decreases items.len(),
{
    if items.len() == 0 {
        end == s
    } else {
        exists|mid: Remaining<'a>|
            collects(p, s, items.drop_last(), mid) && (#[trigger] p.ensures(
                (mid,),
                Ok((end, items.last())),
            )) && end@.text.len() < mid@.text.len()
    }
}

/// `r` is what a repetition of `p` from `s` returns: the items collected up
/// to an application that failed recoverably or consumed nothing, or the
/// committed failure of an application.
pub open spec fn repeats<'a, T, P: FnOnce(Remaining<'a>) -> ParseResult<'a, T>>(
    p: P,
    s: Remaining<'a>,
    r: ParseResult<'a, Vec<T>>,
) -> bool {
    match r {
        Ok((end, items)) => collects(p, s, items@, end) && exists|last: ParseResult<'a, T>|
            (#[trigger] p.ensures((end,), last)) && match last {
                Ok((next, _)) => next@.text.len() >= end@.text.len(),
                Err(e) => e is Failure,
            },
        Err(JsonError::Unsavable(pos, e)) => exists|items: Seq<T>, at: Remaining<'a>|
            (#[trigger] collects(p, s, items, at)) && p.ensures(
                (at,),
                Err(JsonError::Unsavable(pos, e)),
            ),
        Err(JsonError::Failure(_, _)) => false,
    }
}

/// What a parser collects, a reference to it collects, and the other way
/// round.
pub proof fn lemma_collects_by_reference<'a, T, P: Fn(Remaining<'a>) -> ParseResult<'a, T>>(
    p: P,
    s: Remaining<'a>,
    items: Seq<T>,
    end: Remaining<'a>,
)
    ensures
        collects(&p, s, items, end) == collects(p, s, items, end),
    decreases items.len(),
{
    if items.len() > 0 {
        if collects(p, s, items, end) {
            let mid = choose|mid: Remaining<'a>|
                collects(p, s, items.drop_last(), mid) && (#[trigger] p.ensures(
                    (mid,),
                    Ok((end, items.last())),
                )) && end@.text.len() < mid@.text.len();
            lemma_collects_by_reference(p, s, items.drop_last(), mid);
            assert((&p).ensures((mid,), Ok((end, items.last()))));
        }
        if collects(&p, s, items, end) {
            let mid = choose|mid: Remaining<'a>|
                collects(&p, s, items.drop_last(), mid) && (#[trigger] (&p).ensures(
                    (mid,),
                    Ok((end, items.last())),
                )) && end@.text.len() < mid@.text.len();
            lemma_collects_by_reference(p, s, items.drop_last(), mid);
            assert(p.ensures((mid,), Ok((end, items.last()))));
        }
    }
}

/// What a repetition of a parser returns, a repetition of a reference to it
/// returns.
pub proof fn lemma_repeats_by_reference<'a, T, P: Fn(Remaining<'a>) -> ParseResult<'a, T>>(
    p: P,
    s: Remaining<'a>,
    r: ParseResult<'a, Vec<T>>,
)
    requires
        repeats(&p, s, r),
    ensures
        repeats(p, s, r),
{
    match r {
        Ok((end, items)) => {
            lemma_collects_by_reference(p, s, items@, end);
            let last = choose|last: ParseResult<'a, T>|
                (#[trigger] (&p).ensures((end,), last)) && match last {
                    Ok((next, _)) => next@.text.len() >= end@.text.len(),
                    Err(e) => e is Failure,
                };
            assert(p.ensures((end,), last));
        },
        Err(JsonError::Unsavable(pos, e)) => {
            let (items, at) = choose|items: Seq<T>, at: Remaining<'a>|
                (#[trigger] collects(&p, s, items, at)) && (&p).ensures(
                    (at,),
                    Err(JsonError::Unsavable(pos, e)),
                );
            lemma_collects_by_reference(p, s, items, at);
            assert(p.ensures((at,), Err(JsonError::Unsavable(pos, e))));
        },
        _ => {},
    }
}

/// Zero or more `p`: see [`spec_many`].
pub fn many<'a, T: DeepView, P: Fn(Remaining<'a>) -> ParseResult<'a, T>>(
    p: P,
    s: Remaining<'a>,
) -> (r: ParseResult<'a, Vec<T>>)
    requires
        s.wf(),
        accepts(p, s@.text.len()),
        moves_forward(p, s@.text.len()),
    ensures
        forall|f: spec_fn(Cursor) -> Outcome<T::V>| #[trigger]
            describes(p, f, s@.text.len()) ==> outcome_view(r) == spec_many(f, s@),
        repeats(p, s, r),
        r matches Ok((end, _)) ==> s@.reaches(end@),
{
    let ghost bound = s@.text.len();
    let mut items: Vec<T> = Vec::new();
    let mut cur = s;
    proof {
        lemma_reaches_self(s@);
    }
    loop
        invariant
            bound == s@.text.len(),
            s.wf(),
            cur.wf(),
            s@.reaches(cur@),
            collects(p, s, items@, cur),
            accepts(p, bound),
            moves_forward(p, bound),
            forall|f: spec_fn(Cursor) -> Outcome<T::V>| #[trigger]
                describes(p, f, bound) ==> spec_many(f, s@) == after_collecting(
                    items.deep_view(),
                    spec_many(f, cur@),
                ),
        decreases cur@.text.len(),
    {
        let attempt = p(cur);
        match attempt {
            Ok((next, v)) => {
                if next.rem_len() < cur.rem_len() {
                    proof {
                        assert forall|f: spec_fn(Cursor) -> Outcome<T::V>| #[trigger]
                            describes(p, f, bound) implies spec_many(f, s@) == after_collecting(
                            items.deep_view().push(v.deep_view()),
                            spec_many(f, next@),
                        ) by {
                            assert(outcome_view(attempt) == f(cur@));
                            if let Outcome::Success(end, rest) = spec_many(f, next@) {
                                assert(items.deep_view() + (seq![v.deep_view()] + rest)
                                    =~= items.deep_view().push(v.deep_view()) + rest);
                            }
                        }
                    }
                    let ghost before = items.deep_view();
                    let ghost collected = items@;
                    items.push(v);
                    proof {
                        assert(items.deep_view() =~= before.push(v.deep_view()));
                        assert(items@.drop_last() =~= collected);
                        assert(p.ensures((cur,), Ok::<_, JsonError<'a>>((next, items@.last()))));
                    }
                    cur = next;
                } else {
                    proof {
                        assert forall|f: spec_fn(Cursor) -> Outcome<T::V>| #[trigger]
                            describes(p, f, bound) implies outcome_view::<Vec<T>>(
                            Ok((cur, items)),
                        ) == spec_many(f, s@) by {
                            assert(outcome_view(attempt) == f(cur@));
                            assert(items.deep_view() + Seq::<T::V>::empty() =~= items.deep_view());
                        }
                    }
                    return Ok((cur, items));
                }
            },
            Err(JsonError::Failure(_, _)) => {
                proof {
                    assert forall|f: spec_fn(Cursor) -> Outcome<T::V>| #[trigger]
                        describes(p, f, bound) implies outcome_view::<Vec<T>>(Ok((cur, items)))
                        == spec_many(f, s@) by {
                        assert(outcome_view(attempt) == f(cur@));
                        assert(items.deep_view() + Seq::<T::V>::empty() =~= items.deep_view());
                    }
                }
                return Ok((cur, items));
            },
            Err(JsonError::Unsavable(pos, e)) => {
                proof {
                    assert forall|f: spec_fn(Cursor) -> Outcome<T::V>| #[trigger]
                        describes(p, f, bound) implies outcome_view::<Vec<T>>(
                        Err(JsonError::Unsavable(pos, e)),
                    ) == spec_many(f, s@) by {
                        assert(outcome_view(attempt) == f(cur@));
                    }
                }
                return Err(JsonError::Unsavable(pos, e));
            },
        }
    }
}

/// One or more `p`: see [`spec_many1`].
pub fn many1<'a, T: DeepView, P: Fn(Remaining<'a>) -> ParseResult<'a, T>>(
    p: P,
    s: Remaining<'a>,
) -> (r: ParseResult<'a, Vec<T>>)
    requires
        s.wf(),
        accepts(p, s@.text.len()),
        moves_forward(p, s@.text.len()),
    ensures
        forall|f: spec_fn(Cursor) -> Outcome<T::V>| #[trigger]
            describes(p, f, s@.text.len()) ==> outcome_view(r) == spec_many1(f, s@),
        exists|first: ParseResult<'a, T>|
            (#[trigger] p.ensures((s,), first)) && match first {
                Ok((mid, v)) => exists|more: ParseResult<'a, Vec<T>>|
                    (#[trigger] repeats(p, mid, more)) && match more {
                        Ok((end, rest)) => r matches Ok((at, all)) && at == end && all@ == seq![
                            v,
                        ] + rest@,
                        Err(e) => r == Err::<(Remaining<'a>, Vec<T>), _>(e),
                    },
                Err(e) => r == Err::<(Remaining<'a>, Vec<T>), _>(e),
            },
        r matches Ok((end, _)) ==> s@.reaches(end@),
{
    let first = p(s);
    match first {
        Err(e) => {
            let r = Err(e);
            proof {
                assert forall|f: spec_fn(Cursor) -> Outcome<T::V>| #[trigger]
                    describes(p, f, s@.text.len()) implies outcome_view::<Vec<T>>(r) == spec_many1(
                    f,
                    s@,
                ) by {
                    assert(outcome_view(first) == f(s@));
                }
            }
            r
        },
        Ok((c, v)) => {
            let more = many(&p, c);
            proof {
                lemma_repeats_by_reference(p, c, more);
            }
            match more {
                Err(e) => {
                    let r = Err(e);
                    proof {
                        assert forall|f: spec_fn(Cursor) -> Outcome<T::V>| #[trigger]
                            describes(p, f, s@.text.len()) implies outcome_view::<Vec<T>>(r)
                            == spec_many1(f, s@) by {
                            assert(outcome_view(first) == f(s@));
                            assert(describes(&p, f, c@.text.len()));
                        }
                    }
                    r
                },
                Ok((end, mut items)) => {
                    let ghost rest = items.deep_view();
                    let ghost head = v.deep_view();
                    let ghost collected = items@;
                    items.insert(0, v);
                    proof {
                        assert(items@ =~= seq![v] + collected);
                        assert(items.deep_view() =~= seq![head] + rest);
                        assert forall|f: spec_fn(Cursor) -> Outcome<T::V>| #[trigger]
                            describes(p, f, s@.text.len()) implies outcome_view::<Vec<T>>(
                            Ok((end, items)),
                        ) == spec_many1(f, s@) by {
                            assert(outcome_view(first) == f(s@));
                            assert(describes(&p, f, c@.text.len()));
                        }
                    }
                    Ok((end, items))
                },
            }
        },
    }
}

} // verus!
