//! Sequence and alternative.
use crate::parsec::combinator::{accepts, describes, moves_forward, spec_alternative, spec_sequence};
use crate::parsec::{outcome_view, Cursor, JsonError, Outcome, ParseResult, Remaining};
use vstd::prelude::*;

verus! {

broadcast use crate::parsec::group_cursor;

/// `first`, then `second`: see [`spec_sequence`].
pub fn sequence<
    'a,
    A: DeepView,
    B: DeepView,
    P: FnOnce(Remaining<'a>) -> ParseResult<'a, A>,
    Q: FnOnce(Remaining<'a>) -> ParseResult<'a, B>,
>(first: P, second: Q, s: Remaining<'a>) -> (r: ParseResult<'a, (A, B)>)
    requires
        s.wf(),
        accepts(first, s@.text.len()),
        moves_forward(first, s@.text.len()),
        accepts(second, s@.text.len()),
        moves_forward(second, s@.text.len()),
    ensures
        forall|f: spec_fn(Cursor) -> Outcome<A::V>, g: spec_fn(Cursor) -> Outcome<B::V>|
            #[trigger] describes(first, f, s@.text.len()) && #[trigger] describes(
                second,
                g,
                s@.text.len(),
            ) ==> outcome_view(r) == spec_sequence(f, g, s@),
        exists|head: ParseResult<'a, A>|
            (#[trigger] first.ensures((s,), head)) && match head {
                Ok((mid, a)) => exists|tail: ParseResult<'a, B>|
                    (#[trigger] second.ensures((mid,), tail)) && match tail {
                        Ok((end, b)) => r == Ok::<_, JsonError<'a>>((end, (a, b))),
                        Err(e) => r == Err::<(Remaining<'a>, (A, B)), _>(e),
                    },
                Err(e) => r == Err::<(Remaining<'a>, (A, B)), _>(e),
            },
        r matches Ok((end, _)) ==> s@.reaches(end@),
{
    let head = first(s);
    match head {
        Err(e) => {
            let r = Err(e);
            proof {
                assert forall|f: spec_fn(Cursor) -> Outcome<A::V>, g: spec_fn(Cursor) -> Outcome<B::V>|
                    #[trigger] describes(first, f, s@.text.len()) && #[trigger] describes(
                        second,
                        g,
                        s@.text.len(),
                    ) implies outcome_view::<(A, B)>(r) == spec_sequence(f, g, s@) by {
                    assert(outcome_view(head) == f(s@));
                }
            }
            r
        },
        Ok((c, a)) => {
            let tail = second(c);
            match tail {
                Err(e) => {
                    let r = Err(e);
                    proof {
                        assert forall|
                            f: spec_fn(Cursor) -> Outcome<A::V>,
                            g: spec_fn(Cursor) -> Outcome<B::V>,
                        |
                            #[trigger] describes(first, f, s@.text.len()) && #[trigger] describes(
                                second,
                                g,
                                s@.text.len(),
                            ) implies outcome_view::<(A, B)>(r) == spec_sequence(f, g, s@) by {
                            assert(outcome_view(head) == f(s@));
                            assert(outcome_view(tail) == g(c@));
                        }
                    }
                    r
                },
                Ok((end, b)) => {
                    proof {
                        assert forall|
                            f: spec_fn(Cursor) -> Outcome<A::V>,
                            g: spec_fn(Cursor) -> Outcome<B::V>,
                        |
                            #[trigger] describes(first, f, s@.text.len()) && #[trigger] describes(
                                second,
                                g,
                                s@.text.len(),
                            ) implies outcome_view::<(A, B)>(Ok((end, (a, b)))) == spec_sequence(
                            f,
                            g,
                            s@,
                        ) by {
                            assert(outcome_view(head) == f(s@));
                            assert(outcome_view(tail) == g(c@));
                        }
                    }
                    Ok((end, (a, b)))
                },
            }
        },
    }
}

/// `first`, else `second`: see [`spec_alternative`]. `second` is called only
/// after `first` has failed recoverably, and then on `s` itself.
pub fn alternative<
    'a,
    T: DeepView,
    P: FnOnce(Remaining<'a>) -> ParseResult<'a, T>,
    Q: FnOnce(Remaining<'a>) -> ParseResult<'a, T>,
>(first: P, second: Q, s: Remaining<'a>) -> (r: ParseResult<'a, T>)
    requires
        s.wf(),
        accepts(first, s@.text.len()),
        moves_forward(first, s@.text.len()),
        accepts(second, s@.text.len()),
        moves_forward(second, s@.text.len()),
    ensures
        forall|f: spec_fn(Cursor) -> Outcome<T::V>, g: spec_fn(Cursor) -> Outcome<T::V>|
            #[trigger] describes(first, f, s@.text.len()) && #[trigger] describes(
                second,
                g,
                s@.text.len(),
            ) ==> outcome_view(r) == spec_alternative(f, g, s@),
        exists|attempt: ParseResult<'a, T>|
            (#[trigger] first.ensures((s,), attempt)) && if attempt matches Err(
                JsonError::Failure(_, _),
            ) {
                second.ensures((s,), r)
            } else {
                r == attempt
            },
        r matches Ok((end, _)) ==> s@.reaches(end@),
{
    let attempt = first(s);
    match attempt {
        Err(JsonError::Failure(at, e)) => {
            let r = second(s);
            proof {
                assert forall|f: spec_fn(Cursor) -> Outcome<T::V>, g: spec_fn(Cursor) -> Outcome<T::V>|
                    #[trigger] describes(first, f, s@.text.len()) && #[trigger] describes(
                        second,
                        g,
                        s@.text.len(),
                    ) implies outcome_view(r) == spec_alternative(f, g, s@) by {
                    assert(outcome_view::<T>(Err(JsonError::Failure(at, e))) == f(s@));
                    assert(outcome_view(r) == g(s@));
                }
            }
            r
        },
        decided => {
            proof {
                assert forall|f: spec_fn(Cursor) -> Outcome<T::V>, g: spec_fn(Cursor) -> Outcome<T::V>|
                    #[trigger] describes(first, f, s@.text.len()) && #[trigger] describes(
                        second,
                        g,
                        s@.text.len(),
                    ) implies outcome_view(decided) == spec_alternative(f, g, s@) by {
                    assert(outcome_view(decided) == f(s@));
                }
            }
            decided
        },
    }
}

} // verus!
