//! The parsers that everything else is composed of, and the algebra that
//! composes them: sequence, alternative and repetition.
//!
//! A parser that is handed to a combinator is an ordinary Rust closure. What
//! the combinator returns is stated for every specification function that
//! [`describes`] that closure.
use crate::parsec::{outcome_view, Cursor, Outcome, ParseResult, Remaining};
use vstd::prelude::*;

pub mod branch;
pub mod character;
pub mod multi;
pub mod whitespace;

verus! {

/// `p` may be called on every well-formed cursor with at most `bound` bytes
/// left.
pub open spec fn accepts<'a, T, P: FnOnce(Remaining<'a>) -> ParseResult<'a, T>>(
    p: P,
    bound: nat,
) -> bool {
    forall|c: Remaining<'a>| c.wf() && c@.text.len() <= bound ==> #[trigger] p.requires((c,))
}

/// Whenever `p` succeeds, the cursor it returns lies behind the one it was
/// given, in the same document.
pub open spec fn moves_forward<'a, T, P: FnOnce(Remaining<'a>) -> ParseResult<'a, T>>(
    p: P,
    bound: nat,
) -> bool {
    forall|c: Remaining<'a>, o: ParseResult<'a, T>|
        c.wf() && c@.text.len() <= bound && #[trigger] p.ensures((c,), o) ==> (o matches Ok(
            (next, _),
        ) ==> c@.reaches(next@))
}

/// On every well-formed cursor with at most `bound` bytes left, `p` returns
/// what `f` says.
pub open spec fn describes<'a, T: DeepView, P: FnOnce(Remaining<'a>) -> ParseResult<'a, T>>(
    p: P,
    f: spec_fn(Cursor) -> Outcome<T::V>,
    bound: nat,
) -> bool {
    forall|c: Remaining<'a>, o: ParseResult<'a, T>|
        c.wf() && c@.text.len() <= bound && #[trigger] p.ensures((c,), o) ==> outcome_view(o) == f(
            c@,
        )
}

/// Run `first`, then `second` on the cursor that `first` left. A failure of
/// either stage is the failure of the sequence, in its own tier.
pub open spec fn spec_sequence<A, B>(
    first: spec_fn(Cursor) -> Outcome<A>,
    second: spec_fn(Cursor) -> Outcome<B>,
    s: Cursor,
) -> Outcome<(A, B)> {
    match first(s) {
        Outcome::Success(c, a) => match second(c) {
            Outcome::Success(c2, b) => Outcome::Success(c2, (a, b)),
            failed => failed.failure(),
        },
        failed => failed.failure(),
    }
}

/// Run `first`. Only where it fails recoverably, run `second` from the
/// same cursor. A success or a committed failure of `first` is final.
pub open spec fn spec_alternative<T>(
    first: spec_fn(Cursor) -> Outcome<T>,
    second: spec_fn(Cursor) -> Outcome<T>,
    s: Cursor,
) -> Outcome<T> {
    match first(s) {
        Outcome::SoftFailure(_, _) => second(s),
        decided => decided,
    }
}

/// Apply `p` again and again, collecting the values in order. The first
/// recoverable failure ends the repetition, which succeeds with the cursor in
/// front of the failed attempt. A committed failure is the failure of the
/// repetition. A success that consumed nothing ends the repetition too, and
/// its value is dropped.
pub open spec fn spec_many<T>(p: spec_fn(Cursor) -> Outcome<T>, s: Cursor) -> Outcome<Seq<T>>
    decreases s.text.len(),
{
    match p(s) {
        Outcome::Success(c, v) => if c.text.len() < s.text.len() {
            match spec_many(p, c) {
                Outcome::Success(end, rest) => Outcome::Success(end, seq![v] + rest),
                failed => failed,
            }
        } else {
            Outcome::Success(s, Seq::empty())
        },
        Outcome::SoftFailure(_, _) => Outcome::Success(s, Seq::empty()),
        Outcome::HardFailure(pos, d) => Outcome::HardFailure(pos, d),
    }
}

/// As [`spec_many`], but the first application must succeed: its failure is
/// the failure of the repetition, in its own tier.
pub open spec fn spec_many1<T>(p: spec_fn(Cursor) -> Outcome<T>, s: Cursor) -> Outcome<Seq<T>> {
    match p(s) {
        Outcome::Success(c, v) => match spec_many(p, c) {
            Outcome::Success(end, rest) => Outcome::Success(end, seq![v] + rest),
            failed => failed,
        },
        failed => failed.failure(),
    }
}

/// A repetition never fails recoverably, and where it succeeds it has not
/// moved backwards: it ends at `s` or at a cursor with fewer bytes left.
pub proof fn lemma_many_ends<T>(p: spec_fn(Cursor) -> Outcome<T>, s: Cursor)
    ensures
        !(spec_many(p, s) is SoftFailure),
        spec_many(p, s) matches Outcome::Success(end, _) ==> end == s || end.text.len()
            < s.text.len(),
    decreases s.text.len(),
{
    match p(s) {
        Outcome::Success(c, v) => {
            if c.text.len() < s.text.len() {
                lemma_many_ends(p, c);
            }
        },
        _ => {},
    }
}

} // verus!
