//! The cursor over the input and the two-tier failure protocol that every
//! parser follows.
use crate::parsec::error::{Diagnostic, ParserError};
use vstd::prelude::*;
use vstd::string::*;
use vstd::utf8::*;

pub mod combinator;
pub mod error;
pub mod text;

verus! {

/// The unconsumed input as bytes, and the offset of its first byte in the
/// document. This is what a [`Remaining`] stands for in specifications.
pub struct Cursor {
    pub text: Seq<u8>,
    pub pos: nat,
}

impl Cursor {
    /// The number of bytes not yet consumed.
    pub open spec fn remaining_length(self) -> nat {
        self.text.len()
    }

    /// The cursor after consuming `n` bytes.
    pub open spec fn advance(self, n: nat) -> Cursor {
        Cursor { text: self.text.skip(n as int), pos: self.pos + n }
    }

    /// `later` is this cursor advanced by some number of bytes, so both
    /// belong to one document.
    #[verifier::opaque]
    pub open spec fn reaches(self, later: Cursor) -> bool {
        &&& later.text.len() <= self.text.len()
        &&& later.text =~= self.text.skip(self.text.len() - later.text.len())
        &&& later.pos == self.pos + (self.text.len() - later.text.len())
    }

    /// The end of the document is an offset that fits the machine.
    pub open spec fn in_bounds(self) -> bool {
        self.pos + self.text.len() <= usize::MAX
    }
}

/// What a parser returns, in specifications.
pub enum Outcome<T> {
    /// The cursor behind the consumed text, and the parsed value.
    Success(Cursor, T),
    /// The production does not apply here: the caller may try another one
    /// from the cursor it started at. Carries the cursor at the point of
    /// failure.
    SoftFailure(Cursor, Diagnostic),
    /// The input committed to a production and is malformed: every caller
    /// hands this on unchanged. Carries the absolute position.
    HardFailure(nat, Diagnostic),
}

impl<T> Outcome<T> {
    /// This outcome where it is a success or a committed failure, else
    /// `other`: what an alternative gives whose branches gave these two.
    pub open spec fn or(self, other: Outcome<T>) -> Outcome<T> {
        match self {
            Outcome::SoftFailure(_, _) => other,
            decided => decided,
        }
    }

    /// A failure seen as the outcome of a parser of another type.
    pub open spec fn failure<U>(self) -> Outcome<U>
        recommends
            !(self is Success),
    {
        match self {
            Outcome::SoftFailure(c, d) => Outcome::SoftFailure(c, d),
            Outcome::HardFailure(p, d) => Outcome::HardFailure(p, d),
            Outcome::Success(c, _) => Outcome::SoftFailure(c, arbitrary()),
        }
    }

    /// A success leaves the cursor somewhere behind `from`, in the same
    /// document.
    pub open spec fn moves_forward(self, from: Cursor) -> bool {
        self matches Outcome::Success(c, _) ==> from.reaches(c)
    }
}

/// An immutable view over the remaining input: `rem` is the text not yet
/// consumed and `pos` the byte offset of its start in the document.
#[derive(Debug, Clone, Copy, PartialEq, Eq)]
pub struct Remaining<'a> {
    pub pos: usize,
    pub rem: &'a str,
}

impl<'a> View for Remaining<'a> {
    type V = Cursor;

    open spec fn view(&self) -> Cursor {
        Cursor { text: self.rem.spec_bytes(), pos: self.pos as nat }
    }
}

/// A failed parse.
#[derive(Debug, PartialEq, Eq)]
pub enum JsonError<'a> {
    /// Recoverable: the cursor at which the attempt stopped, and why.
    Failure(Remaining<'a>, ParserError),
    /// Committed: the absolute position of the error, and why.
    Unsavable(usize, ParserError),
}

/// What every parser returns.
pub type ParseResult<'a, T> = Result<(Remaining<'a>, T), JsonError<'a>>;

/// The outcome that a parser's result stands for.
pub open spec fn outcome_view<'a, T: DeepView>(r: ParseResult<'a, T>) -> Outcome<T::V> {
    match r {
        Ok((c, v)) => Outcome::Success(c@, v.deep_view()),
        Err(JsonError::Failure(c, e)) => Outcome::SoftFailure(c@, e@),
        Err(JsonError::Unsavable(p, e)) => Outcome::HardFailure(p as nat, e@),
    }
}

impl<'a> JsonError<'a> {
    /// The cursor at which a recoverable failure stopped. A committed failure
    /// has none.
    pub fn rem(&self) -> (r: Remaining<'a>)
        requires
            self is Failure,
        ensures
            r == self->Failure_0,
    {
        match self {
            JsonError::Failure(rem, _) => *rem,
            JsonError::Unsavable(_, _) => vstd::pervasive::unreached(),
        }
    }
}

impl<'a> Remaining<'a> {
    /// The document ends at an offset that fits in a `usize`. Every parser
    /// asks this of the cursor it is given, and a cursor that a parser returns
    /// has it.
    pub open spec fn wf(&self) -> bool {
        self@.in_bounds()
    }

    /// The cursor over `rem`, which begins at offset `pos` of the document.
    pub fn new(rem: &'a str, pos: usize) -> (r: Self)
        ensures
            r.rem == rem,
            r.pos == pos,
            r@.text.len() <= usize::MAX,
            pos == 0 ==> r.wf(),
    {
        // A `str` holds at most `usize::MAX` bytes: its byte slice says so.
        let _ = rem.as_bytes().len();
        Self { rem, pos }
    }

    /// The byte length of the unconsumed text.
    pub fn rem_len(&self) -> (n: usize)
        ensures
            n == self@.remaining_length(),
    {
        self.rem.as_bytes().len()
    }

    /// The cursor after consuming `n` bytes; this cursor is left as it was.
    pub fn advance(&self, n: usize) -> (r: Remaining<'a>)
        requires
            self.wf(),
            is_char_boundary(self@.text, n as int),
        ensures
            r@ == self@.advance(n as nat),
            self@.reaches(r@),
            r.wf(),
    {
        broadcast use group_utf8_lib;
        proof {
            reveal(Cursor::reaches);
        }
        let (_, rest) = self.rem.split_at(n);
        Remaining { pos: self.pos + n, rem: rest }
    }
}

/// A cursor reaches itself.
pub proof fn lemma_reaches_self(a: Cursor)
    ensures
        a.reaches(a),
{
    reveal(Cursor::reaches);
}

/// A cursor reaches every cursor that it can be advanced to.
pub proof fn lemma_reaches_advanced(a: Cursor, n: nat)
    requires
        n <= a.text.len(),
    ensures
        a.reaches(a.advance(n)),
{
    reveal(Cursor::reaches);
}

/// A cursor that is reached has no more bytes left, and ends where the one
/// that reaches it ends.
pub broadcast proof fn lemma_reaches_bounds(a: Cursor, b: Cursor)
    requires
        #[trigger] a.reaches(b),
    ensures
        b.text.len() <= a.text.len(),
        b.pos + b.text.len() == a.pos + a.text.len(),
        b == a.advance((a.text.len() - b.text.len()) as nat),
{
    reveal(Cursor::reaches);
}

/// Advancing twice is advancing once by the sum.
pub broadcast proof fn lemma_reaches_transitive(a: Cursor, b: Cursor, c: Cursor)
    requires
        #[trigger] a.reaches(b),
        #[trigger] b.reaches(c),
    ensures
        a.reaches(c),
{
    reveal(Cursor::reaches);
    assert(c.text =~= a.text.skip(a.text.len() - c.text.len()));
}

/// What the verifier may use of [`Cursor::reaches`] without being told.
pub broadcast group group_cursor {
    lemma_reaches_bounds,
    lemma_reaches_transitive,
}

} // verus!
