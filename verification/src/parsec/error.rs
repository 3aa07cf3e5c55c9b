//! Diagnostics: where a parse went wrong, and why.
use core::ops::Range;
use vstd::prelude::*;

verus! {

/// The mathematical content of a [`ParserError`].
pub struct Diagnostic {
    /// First byte of the offending text, counted from the failing cursor.
    pub start: nat,
    /// One past its last byte.
    pub end: nat,
    /// The human-readable explanation.
    pub message: Seq<char>,
}

/// A half-open byte range, relative to the cursor at which a parser failed,
/// and a message for the reader.
#[derive(Debug, PartialEq, Eq)]
pub struct ParserError {
    pub span: Range<usize>,
    pub reason: String,
}

impl View for ParserError {
    type V = Diagnostic;

    open spec fn view(&self) -> Diagnostic {
        Diagnostic {
            start: self.span.start as nat,
            end: self.span.end as nat,
            message: self.reason@,
        }
    }
}

impl ParserError {
    /// The diagnostic with this span and this message.
    pub fn new(span: Range<usize>, reason: String) -> (e: ParserError)
        ensures
            e.span == span,
            e.reason == reason,
    {
        ParserError { span, reason }
    }

    /// Replaces the message and keeps the span: a grammar rule uses this to
    /// say in its own terms what a lower-level parser reported generically.
    pub fn set_reason(&mut self, reason: String)
        ensures
            final(self).span == old(self).span,
            final(self).reason == reason,
    {
        self.reason = reason;
    }
}

} // verus!
