//! Skipping blanks.
use crate::parsec::text::{
    lemma_boundary_after_ascii, lemma_boundary_at_ascii, lemma_boundary_at_end, take_text,
    LINE_FEED, SPACE, TAB,
};
use crate::parsec::{
    lemma_reaches_advanced, outcome_view, Cursor, Outcome, ParseResult, Remaining,
};
use vstd::prelude::*;
use vstd::string::*;
use vstd::utf8::*;

verus! {

broadcast use crate::parsec::group_cursor;

/// The bytes that count as whitespace: space, tab and newline.
pub open spec fn is_blank(b: u8) -> bool {
    b == SPACE || b == TAB || b == LINE_FEED
}

/// The length of the longest prefix of `text` that is made of blanks.
pub open spec fn blank_len(text: Seq<u8>) -> nat
    decreases text.len(),
{
    if text.len() > 0 && is_blank(text[0]) {
        1 + blank_len(text.skip(1))
    } else {
        0
    }
}

/// The cursor behind the blanks that `s` begins with.
#[verifier::opaque]
pub open spec fn skip_blank(s: Cursor) -> Cursor {
    s.advance(blank_len(s.text))
}

/// Consumes the longest run of blanks, which may be empty, and never fails.
pub open spec fn spec_ws(s: Cursor) -> Outcome<()> {
    Outcome::Success(skip_blank(s), ())
}

/// [`blank_len`] is the first index at which no blank stands.
pub proof fn lemma_blank_len(text: Seq<u8>)
    ensures
        blank_len(text) <= text.len(),
        forall|i: int| 0 <= i < blank_len(text) ==> is_blank(text[i]),
        blank_len(text) < text.len() ==> !is_blank(text[blank_len(text) as int]),
    decreases text.len(),
{
    if text.len() > 0 && is_blank(text[0]) {
        let rest = text.skip(1);
        lemma_blank_len(rest);
        assert forall|i: int| 0 <= i < blank_len(text) implies is_blank(text[i]) by {
            if i > 0 {
                assert(text[i] == rest[i - 1]);
            }
        }
        if blank_len(text) < text.len() {
            assert(text[blank_len(text) as int] == rest[blank_len(rest) as int]);
        }
    }
}

/// The first index at which no blank stands, or the length where there is
/// none, is the blank length.
pub proof fn lemma_blank_len_unique(text: Seq<u8>, k: int)
    requires
        0 <= k <= text.len(),
        forall|i: int| 0 <= i < k ==> is_blank(text[i]),
        k < text.len() ==> !is_blank(text[k]),
    ensures
        blank_len(text) == k,
    decreases k,
{
    if k > 0 {
        let rest = text.skip(1);
        assert(is_blank(text[0]));
        assert forall|i: int| 0 <= i < k - 1 implies is_blank(rest[i]) by {
            assert(rest[i] == text[i + 1]);
        }
        lemma_blank_len_unique(rest, k - 1);
    }
}

/// Skipping blanks moves the cursor forward within its document, and what
/// follows does not begin with a blank.
pub proof fn lemma_skip_blank(s: Cursor)
    ensures
        s.reaches(skip_blank(s)),
        skip_blank(s).text.len() <= s.text.len(),
        blank_len(skip_blank(s).text) == 0,
{
    reveal(skip_blank);
    lemma_blank_len(s.text);
    lemma_reaches_advanced(s, blank_len(s.text));
    let rest = skip_blank(s).text;
    if rest.len() > 0 {
        assert(rest[0] == s.text[blank_len(s.text) as int]);
    }
}

/// The cursor behind the blanks that `s` begins with: see [`skip_blank`].
pub fn after_blanks<'a>(s: Remaining<'a>) -> (end: Remaining<'a>)
    requires
        s.wf(),
    ensures
        end@ == skip_blank(s@),
        s@.reaches(end@),
        end.wf(),
{
    proof {
        reveal(skip_blank);
    }
    broadcast use group_utf8_lib;
    let bytes = s.rem.as_bytes();
    let mut k: usize = 0;
    while k < bytes.len() && (bytes[k] == SPACE || bytes[k] == TAB || bytes[k] == LINE_FEED)
        invariant
            k <= bytes.len(),
            bytes@ == s@.text,
            forall|i: int| 0 <= i < k ==> is_blank(bytes@[i]),
        decreases bytes.len() - k,
    {
        k += 1;
    }
    proof {
        lemma_blank_len_unique(bytes@, k as int);
        if k > 0 {
            lemma_boundary_after_ascii(bytes@, k - 1);
        }
    }
    s.advance(k)
}

/// The maximal run of space, tab and newline: see [`spec_ws`].
pub fn ws<'a>(s: Remaining<'a>) -> (r: ParseResult<'a, ()>)
    requires
        s.wf(),
    ensures
        outcome_view(r) == spec_ws(s@),
        r matches Ok((end, _)) && s@.reaches(end@),
{
    Ok((after_blanks(s), ()))
}

/// The length of the longest suffix of `text` that is made of blanks.
pub open spec fn trailing_blank_len(text: Seq<u8>) -> nat
    decreases text.len(),
{
    if text.len() > 0 && is_blank(text.last()) {
        1 + trailing_blank_len(text.drop_last())
    } else {
        0
    }
}

/// The text without the blanks at its two ends.
pub open spec fn trimmed(text: Seq<u8>) -> Seq<u8> {
    let front = text.skip(blank_len(text) as int);
    front.take(front.len() - trailing_blank_len(front))
}

/// The number of bytes behind the last byte that is no blank is the
/// trailing blank length.
pub proof fn lemma_trailing_blank_len_unique(text: Seq<u8>, k: int)
    requires
        0 <= k <= text.len(),
        forall|i: int| text.len() - k <= i < text.len() ==> is_blank(text[i]),
        k < text.len() ==> !is_blank(text[text.len() - k - 1]),
    ensures
        trailing_blank_len(text) == k,
    decreases k,
{
    if k > 0 {
        let rest = text.drop_last();
        assert(is_blank(text[text.len() - 1]));
        assert forall|i: int| rest.len() - (k - 1) <= i < rest.len() implies is_blank(rest[i]) by {
            assert(rest[i] == text[i]);
        }
        if k - 1 < rest.len() {
            assert(rest[rest.len() - (k - 1) - 1] == text[text.len() - k - 1]);
        }
        lemma_trailing_blank_len_unique(rest, k - 1);
    }
}

/// The text without the blanks at its two ends: see [`trimmed`].
pub fn trim<'a>(text: &'a str) -> (r: &'a str)
    ensures
        r.spec_bytes() == trimmed(text.spec_bytes()),
{
    proof {
        reveal(skip_blank);
    }
    broadcast use group_utf8_lib;
    let front = after_blanks(Remaining::new(text, 0)).rem;
    let bytes = front.as_bytes();
    let mut end: usize = bytes.len();
    while end > 0 && (bytes[end - 1] == SPACE || bytes[end - 1] == TAB || bytes[end - 1] == LINE_FEED)
        invariant
            end <= bytes.len(),
            bytes@ == front.spec_bytes(),
            forall|i: int| end <= i < bytes.len() ==> is_blank(bytes@[i]),
        decreases end,
    {
        end -= 1;
    }
    proof {
        lemma_trailing_blank_len_unique(bytes@, bytes.len() - end);
        if end < bytes.len() {
            lemma_boundary_at_ascii(bytes@, end as int);
        } else {
            lemma_boundary_at_end(bytes@);
        }
    }
    take_text(front, end)
}

} // verus!
