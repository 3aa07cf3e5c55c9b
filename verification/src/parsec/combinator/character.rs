//! The primitive parsers: a literal, one digit, a quoted string.
use crate::parsec::error::{Diagnostic, ParserError};
use crate::parsec::text::{
    byte_at, excerpt, find_stop, first_char, first_char_len, first_width,
    lemma_boundary_after_ascii, lemma_boundary_after_prefix, lemma_boundary_at_ascii,
    lemma_first_char_decodes, stop_index, take_text, BACKSLASH, LINE_FEED, QUOTE,
};
use crate::parsec::{
    lemma_reaches_advanced, outcome_view, Cursor, JsonError, Outcome, ParseResult, Remaining,
};
use vstd::prelude::*;
use vstd::string::*;
use vstd::utf8::*;

verus! {

broadcast use crate::parsec::group_cursor;

/// The message of a literal that did not match.
pub open spec fn expected_found(pattern: Seq<char>, found: Seq<char>) -> Seq<char> {
    "Expected `"@ + pattern + "` found `"@ + found + "`"@
}

/// Succeeds where the text begins with the bytes of `pattern`, consuming
/// exactly those, and returns the pattern. Otherwise fails recoverably at
/// `s`, quoting the pattern and the text found up to the next line feed.
#[verifier::opaque]
pub open spec fn spec_label(pattern: Seq<char>, s: Cursor) -> Outcome<Seq<char>> {
    let bytes = encode_utf8(pattern);
    if bytes.is_prefix_of(s.text) {
        Outcome::Success(s.advance(bytes.len()), pattern)
    } else {
        Outcome::SoftFailure(
            s,
            Diagnostic {
                start: 0,
                end: stop_index(s.text, false),
                message: expected_found(pattern, excerpt(s.text, false)),
            },
        )
    }
}

/// Whether `text` begins with `pattern`, byte for byte.
pub fn starts_with(text: &str, pattern: &str) -> (b: bool)
    ensures
        b == pattern.spec_bytes().is_prefix_of(text.spec_bytes()),
{
    let wanted = pattern.as_bytes();
    let given = text.as_bytes();
    if wanted.len() > given.len() {
        return false;
    }
    let mut i: usize = 0;
    while i < wanted.len()
        invariant
            i <= wanted.len() <= given.len(),
            wanted@ == pattern.spec_bytes(),
            given@ == text.spec_bytes(),
            forall|j: int| 0 <= j < i ==> wanted@[j] == given@[j],
        decreases wanted.len() - i,
    {
        if wanted[i] != given[i] {
            assert(given@.subrange(0, wanted@.len() as int)[i as int] != wanted@[i as int]);
            return false;
        }
        i += 1;
    }
    assert(wanted@ =~= given@.subrange(0, wanted@.len() as int));
    true
}

/// The literal `str_to_match`: see [`spec_label`].
pub fn label<'a>(str_to_match: &'a str, s: Remaining<'a>) -> (r: ParseResult<'a, &'a str>)
    requires
        s.wf(),
    ensures
        outcome_view(r) == spec_label(str_to_match@, s@),
        r matches Ok((end, _)) ==> s@.reaches(end@),
{
    proof {
        reveal(excerpt);
        reveal(spec_label);
    }
    broadcast use group_utf8_lib;
    if starts_with(s.rem, str_to_match) {
        proof {
            lemma_boundary_after_prefix(str_to_match.spec_bytes(), s@.text);
        }
        let n = str_to_match.as_bytes().len();
        Ok((s.advance(n), str_to_match))
    } else {
        let end = find_stop(s.rem, false);
        let found = take_text(s.rem, end);
        let mut reason = String::from_str("Expected `");
        reason.append(str_to_match);
        reason.append("` found `");
        reason.append(found);
        reason.append("`");
        Err(JsonError::Failure(s, ParserError::new(0..end, reason)))
    }
}

/// The value of `c` as a digit: `0` to `9`, then the letters of either case
/// from ten on.
pub open spec fn digit_value(c: char) -> Option<u32> {
    if '0' <= c <= '9' {
        Some((c as u32 - '0' as u32) as u32)
    } else if 'a' <= c <= 'z' {
        Some((c as u32 - 'a' as u32 + 10) as u32)
    } else if 'A' <= c <= 'Z' {
        Some((c as u32 - 'A' as u32 + 10) as u32)
    } else {
        None
    }
}

/// Whether `c` is a digit in the given base.
pub open spec fn is_digit(c: char, base: u32) -> bool {
    digit_value(c) matches Some(d) && d < base
}

/// Computes [`digit_value`].
pub fn to_digit(c: char) -> (d: Option<u32>)
    ensures
        d == digit_value(c),
{
    let code = c as u32;
    if '0' <= c && c <= '9' {
        Some(code - '0' as u32)
    } else if 'a' <= c && c <= 'z' {
        Some(code - 'a' as u32 + 10)
    } else if 'A' <= c && c <= 'Z' {
        Some(code - 'A' as u32 + 10)
    } else {
        None
    }
}

/// The message for a character that is no digit.
pub open spec fn not_a_digit(c: char) -> Seq<char> {
    seq![c] + " is not a digit"@
}

/// Succeeds where the text begins with a digit of the given base, consuming
/// that one character and returning it. Otherwise fails recoverably at `s`.
/// Every digit is a character below `0x80`, which is one byte long.
pub open spec fn spec_digit(base: u32, s: Cursor) -> Outcome<char> {
    if s.text.len() == 0 {
        Outcome::SoftFailure(
            s,
            Diagnostic { start: 0, end: 0, message: "Expected a digit, found nothing"@ },
        )
    } else if s.text[0] < 0x80 && is_digit(s.text[0] as char, base) {
        Outcome::Success(s.advance(1), s.text[0] as char)
    } else {
        Outcome::SoftFailure(
            s,
            Diagnostic {
                start: 0,
                end: first_char_len(s.text),
                message: not_a_digit(first_char(s.text)),
            },
        )
    }
}

/// One digit of the given base: see [`spec_digit`].
pub fn digit<'a>(base: u32, s: Remaining<'a>) -> (r: ParseResult<'a, char>)
    requires
        s.wf(),
        2 <= base <= 36,
    ensures
        outcome_view(r) == spec_digit(base, s@),
        r matches Ok((end, _)) ==> s@.reaches(end@),
{
    broadcast use group_utf8_lib;
    if s.rem_len() == 0 {
        let reason = String::from_str("Expected a digit, found nothing");
        return Err(JsonError::Failure(s, ParserError::new(0..0, reason)));
    }
    let b = byte_at(s.rem, 0);
    let fits = b < 0x80 && match to_digit(b as char) {
        Some(d) => d < base,
        None => false,
    };
    if fits {
        proof {
            lemma_boundary_after_ascii(s@.text, 0);
        }
        Ok((s.advance(1), b as char))
    } else {
        let width = first_width(s.rem);
        proof {
            lemma_first_char_decodes(s@.text);
        }
        let mut reason = String::from_str(take_text(s.rem, width));
        reason.append(" is not a digit");
        Err(JsonError::Failure(s, ParserError::new(0..width, reason)))
    }
}

/// How the scan of a quoted string ends.
pub enum Scan {
    /// At this index stands the closing quote.
    Closed(nat),
    /// At this index stands a raw line feed, or the text ends.
    Unclosed(nat),
}

/// Scans the text behind an opening quote from index `i`. A backslash makes
/// the byte that follows it an escaped one; a quote that is not escaped
/// closes the string; a line feed that is not escaped, or the end of the
/// text, leaves it unclosed.
pub open spec fn scan_quoted(text: Seq<u8>, i: nat, escaped: bool) -> Scan
    decreases text.len() - i,
{
    if i >= text.len() {
        Scan::Unclosed(text.len())
    } else if text[i as int] == QUOTE && !escaped {
        Scan::Closed(i)
    } else if text[i as int] == BACKSLASH {
        scan_quoted(text, i + 1, true)
    } else if escaped {
        scan_quoted(text, i + 1, false)
    } else if text[i as int] == LINE_FEED {
        Scan::Unclosed(i)
    } else {
        scan_quoted(text, i + 1, false)
    }
}

/// Expects a `"`; without one it fails recoverably. Behind it the string is
/// committed: up to the closing quote it succeeds with the text between the
/// quotes, escapes left as they are, and without a closing quote on the same
/// line it fails for good, at the position of the opening quote.
#[verifier::opaque]
pub open spec fn spec_string(s: Cursor) -> Outcome<Seq<char>> {
    match spec_label("\""@, s) {
        Outcome::Success(inner, _) => match scan_quoted(inner.text, 0, false) {
            Scan::Closed(k) => Outcome::Success(
                inner.advance(k + 1),
                decode_utf8(inner.text.take(k as int)),
            ),
            Scan::Unclosed(k) => Outcome::HardFailure(
                s.pos,
                Diagnostic { start: 0, end: k + 1, message: "Unclosed string delimiter"@ },
            ),
        },
        failed => failed,
    }
}

/// The scan stops inside the text, and where it finds the closing quote,
/// there is one.
pub proof fn lemma_scan_quoted(text: Seq<u8>, i: nat, escaped: bool)
    requires
        i <= text.len(),
    ensures
        match scan_quoted(text, i, escaped) {
            Scan::Closed(k) => i <= k < text.len() && text[k as int] == QUOTE,
            Scan::Unclosed(k) => i <= k <= text.len(),
        },
    decreases text.len() - i,
{
    if i >= text.len() {
    } else if text[i as int] == QUOTE && !escaped {
    } else if text[i as int] == BACKSLASH {
        lemma_scan_quoted(text, i + 1, true);
    } else if escaped {
        lemma_scan_quoted(text, i + 1, false);
    } else if text[i as int] == LINE_FEED {
    } else {
        lemma_scan_quoted(text, i + 1, false);
    }
}

/// A literal of one character below `0x80` is that one byte.
pub proof fn lemma_single_byte(pattern: Seq<char>)
    requires
        pattern.len() == 1,
        '\0' <= pattern[0] <= '\u{7f}',
    ensures
        encode_utf8(pattern) == seq![pattern[0] as u8],
{
    assert(is_ascii_chars(pattern));
    is_ascii_chars_encode_utf8(pattern);
    assert(encode_utf8(pattern) =~= seq![pattern[0] as u8]);
}

/// A literal never fails for good, and where it matches it moves forward, by
/// at least one byte unless it is empty.
pub proof fn lemma_label_moves(pattern: Seq<char>, s: Cursor)
    ensures
        spec_label(pattern, s).moves_forward(s),
        !(spec_label(pattern, s) is HardFailure),
        spec_label(pattern, s) matches Outcome::SoftFailure(at, _) ==> at == s,
        pattern.len() > 0 ==> (spec_label(pattern, s) matches Outcome::Success(end, _)
            ==> end.text.len() < s.text.len()),
{
    reveal(spec_label);
    if pattern.len() > 0 {
        reveal_with_fuel(encode_utf8, 1);
        assert(encode_utf8(pattern).len() > 0);
    }
    if spec_label(pattern, s) is Success {
        lemma_reaches_advanced(s, encode_utf8(pattern).len());
    }
}

/// A quoted string consumes at least its two quotes where it succeeds, and
/// where it does not apply it fails at `s`.
pub proof fn lemma_string_moves(s: Cursor)
    ensures
        spec_string(s).moves_forward(s),
        spec_string(s) matches Outcome::Success(end, _) ==> end.text.len() < s.text.len(),
        spec_string(s) matches Outcome::SoftFailure(at, _) ==> at == s,
{
    reveal(spec_string);
    lemma_label_moves("\""@, s);
    if let Outcome::Success(inner, _) = spec_label("\""@, s) {
        lemma_scan_quoted(inner.text, 0, false);
        if let Scan::Closed(k) = scan_quoted(inner.text, 0, false) {
            lemma_reaches_advanced(inner, k + 1);
        }
    }
}

/// A quoted string: see [`spec_string`].
#[verifier::loop_isolation(false)]
pub fn string<'a>(s: Remaining<'a>) -> (r: ParseResult<'a, &'a str>)
    requires
        s.wf(),
    ensures
        outcome_view(r) == spec_string(s@),
        r matches Ok((end, _)) ==> s@.reaches(end@),
{
    proof {
        reveal(spec_string);
        reveal(spec_label);
    }
    broadcast use group_utf8_lib;
    let (inner, _) = match label("\"", s) {
        Ok(opened) => opened,
        Err(e) => {
            return Err(e);
        },
    };
    proof {
        reveal_strlit("\"");
        lemma_single_byte("\""@);
    }
    let bytes = inner.rem.as_bytes();
    let mut i: usize = 0;
    let mut escaped = false;
    while i < bytes.len()
        invariant
            i <= bytes.len(),
            bytes@ == inner@.text,
            valid_utf8(bytes@),
            inner.wf(),
            s.wf(),
            s@.reaches(inner@),
            inner@.text.len() + 1 == s@.text.len(),
            spec_label("\""@, s@) == Outcome::Success(inner@, "\""@),
            scan_quoted(bytes@, 0, false) == scan_quoted(bytes@, i as nat, escaped),
        decreases bytes.len() - i,
    {
        let b = bytes[i];
        if b == QUOTE && !escaped {
            proof {
                lemma_boundary_at_ascii(bytes@, i as int);
                lemma_boundary_after_ascii(bytes@, i as int);
            }
            let content = take_text(inner.rem, i);
            let end = inner.advance(i + 1);
            return Ok((end, content));
        } else if b == BACKSLASH {
            escaped = true;
        } else if escaped {
            escaped = false;
        } else if b == LINE_FEED {
            let reason = String::from_str("Unclosed string delimiter");
            return Err(JsonError::Unsavable(s.pos, ParserError::new(0..i + 1, reason)));
        }
        i += 1;
    }
    let reason = String::from_str("Unclosed string delimiter");
    Err(JsonError::Unsavable(s.pos, ParserError::new(0..i + 1, reason)))
}

} // verus!
