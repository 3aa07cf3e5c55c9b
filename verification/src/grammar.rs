//! The grammar: values, arrays, keywords, members and objects, by recursive
//! descent over [`value`].
//!
//! An array or an object without any element, `[]` or `{}`, is accepted, with
//! blanks allowed between the brackets.
use crate::document::{Document, Field, JsonObject, JsonValue, Member};
use crate::parsec::{outcome_view, Cursor, JsonError, Outcome, ParseResult, Remaining};
use crate::parsec::combinator::{describes, lemma_many_ends, spec_many, spec_many1};
use crate::parsec::combinator::branch::{alternative, sequence};
use crate::parsec::combinator::character::{
    digit, digit_value, is_digit, label, lemma_label_moves, lemma_string_moves, spec_digit,
    spec_label, spec_string, string,
};
use crate::parsec::combinator::multi::{many, many1};
use crate::parsec::combinator::whitespace::{
    after_blanks, lemma_skip_blank, skip_blank, trim, trimmed,
};
use crate::parsec::error::{Diagnostic, ParserError};
use crate::parsec::text::{
    excerpt, first_char, first_char_len, first_width, leading_char, lemma_first_char_decodes, quote,
    take_text,
};
use vstd::prelude::*;
use vstd::string::*;
use vstd::utf8::*;

verus! {

broadcast use crate::parsec::group_cursor;

// Numbers

/// The number that a run of decimal digits writes.
pub open spec fn digits_value(digits: Seq<char>) -> nat
    decreases digits.len(),
{
    if digits.len() == 0 {
        0
    } else {
        digits_value(digits.drop_last()) * 10 + match digit_value(digits.last()) {
            Some(d) => d as nat,
            None => 0,
        }
    }
}

/// The parser of one decimal digit.
pub open spec fn decimal_digit() -> spec_fn(Cursor) -> Outcome<char> {
    |c: Cursor| spec_digit(10, c)
}

/// One or more decimal digits, read as a non-negative integer. Where there is
/// no digit, or where the number does not fit an `isize`, the failure is a
/// recoverable one.
#[verifier::opaque]
pub open spec fn spec_number(s: Cursor) -> Outcome<Document> {
    match spec_many1(decimal_digit(), s) {
        Outcome::Success(end, digits) => if digits_value(digits) <= isize::MAX {
            Outcome::Success(end, Document::Number(digits_value(digits) as int))
        } else {
            Outcome::SoftFailure(
                s,
                Diagnostic { start: 0, end: digits.len(), message: "Number out of range"@ },
            )
        },
        failed => failed.failure(),
    }
}

/// A longer run of digits writes a number that is no smaller.
pub proof fn lemma_digits_value_grows(digits: Seq<char>, n: int)
    requires
        0 <= n <= digits.len(),
    ensures
        digits_value(digits.take(n)) <= digits_value(digits),
    decreases digits.len() - n,
{
    if n == digits.len() {
        assert(digits.take(n) =~= digits);
    } else {
        lemma_digits_value_grows(digits, n + 1);
        assert(digits.take(n + 1).drop_last() =~= digits.take(n));
    }
}

/// The number that decimal digits write, or `None` where it exceeds
/// `isize::MAX`.
pub fn to_integer(digits: &Vec<char>) -> (n: Option<isize>)
    requires
        forall|i: int| 0 <= i < digits.len() ==> is_digit(digits[i], 10),
    ensures
        n == (if digits_value(digits@) <= isize::MAX {
            Some(digits_value(digits@) as isize)
        } else {
            None
        }),
{
    let mut total: isize = 0;
    let mut i: usize = 0;
    while i < digits.len()
        invariant
            i <= digits.len(),
            0 <= total,
            total == digits_value(digits@.take(i as int)),
            forall|j: int| 0 <= j < digits.len() ==> is_digit(digits[j], 10),
        decreases digits.len() - i,
    {
        let d = digits[i] as u32 - '0' as u32;
        proof {
            assert(digits@.take(i + 1).drop_last() =~= digits@.take(i as int));
            assert(digits@.take(i + 1).last() == digits[i as int]);
            assert(is_digit(digits[i as int], 10));
            lemma_digits_value_grows(digits@, i + 1);
        }
        let next = match total.checked_mul(10) {
            Some(tens) => tens.checked_add(d as isize),
            None => None,
        };
        match next {
            Some(sum) => {
                total = sum;
            },
            None => {
                return None;
            },
        }
        i += 1;
    }
    assert(digits@.take(i as int) =~= digits@);
    Some(total)
}

/// Every item that a repetition collects is a value that its parser gives.
pub proof fn lemma_many_digits(s: Cursor)
    ensures
        spec_many(decimal_digit(), s) matches Outcome::Success(_, digits) ==> forall|i: int|
            0 <= i < digits.len() ==> is_digit(#[trigger] digits[i], 10),
    decreases s.text.len(),
{
    if let Outcome::Success(c, v) = spec_digit(10, s) {
        if c.text.len() < s.text.len() {
            lemma_many_digits(c);
        }
    }
}

/// A non-negative decimal integer: see [`spec_number`].
pub fn number<'a>(s: Remaining<'a>) -> (r: ParseResult<'a, JsonValue>)
    requires
        s.wf(),
    ensures
        outcome_view(r) == spec_number(s@),
        r matches Ok((end, _)) ==> s@.reaches(end@),
{
    proof {
        reveal(spec_number);
    }
    let one = |c: Remaining<'a>| -> (o: ParseResult<'a, char>)
        requires
            c.wf(),
        ensures
            outcome_view(o) == spec_digit(10, c@),
            o matches Ok((end, _)) ==> c@.reaches(end@),
        { digit(10, c) };
    proof {
        assert(describes(one, decimal_digit(), s@.text.len()));
    }
    match many1(one, s) {
        Ok((end, digits)) => {
            proof {
                assert(digits.deep_view() =~= digits@);
                if let Outcome::Success(c, v) = spec_digit(10, s@) {
                    lemma_many_digits(c);
                    if let Outcome::Success(_, rest) = spec_many(decimal_digit(), c) {
                        assert(digits@ == seq![v] + rest);
                        assert forall|i: int| 0 <= i < digits.len() implies is_digit(
                            digits[i],
                            10,
                        ) by {
                            if i > 0 {
                                assert(digits@[i] == rest[i - 1]);
                            }
                        }
                    }
                }
            }
            match to_integer(&digits) {
                Some(n) => Ok((end, JsonValue::Number(n))),
                None => {
                    let reason = String::from_str("Number out of range");
                    Err(JsonError::Failure(s, ParserError::new(0..digits.len(), reason)))
                },
            }
        },
        Err(e) => Err(e),
    }
}

// Strings

/// A quoted string as a value.
#[verifier::opaque]
pub open spec fn spec_json_string(s: Cursor) -> Outcome<Document> {
    match spec_string(s) {
        Outcome::Success(end, text) => Outcome::Success(end, Document::String(text)),
        failed => failed.failure(),
    }
}

/// A quoted string as a value: see [`spec_json_string`].
pub fn json_string<'a>(s: Remaining<'a>) -> (r: ParseResult<'a, JsonValue>)
    requires
        s.wf(),
    ensures
        outcome_view(r) == spec_json_string(s@),
        r matches Ok((end, _)) ==> s@.reaches(end@),
{
    proof {
        reveal(spec_json_string);
    }
    match string(s) {
        Ok((end, text)) => Ok((end, JsonValue::String(String::from_str(text)))),
        Err(e) => Err(e),
    }
}

// Keywords

/// What `char::is_alphabetic` returns for a character: whether it is
/// Alphabetic in Unicode, as the standard library's tables have it.
pub uninterp spec fn unicode_alphabetic(c: char) -> bool;

/// Calls `char::is_alphabetic`, which returns whether its argument is
/// Alphabetic in Unicode. Nothing more is claimed here than that the answer
/// depends on the character alone.
#[verifier::external_body]
fn is_unicode_alphabetic(c: char) -> (b: bool)
    ensures
        b == unicode_alphabetic(c),
{
    c.is_alphabetic()
}

/// Whether `c` is a letter: up to `0x7f` the letters are `a` to `z` and `A` to
/// `Z`, beyond it the characters that are Alphabetic in Unicode.
pub open spec fn is_alphabetic(c: char) -> bool {
    if c <= '\u{7f}' {
        'a' <= c <= 'z' || 'A' <= c <= 'Z'
    } else {
        unicode_alphabetic(c)
    }
}

/// Whether the text begins with a letter.
pub open spec fn starts_with_letter(text: Seq<u8>) -> bool {
    text.len() > 0 && is_alphabetic(first_char(text))
}

/// Computes [`starts_with_letter`].
pub fn begins_with_letter(text: &str) -> (b: bool)
    ensures
        b == starts_with_letter(text.spec_bytes()),
{
    if text.as_bytes().len() == 0 {
        return false;
    }
    let c = leading_char(text);
    if c <= '\u{7f}' {
        ('a' <= c && c <= 'z') || ('A' <= c && c <= 'Z')
    } else {
        is_unicode_alphabetic(c)
    }
}

/// The literal `pattern`, standing for the value `meaning`.
pub open spec fn literal_as(pattern: Seq<char>, meaning: Document, s: Cursor) -> Outcome<
    Document,
> {
    match spec_label(pattern, s) {
        Outcome::Success(end, _) => Outcome::Success(end, meaning),
        failed => failed.failure(),
    }
}

/// `true`, else `false`, else `null`.
pub open spec fn spec_keyword_choice(s: Cursor) -> Outcome<Document> {
    literal_as("true"@, Document::True, s).or(
        literal_as("false"@, Document::False, s).or(literal_as("null"@, Document::Null, s)),
    )
}

/// The message for a word that is no keyword.
pub open spec fn unknown_keyword(found: Seq<char>) -> Seq<char> {
    "Expected either true, false or null, found "@ + found
}

/// What [`spec_keyword`] makes of the failure of all three literals: a word
/// that is none of them is an error for good, at `s`, which quotes the text
/// up to the next comma or line feed; anything else is no keyword at all.
pub open spec fn spec_keyword_mismatch(
    s: Cursor,
    stopped: Cursor,
    mismatch: Diagnostic,
    letter: bool,
) -> Outcome<Document> {
    if letter {
        Outcome::HardFailure(
            s.pos,
            Diagnostic { message: unknown_keyword(excerpt(s.text, true)), ..mismatch },
        )
    } else {
        Outcome::SoftFailure(stopped, mismatch)
    }
}

/// One of the literals `true`, `false` and `null`. Where none of them matches
/// and the text begins with a letter, the failure is committed.
#[verifier::opaque]
pub open spec fn spec_keyword(s: Cursor) -> Outcome<Document> {
    match spec_keyword_choice(s) {
        Outcome::SoftFailure(stopped, mismatch) => spec_keyword_mismatch(
            s,
            stopped,
            mismatch,
            starts_with_letter(s.text),
        ),
        decided => decided,
    }
}

/// `true`, else `false`, else `null`: see [`spec_keyword_choice`].
fn keyword_choice<'a>(s: Remaining<'a>) -> (r: ParseResult<'a, JsonValue>)
    requires
        s.wf(),
    ensures
        outcome_view(r) == spec_keyword_choice(s@),
        r matches Ok((end, _)) ==> s@.reaches(end@),
{
    let is_true = |c: Remaining<'a>| -> (o: ParseResult<'a, JsonValue>)
        requires
            c.wf(),
        ensures
            outcome_view(o) == literal_as("true"@, Document::True, c@),
            o matches Ok((end, _)) ==> c@.reaches(end@),
        {
            match label("true", c) {
                Ok((end, _)) => Ok((end, JsonValue::True)),
                Err(e) => Err(e),
            }
        };
    let is_false = |c: Remaining<'a>| -> (o: ParseResult<'a, JsonValue>)
        requires
            c.wf(),
        ensures
            outcome_view(o) == literal_as("false"@, Document::False, c@),
            o matches Ok((end, _)) ==> c@.reaches(end@),
        {
            match label("false", c) {
                Ok((end, _)) => Ok((end, JsonValue::False)),
                Err(e) => Err(e),
            }
        };
    let is_null = |c: Remaining<'a>| -> (o: ParseResult<'a, JsonValue>)
        requires
            c.wf(),
        ensures
            outcome_view(o) == literal_as("null"@, Document::Null, c@),
            o matches Ok((end, _)) ==> c@.reaches(end@),
        {
            match label("null", c) {
                Ok((end, _)) => Ok((end, JsonValue::Null)),
                Err(e) => Err(e),
            }
        };
    let ghost as_true = |c: Cursor| literal_as("true"@, Document::True, c);
    let ghost as_false = |c: Cursor| literal_as("false"@, Document::False, c);
    let ghost as_null = |c: Cursor| literal_as("null"@, Document::Null, c);
    let ghost as_either = |c: Cursor| as_false(c).or(as_null(c));
    let either = |c: Remaining<'a>| -> (o: ParseResult<'a, JsonValue>)
        requires
            c.wf(),
        ensures
            outcome_view(o) == as_either(c@),
            o matches Ok((end, _)) ==> c@.reaches(end@),
        {
            proof {
                assert(describes(is_false, as_false, c@.text.len()));
                assert(describes(is_null, as_null, c@.text.len()));
            }
            alternative(is_false, is_null, c)
        };
    proof {
        assert(describes(is_true, as_true, s@.text.len()));
        assert(describes(either, as_either, s@.text.len()));
    }
    alternative(is_true, either, s)
}

/// What [`keyword`] returns once none of its literals has matched, given
/// whether the text begins with a letter: see [`spec_keyword_mismatch`].
pub fn keyword_mismatch<'a>(
    s: Remaining<'a>,
    stopped: Remaining<'a>,
    mismatch: ParserError,
    letter: bool,
) -> (r: ParseResult<'a, JsonValue>)
    ensures
        outcome_view(r) == spec_keyword_mismatch(s@, stopped@, mismatch@, letter),
        r is Err,
{
    if letter {
        let mut error = mismatch;
        let mut reason = String::from_str("Expected either true, false or null, found ");
        reason.append(quote(s.rem, true));
        error.set_reason(reason);
        Err(JsonError::Unsavable(s.pos, error))
    } else {
        Err(JsonError::Failure(stopped, mismatch))
    }
}

/// One of `true`, `false` and `null`: see [`spec_keyword`].
pub fn keyword<'a>(s: Remaining<'a>) -> (r: ParseResult<'a, JsonValue>)
    requires
        s.wf(),
    ensures
        outcome_view(r) == spec_keyword(s@),
        r matches Ok((end, _)) ==> s@.reaches(end@),
{
    proof {
        reveal(spec_keyword);
    }
    match keyword_choice(s) {
        Err(JsonError::Failure(stopped, mismatch)) => {
            let letter = begins_with_letter(s.rem);
            keyword_mismatch(s, stopped, mismatch, letter)
        },
        decided => decided,
    }
}

// Values, arrays, members and objects

/// The message for a text that is no value of any kind.
pub open spec fn invalid_value(found: Seq<char>) -> Seq<char> {
    "Invalid value `"@ + found + "`"@
}

/// What stands where a comma or a closing bracket should: the first
/// character, or the end of the input.
#[verifier::opaque]
pub open spec fn unexpected(text: Seq<u8>) -> Diagnostic {
    if text.len() == 0 {
        Diagnostic { start: 0, end: 0, message: "Unexpected end of input"@ }
    } else {
        Diagnostic {
            start: 0,
            end: first_char_len(text),
            message: "Unexpected character `"@ + seq![first_char(text)] + "`"@,
        }
    }
}

/// Computes [`unexpected`].
fn report_unexpected<'a>(at: Remaining<'a>) -> (e: ParserError)
    ensures
        e@ == unexpected(at@.text),
{
    proof {
        reveal(unexpected);
    }
    broadcast use group_utf8_lib;
    if at.rem_len() == 0 {
        ParserError::new(0..0, String::from_str("Unexpected end of input"))
    } else {
        let width = first_width(at.rem);
        proof {
            lemma_first_char_decodes(at@.text);
        }
        let mut reason = String::from_str("Unexpected character `");
        reason.append(take_text(at.rem, width));
        reason.append("`");
        ParserError::new(0..width, reason)
    }
}

/// How a diagnostic names the kind of a value.
pub open spec fn kind_of(v: Document) -> Seq<char> {
    match v {
        Document::String(_) => "a string"@,
        Document::Number(_) => "a number"@,
        Document::Array(_) => "an array"@,
        Document::True => "keyword `true`"@,
        Document::False => "keyword `false`"@,
        Document::Null => "keyword `null`"@,
        Document::Object(_) => "an object"@,
    }
}

/// Computes [`kind_of`].
fn kind_name(v: &JsonValue) -> (name: &'static str)
    ensures
        name@ == kind_of(v@),
{
    match v {
        JsonValue::String(_) => "a string",
        JsonValue::Number(_) => "a number",
        JsonValue::Array(_) => "an array",
        JsonValue::True => "keyword `true`",
        JsonValue::False => "keyword `false`",
        JsonValue::Null => "keyword `null`",
        JsonValue::Object(_) => "an object",
    }
}

/// The message for a key that is a value of another kind than a string.
pub open spec fn key_of_wrong_kind(kind: Seq<char>) -> Seq<char> {
    "Expected a string, found "@ + kind + "\n\nHelp: member identifier can only be a string"@
}

/// The message for a `}` where a key should stand.
pub open spec fn trailing_comma() -> Seq<char> {
    "Expected a string, found `}`\n\nHelp: Trailing comma aren't allowed in json"@
}

/// The message for anything else where a key should stand.
pub open spec fn key_missing(found: Seq<char>) -> Seq<char> {
    "Expected a string, found `"@ + found + "`"@
}

/// The message for anything but a colon behind a key.
pub open spec fn colon_missing() -> Seq<char> {
    "Expected a `:`"@
}

/// The message for anything but a value behind the colon.
pub open spec fn value_missing() -> Seq<char> {
    "Missing a value after `:`"@
}

/// The message for a string where `}` should stand.
pub open spec fn comma_forgotten() -> Seq<char> {
    "Expected a `}`, found a string\n\nHelp: You probably forgot a `,` here"@
}

/// The message for a comma where `}` should stand.
pub open spec fn comma_misplaced() -> Seq<char> {
    "Expected a `}`, found a `,`\n\nHelp: Trailing comma aren't allowed in json"@
}

/// The message for anything else where `}` should stand.
pub open spec fn brace_missing(found: Seq<char>) -> Seq<char> {
    "Expected a `}`, found `"@ + found + "`"@
}

/// Says what was found at `at` in place of the `}` that closes an object.
#[verifier::opaque]
pub open spec fn wrong_close(at: Cursor) -> Seq<char> {
    if spec_string(at) is Success {
        comma_forgotten()
    } else if spec_label(","@, at) is Success {
        comma_misplaced()
    } else {
        brace_missing(excerpt(at.text, true))
    }
}

/// Computes [`wrong_close`].
fn explain_close<'a>(at: Remaining<'a>) -> (reason: String)
    requires
        at.wf(),
    ensures
        reason@ == wrong_close(at@),
{
    proof {
        reveal(wrong_close);
    }
    if string(at).is_ok() {
        String::from_str("Expected a `}`, found a string\n\nHelp: You probably forgot a `,` here")
    } else if label(",", at).is_ok() {
        String::from_str(
            "Expected a `}`, found a `,`\n\nHelp: Trailing comma aren't allowed in json",
        )
    } else {
        let mut reason = String::from_str("Expected a `}`, found `");
        reason.append(quote(at.rem, true));
        reason.append("`");
        reason
    }
}

/// An object as a value.
pub open spec fn object_as_value(parsed: Outcome<Seq<Field>>) -> Outcome<Document> {
    match parsed {
        Outcome::Success(end, members) => Outcome::Success(end, Document::Object(members)),
        failed => failed.failure(),
    }
}

/// A number, else a string, else an array, else a keyword, else an object.
/// A committed failure of one of them is final: no later one is tried.
pub open spec fn spec_value_choice(s: Cursor) -> Outcome<Document>
    decreases s.text.len(), 2nat,
{
    spec_number(s).or(
        spec_json_string(s).or(
            spec_array(s).or(spec_keyword(s).or(object_as_value(spec_object(s)))),
        ),
    )
}

/// A value. Where no kind of value applies, the failure is committed: it
/// reports an invalid value at `s` and quotes the rest of the line.
pub open spec fn spec_value(s: Cursor) -> Outcome<Document>
    decreases s.text.len(), 3nat,
{
    match spec_value_choice(s) {
        Outcome::SoftFailure(_, _) => Outcome::HardFailure(
            s.pos,
            Diagnostic { start: 0, end: 0, message: invalid_value(excerpt(s.text, false)) },
        ),
        decided => decided,
    }
}

/// Blanks, a value, blanks and a comma: an element of an array that is not
/// its last. A failure of the value is the failure of the element; a missing
/// comma is a recoverable failure that names what stands in its place.
pub open spec fn spec_array_item(s: Cursor) -> Outcome<Document>
    decreases s.text.len(), 5nat,
{
    proof {
        lemma_skip_blank(s);
    }
    match spec_value(skip_blank(s)) {
        Outcome::Success(after, v) => match spec_label(","@, skip_blank(after)) {
            Outcome::Success(end, _) => Outcome::Success(end, v),
            _ => Outcome::SoftFailure(skip_blank(after), unexpected(skip_blank(after).text)),
        },
        failed => failed,
    }
}

/// [`spec_array_item`] as the parser that the repetition inside an array
/// applies, which it does to cursors with fewer than `limit` bytes left.
pub open spec fn array_items(limit: nat) -> spec_fn(Cursor) -> Outcome<Document>
    decreases limit, 0nat,
{
    |c: Cursor|
        if c.text.len() < limit {
            spec_array_item(c)
        } else {
            Outcome::SoftFailure(c, unexpected(c.text))
        }
}

/// `[`, then either blanks and `]`, or: any number of elements with a comma
/// each, one last element without, blanks, and `]`. Behind the `[` the array
/// is committed: what stands in place of the `]` is reported for good.
pub open spec fn spec_array(s: Cursor) -> Outcome<Document>
    decreases s.text.len(), 1nat,
{
    match spec_label("["@, s) {
        Outcome::Success(inner, _) => if let Outcome::Success(end, _) = spec_label(
            "]"@,
            skip_blank(inner),
        ) {
            Outcome::Success(end, Document::Array(Seq::empty()))
        } else {
            match spec_many(array_items(s.text.len()), inner) {
                Outcome::Success(rest, front) => {
                    proof {
                        reveal_strlit("[");
                        lemma_label_moves("["@, s);
                        lemma_many_ends(array_items(s.text.len()), inner);
                        lemma_skip_blank(rest);
                    }
                    match spec_value(skip_blank(rest)) {
                        Outcome::Success(after, last) => match spec_label(
                            "]"@,
                            skip_blank(after),
                        ) {
                            Outcome::Success(end, _) => Outcome::Success(
                                end,
                                Document::Array(front.push(last)),
                            ),
                            _ => Outcome::HardFailure(
                                skip_blank(after).pos,
                                unexpected(skip_blank(after).text),
                            ),
                        },
                        failed => failed,
                    }
                },
                failed => failed.failure(),
            }
        },
        failed => failed.failure(),
    }
}

/// Says what was found at `at` in place of the string that is a member's key:
/// a value of another kind, the `}` behind a trailing comma, or something
/// else.
pub open spec fn wrong_key(at: Cursor) -> Seq<char>
    decreases at.text.len(), 4nat,
{
    if let Outcome::Success(_, v) = spec_value(at) {
        key_of_wrong_kind(kind_of(v))
    } else if spec_label("}"@, at) is Success {
        trailing_comma()
    } else {
        key_missing(excerpt(at.text, false))
    }
}

/// Blanks, a quoted key, blanks, `:`, blanks and a value. Nothing of it may be
/// missing: every failure is committed, and says which piece it was.
pub open spec fn spec_member(s: Cursor) -> Outcome<Field>
    decreases s.text.len(), 5nat,
{
    proof {
        lemma_skip_blank(s);
    }
    match spec_string(skip_blank(s)) {
        Outcome::Success(after_key, key) => match spec_label(":"@, skip_blank(after_key)) {
            Outcome::Success(after_colon, _) => {
                proof {
                    lemma_string_moves(skip_blank(s));
                    lemma_skip_blank(after_key);
                    lemma_label_moves(":"@, skip_blank(after_key));
                    lemma_skip_blank(after_colon);
                }
                match spec_value_choice(skip_blank(after_colon)) {
                    Outcome::Success(end, v) => Outcome::Success(end, Field { key, value: v }),
                    Outcome::SoftFailure(stopped, d) => Outcome::HardFailure(
                        stopped.pos,
                        Diagnostic { message: value_missing(), ..d },
                    ),
                    Outcome::HardFailure(pos, d) => Outcome::HardFailure(pos, d),
                }
            },
            Outcome::SoftFailure(stopped, d) => Outcome::HardFailure(
                stopped.pos,
                Diagnostic { message: colon_missing(), ..d },
            ),
            Outcome::HardFailure(pos, d) => Outcome::HardFailure(pos, d),
        },
        Outcome::SoftFailure(stopped, d) => Outcome::HardFailure(
            stopped.pos,
            Diagnostic { message: wrong_key(skip_blank(s)), ..d },
        ),
        Outcome::HardFailure(pos, d) => Outcome::HardFailure(pos, d),
    }
}

/// A member and the comma behind it: a member of an object that is not its
/// last. The missing comma is a recoverable failure.
pub open spec fn spec_object_pair(s: Cursor) -> Outcome<Field>
    decreases s.text.len(), 6nat,
{
    match spec_member(s) {
        Outcome::Success(after, m) => match spec_label(","@, after) {
            Outcome::Success(end, _) => Outcome::Success(end, m),
            failed => failed.failure(),
        },
        failed => failed,
    }
}

/// [`spec_object_pair`] as the parser that the repetition inside an object
/// applies, which it does to cursors with fewer than `limit` bytes left.
pub open spec fn object_pairs(limit: nat) -> spec_fn(Cursor) -> Outcome<Field>
    decreases limit, 0nat,
{
    |c: Cursor|
        if c.text.len() < limit {
            spec_object_pair(c)
        } else {
            Outcome::SoftFailure(c, unexpected(c.text))
        }
}

/// `{`, then either blanks and `}`, or: any number of members with a comma
/// each, one last member without, blanks, and `}`. Behind the `{` the object
/// is committed: what stands in place of the `}` is reported for good.
pub open spec fn spec_object(s: Cursor) -> Outcome<Seq<Field>>
    decreases s.text.len(), 1nat,
{
    match spec_label("{"@, s) {
        Outcome::Success(inner, _) => if let Outcome::Success(end, _) = spec_label(
            "}"@,
            skip_blank(inner),
        ) {
            Outcome::Success(end, Seq::empty())
        } else {
            match spec_many(object_pairs(s.text.len()), inner) {
                Outcome::Success(rest, front) => {
                    proof {
                        reveal_strlit("{");
                        lemma_label_moves("{"@, s);
                        lemma_many_ends(object_pairs(s.text.len()), inner);
                    }
                    match spec_member(rest) {
                        Outcome::Success(after, last) => match spec_label(
                            "}"@,
                            skip_blank(after),
                        ) {
                            Outcome::Success(end, _) => Outcome::Success(end, front.push(last)),
                            Outcome::SoftFailure(stopped, d) => Outcome::HardFailure(
                                stopped.pos,
                                Diagnostic { message: wrong_close(stopped), ..d },
                            ),
                            Outcome::HardFailure(pos, d) => Outcome::HardFailure(pos, d),
                        },
                        failed => failed.failure(),
                    }
                },
                failed => failed.failure(),
            }
        },
        failed => failed.failure(),
    }
}

/// A number, a string, an array, a keyword or an object, whichever applies
/// first: see [`spec_value_choice`].
fn value_choice<'a>(s: Remaining<'a>) -> (r: ParseResult<'a, JsonValue>)
    requires
        s.wf(),
    ensures
        outcome_view(r) == spec_value_choice(s@),
        r matches Ok((end, _)) ==> s@.reaches(end@),
    decreases s@.text.len(), 2nat,
{
    let as_number = |c: Remaining<'a>| -> (o: ParseResult<'a, JsonValue>)
        requires
            c.wf(),
        ensures
            outcome_view(o) == spec_number(c@),
            o matches Ok((end, _)) ==> c@.reaches(end@),
        { number(c) };
    let as_string = |c: Remaining<'a>| -> (o: ParseResult<'a, JsonValue>)
        requires
            c.wf(),
        ensures
            outcome_view(o) == spec_json_string(c@),
            o matches Ok((end, _)) ==> c@.reaches(end@),
        { json_string(c) };
    let as_array = |c: Remaining<'a>| -> (o: ParseResult<'a, JsonValue>)
        requires
            c.wf(),
            c@.text.len() <= s@.text.len(),
        ensures
            outcome_view(o) == spec_array(c@),
            o matches Ok((end, _)) ==> c@.reaches(end@),
        { array(c) };
    let as_keyword = |c: Remaining<'a>| -> (o: ParseResult<'a, JsonValue>)
        requires
            c.wf(),
        ensures
            outcome_view(o) == spec_keyword(c@),
            o matches Ok((end, _)) ==> c@.reaches(end@),
        { keyword(c) };
    let as_object = |c: Remaining<'a>| -> (o: ParseResult<'a, JsonValue>)
        requires
            c.wf(),
            c@.text.len() <= s@.text.len(),
        ensures
            outcome_view(o) == object_as_value(spec_object(c@)),
            o matches Ok((end, _)) ==> c@.reaches(end@),
        {
            match object(c) {
                Ok((end, members)) => {
                    proof {
                        JsonValue::lemma_object_view(members);
                    }
                    Ok((end, JsonValue::Object(members)))
                },
                Err(e) => Err(e),
            }
        };
    let ghost number_at = |c: Cursor| spec_number(c);
    let ghost string_at = |c: Cursor| spec_json_string(c);
    let ghost array_at = |c: Cursor| spec_array(c);
    let ghost keyword_at = |c: Cursor| spec_keyword(c);
    let ghost object_at = |c: Cursor| object_as_value(spec_object(c));
    let ghost from_keyword = |c: Cursor| keyword_at(c).or(object_at(c));
    let ghost from_array = |c: Cursor| array_at(c).or(from_keyword(c));
    let ghost from_string = |c: Cursor| string_at(c).or(from_array(c));
    let keyword_on = |c: Remaining<'a>| -> (o: ParseResult<'a, JsonValue>)
        requires
            c.wf(),
            c@.text.len() <= s@.text.len(),
        ensures
            outcome_view(o) == from_keyword(c@),
            o matches Ok((end, _)) ==> c@.reaches(end@),
        {
            proof {
                assert(describes(as_keyword, keyword_at, c@.text.len()));
                assert(describes(as_object, object_at, c@.text.len()));
            }
            alternative(as_keyword, as_object, c)
        };
    let array_on = |c: Remaining<'a>| -> (o: ParseResult<'a, JsonValue>)
        requires
            c.wf(),
            c@.text.len() <= s@.text.len(),
        ensures
            outcome_view(o) == from_array(c@),
            o matches Ok((end, _)) ==> c@.reaches(end@),
        {
            proof {
                assert(describes(as_array, array_at, c@.text.len()));
                assert(describes(keyword_on, from_keyword, c@.text.len()));
            }
            alternative(as_array, keyword_on, c)
        };
    let string_on = |c: Remaining<'a>| -> (o: ParseResult<'a, JsonValue>)
        requires
            c.wf(),
            c@.text.len() <= s@.text.len(),
        ensures
            outcome_view(o) == from_string(c@),
            o matches Ok((end, _)) ==> c@.reaches(end@),
        {
            proof {
                assert(describes(as_string, string_at, c@.text.len()));
                assert(describes(array_on, from_array, c@.text.len()));
            }
            alternative(as_string, array_on, c)
        };
    proof {
        assert(describes(as_number, number_at, s@.text.len()));
        assert(describes(string_on, from_string, s@.text.len()));
    }
    alternative(as_number, string_on, s)
}

/// A value: see [`spec_value`].
pub fn value<'a>(s: Remaining<'a>) -> (r: ParseResult<'a, JsonValue>)
    requires
        s.wf(),
    ensures
        outcome_view(r) == spec_value(s@),
        r matches Ok((end, _)) ==> s@.reaches(end@),
    decreases s@.text.len(), 3nat,
{
    match value_choice(s) {
        Err(JsonError::Failure(_, _)) => {
            let mut reason = String::from_str("Invalid value `");
            reason.append(quote(s.rem, false));
            reason.append("`");
            Err(JsonError::Unsavable(s.pos, ParserError::new(0..0, reason)))
        },
        decided => decided,
    }
}

/// An element of an array and the comma behind it: see
/// [`spec_array_item`].
fn array_item<'a>(s: Remaining<'a>) -> (r: ParseResult<'a, JsonValue>)
    requires
        s.wf(),
    ensures
        outcome_view(r) == spec_array_item(s@),
        r matches Ok((end, _)) ==> s@.reaches(end@),
    decreases s@.text.len(), 5nat,
{
    let (after, v) = match value(after_blanks(s)) {
        Ok(parsed) => parsed,
        Err(e) => {
            return Err(e);
        },
    };
    let comma_at = after_blanks(after);
    match label(",", comma_at) {
        Ok((end, _)) => Ok((end, v)),
        Err(_) => Err(JsonError::Failure(comma_at, report_unexpected(comma_at))),
    }
}

/// An array: see [`spec_array`].
pub fn array<'a>(s: Remaining<'a>) -> (r: ParseResult<'a, JsonValue>)
    requires
        s.wf(),
    ensures
        outcome_view(r) == spec_array(s@),
        r matches Ok((end, _)) ==> s@.reaches(end@),
    decreases s@.text.len(), 1nat,
{
    let (inner, _) = match label("[", s) {
        Ok(opened) => opened,
        Err(e) => {
            return Err(e);
        },
    };
    proof {
        reveal_strlit("[");
        lemma_label_moves("["@, s@);
    }
    if let Ok((end, _)) = label("]", after_blanks(inner)) {
        let items: Vec<JsonValue> = Vec::new();
        proof {
            JsonValue::lemma_array_view(items);
            assert(items.deep_view() =~= Seq::<Document>::empty());
        }
        return Ok((end, JsonValue::Array(items)));
    }
    let item = |c: Remaining<'a>| -> (o: ParseResult<'a, JsonValue>)
        requires
            c.wf(),
            c@.text.len() < s@.text.len(),
        ensures
            outcome_view(o) == spec_array_item(c@),
            o matches Ok((end, _)) ==> c@.reaches(end@),
        { array_item(c) };
    proof {
        assert(describes(item, array_items(s@.text.len()), inner@.text.len()));
    }
    let (rest, mut items) = match many(item, inner) {
        Ok(collected) => collected,
        Err(e) => {
            return Err(e);
        },
    };
    let (after, last) = match value(after_blanks(rest)) {
        Ok(parsed) => parsed,
        Err(e) => {
            return Err(e);
        },
    };
    let close_at = after_blanks(after);
    match label("]", close_at) {
        Ok((end, _)) => {
            let ghost front = items.deep_view();
            items.push(last);
            proof {
                JsonValue::lemma_array_view(items);
                assert(items.deep_view() =~= front.push(last@));
            }
            Ok((end, JsonValue::Array(items)))
        },
        Err(_) => Err(JsonError::Unsavable(close_at.pos, report_unexpected(close_at))),
    }
}

/// Computes [`wrong_key`].
fn explain_key<'a>(at: Remaining<'a>) -> (reason: String)
    requires
        at.wf(),
    ensures
        reason@ == wrong_key(at@),
    decreases at@.text.len(), 4nat,
{
    match value(at) {
        Ok((_, v)) => {
            let mut reason = String::from_str("Expected a string, found ");
            reason.append(kind_name(&v));
            reason.append("\n\nHelp: member identifier can only be a string");
            reason
        },
        Err(_) => {
            if label("}", at).is_ok() {
                String::from_str(
                    "Expected a string, found `}`\n\nHelp: Trailing comma aren't allowed in json",
                )
            } else {
                let mut reason = String::from_str("Expected a string, found `");
                reason.append(quote(at.rem, false));
                reason.append("`");
                reason
            }
        },
    }
}

/// A member of an object: see [`spec_member`].
pub fn member<'a>(s: Remaining<'a>) -> (r: ParseResult<'a, Member>)
    requires
        s.wf(),
    ensures
        outcome_view(r) == spec_member(s@),
        r matches Ok((end, _)) ==> s@.reaches(end@),
    decreases s@.text.len(), 5nat,
{
    let key_at = after_blanks(s);
    let (after_key, key) = match string(key_at) {
        Ok(found) => found,
        Err(JsonError::Failure(stopped, error)) => {
            let mut error = error;
            error.set_reason(explain_key(key_at));
            return Err(JsonError::Unsavable(stopped.pos, error));
        },
        Err(committed) => {
            return Err(committed);
        },
    };
    let after_colon = match label(":", after_blanks(after_key)) {
        Ok((after_colon, _)) => after_colon,
        Err(JsonError::Failure(stopped, error)) => {
            let mut error = error;
            error.set_reason(String::from_str("Expected a `:`"));
            return Err(JsonError::Unsavable(stopped.pos, error));
        },
        Err(committed) => {
            return Err(committed);
        },
    };
    match value_choice(after_blanks(after_colon)) {
        Ok((end, v)) => Ok((end, Member::new(String::from_str(key), v))),
        Err(JsonError::Failure(stopped, error)) => {
            let mut error = error;
            error.set_reason(String::from_str("Missing a value after `:`"));
            Err(JsonError::Unsavable(stopped.pos, error))
        },
        Err(committed) => Err(committed),
    }
}

/// A member and the comma behind it: see [`spec_object_pair`].
fn object_pair<'a>(s: Remaining<'a>) -> (r: ParseResult<'a, Member>)
    requires
        s.wf(),
    ensures
        outcome_view(r) == spec_object_pair(s@),
        r matches Ok((end, _)) ==> s@.reaches(end@),
    decreases s@.text.len(), 6nat,
{
    let one = |c: Remaining<'a>| -> (o: ParseResult<'a, Member>)
        requires
            c.wf(),
            c@.text.len() <= s@.text.len(),
        ensures
            outcome_view(o) == spec_member(c@),
            o matches Ok((end, _)) ==> c@.reaches(end@),
        { member(c) };
    let comma = |c: Remaining<'a>| -> (o: ParseResult<'a, &'a str>)
        requires
            c.wf(),
        ensures
            outcome_view(o) == spec_label(","@, c@),
            o matches Ok((end, _)) ==> c@.reaches(end@),
        { label(",", c) };
    let ghost member_at = |c: Cursor| spec_member(c);
    let ghost comma_at = |c: Cursor| spec_label(","@, c);
    proof {
        assert(describes(one, member_at, s@.text.len()));
        assert(describes(comma, comma_at, s@.text.len()));
    }
    match sequence(one, comma, s) {
        Ok((end, (m, _))) => Ok((end, m)),
        Err(e) => Err(e),
    }
}

/// An object: see [`spec_object`].
pub fn object<'a>(s: Remaining<'a>) -> (r: ParseResult<'a, JsonObject>)
    requires
        s.wf(),
    ensures
        outcome_view(r) == spec_object(s@),
        r matches Ok((end, _)) ==> s@.reaches(end@),
    decreases s@.text.len(), 1nat,
{
    let (inner, _) = match label("{", s) {
        Ok(opened) => opened,
        Err(e) => {
            return Err(e);
        },
    };
    proof {
        reveal_strlit("{");
        lemma_label_moves("{"@, s@);
    }
    if let Ok((end, _)) = label("}", after_blanks(inner)) {
        let members: Vec<Member> = Vec::new();
        proof {
            assert(members.deep_view() =~= Seq::<Field>::empty());
        }
        return Ok((end, JsonObject { members }));
    }
    let pair = |c: Remaining<'a>| -> (o: ParseResult<'a, Member>)
        requires
            c.wf(),
            c@.text.len() < s@.text.len(),
        ensures
            outcome_view(o) == spec_object_pair(c@),
            o matches Ok((end, _)) ==> c@.reaches(end@),
        { object_pair(c) };
    proof {
        assert(describes(pair, object_pairs(s@.text.len()), inner@.text.len()));
    }
    let (rest, mut members) = match many(pair, inner) {
        Ok(collected) => collected,
        Err(e) => {
            return Err(e);
        },
    };
    let (after, last) = match member(rest) {
        Ok(parsed) => parsed,
        Err(e) => {
            return Err(e);
        },
    };
    let close_at = after_blanks(after);
    match label("}", close_at) {
        Ok((end, _)) => {
            let ghost front = members.deep_view();
            members.push(last);
            proof {
                assert(members.deep_view() =~= front.push(last@));
            }
            Ok((end, JsonObject { members }))
        },
        Err(JsonError::Failure(stopped, error)) => {
            proof {
                lemma_label_moves("}"@, close_at@);
            }
            let mut error = error;
            error.set_reason(explain_close(stopped));
            Err(JsonError::Unsavable(stopped.pos, error))
        },
        Err(committed) => Err(committed),
    }
}

// The whole document

/// What the parse of a whole document ends in.
pub enum Verdict {
    /// The document is an object, and nothing comes behind it.
    Accepted(Seq<Field>),
    /// An object was parsed, and text is left behind it.
    Leftover(Cursor),
    /// The text does not begin with an object.
    SoftFailure(Cursor, Diagnostic),
    /// The object is malformed.
    HardFailure(nat, Diagnostic),
}

/// The text, with the blanks at its two ends taken off, must be one object
/// and nothing else. Positions count from the first byte behind the leading
/// blanks.
pub open spec fn spec_json(input: Seq<u8>) -> Verdict {
    match spec_object(Cursor { text: trimmed(input), pos: 0 }) {
        Outcome::Success(end, members) => if end.text.len() == 0 {
            Verdict::Accepted(members)
        } else {
            Verdict::Leftover(end)
        },
        Outcome::SoftFailure(at, d) => Verdict::SoftFailure(at, d),
        Outcome::HardFailure(pos, d) => Verdict::HardFailure(pos, d),
    }
}

/// Why a text is no document.
#[derive(Debug, PartialEq, Eq)]
pub enum JsonFailure<'a> {
    /// The grammar rejected the text.
    Syntax(JsonError<'a>),
    /// An object was parsed, and this is left behind it.
    Leftover(Remaining<'a>),
}

/// The verdict that the result of [`json`] stands for.
pub open spec fn verdict<'a>(r: Result<JsonObject, JsonFailure<'a>>) -> Verdict {
    match r {
        Ok(document) => Verdict::Accepted(document@),
        Err(JsonFailure::Leftover(rest)) => Verdict::Leftover(rest@),
        Err(JsonFailure::Syntax(JsonError::Failure(at, e))) => Verdict::SoftFailure(at@, e@),
        Err(JsonFailure::Syntax(JsonError::Unsavable(pos, e))) => Verdict::HardFailure(
            pos as nat,
            e@,
        ),
    }
}

/// Parses a whole document: see [`spec_json`].
pub fn json<'a>(input: &'a str) -> (r: Result<JsonObject, JsonFailure<'a>>)
    ensures
        verdict(r) == spec_json(input.spec_bytes()),
{
    let start = Remaining::new(trim(input), 0);
    match object(start) {
        Ok((end, document)) => {
            if end.rem_len() == 0 {
                Ok(document)
            } else {
                Err(JsonFailure::Leftover(end))
            }
        },
        Err(e) => Err(JsonFailure::Syntax(e)),
    }
}

} // verus!
