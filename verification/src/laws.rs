//! What holds of the parsers on every input: they only move forward, a branch
//! that has committed is never abandoned, and a delimiter that was opened
//! must be closed.
use crate::grammar::{
    array_items, decimal_digit, object_as_value, object_pairs, spec_array, spec_array_item,
    spec_json, spec_json_string, spec_keyword, spec_member, spec_number, spec_object,
    spec_object_pair, spec_value, spec_value_choice,
};
use crate::parsec::{lemma_reaches_advanced, lemma_reaches_self, Cursor, Outcome};
use crate::parsec::combinator::{lemma_many_ends, spec_alternative, spec_many, spec_sequence};
use crate::parsec::combinator::character::{
    lemma_label_moves, lemma_scan_quoted, lemma_single_byte, lemma_string_moves, scan_quoted,
    spec_label, spec_string, Scan,
};
use crate::parsec::text::{CLOSE_BRACE, CLOSE_BRACKET, OPEN_BRACE, OPEN_BRACKET, QUOTE};
use crate::parsec::combinator::whitespace::{lemma_skip_blank, skip_blank, trimmed};
use vstd::prelude::*;
use vstd::utf8::*;

verus! {

broadcast use crate::parsec::group_cursor;

// The algebra

/// An alternative never tries its second branch once the first has
/// committed: a committed failure of the first branch is the outcome,
/// whatever the second would have made of the same text.
pub proof fn law_alternative_keeps_committed_failure<T>(
    first: spec_fn(Cursor) -> Outcome<T>,
    second: spec_fn(Cursor) -> Outcome<T>,
    s: Cursor,
)
    requires
        first(s) is HardFailure,
    ensures
        spec_alternative(first, second, s) == first(s),
{
}

/// An alternative is decided by its first branch unless that fails
/// recoverably, and then by its second branch, run on the same cursor.
pub proof fn law_alternative_is_first_decided<T>(
    first: spec_fn(Cursor) -> Outcome<T>,
    second: spec_fn(Cursor) -> Outcome<T>,
    s: Cursor,
)
    ensures
        spec_alternative(first, second, s) == (if first(s) is SoftFailure {
            second(s)
        } else {
            first(s)
        }),
{
}

/// A sequence never turns one tier of failure into the other: it fails
/// recoverably only where one of its stages did, and for good only where one
/// of its stages did.
pub proof fn law_sequence_keeps_tier<A, B>(
    first: spec_fn(Cursor) -> Outcome<A>,
    second: spec_fn(Cursor) -> Outcome<B>,
    s: Cursor,
)
    ensures
        match spec_sequence(first, second, s) {
            Outcome::Success(end, (a, b)) => exists|mid: Cursor|
                first(s) == Outcome::Success(mid, a) && #[trigger] second(mid) == Outcome::Success(
                    end,
                    b,
                ),
            Outcome::SoftFailure(at, d) => first(s) == Outcome::<A>::SoftFailure(at, d) || (
            first(s) matches Outcome::Success(mid, _) && second(mid) == Outcome::<B>::SoftFailure(
                at,
                d,
            )),
            Outcome::HardFailure(pos, d) => first(s) == Outcome::<A>::HardFailure(pos, d) || (
            first(s) matches Outcome::Success(mid, _) && second(mid) == Outcome::<B>::HardFailure(
                pos,
                d,
            )),
        },
{
}

/// A repetition moves forward where its parser does.
pub proof fn lemma_many_moves<T>(p: spec_fn(Cursor) -> Outcome<T>, s: Cursor)
    requires
        forall|c: Cursor| c.text.len() <= s.text.len() ==> (#[trigger] p(c)).moves_forward(c),
    ensures
        spec_many(p, s).moves_forward(s),
    decreases s.text.len(),
{
    lemma_reaches_self(s);
    if let Outcome::Success(c, v) = p(s) {
        assert(p(s).moves_forward(s));
        if c.text.len() < s.text.len() {
            lemma_many_moves(p, c);
        }
    }
}

/// The value is the outcome of the first kind that does not fail
/// recoverably, in the order number, string, array, keyword, object: a kind
/// that has committed and failed hides every later kind.
pub proof fn law_value_is_first_decided(s: Cursor)
    ensures
        spec_value_choice(s) == (if !(spec_number(s) is SoftFailure) {
            spec_number(s)
        } else if !(spec_json_string(s) is SoftFailure) {
            spec_json_string(s)
        } else if !(spec_array(s) is SoftFailure) {
            spec_array(s)
        } else if !(spec_keyword(s) is SoftFailure) {
            spec_keyword(s)
        } else {
            object_as_value(spec_object(s))
        }),
        spec_value(s) is HardFailure <==> !(spec_value_choice(s) is Success),
        spec_value(s) is Success ==> spec_value(s) == spec_value_choice(s),
        spec_value_choice(s) is HardFailure ==> spec_value(s) == spec_value_choice(s),
{
}

// Moving forward, and commitment

/// The text begins with the byte `b`.
pub open spec fn begins_with(s: Cursor, b: u8) -> bool {
    s.text.len() > 0 && s.text[0] == b
}

/// `end` lies in the text of `s`, right behind a byte `delimiter`.
pub open spec fn closed_by(s: Cursor, end: Cursor, delimiter: u8) -> bool {
    &&& s.reaches(end)
    &&& end.text.len() < s.text.len()
    &&& s.text[s.text.len() - end.text.len() - 1] == delimiter
}

/// A literal of one character below `0x80` matches exactly where the text
/// begins with that byte, and consumes it.
pub proof fn lemma_label_byte(pattern: Seq<char>, s: Cursor)
    requires
        pattern.len() == 1,
        '\0' <= pattern[0] <= '\u{7f}',
    ensures
        spec_label(pattern, s) is Success <==> begins_with(s, pattern[0] as u8),
        spec_label(pattern, s) matches Outcome::Success(end, _) ==> end == s.advance(1)
            && closed_by(s, end, pattern[0] as u8),
{
    reveal(spec_label);
    lemma_single_byte(pattern);
    let bytes = encode_utf8(pattern);
    if bytes.is_prefix_of(s.text) {
        assert(s.text.subrange(0, 1)[0] == bytes[0]);
        lemma_reaches_advanced(s, 1);
    } else if begins_with(s, pattern[0] as u8) {
        assert(bytes =~= s.text.subrange(0, 1));
    }
}

/// What lies behind a cursor that `s` reaches lies in the text of `s`.
pub proof fn lemma_closed_by_later(s: Cursor, at: Cursor, end: Cursor, delimiter: u8)
    requires
        s.reaches(at),
        closed_by(at, end, delimiter),
    ensures
        closed_by(s, end, delimiter),
{
    let k = s.text.len() - at.text.len();
    assert(at.text == s.text.skip(k));
    assert(at.text[at.text.len() - end.text.len() - 1] == s.text[k + at.text.len()
        - end.text.len() - 1]);
}

/// A number moves forward and never fails for good.
pub proof fn lemma_number_moves(s: Cursor)
    ensures
        spec_number(s).moves_forward(s),
        !(spec_number(s) is HardFailure),
{
    reveal(spec_number);
    let one = decimal_digit();
    assert forall|c: Cursor| (#[trigger] one(c)).moves_forward(c) && !(one(c) is HardFailure) by {
        if one(c) is Success {
            lemma_reaches_advanced(c, 1);
        }
    }
    if let Outcome::Success(c, _) = one(s) {
        lemma_many_moves(one, c);
        lemma_many_never_commits(one, c);
    }
}

/// A repetition fails for good only where its parser does.
pub proof fn lemma_many_never_commits<T>(p: spec_fn(Cursor) -> Outcome<T>, s: Cursor)
    requires
        forall|c: Cursor| !((#[trigger] p(c)) is HardFailure),
    ensures
        spec_many(p, s) is Success,
    decreases s.text.len(),
{
    if let Outcome::Success(c, v) = p(s) {
        if c.text.len() < s.text.len() {
            lemma_many_never_commits(p, c);
        }
    }
}

/// A keyword moves forward.
pub proof fn lemma_keyword_moves(s: Cursor)
    ensures
        spec_keyword(s).moves_forward(s),
{
    reveal(spec_keyword);
    lemma_label_moves("true"@, s);
    lemma_label_moves("false"@, s);
    lemma_label_moves("null"@, s);
}

/// A value moves forward, and never fails recoverably.
pub proof fn lemma_value_moves(s: Cursor)
    ensures
        spec_value_choice(s).moves_forward(s),
        spec_value(s).moves_forward(s),
        !(spec_value(s) is SoftFailure),
    decreases s.text.len(), 3nat,
{
    reveal(spec_json_string);
    lemma_number_moves(s);
    lemma_string_moves(s);
    lemma_keyword_moves(s);
    lemma_array_moves(s);
    lemma_object_moves(s);
}

/// An element of an array moves forward.
pub proof fn lemma_array_item_moves(s: Cursor)
    ensures
        spec_array_item(s).moves_forward(s),
    decreases s.text.len(), 5nat,
{
    lemma_skip_blank(s);
    lemma_value_moves(skip_blank(s));
    if let Outcome::Success(after, v) = spec_value(skip_blank(s)) {
        lemma_skip_blank(after);
        lemma_label_moves(","@, skip_blank(after));
    }
}

/// An array moves forward; behind its `[` it never fails recoverably; and
/// where it succeeds, it ends behind a `]`.
pub proof fn lemma_array_moves(s: Cursor)
    ensures
        spec_array(s).moves_forward(s),
        begins_with(s, OPEN_BRACKET) ==> !(spec_array(s) is SoftFailure),
        spec_array(s) matches Outcome::Success(end, _) ==> closed_by(s, end, CLOSE_BRACKET),
    decreases s.text.len(), 1nat,
{
    reveal_strlit("[");
    reveal_strlit("]");
    lemma_label_byte("["@, s);
    if let Outcome::Success(inner, _) = spec_label("["@, s) {
        lemma_skip_blank(inner);
        lemma_label_byte("]"@, skip_blank(inner));
        if let Outcome::Success(end, _) = spec_label("]"@, skip_blank(inner)) {
            lemma_closed_by_later(s, skip_blank(inner), end, CLOSE_BRACKET);
        } else {
            let items = array_items(s.text.len());
            assert forall|c: Cursor| c.text.len() <= inner.text.len() implies (#[trigger] items(
                c,
            )).moves_forward(c) by {
                lemma_array_item_moves(c);
            }
            lemma_many_moves(items, inner);
            lemma_many_ends(items, inner);
            if let Outcome::Success(rest, front) = spec_many(items, inner) {
                lemma_skip_blank(rest);
                lemma_value_moves(skip_blank(rest));
                if let Outcome::Success(after, last) = spec_value(skip_blank(rest)) {
                    lemma_skip_blank(after);
                    lemma_label_byte("]"@, skip_blank(after));
                    if let Outcome::Success(end, _) = spec_label("]"@, skip_blank(after)) {
                        lemma_closed_by_later(s, skip_blank(after), end, CLOSE_BRACKET);
                    }
                }
            }
        }
    }
}

/// A member moves forward, and every failure of it is committed.
pub proof fn lemma_member_moves(s: Cursor)
    ensures
        spec_member(s).moves_forward(s),
        !(spec_member(s) is SoftFailure),
    decreases s.text.len(), 5nat,
{
    lemma_skip_blank(s);
    lemma_string_moves(skip_blank(s));
    if let Outcome::Success(after_key, key) = spec_string(skip_blank(s)) {
        lemma_skip_blank(after_key);
        lemma_label_moves(":"@, skip_blank(after_key));
        if let Outcome::Success(after_colon, _) = spec_label(":"@, skip_blank(after_key)) {
            lemma_skip_blank(after_colon);
            lemma_value_moves(skip_blank(after_colon));
        }
    }
}

/// A member with its comma moves forward.
pub proof fn lemma_object_pair_moves(s: Cursor)
    ensures
        spec_object_pair(s).moves_forward(s),
    decreases s.text.len(), 6nat,
{
    lemma_member_moves(s);
    if let Outcome::Success(after, m) = spec_member(s) {
        lemma_label_moves(","@, after);
    }
}

/// An object moves forward; behind its `{` it never fails recoverably; and
/// where it succeeds, it ends behind a `}`.
pub proof fn lemma_object_moves(s: Cursor)
    ensures
        spec_object(s).moves_forward(s),
        begins_with(s, OPEN_BRACE) ==> !(spec_object(s) is SoftFailure),
        spec_object(s) matches Outcome::Success(end, _) ==> closed_by(s, end, CLOSE_BRACE),
    decreases s.text.len(), 1nat,
{
    reveal_strlit("{");
    reveal_strlit("}");
    lemma_label_byte("{"@, s);
    if let Outcome::Success(inner, _) = spec_label("{"@, s) {
        lemma_skip_blank(inner);
        lemma_label_byte("}"@, skip_blank(inner));
        if let Outcome::Success(end, _) = spec_label("}"@, skip_blank(inner)) {
            lemma_closed_by_later(s, skip_blank(inner), end, CLOSE_BRACE);
        } else {
            let pairs = object_pairs(s.text.len());
            assert forall|c: Cursor| c.text.len() <= inner.text.len() implies (#[trigger] pairs(
                c,
            )).moves_forward(c) by {
                lemma_object_pair_moves(c);
            }
            lemma_many_moves(pairs, inner);
            lemma_many_ends(pairs, inner);
            if let Outcome::Success(rest, front) = spec_many(pairs, inner) {
                lemma_member_moves(rest);
                if let Outcome::Success(after, last) = spec_member(rest) {
                    lemma_skip_blank(after);
                    lemma_label_byte("}"@, skip_blank(after));
                    lemma_label_moves("}"@, skip_blank(after));
                    if let Outcome::Success(end, _) = spec_label("}"@, skip_blank(after)) {
                        lemma_closed_by_later(s, skip_blank(after), end, CLOSE_BRACE);
                    }
                }
            }
        }
    }
}

// A delimiter that is never closed

/// No byte of the text behind its first is `delimiter`.
pub open spec fn never_closed(s: Cursor, delimiter: u8) -> bool {
    forall|i: int| 1 <= i < s.text.len() ==> s.text[i] != delimiter
}

/// A string whose closing quote never comes, because the input ends first,
/// is a committed failure at the opening quote: never "no match".
pub proof fn law_unclosed_string_is_committed(s: Cursor)
    requires
        begins_with(s, QUOTE),
        never_closed(s, QUOTE),
    ensures
        spec_string(s) matches Outcome::HardFailure(pos, _) && pos == s.pos,
{
    reveal(spec_string);
    reveal_strlit("\"");
    lemma_label_byte("\""@, s);
    let inner = s.advance(1);
    lemma_scan_quoted(inner.text, 0, false);
    if let Scan::Closed(k) = scan_quoted(inner.text, 0, false) {
        assert(inner.text[k as int] == s.text[k as int + 1]);
    }
}

/// An array whose `]` never comes is a committed failure: never "no match",
/// and never a success.
pub proof fn law_unclosed_array_is_committed(s: Cursor)
    requires
        begins_with(s, OPEN_BRACKET),
        never_closed(s, CLOSE_BRACKET),
    ensures
        spec_array(s) is HardFailure,
{
    lemma_array_moves(s);
}

/// An object whose `}` never comes is a committed failure: never "no
/// match", and never a success.
pub proof fn law_unclosed_object_is_committed(s: Cursor)
    requires
        begins_with(s, OPEN_BRACE),
        never_closed(s, CLOSE_BRACE),
    ensures
        spec_object(s) is HardFailure,
{
    lemma_object_moves(s);
}

/// A document that opens its object and ends without closing it is rejected
/// with a committed failure.
pub proof fn law_unclosed_document_is_committed(input: Seq<u8>)
    requires
        begins_with(Cursor { text: trimmed(input), pos: 0 }, OPEN_BRACE),
        never_closed(Cursor { text: trimmed(input), pos: 0 }, CLOSE_BRACE),
    ensures
        spec_json(input) is HardFailure,
{
    law_unclosed_object_is_committed(Cursor { text: trimmed(input), pos: 0 });
}

/// Behind an opening delimiter there is no way back: a string behind its
/// quote, an array behind its `[` and an object behind its `{` succeed or
/// fail for good.
pub proof fn law_opened_is_committed(s: Cursor)
    ensures
        begins_with(s, QUOTE) ==> !(spec_string(s) is SoftFailure),
        begins_with(s, OPEN_BRACKET) ==> !(spec_array(s) is SoftFailure),
        begins_with(s, OPEN_BRACE) ==> !(spec_object(s) is SoftFailure),
{
    reveal(spec_string);
    reveal_strlit("\"");
    lemma_label_byte("\""@, s);
    lemma_array_moves(s);
    lemma_object_moves(s);
}

} // verus!
