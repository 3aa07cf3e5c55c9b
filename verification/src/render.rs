//! Writing a document down, and the proof that parsing what was written
//! gives the document back.
use crate::document::{Document, Field};
use crate::grammar::{
    array_items, decimal_digit, digits_value, is_alphabetic, object_pairs, spec_array,
    spec_array_item, spec_json, spec_json_string, spec_keyword, spec_member, spec_number,
    spec_object, spec_object_pair, spec_value, spec_value_choice, Verdict,
};
use crate::laws::lemma_label_byte;
use crate::parsec::{Cursor, Outcome};
use crate::parsec::combinator::character::{
    is_digit, lemma_label_moves, scan_quoted, spec_digit, spec_label, spec_string, Scan,
};
use crate::parsec::combinator::spec_many;
use crate::parsec::combinator::whitespace::{is_blank, skip_blank, trimmed};
use crate::parsec::text::{
    first_char, BACKSLASH, CLOSE_BRACE, CLOSE_BRACKET, COLON, COMMA, LINE_FEED, OPEN_BRACE,
    OPEN_BRACKET, QUOTE,
};
use vstd::prelude::*;
use vstd::utf8::*;

verus! {

/// The decimal digits of `n`, most significant first.
pub open spec fn decimal(n: nat) -> Seq<u8>
    decreases n,
{
    if n < 10 {
        seq![(0x30 + n) as u8]
    } else {
        decimal(n / 10).push((0x30 + n % 10) as u8)
    }
}

/// A string between quotes.
pub open spec fn render_string(text: Seq<char>) -> Seq<u8> {
    seq![QUOTE] + encode_utf8(text) + seq![QUOTE]
}

/// The text of a value, without any blank.
pub open spec fn render(v: Document) -> Seq<u8>
    decreases v, 0nat,
{
    match v {
        Document::String(text) => render_string(text),
        Document::Number(n) => decimal(n as nat),
        Document::Array(items) => seq![OPEN_BRACKET] + render_items(items, 0) + seq![
            CLOSE_BRACKET,
        ],
        Document::True => encode_utf8("true"@),
        Document::False => encode_utf8("false"@),
        Document::Null => encode_utf8("null"@),
        Document::Object(fields) => seq![OPEN_BRACE] + render_fields(fields, 0) + seq![
            CLOSE_BRACE,
        ],
    }
}

/// The texts of the items from index `i` on, with a comma between each two.
pub open spec fn render_items(items: Seq<Document>, i: nat) -> Seq<u8>
    decreases items, items.len() - i,
{
    if i >= items.len() {
        Seq::empty()
    } else if i + 1 == items.len() {
        render(items[i as int])
    } else {
        render(items[i as int]) + seq![COMMA] + render_items(items, i + 1)
    }
}

/// The text of a member: its key, a colon, its value.
pub open spec fn render_field(field: Field) -> Seq<u8>
    decreases field, 0nat,
{
    render_string(field.key) + seq![COLON] + render(field.value)
}

/// The texts of the members from index `i` on, with a comma between each
/// two.
pub open spec fn render_fields(fields: Seq<Field>, i: nat) -> Seq<u8>
    decreases fields, fields.len() - i,
{
    if i >= fields.len() {
        Seq::empty()
    } else if i + 1 == fields.len() {
        render_field(fields[i as int])
    } else {
        render_field(fields[i as int]) + seq![COMMA] + render_fields(fields, i + 1)
    }
}

/// The text of a document: an object.
pub open spec fn render_object(fields: Seq<Field>) -> Seq<u8> {
    seq![OPEN_BRACE] + render_fields(fields, 0) + seq![CLOSE_BRACE]
}

/// A text that can stand between quotes as it is: it holds no quote, no
/// backslash and no line feed.
pub open spec fn plain(text: Seq<char>) -> bool {
    forall|i: int|
        0 <= i < text.len() ==> text[i] != '"' && text[i] != '\\' && #[trigger] text[i] != '\n'
}

/// A value of the kinds that the grammar can write down: its numbers are
/// not negative and fit an `isize`, and its strings and keys are [`plain`].
pub open spec fn renderable(v: Document) -> bool
    decreases v,
{
    match v {
        Document::String(text) => plain(text),
        Document::Number(n) => 0 <= n <= isize::MAX,
        Document::Array(items) => forall|i: int|
            0 <= i < items.len() ==> renderable(#[trigger] items[i]),
        Document::Object(fields) => forall|i: int|
            0 <= i < fields.len() ==> plain((#[trigger] fields[i]).key) && renderable(
                fields[i].value,
            ),
        _ => true,
    }
}

// Numbers

/// One of the bytes `0` to `9`.
pub open spec fn is_digit_byte(b: u8) -> bool {
    0x30 <= b <= 0x39
}

/// The text begins with a decimal digit.
pub open spec fn begins_with_digit(text: Seq<u8>) -> bool {
    text.len() > 0 && is_digit_byte(text[0])
}

/// Bytes below `0x80` as the characters that they encode.
pub open spec fn as_chars(bytes: Seq<u8>) -> Seq<char> {
    Seq::new(bytes.len(), |i: int| bytes[i] as char)
}

/// The decimal digits of a number are digits, and they write that number.
pub proof fn lemma_decimal(n: nat)
    ensures
        decimal(n).len() > 0,
        forall|i: int| 0 <= i < decimal(n).len() ==> is_digit_byte(#[trigger] decimal(n)[i]),
        digits_value(as_chars(decimal(n))) == n,
    decreases n,
{
    if n < 10 {
        let d = decimal(n);
        assert(as_chars(d).drop_last() =~= Seq::<char>::empty());
        assert(digits_value(as_chars(d).drop_last()) == 0);
    } else {
        lemma_decimal(n / 10);
        let front = decimal(n / 10);
        let d = decimal(n);
        assert(as_chars(d).drop_last() =~= as_chars(front));
        assert forall|i: int| 0 <= i < d.len() implies is_digit_byte(#[trigger] d[i]) by {
            if i < front.len() {
                assert(d[i] == front[i]);
            }
        }
    }
}

/// A run of digits in front of something that is no digit is read as a
/// whole.
pub proof fn lemma_digits_run(digits: Seq<u8>, rest: Seq<u8>, pos: nat)
    requires
        forall|i: int| 0 <= i < digits.len() ==> is_digit_byte(#[trigger] digits[i]),
        !begins_with_digit(rest),
    ensures
        spec_many(decimal_digit(), Cursor { text: digits + rest, pos }) == Outcome::Success(
            Cursor { text: rest, pos: pos + digits.len() },
            as_chars(digits),
        ),
    decreases digits.len(),
{
    let s = Cursor { text: digits + rest, pos };
    if digits.len() == 0 {
        assert(digits + rest =~= rest);
        assert(as_chars(digits) =~= Seq::<char>::empty());
        assert(!(spec_digit(10, s) is Success));
    } else {
        let tail = digits.skip(1);
        assert(s.text[0] == digits[0]);
        assert(s.advance(1).text =~= tail + rest);
        lemma_digits_run(tail, rest, pos + 1);
        assert(seq![digits[0] as char] + as_chars(tail) =~= as_chars(digits));
    }
}

/// The decimal digits of a number that fits, in front of something that is
/// no digit, are parsed as that number.
pub proof fn lemma_number_round_trip(n: nat, rest: Seq<u8>, pos: nat)
    requires
        n <= isize::MAX,
        !begins_with_digit(rest),
    ensures
        spec_number(Cursor { text: decimal(n) + rest, pos }) == Outcome::Success(
            Cursor { text: rest, pos: pos + decimal(n).len() },
            Document::Number(n as int),
        ),
{
    reveal(spec_number);
    lemma_decimal(n);
    let digits = decimal(n);
    let s = Cursor { text: digits + rest, pos };
    let tail = digits.skip(1);
    assert(s.text[0] == digits[0]);
    assert(s.advance(1).text =~= tail + rest);
    assert forall|i: int| 0 <= i < tail.len() implies is_digit_byte(#[trigger] tail[i]) by {
        assert(tail[i] == digits[i + 1]);
    }
    lemma_digits_run(tail, rest, pos + 1);
    assert(seq![digits[0] as char] + as_chars(tail) =~= as_chars(digits));
}

// Strings

/// One of the three bytes that mean something inside a quoted string.
pub open spec fn is_special(b: u8) -> bool {
    b == QUOTE || b == BACKSLASH || b == LINE_FEED
}

/// Every byte of the encoding of a character beyond `0x7f` is at least
/// `0x80`, and a character up to `0x7f` is its own byte.
pub proof fn lemma_scalar_bytes(c: u32)
    requires
        is_scalar(c),
    ensures
        forall|i: int|
            0 <= i < encode_scalar(c).len() ==> (#[trigger] encode_scalar(c)[i]) >= 0x80 || (c
                <= 0x7f && encode_scalar(c)[i] == c),
{
    if has_width_1_encoding(c) {
        assert((c & 0x7F) as u8 == c) by (bit_vector)
            requires
                c <= 0x7F,
        ;
    } else {
        assert(0xC0u8 | ((c >> 6) & 0x1F) as u8 >= 0x80) by (bit_vector);
        assert(0xE0u8 | ((c >> 12) & 0x0F) as u8 >= 0x80) by (bit_vector);
        assert(0xF0u8 | ((c >> 18) & 0x7) as u8 >= 0x80) by (bit_vector);
        assert(0x80u8 | (c & 0x3F) as u8 >= 0x80) by (bit_vector);
        assert(0x80u8 | ((c >> 6) & 0x3F) as u8 >= 0x80) by (bit_vector);
        assert(0x80u8 | ((c >> 12) & 0x3F) as u8 >= 0x80) by (bit_vector);
    }
}

/// The encoding of a plain text holds none of the special bytes.
pub proof fn lemma_plain_bytes(text: Seq<char>)
    requires
        plain(text),
    ensures
        forall|i: int|
            0 <= i < encode_utf8(text).len() ==> !is_special(#[trigger] encode_utf8(text)[i]),
    decreases text.len(),
{
    if text.len() > 0 {
        let head = encode_scalar(text[0] as u32);
        let tail = encode_utf8(text.drop_first());
        char_is_scalar(text[0]);
        lemma_scalar_bytes(text[0] as u32);
        assert(plain(text.drop_first())) by {
            assert forall|i: int| 0 <= i < text.drop_first().len() implies text.drop_first()[i]
                != '"' && text.drop_first()[i] != '\\' && #[trigger] text.drop_first()[i]
                != '\n' by {
                assert(text.drop_first()[i] == text[i + 1]);
            }
        }
        lemma_plain_bytes(text.drop_first());
        assert forall|i: int| 0 <= i < encode_utf8(text).len() implies !is_special(
            #[trigger] encode_utf8(text)[i],
        ) by {
            if i < head.len() {
                assert(encode_utf8(text)[i] == head[i]);
                assert(text[0] != '"' && text[0] != '\\' && text[0] != '\n');
                assert('"' as u32 == 0x22 && '\\' as u32 == 0x5C && '\n' as u32 == 0x0A);
                assert(head[i] >= 0x80 || head[i] == text[0] as u32);
                if head[i] < 0x80 {
                    char_u32_cast(text[0], head[i] as u32);
                    assert(head[i] as u32 as char == text[0]);
                }
            } else {
                assert(encode_utf8(text)[i] == tail[i - head.len()]);
            }
        }
    }
}

/// The scan runs over bytes that are not special up to the quote behind
/// them.
pub proof fn lemma_scan_closes(text: Seq<u8>, i: nat, k: nat)
    requires
        i <= k < text.len(),
        forall|j: int| i <= j < k ==> !is_special(#[trigger] text[j]),
        text[k as int] == QUOTE,
    ensures
        scan_quoted(text, i, false) == Scan::Closed(k),
    decreases k - i,
{
    if i < k {
        assert(!is_special(text[i as int]));
        lemma_scan_closes(text, i + 1, k);
    }
}

/// A plain text between quotes is parsed as that text.
pub proof fn lemma_string_round_trip(text: Seq<char>, rest: Seq<u8>, pos: nat)
    requires
        plain(text),
    ensures
        spec_string(Cursor { text: render_string(text) + rest, pos }) == Outcome::Success(
            Cursor { text: rest, pos: pos + render_string(text).len() },
            text,
        ),
{
    reveal(spec_string);
    reveal_strlit("\"");
    let s = Cursor { text: render_string(text) + rest, pos };
    let body = encode_utf8(text);
    lemma_label_byte("\""@, s);
    let inner = s.advance(1);
    assert(inner.text =~= body + seq![QUOTE] + rest);
    lemma_plain_bytes(text);
    assert forall|j: int| 0 <= j < body.len() implies !is_special(#[trigger] inner.text[j]) by {
        assert(inner.text[j] == body[j]);
    }
    lemma_scan_closes(inner.text, 0, body.len());
    assert(inner.text.take(body.len() as int) =~= body);
    encode_utf8_decode_utf8(text);
    assert(inner.advance(body.len() + 1).text =~= rest);
}

// Literals and keywords

/// A literal in front of any text matches, and leaves that text.
pub proof fn lemma_label_here(pattern: Seq<char>, rest: Seq<u8>, pos: nat)
    ensures
        spec_label(pattern, Cursor { text: encode_utf8(pattern) + rest, pos }) == Outcome::Success(
            Cursor { text: rest, pos: pos + encode_utf8(pattern).len() },
            pattern,
        ),
{
    reveal(spec_label);
    let bytes = encode_utf8(pattern);
    let s = Cursor { text: bytes + rest, pos };
    assert(bytes =~= s.text.subrange(0, bytes.len() as int));
    assert(s.advance(bytes.len()).text =~= rest);
}

/// A literal does not match a text that begins with another byte than its
/// own first.
pub proof fn lemma_label_miss(pattern: Seq<char>, s: Cursor)
    requires
        encode_utf8(pattern).len() > 0,
        s.text.len() == 0 || s.text[0] != encode_utf8(pattern)[0],
    ensures
        spec_label(pattern, s) is SoftFailure,
{
    reveal(spec_label);
    let bytes = encode_utf8(pattern);
    if bytes.is_prefix_of(s.text) {
        assert(s.text.subrange(0, bytes.len() as int)[0] == bytes[0]);
    }
}

/// The bytes of the three keywords.
pub proof fn lemma_keyword_bytes()
    ensures
        encode_utf8("true"@) == seq![0x74u8, 0x72, 0x75, 0x65],
        encode_utf8("false"@) == seq![0x66u8, 0x61, 0x6C, 0x73, 0x65],
        encode_utf8("null"@) == seq![0x6Eu8, 0x75, 0x6C, 0x6C],
{
    reveal_strlit("true");
    reveal_strlit("false");
    reveal_strlit("null");
    assert(is_ascii_chars("true"@));
    assert(is_ascii_chars("false"@));
    assert(is_ascii_chars("null"@));
    is_ascii_chars_encode_utf8("true"@);
    is_ascii_chars_encode_utf8("false"@);
    is_ascii_chars_encode_utf8("null"@);
    assert(encode_utf8("true"@) =~= seq![0x74u8, 0x72, 0x75, 0x65]);
    assert(encode_utf8("false"@) =~= seq![0x66u8, 0x61, 0x6C, 0x73, 0x65]);
    assert(encode_utf8("null"@) =~= seq![0x6Eu8, 0x75, 0x6C, 0x6C]);
}

/// A text that begins with a byte below `0x80` begins with the character of
/// that byte.
pub proof fn lemma_first_char_of_byte(text: Seq<u8>)
    requires
        text.len() > 0,
        text[0] < 0x80,
    ensures
        first_char(text) == text[0] as char,
{
    let b = text[0];
    assert((b & 0x7F) as u32 == b) by (bit_vector)
        requires
            b < 0x80,
    ;
}

/// Where the text begins with none of `t`, `f` and `n`, nor with any other
/// letter, there is no keyword, and no error either.
pub proof fn lemma_keyword_miss(s: Cursor)
    requires
        s.text.len() > 0,
        s.text[0] < 0x80,
        !is_alphabetic(s.text[0] as char),
    ensures
        spec_keyword(s) is SoftFailure,
{
    reveal(spec_keyword);
    lemma_keyword_bytes();
    lemma_first_char_of_byte(s.text);
    assert(s.text[0] != 0x74 && s.text[0] != 0x66 && s.text[0] != 0x6E) by {
        assert(is_alphabetic(0x74u8 as char));
        assert(is_alphabetic(0x66u8 as char));
        assert(is_alphabetic(0x6Eu8 as char));
    }
    lemma_label_miss("true"@, s);
    lemma_label_miss("false"@, s);
    lemma_label_miss("null"@, s);
}

/// Where the text does not begin with a digit, there is no number.
pub proof fn lemma_number_miss(s: Cursor)
    requires
        !begins_with_digit(s.text),
    ensures
        spec_number(s) is SoftFailure,
{
    reveal(spec_number);
    if s.text.len() > 0 && s.text[0] < 0x80 {
        let c = s.text[0] as char;
        assert(!is_digit(c, 10));
    }
}

/// Where the text does not begin with a quote, there is no string.
pub proof fn lemma_string_miss(s: Cursor)
    requires
        s.text.len() == 0 || s.text[0] != QUOTE,
    ensures
        spec_json_string(s) is SoftFailure,
{
    reveal(spec_json_string);
    reveal(spec_string);
    reveal_strlit("\"");
    lemma_label_byte("\""@, s);
    lemma_label_moves("\""@, s);
}

/// A plain text between quotes is parsed as a string value.
pub proof fn lemma_json_string_round_trip(text: Seq<char>, rest: Seq<u8>, pos: nat)
    requires
        plain(text),
    ensures
        spec_json_string(Cursor { text: render_string(text) + rest, pos }) == Outcome::Success(
            Cursor { text: rest, pos: pos + render_string(text).len() },
            Document::String(text),
        ),
{
    reveal(spec_json_string);
    lemma_string_round_trip(text, rest, pos);
}

/// Each keyword is parsed as the value that it names.
pub proof fn lemma_keyword_round_trip(v: Document, rest: Seq<u8>, pos: nat)
    requires
        v is True || v is False || v is Null,
    ensures
        spec_keyword(Cursor { text: render(v) + rest, pos }) == Outcome::Success(
            Cursor { text: rest, pos: pos + render(v).len() },
            v,
        ),
{
    reveal(spec_keyword);
    lemma_keyword_bytes();
    let s = Cursor { text: render(v) + rest, pos };
    assert(s.text[0] == render(v)[0]);
    match v {
        Document::True => {
            lemma_label_here("true"@, rest, pos);
        },
        Document::False => {
            lemma_label_miss("true"@, s);
            lemma_label_here("false"@, rest, pos);
        },
        _ => {
            lemma_label_miss("true"@, s);
            lemma_label_miss("false"@, s);
            lemma_label_here("null"@, rest, pos);
        },
    }
}

// Values

/// The cursor over `text` at offset `pos`.
pub open spec fn at(text: Seq<u8>, pos: nat) -> Cursor {
    Cursor { text, pos }
}

/// Where the text does not begin with a blank, there is nothing to skip.
pub proof fn lemma_no_blank(s: Cursor)
    requires
        s.text.len() == 0 || !is_blank(s.text[0]),
    ensures
        skip_blank(s) == s,
{
    reveal(skip_blank);
    assert(s.text.skip(0) =~= s.text);
}

/// The byte that the text of a value begins with tells its kind.
pub proof fn lemma_render_head(v: Document)
    ensures
        render(v).len() > 0,
        match v {
            Document::String(_) => render(v)[0] == QUOTE,
            Document::Number(_) => is_digit_byte(render(v)[0]),
            Document::Array(_) => render(v)[0] == OPEN_BRACKET,
            Document::True => render(v)[0] == 0x74,
            Document::False => render(v)[0] == 0x66,
            Document::Null => render(v)[0] == 0x6E,
            Document::Object(_) => render(v)[0] == OPEN_BRACE,
        },
{
    lemma_keyword_bytes();
    match v {
        Document::Number(n) => {
            lemma_decimal(n as nat);
        },
        _ => {},
    }
}

/// What may stand behind the text of `v`: anything, but no digit behind a
/// number.
pub open spec fn may_follow(v: Document, rest: Seq<u8>) -> bool {
    v is Number ==> !begins_with_digit(rest)
}

/// Where the text does not begin with `[`, there is no array.
pub proof fn lemma_array_miss(s: Cursor)
    requires
        s.text.len() == 0 || s.text[0] != OPEN_BRACKET,
    ensures
        spec_array(s) is SoftFailure,
{
    reveal_strlit("[");
    lemma_label_byte("["@, s);
    lemma_label_moves("["@, s);
}

/// The text of a value, in front of what may follow it, is parsed as that
/// value, and what follows is left.
pub proof fn lemma_value_round_trip(v: Document, rest: Seq<u8>, pos: nat)
    requires
        renderable(v),
        may_follow(v, rest),
    ensures
        spec_value_choice(at(render(v) + rest, pos)) == Outcome::Success(
            at(rest, pos + render(v).len()),
            v,
        ),
        spec_value(at(render(v) + rest, pos)) == spec_value_choice(at(render(v) + rest, pos)),
    decreases v, 0nat,
{
    let s = at(render(v) + rest, pos);
    let end = at(rest, pos + render(v).len());
    lemma_render_head(v);
    assert(s.text[0] == render(v)[0]);
    match v {
        Document::Number(n) => {
            lemma_number_round_trip(n as nat, rest, pos);
        },
        Document::String(text) => {
            lemma_number_miss(s);
            lemma_json_string_round_trip(text, rest, pos);
        },
        Document::Array(items) => {
            lemma_number_miss(s);
            lemma_string_miss(s);
            lemma_array_round_trip(items, rest, pos);
        },
        Document::True | Document::False | Document::Null => {
            lemma_number_miss(s);
            lemma_string_miss(s);
            lemma_array_miss(s);
            lemma_keyword_round_trip(v, rest, pos);
        },
        Document::Object(fields) => {
            lemma_number_miss(s);
            lemma_string_miss(s);
            lemma_array_miss(s);
            lemma_keyword_miss(s);
            lemma_object_round_trip(fields, rest, pos);
        },
    }
}

/// The repetition inside an array reads every element but the last.
pub proof fn lemma_items_run(items: Seq<Document>, i: nat, tail: Seq<u8>, pos: nat, limit: nat)
    requires
        i < items.len(),
        forall|j: int| 0 <= j < items.len() ==> renderable(#[trigger] items[j]),
        tail.len() > 0,
        tail[0] == CLOSE_BRACKET,
        (render_items(items, i) + tail).len() < limit,
    ensures
        spec_many(array_items(limit), at(render_items(items, i) + tail, pos)) == Outcome::Success(
            at(
                render(items.last()) + tail,
                (pos + render_items(items, i).len() - render(items.last()).len()) as nat,
            ),
            items.subrange(i as int, items.len() - 1),
        ),
        render_items(items, i).len() >= render(items.last()).len(),
    decreases items, items.len() - i,
{
    let s = at(render_items(items, i) + tail, pos);
    let v = items[i as int];
    lemma_render_head(v);
    reveal_strlit(",");
    if i + 1 == items.len() {
        assert(s.text[0] == render(v)[0]);
        lemma_no_blank(s);
        lemma_value_round_trip(v, tail, pos);
        let after = at(tail, pos + render(v).len());
        lemma_no_blank(after);
        lemma_label_byte(","@, after);
        assert(spec_array_item(s) is SoftFailure);
        assert(items.subrange(i as int, items.len() - 1) =~= Seq::<Document>::empty());
    } else {
        let more = render_items(items, i + 1) + tail;
        let behind = seq![COMMA] + more;
        assert(s.text =~= render(v) + behind);
        assert(s.text[0] == render(v)[0]);
        lemma_no_blank(s);
        lemma_value_round_trip(v, behind, pos);
        let after = at(behind, pos + render(v).len());
        lemma_no_blank(after);
        lemma_label_byte(","@, after);
        assert(after.advance(1).text =~= more);
        let next = at(more, pos + render(v).len() + 1);
        assert(spec_array_item(s) == Outcome::Success(next, v));
        lemma_items_run(items, i + 1, tail, pos + render(v).len() + 1, limit);
        assert(seq![v] + items.subrange(i as int + 1, items.len() - 1) =~= items.subrange(
            i as int,
            items.len() - 1,
        ));
    }
}

/// The text of an array is parsed as that array.
pub proof fn lemma_array_round_trip(items: Seq<Document>, rest: Seq<u8>, pos: nat)
    requires
        forall|j: int| 0 <= j < items.len() ==> renderable(#[trigger] items[j]),
    ensures
        spec_array(at(render(Document::Array(items)) + rest, pos)) == Outcome::Success(
            at(rest, pos + render(Document::Array(items)).len()),
            Document::Array(items),
        ),
    decreases items, items.len() + 1,
{
    reveal_strlit("[");
    reveal_strlit("]");
    let whole = render(Document::Array(items));
    let s = at(whole + rest, pos);
    let tail = seq![CLOSE_BRACKET] + rest;
    lemma_label_byte("["@, s);
    let inner = s.advance(1);
    assert(inner.text =~= render_items(items, 0) + tail);
    if items.len() == 0 {
        assert(inner.text =~= tail);
        lemma_no_blank(inner);
        lemma_label_byte("]"@, inner);
        assert(inner.advance(1).text =~= rest);
        assert(items =~= Seq::<Document>::empty());
    } else {
        lemma_render_head(items[0]);
        assert(inner.text[0] == render(items[0])[0]);
        lemma_no_blank(inner);
        lemma_label_byte("]"@, inner);
        lemma_items_run(items, 0, tail, pos + 1, s.text.len());
        let last = items.last();
        let last_at = at(
            render(last) + tail,
            (pos + 1 + render_items(items, 0).len() - render(last).len()) as nat,
        );
        lemma_render_head(last);
        assert(last_at.text[0] == render(last)[0]);
        lemma_no_blank(last_at);
        lemma_value_round_trip(last, tail, last_at.pos);
        let after = at(tail, last_at.pos + render(last).len());
        lemma_no_blank(after);
        lemma_label_byte("]"@, after);
        assert(after.advance(1).text =~= rest);
        assert(items.subrange(0, items.len() - 1).push(last) =~= items);
    }
}

/// The text of a member is parsed as that member.
pub proof fn lemma_member_round_trip(field: Field, rest: Seq<u8>, pos: nat)
    requires
        plain(field.key),
        renderable(field.value),
        may_follow(field.value, rest),
    ensures
        spec_member(at(render_field(field) + rest, pos)) == Outcome::Success(
            at(rest, pos + render_field(field).len()),
            field,
        ),
    decreases field, 0nat,
{
    reveal_strlit(":");
    let s = at(render_field(field) + rest, pos);
    let key = render_string(field.key);
    let value = render(field.value);
    let behind_key = seq![COLON] + value + rest;
    assert(s.text =~= key + behind_key);
    assert(s.text[0] == QUOTE);
    lemma_no_blank(s);
    lemma_string_round_trip(field.key, behind_key, pos);
    let colon_at = at(behind_key, pos + key.len());
    lemma_no_blank(colon_at);
    lemma_label_byte(":"@, colon_at);
    let value_at = at(value + rest, pos + key.len() + 1);
    assert(colon_at.advance(1).text =~= value + rest);
    lemma_render_head(field.value);
    assert(value_at.text[0] == value[0]);
    lemma_no_blank(value_at);
    lemma_value_round_trip(field.value, rest, pos + key.len() + 1);
}

/// The repetition inside an object reads every member but the last.
pub proof fn lemma_fields_run(fields: Seq<Field>, i: nat, tail: Seq<u8>, pos: nat, limit: nat)
    requires
        i < fields.len(),
        forall|j: int|
            0 <= j < fields.len() ==> plain((#[trigger] fields[j]).key) && renderable(
                fields[j].value,
            ),
        tail.len() > 0,
        tail[0] == CLOSE_BRACE,
        (render_fields(fields, i) + tail).len() < limit,
    ensures
        spec_many(object_pairs(limit), at(render_fields(fields, i) + tail, pos))
            == Outcome::Success(
            at(
                render_field(fields.last()) + tail,
                (pos + render_fields(fields, i).len() - render_field(fields.last()).len()) as nat,
            ),
            fields.subrange(i as int, fields.len() - 1),
        ),
        render_fields(fields, i).len() >= render_field(fields.last()).len(),
    decreases fields, fields.len() - i,
{
    let s = at(render_fields(fields, i) + tail, pos);
    let f = fields[i as int];
    reveal_strlit(",");
    if i + 1 == fields.len() {
        lemma_member_round_trip(f, tail, pos);
        let after = at(tail, pos + render_field(f).len());
        lemma_label_byte(","@, after);
        lemma_label_moves(","@, after);
        assert(spec_object_pair(s) is SoftFailure);
        assert(fields.subrange(i as int, fields.len() - 1) =~= Seq::<Field>::empty());
    } else {
        let more = render_fields(fields, i + 1) + tail;
        let behind = seq![COMMA] + more;
        assert(s.text =~= render_field(f) + behind);
        lemma_member_round_trip(f, behind, pos);
        let after = at(behind, pos + render_field(f).len());
        lemma_label_byte(","@, after);
        assert(after.advance(1).text =~= more);
        let next = at(more, pos + render_field(f).len() + 1);
        assert(spec_object_pair(s) == Outcome::Success(next, f));
        lemma_fields_run(fields, i + 1, tail, pos + render_field(f).len() + 1, limit);
        assert(seq![f] + fields.subrange(i as int + 1, fields.len() - 1) =~= fields.subrange(
            i as int,
            fields.len() - 1,
        ));
    }
}

/// The text of an object is parsed as that object.
pub proof fn lemma_object_round_trip(fields: Seq<Field>, rest: Seq<u8>, pos: nat)
    requires
        forall|j: int|
            0 <= j < fields.len() ==> plain((#[trigger] fields[j]).key) && renderable(
                fields[j].value,
            ),
    ensures
        spec_object(at(render_object(fields) + rest, pos)) == Outcome::Success(
            at(rest, pos + render_object(fields).len()),
            fields,
        ),
        render(Document::Object(fields)) == render_object(fields),
    decreases fields, fields.len() + 1,
{
    reveal_strlit("{");
    reveal_strlit("}");
    let s = at(render_object(fields) + rest, pos);
    let tail = seq![CLOSE_BRACE] + rest;
    lemma_label_byte("{"@, s);
    let inner = s.advance(1);
    assert(inner.text =~= render_fields(fields, 0) + tail);
    if fields.len() == 0 {
        assert(inner.text =~= tail);
        lemma_no_blank(inner);
        lemma_label_byte("}"@, inner);
        assert(inner.advance(1).text =~= rest);
        assert(fields =~= Seq::<Field>::empty());
    } else {
        assert(render_field(fields[0])[0] == QUOTE);
        assert(render_fields(fields, 0)[0] == QUOTE);
        assert(inner.text[0] == QUOTE);
        lemma_no_blank(inner);
        lemma_label_byte("}"@, inner);
        lemma_fields_run(fields, 0, tail, pos + 1, s.text.len());
        let last = fields.last();
        let last_at = at(
            render_field(last) + tail,
            (pos + 1 + render_fields(fields, 0).len() - render_field(last).len()) as nat,
        );
        lemma_member_round_trip(last, tail, last_at.pos);
        let after = at(tail, last_at.pos + render_field(last).len());
        lemma_no_blank(after);
        lemma_label_byte("}"@, after);
        assert(after.advance(1).text =~= rest);
        assert(fields.subrange(0, fields.len() - 1).push(last) =~= fields);
    }
}

// The whole document

/// Writing a document down and parsing what was written gives the document
/// back: for every object whose keys and strings are plain and whose
/// numbers are not negative and fit an `isize`, the parse of its text
/// accepts exactly that object, members in the same order.
pub proof fn law_round_trip(fields: Seq<Field>)
    requires
        renderable(Document::Object(fields)),
    ensures
        spec_json(render_object(fields)) == Verdict::Accepted(fields),
{
    let text = render_object(fields);
    assert(text[0] == OPEN_BRACE);
    assert(text.last() == CLOSE_BRACE);
    assert(text.skip(0) =~= text);
    assert(text.take(text.len() as int) =~= text);
    assert(trimmed(text) == text);
    assert(text + Seq::<u8>::empty() =~= text);
    lemma_object_round_trip(fields, Seq::empty(), 0);
}

} // verus!
