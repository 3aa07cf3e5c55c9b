//! Bytes and characters: how far a quoted excerpt of the input runs, what its
//! first character is, and where a `&str` may be cut.
use vstd::prelude::*;
use vstd::string::*;
use vstd::utf8::*;

verus! {

/// The tabulator, a blank.
pub const TAB: u8 = 0x09;

/// The line feed, a blank, which also ends a line.
pub const LINE_FEED: u8 = 0x0A;

/// The space, a blank.
pub const SPACE: u8 = 0x20;

/// `"`, which opens and closes a string.
pub const QUOTE: u8 = 0x22;

/// `,`, which separates elements and members.
pub const COMMA: u8 = 0x2C;

/// `:`, which separates a key from its value.
pub const COLON: u8 = 0x3A;

/// `[`, which opens an array.
pub const OPEN_BRACKET: u8 = 0x5B;

/// `\`, which escapes the byte behind it inside a string.
pub const BACKSLASH: u8 = 0x5C;

/// `]`, which closes an array.
pub const CLOSE_BRACKET: u8 = 0x5D;

/// `{`, which opens an object.
pub const OPEN_BRACE: u8 = 0x7B;

/// `}`, which closes an object.
pub const CLOSE_BRACE: u8 = 0x7D;

/// A byte at which an excerpt of the input ends: a line feed, and a comma
/// too where `at_comma` is set.
pub open spec fn stops_excerpt(b: u8, at_comma: bool) -> bool {
    b == LINE_FEED || (at_comma && b == COMMA)
}

/// The length of the longest prefix of `text` that holds no byte that
/// [`stops_excerpt`].
pub open spec fn stop_index(text: Seq<u8>, at_comma: bool) -> nat
    decreases text.len(),
{
    if text.len() == 0 || stops_excerpt(text[0], at_comma) {
        0
    } else {
        1 + stop_index(text.skip(1), at_comma)
    }
}

/// The text from the cursor up to the next line feed (or comma), which is what
/// a diagnostic quotes as "found".
#[verifier::opaque]
pub open spec fn excerpt(text: Seq<u8>, at_comma: bool) -> Seq<char> {
    decode_utf8(text.take(stop_index(text, at_comma) as int))
}

/// The character that `text` begins with.
pub open spec fn first_char(text: Seq<u8>) -> char
    recommends
        text.len() > 0,
        valid_utf8(text),
{
    decode_first_scalar(text) as char
}

/// The number of bytes that encode the character that `text` begins with.
pub open spec fn first_char_len(text: Seq<u8>) -> nat
    recommends
        text.len() > 0,
        valid_utf8(text),
{
    length_of_first_scalar(text) as nat
}

/// The first index at which a stopping byte stands, or the length where
/// there is none, is the stop index.
pub proof fn lemma_stop_index_unique(text: Seq<u8>, at_comma: bool, k: int)
    requires
        0 <= k <= text.len(),
        forall|i: int| 0 <= i < k ==> !stops_excerpt(text[i], at_comma),
        k < text.len() ==> stops_excerpt(text[k], at_comma),
    ensures
        stop_index(text, at_comma) == k,
    decreases k,
{
    if k == 0 {
    } else {
        let rest = text.skip(1);
        assert(!stops_excerpt(text[0], at_comma));
        assert forall|i: int| 0 <= i < k - 1 implies !stops_excerpt(rest[i], at_comma) by {
            assert(rest[i] == text[i + 1]);
        }
        lemma_stop_index_unique(rest, at_comma, k - 1);
    }
}

/// In valid UTF-8 a byte below `0x80` is a character of its own, so the text
/// may be cut in front of it.
pub proof fn lemma_boundary_at_ascii(text: Seq<u8>, i: int)
    requires
        valid_utf8(text),
        0 <= i < text.len(),
        text[i] < 0x80,
    ensures
        is_char_boundary(text, i),
{
    is_char_boundary_iff_not_is_continuation_byte(text, i);
}

/// The text may be cut behind the character that starts at a boundary.
pub proof fn lemma_boundary_after_char(text: Seq<u8>, i: int)
    requires
        valid_utf8(text),
        0 <= i < text.len(),
        is_char_boundary(text, i),
    ensures
        i + first_char_len(text.skip(i)) <= text.len(),
        is_char_boundary(text, i + first_char_len(text.skip(i))),
{
    let tail = text.skip(i);
    valid_utf8_split(text, i);
    assert(valid_utf8(tail));
    assert(valid_first_scalar(tail));
    let w = length_of_first_scalar(tail);
    let rest = pop_first_scalar(tail);
    assert(valid_utf8(rest));
    assert(rest =~= text.skip(i + w));
    if i + w == text.len() {
        is_char_boundary_start_end_of_seq(text);
    } else {
        assert(valid_first_scalar(rest));
        assert(rest[0] == text[i + w]);
        is_char_boundary_iff_not_is_continuation_byte(text, i + w);
    }
}

/// The text may be cut behind a byte below `0x80`.
pub proof fn lemma_boundary_after_ascii(text: Seq<u8>, i: int)
    requires
        valid_utf8(text),
        0 <= i < text.len(),
        text[i] < 0x80,
    ensures
        is_char_boundary(text, i + 1),
{
    lemma_boundary_at_ascii(text, i);
    lemma_boundary_after_char(text, i);
    assert(text.skip(i)[0] == text[i]);
}

/// The end of the text is a place where it may be cut.
pub proof fn lemma_boundary_at_end(text: Seq<u8>)
    requires
        valid_utf8(text),
    ensures
        is_char_boundary(text, text.len() as int),
{
    is_char_boundary_start_end_of_seq(text);
}

/// Where valid UTF-8 begins with valid UTF-8, it may be cut behind that
/// beginning.
pub proof fn lemma_boundary_after_prefix(prefix: Seq<u8>, text: Seq<u8>)
    requires
        valid_utf8(prefix),
        valid_utf8(text),
        prefix.is_prefix_of(text),
    ensures
        is_char_boundary(text, prefix.len() as int),
    decreases prefix.len(),
{
    if prefix.len() == 0 {
    } else {
        let w = length_of_first_scalar(prefix);
        assert(valid_first_scalar(prefix));
        assert(w <= prefix.len());
        assert forall|j: int| 0 <= j < w implies prefix[j] == text[j] by {
            assert(prefix[j] == text.subrange(0, prefix.len() as int)[j]);
        }
        assert(length_of_first_scalar(text) == w);
        let p = pop_first_scalar(prefix);
        let t = pop_first_scalar(text);
        assert(valid_first_scalar(text));
        assert(p =~= t.subrange(0, p.len() as int));
        lemma_boundary_after_prefix(p, t);
    }
}

/// Cutting a text at a boundary gives the characters of the first part.
pub proof fn lemma_take_decodes(whole: Seq<char>, n: int, part: Seq<char>)
    requires
        encode_utf8(part) == encode_utf8(whole).take(n),
    ensures
        part == decode_utf8(encode_utf8(whole).take(n)),
{
    encode_utf8_decode_utf8(part);
}

/// The first character of a text, taken alone, decodes to that character.
pub proof fn lemma_first_char_decodes(text: Seq<u8>)
    requires
        valid_utf8(text),
        text.len() > 0,
    ensures
        first_char_len(text) <= text.len(),
        decode_utf8(text.take(first_char_len(text) as int)) == seq![first_char(text)],
{
    reveal_with_fuel(valid_utf8, 2);
    reveal_with_fuel(decode_utf8, 2);
    let head = text.take(first_char_len(text) as int);
    assert(valid_first_scalar(text));
    assert(pop_first_scalar(head) =~= Seq::<u8>::empty());
    assert(valid_utf8(pop_first_scalar(head)));
    assert(valid_first_scalar(head));
    assert(valid_utf8(head));
    assert(decode_first_scalar(head) == decode_first_scalar(text));
    assert(decode_utf8(head) =~= seq![first_char(text)]);
}

/// The byte at index `i` of a text.
pub fn byte_at(text: &str, i: usize) -> (b: u8)
    requires
        i < text.spec_bytes().len(),
    ensures
        b == text.spec_bytes()[i as int],
{
    text.as_bytes()[i]
}

/// The first `n` bytes of a text, which must end between two characters.
pub fn take_text<'a>(text: &'a str, n: usize) -> (part: &'a str)
    requires
        is_char_boundary(text.spec_bytes(), n as int),
    ensures
        part.spec_bytes() == text.spec_bytes().take(n as int),
        part@ == decode_utf8(text.spec_bytes().take(n as int)),
{
    broadcast use group_utf8_lib;
    let (part, _) = text.split_at(n);
    proof {
        lemma_take_decodes(text@, n as int, part@);
    }
    part
}

/// Computes [`stop_index`].
pub fn find_stop(text: &str, at_comma: bool) -> (k: usize)
    ensures
        k == stop_index(text.spec_bytes(), at_comma),
        k <= text.spec_bytes().len(),
        is_char_boundary(text.spec_bytes(), k as int),
{
    broadcast use group_utf8_lib;
    let bytes = text.as_bytes();
    let mut k: usize = 0;
    while k < bytes.len() && !(bytes[k] == LINE_FEED || (at_comma && bytes[k] == COMMA))
        invariant
            k <= bytes.len(),
            bytes@ == text.spec_bytes(),
            forall|i: int| 0 <= i < k ==> !stops_excerpt(bytes@[i], at_comma),
        decreases bytes.len() - k,
    {
        k += 1;
    }
    proof {
        lemma_stop_index_unique(bytes@, at_comma, k as int);
        if k < bytes.len() {
            lemma_boundary_at_ascii(bytes@, k as int);
        } else {
            lemma_boundary_at_end(bytes@);
        }
    }
    k
}

/// The text that a diagnostic quotes: see [`excerpt`].
pub fn quote<'a>(text: &'a str, at_comma: bool) -> (part: &'a str)
    ensures
        part@ == excerpt(text.spec_bytes(), at_comma),
{
    proof {
        reveal(excerpt);
    }
    let k = find_stop(text, at_comma);
    take_text(text, k)
}

/// The number of bytes of the first character of a text that is not empty.
pub fn first_width(text: &str) -> (w: usize)
    requires
        text.spec_bytes().len() > 0,
    ensures
        w == first_char_len(text.spec_bytes()),
        1 <= w <= text.spec_bytes().len(),
        is_char_boundary(text.spec_bytes(), w as int),
{
    broadcast use group_utf8_lib;
    let b = text.as_bytes()[0];
    proof {
        let bytes = text.spec_bytes();
        assert(valid_first_scalar(bytes));
        assert(bytes.skip(0) =~= bytes);
        lemma_boundary_after_char(bytes, 0);
    }
    if b < 0x80 {
        1
    } else if b < 0xE0 {
        2
    } else if b < 0xF0 {
        3
    } else {
        4
    }
}

/// The first character of a text that is not empty.
pub fn leading_char(text: &str) -> (c: char)
    requires
        text.spec_bytes().len() > 0,
    ensures
        c == first_char(text.spec_bytes()),
        text@.len() > 0,
        c == text@[0],
{
    broadcast use group_utf8_lib;
    proof {
        assert(text@.len() > 0) by {
            if text@.len() == 0 {
                assert(encode_utf8(text@) =~= Seq::<u8>::empty());
            }
        }
        encode_utf8_first_scalar(text@);
        char_u32_cast(text@[0], decode_first_scalar(text.spec_bytes()));
    }
    text.get_char(0)
}

} // verus!
