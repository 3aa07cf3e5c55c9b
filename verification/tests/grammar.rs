use json_parsec::grammar::{keyword_mismatch, to_integer};
use json_parsec::{
    array, json, json_string, keyword, member, number, object, value, JsonError, JsonFailure,
    JsonObject, JsonValue, Member, ParserError, Remaining,
};

fn at(text: &str) -> Remaining<'_> {
    Remaining::new(text, 0)
}

fn text(s: &str) -> JsonValue {
    JsonValue::String(s.to_string())
}

fn entry(key: &str, value: JsonValue) -> Member {
    Member::new(key.to_string(), value)
}

fn hard<T: std::fmt::Debug>(r: Result<T, JsonError<'_>>) -> (usize, ParserError) {
    match r {
        Err(JsonError::Unsavable(pos, e)) => (pos, e),
        other => panic!("{:?}", other),
    }
}

fn soft<'a, T: std::fmt::Debug>(r: Result<T, JsonError<'a>>) -> (Remaining<'a>, ParserError) {
    match r {
        Err(JsonError::Failure(stopped, e)) => (stopped, e),
        other => panic!("{:?}", other),
    }
}

#[test]
fn member_new_keeps_its_arguments() {
    let m = Member::new("k".to_string(), JsonValue::Number(3));
    assert_eq!(m.identifier, "k");
    assert_eq!(m.value, JsonValue::Number(3));
}

#[test]
fn to_integer_reads_decimal_digits() {
    assert_eq!(to_integer(&vec!['0']), Some(0));
    assert_eq!(to_integer(&vec!['0', '4', '2']), Some(42));
    assert_eq!(to_integer(&vec![]), Some(0));
    let max: Vec<char> = isize::MAX.to_string().chars().collect();
    assert_eq!(to_integer(&max), Some(isize::MAX));
}

#[test]
fn to_integer_refuses_what_does_not_fit() {
    let mut digits: Vec<char> = isize::MAX.to_string().chars().collect();
    let last = digits.len() - 1;
    digits[last] = '8';
    assert_eq!(to_integer(&digits), None);
    digits.push('0');
    assert_eq!(to_integer(&digits), None);
}

#[test]
fn number_reads_all_digits() {
    let (rest, v) = number(Remaining::new("1203,", 2)).unwrap();
    assert_eq!(v, JsonValue::Number(1203));
    assert_eq!(rest, Remaining::new(",", 6));
}

#[test]
fn number_without_a_digit_is_recoverable() {
    let (stopped, e) = soft(number(at("-1")));
    assert_eq!(stopped, at("-1"));
    assert_eq!(e.reason, "- is not a digit");
}

#[test]
fn number_out_of_range_is_recoverable() {
    let input = "99999999999999999999999999999999";
    let (stopped, e) = soft(number(at(input)));
    assert_eq!(stopped, at(input));
    assert_eq!(e.span, 0..32);
    assert_eq!(e.reason, "Number out of range");
}

#[test]
fn json_string_wraps_the_text() {
    let (rest, v) = json_string(at("\"x\\ty\"]")).unwrap();
    assert_eq!(v, text("x\\ty"));
    assert_eq!(rest, Remaining::new("]", 6));
    assert!(matches!(json_string(at("x")), Err(JsonError::Failure(_, _))));
    assert!(matches!(json_string(at("\"x")), Err(JsonError::Unsavable(0, _))));
}

#[test]
fn keyword_reads_the_three_literals() {
    assert_eq!(keyword(at("true")).unwrap().1, JsonValue::True);
    assert_eq!(keyword(at("false,")).unwrap().1, JsonValue::False);
    let (rest, v) = keyword(Remaining::new("null]", 3)).unwrap();
    assert_eq!(v, JsonValue::Null);
    assert_eq!(rest, Remaining::new("]", 7));
}

#[test]
fn keyword_unknown_word_is_committed() {
    let (pos, e) = hard(keyword(Remaining::new("fals, 1", 8)));
    assert_eq!(pos, 8);
    assert_eq!(e.span, 0..7);
    assert_eq!(e.reason, "Expected either true, false or null, found fals");
}

#[test]
fn keyword_on_something_else_is_recoverable() {
    let (stopped, e) = soft(keyword(at("{}")));
    assert_eq!(stopped, at("{}"));
    assert_eq!(e.reason, "Expected `null` found `{}`");
    assert!(matches!(keyword(at("")), Err(JsonError::Failure(_, _))));
    assert!(matches!(keyword(at("1")), Err(JsonError::Failure(_, _))));
}

#[test]
fn keyword_letters_beyond_ascii() {
    // A letter that is no ASCII letter commits as well.
    let (pos, e) = hard(keyword(at("été")));
    assert_eq!(pos, 0);
    assert_eq!(e.reason, "Expected either true, false or null, found été");
    // A character beyond ASCII that is no letter does not.
    assert!(matches!(keyword(at("€")), Err(JsonError::Failure(_, _))));
}

#[test]
fn keyword_mismatch_decides_by_the_flag() {
    let s = Remaining::new("abc, d", 5);
    let mismatch = || ParserError::new(0..6, "low level".to_string());
    let (pos, e) = hard(keyword_mismatch(s, s, mismatch(), true));
    assert_eq!(pos, 5);
    assert_eq!(e.span, 0..6);
    assert_eq!(e.reason, "Expected either true, false or null, found abc");
    let (stopped, e) = soft(keyword_mismatch(s, s, mismatch(), false));
    assert_eq!(stopped, s);
    assert_eq!(e, mismatch());
}

#[test]
fn value_tries_each_kind() {
    assert_eq!(value(at("12")).unwrap().1, JsonValue::Number(12));
    assert_eq!(value(at("\"s\"")).unwrap().1, text("s"));
    assert_eq!(value(at("[1]")).unwrap().1, JsonValue::Array(vec![JsonValue::Number(1)]));
    assert_eq!(value(at("null")).unwrap().1, JsonValue::Null);
    assert_eq!(
        value(at("{\"a\":true}")).unwrap().1,
        JsonValue::Object(JsonObject { members: vec![entry("a", JsonValue::True)] })
    );
}

#[test]
fn value_invalid_is_committed() {
    let (pos, e) = hard(value(Remaining::new("?x\ny", 4)));
    assert_eq!(pos, 4);
    assert_eq!(e.span, 0..0);
    assert_eq!(e.reason, "Invalid value `?x`");
    let (pos, e) = hard(value(Remaining::new("", 9)));
    assert_eq!(pos, 9);
    assert_eq!(e.reason, "Invalid value ``");
}

#[test]
fn value_hands_on_a_committed_failure_of_a_nested_rule() {
    // An array that began and then went wrong is not retried as a keyword or
    // an object.
    let (pos, e) = hard(value(at("[1 2]")));
    assert_eq!(pos, 3);
    assert_eq!(e.reason, "Unexpected character `2`");
    let (pos, e) = hard(value(at("\"abc")));
    assert_eq!(pos, 0);
    assert_eq!(e.reason, "Unclosed string delimiter");
    let (_, e) = hard(value(at("nul")));
    assert_eq!(e.reason, "Expected either true, false or null, found nul");
}

#[test]
fn value_out_of_range_number_is_invalid() {
    let (pos, e) = hard(value(at("99999999999999999999999999999999")));
    assert_eq!(pos, 0);
    assert_eq!(e.reason, "Invalid value `99999999999999999999999999999999`");
}

#[test]
fn array_of_values() {
    let (rest, v) = array(Remaining::new("[1, \"two\" ,[3],null ] tail", 1)).unwrap();
    assert_eq!(
        v,
        JsonValue::Array(vec![
            JsonValue::Number(1),
            text("two"),
            JsonValue::Array(vec![JsonValue::Number(3)]),
            JsonValue::Null,
        ])
    );
    assert_eq!(rest, Remaining::new(" tail", 22));
}

#[test]
fn array_empty_is_accepted() {
    let (rest, v) = array(at("[]")).unwrap();
    assert_eq!(v, JsonValue::Array(vec![]));
    assert_eq!(rest, Remaining::new("", 2));
    let (rest, v) = array(at("[ \n ]x")).unwrap();
    assert_eq!(v, JsonValue::Array(vec![]));
    assert_eq!(rest, Remaining::new("x", 5));
}

#[test]
fn array_without_bracket_is_recoverable() {
    let (stopped, e) = soft(array(at("1]")));
    assert_eq!(stopped, at("1]"));
    assert_eq!(e.reason, "Expected `[` found `1]`");
}

#[test]
fn array_unexpected_character_is_committed() {
    let (pos, e) = hard(array(at("[1 2]")));
    assert_eq!(pos, 3);
    assert_eq!(e.span, 0..1);
    assert_eq!(e.reason, "Unexpected character `2`");
    let (pos, e) = hard(array(at("[1, 2 €]")));
    assert_eq!(pos, 6);
    assert_eq!(e.span, 0..3);
    assert_eq!(e.reason, "Unexpected character `€`");
}

#[test]
fn array_unclosed_at_end_of_input_is_committed() {
    let (pos, e) = hard(array(at("[1, 2")));
    assert_eq!(pos, 5);
    assert_eq!(e.span, 0..0);
    assert_eq!(e.reason, "Unexpected end of input");
    let (pos, e) = hard(array(at("[")));
    assert_eq!(pos, 1);
    assert_eq!(e.reason, "Invalid value ``");
}

#[test]
fn array_trailing_comma_is_committed() {
    let (pos, e) = hard(array(at("[1,]")));
    assert_eq!(pos, 3);
    assert_eq!(e.reason, "Invalid value `]`");
}

#[test]
fn member_reads_key_and_value() {
    let (rest, m) = member(Remaining::new("  \"k\" :\t[1] ,", 3)).unwrap();
    assert_eq!(m, entry("k", JsonValue::Array(vec![JsonValue::Number(1)])));
    assert_eq!(rest, Remaining::new(" ,", 14));
}

#[test]
fn member_key_of_another_kind_is_named() {
    let help = "\n\nHelp: member identifier can only be a string";
    let cases = [
        ("1: 2", "a number"),
        ("[1]: 2", "an array"),
        ("{\"a\": 1}: 2", "an object"),
        ("true: 2", "keyword `true`"),
        ("false: 2", "keyword `false`"),
        ("null: 2", "keyword `null`"),
    ];
    for (input, kind) in cases {
        let (pos, e) = hard(member(Remaining::new(input, 1)));
        assert_eq!(pos, 1);
        assert_eq!(e.reason, format!("Expected a string, found {}{}", kind, help));
    }
}

#[test]
fn member_closing_brace_in_place_of_a_key_is_a_trailing_comma() {
    let (pos, e) = hard(member(Remaining::new(" }", 8)));
    assert_eq!(pos, 9);
    assert_eq!(e.span, 0..1);
    assert_eq!(
        e.reason,
        "Expected a string, found `}`\n\nHelp: Trailing comma aren't allowed in json"
    );
}

#[test]
fn member_anything_else_in_place_of_a_key() {
    let (pos, e) = hard(member(at("?a\nb")));
    assert_eq!(pos, 0);
    assert_eq!(e.reason, "Expected a string, found `?a`");
    let (_, e) = hard(member(at("")));
    assert_eq!(e.reason, "Expected a string, found ``");
}

#[test]
fn member_unclosed_key_is_committed() {
    let (pos, e) = hard(member(at(" \"key: 1")));
    assert_eq!(pos, 1);
    assert_eq!(e.reason, "Unclosed string delimiter");
}

#[test]
fn member_missing_colon() {
    let (pos, e) = hard(member(at("\"a\" 1")));
    assert_eq!(pos, 4);
    assert_eq!(e.span, 0..1);
    assert_eq!(e.reason, "Expected a `:`");
    let (pos, e) = hard(member(at("\"a\"")));
    assert_eq!(pos, 3);
    assert_eq!(e.reason, "Expected a `:`");
}

#[test]
fn member_missing_value() {
    let (pos, e) = hard(member(at("\"a\": }")));
    assert_eq!(pos, 5);
    assert_eq!(e.reason, "Missing a value after `:`");
    let (pos, e) = hard(member(at("\"a\":")));
    assert_eq!(pos, 4);
    assert_eq!(e.reason, "Missing a value after `:`");
}

#[test]
fn member_hands_on_a_committed_failure_of_its_value() {
    let (pos, e) = hard(member(at("\"a\": [1 2]")));
    assert_eq!(pos, 8);
    assert_eq!(e.reason, "Unexpected character `2`");
    let (_, e) = hard(member(at("\"num\": fals,")));
    assert_eq!(e.reason, "Expected either true, false or null, found fals");
}

#[test]
fn object_keeps_order_and_duplicates() {
    let (rest, o) = object(at("{\"b\": 1,\"a\": 2,\"b\": 3 }")).unwrap();
    assert_eq!(
        o.members,
        vec![
            entry("b", JsonValue::Number(1)),
            entry("a", JsonValue::Number(2)),
            entry("b", JsonValue::Number(3)),
        ]
    );
    assert_eq!(rest.rem, "");
}

#[test]
fn object_empty_is_accepted() {
    let (rest, o) = object(at("{}")).unwrap();
    assert_eq!(o.members, vec![]);
    assert_eq!(rest, Remaining::new("", 2));
    let (rest, o) = object(at("{ \t}x")).unwrap();
    assert_eq!(o.members, vec![]);
    assert_eq!(rest, Remaining::new("x", 4));
}

#[test]
fn object_without_brace_is_recoverable() {
    let (stopped, e) = soft(object(at("[1]")));
    assert_eq!(stopped, at("[1]"));
    assert_eq!(e.reason, "Expected `{` found `[1]`");
}

#[test]
fn object_forgotten_comma() {
    let (pos, e) = hard(object(at("{\"a\": 1 \"b\": 2}")));
    assert_eq!(pos, 8);
    assert_eq!(e.reason, "Expected a `}`, found a string\n\nHelp: You probably forgot a `,` here");
}

#[test]
fn object_blank_in_front_of_a_comma() {
    let (pos, e) = hard(object(at("{\"a\": 1 , \"b\": 2}")));
    assert_eq!(pos, 8);
    assert_eq!(
        e.reason,
        "Expected a `}`, found a `,`\n\nHelp: Trailing comma aren't allowed in json"
    );
}

#[test]
fn object_anything_else_in_place_of_the_closing_brace() {
    let (pos, e) = hard(object(at("{\"a\": 1 ] x, y")));
    assert_eq!(pos, 8);
    assert_eq!(e.span, 0..6);
    assert_eq!(e.reason, "Expected a `}`, found `] x`");
}

#[test]
fn object_unclosed_at_end_of_input_is_committed() {
    let (pos, e) = hard(object(at("{\"a\": 1")));
    assert_eq!(pos, 7);
    assert_eq!(e.reason, "Expected a `}`, found ``");
    let (pos, e) = hard(object(at("{\"a\": [1, 2")));
    assert_eq!(pos, 11);
    assert_eq!(e.reason, "Unexpected end of input");
    let (pos, _) = hard(object(at("{")));
    assert_eq!(pos, 1);
}

#[test]
fn nested_document() {
    let input = "{\n    \"num\": 12,\n    \"str\": \"abc\",\n    \"obj\": {\n        \"array\": [1,2,3]\n    }\n}";
    let o = json(input).unwrap();
    assert_eq!(
        o,
        JsonObject {
            members: vec![
                entry("num", JsonValue::Number(12)),
                entry("str", text("abc")),
                entry(
                    "obj",
                    JsonValue::Object(JsonObject {
                        members: vec![entry(
                            "array",
                            JsonValue::Array(vec![
                                JsonValue::Number(1),
                                JsonValue::Number(2),
                                JsonValue::Number(3),
                            ])
                        )]
                    })
                ),
            ]
        }
    );
}

#[test]
fn document_with_an_unknown_keyword() {
    let input = "\n{\n    \"num\": fals,\n    \"str\": \"abc\",\n    \"obj\": {\n        \"array\": [1,2,3]\n    }\n}";
    match json(input) {
        Err(JsonFailure::Syntax(JsonError::Unsavable(pos, e))) => {
            assert_eq!(pos, 13);
            assert_eq!(e.reason, "Expected either true, false or null, found fals");
        }
        other => panic!("{:?}", other),
    }
}

#[test]
fn parsed_structure_matches_the_literal_field_by_field() {
    let o = json("{\"s\": \"text\", \"n\": 7, \"a\": [true, false, null], \"o\": {\"k\": []}}")
        .unwrap();
    assert_eq!(o.members.len(), 4);
    assert_eq!(o.members[0].identifier, "s");
    assert_eq!(o.members[0].value, text("text"));
    assert_eq!(o.members[1].identifier, "n");
    assert_eq!(o.members[1].value, JsonValue::Number(7));
    assert_eq!(o.members[2].identifier, "a");
    assert_eq!(
        o.members[2].value,
        JsonValue::Array(vec![JsonValue::True, JsonValue::False, JsonValue::Null])
    );
    assert_eq!(o.members[3].identifier, "o");
    match &o.members[3].value {
        JsonValue::Object(inner) => {
            assert_eq!(inner.members.len(), 1);
            assert_eq!(inner.members[0].identifier, "k");
            assert_eq!(inner.members[0].value, JsonValue::Array(vec![]));
        }
        other => panic!("{:?}", other),
    }
}

#[test]
fn two_members_in_order() {
    let o = json("{\"a\": 1, \"b\": \"x\"}").unwrap();
    assert_eq!(o.members.len(), 2);
    assert_eq!(o.members[0], entry("a", JsonValue::Number(1)));
    assert_eq!(o.members[1], entry("b", text("x")));
}

#[test]
fn trailing_comma_is_committed() {
    match json("{\"a\": 1,}") {
        Err(JsonFailure::Syntax(JsonError::Unsavable(pos, e))) => {
            assert_eq!(pos, 8);
            assert_eq!(
                e.reason,
                "Expected a string, found `}`\n\nHelp: Trailing comma aren't allowed in json"
            );
        }
        other => panic!("{:?}", other),
    }
}

#[test]
fn number_as_key_is_named() {
    match json("{1: 2}") {
        Err(JsonFailure::Syntax(JsonError::Unsavable(pos, e))) => {
            assert_eq!(pos, 1);
            assert!(e.reason.starts_with("Expected a string, found a number"));
        }
        other => panic!("{:?}", other),
    }
}

#[test]
fn unterminated_string_is_anchored_at_its_quote() {
    match json("{\"a\": \"unterminated") {
        Err(JsonFailure::Syntax(JsonError::Unsavable(pos, e))) => {
            assert_eq!(pos, 6);
            assert_eq!(e.reason, "Unclosed string delimiter");
        }
        other => panic!("{:?}", other),
    }
}

#[test]
fn leftover_input_is_reported() {
    match json("{\"a\": 1} trailing") {
        Err(JsonFailure::Leftover(rest)) => {
            assert_eq!(rest, Remaining::new(" trailing", 8));
        }
        other => panic!("{:?}", other),
    }
}

#[test]
fn json_trims_the_input_and_counts_from_the_first_byte_kept() {
    assert_eq!(json(" \n {\"a\": 1} \n").unwrap().members, vec![entry("a", JsonValue::Number(1))]);
    match json("  {\"a\" 1}") {
        Err(JsonFailure::Syntax(JsonError::Unsavable(pos, _))) => assert_eq!(pos, 5),
        other => panic!("{:?}", other),
    }
}

#[test]
fn json_rejects_what_is_no_object() {
    match json("[1]") {
        Err(JsonFailure::Syntax(JsonError::Failure(stopped, e))) => {
            assert_eq!(stopped, at("[1]"));
            assert_eq!(e.reason, "Expected `{` found `[1]`");
        }
        other => panic!("{:?}", other),
    }
    assert!(matches!(json(""), Err(JsonFailure::Syntax(JsonError::Failure(_, _)))));
}

#[test]
fn closing_delimiter_replaced_by_end_of_input_is_committed() {
    for input in ["{\"a\": 1", "{\"a\": [1", "{\"a\": \"x", "{\"a\": {\"b\": 2", "{\"a\": [[1]"] {
        assert!(
            matches!(json(input), Err(JsonFailure::Syntax(JsonError::Unsavable(_, _)))),
            "{}",
            input
        );
    }
}

/// The text of a document without any blank, as a reader would write it down.
fn written(v: &JsonValue) -> String {
    match v {
        JsonValue::String(s) => format!("\"{}\"", s),
        JsonValue::Number(n) => format!("{}", n),
        JsonValue::Array(items) => {
            let parts: Vec<String> = items.iter().map(written).collect();
            format!("[{}]", parts.join(","))
        }
        JsonValue::True => "true".to_string(),
        JsonValue::False => "false".to_string(),
        JsonValue::Null => "null".to_string(),
        JsonValue::Object(o) => written_object(o),
    }
}

fn written_object(o: &JsonObject) -> String {
    let parts: Vec<String> =
        o.members.iter().map(|m| format!("\"{}\":{}", m.identifier, written(&m.value))).collect();
    format!("{{{}}}", parts.join(","))
}

#[test]
fn written_documents_are_parsed_back() {
    let inner = JsonObject {
        members: vec![
            entry("é", JsonValue::Array(vec![])),
            entry("", JsonValue::Object(JsonObject { members: vec![] })),
            entry("dup", JsonValue::Number(0)),
            entry("dup", JsonValue::Number(isize::MAX)),
        ],
    };
    let document = JsonObject {
        members: vec![
            entry("text", text("plain € text")),
            entry("n", JsonValue::Number(42)),
            entry(
                "list",
                JsonValue::Array(vec![
                    JsonValue::True,
                    JsonValue::Array(vec![JsonValue::Array(vec![JsonValue::Number(7)])]),
                    JsonValue::False,
                    JsonValue::Null,
                    text(""),
                ]),
            ),
            entry("inner", JsonValue::Object(inner)),
        ],
    };
    let input = written_object(&document);
    assert_eq!(json(&input), Ok(document));
    assert_eq!(json("{}"), Ok(JsonObject { members: vec![] }));
}
