use json_parsec::parsec::combinator::branch::{alternative, sequence};
use json_parsec::parsec::combinator::character::{digit, label, starts_with, string, to_digit};
use json_parsec::parsec::combinator::multi::{many, many1};
use json_parsec::parsec::combinator::whitespace::{after_blanks, trim, ws};
use json_parsec::parsec::text::{find_stop, first_width, leading_char, quote, take_text};
use json_parsec::{JsonError, ParserError, Remaining};

fn at(text: &str) -> Remaining<'_> {
    Remaining::new(text, 0)
}

#[test]
fn cursor_new_keeps_text_and_position() {
    let c = Remaining::new("abc", 7);
    assert_eq!(c.rem, "abc");
    assert_eq!(c.pos, 7);
    assert_eq!(c.rem_len(), 3);
}

#[test]
fn cursor_length_counts_bytes() {
    assert_eq!(at("é€").rem_len(), 5);
    assert_eq!(at("").rem_len(), 0);
}

#[test]
fn cursor_advance_returns_a_new_cursor() {
    let c = Remaining::new("hello", 10);
    let d = c.advance(2);
    assert_eq!(d, Remaining::new("llo", 12));
    assert_eq!(c, Remaining::new("hello", 10));
    assert_eq!(c.advance(5), Remaining::new("", 15));
    assert_eq!(c.advance(0), c);
}

#[test]
fn error_rem_gives_the_cursor_of_a_recoverable_failure() {
    let e = JsonError::Failure(Remaining::new("x", 3), ParserError::new(0..1, "m".to_string()));
    assert_eq!(e.rem(), Remaining::new("x", 3));
}

#[test]
fn parser_error_set_reason_keeps_the_span() {
    let mut e = ParserError::new(2..5, "first".to_string());
    e.set_reason("second".to_string());
    assert_eq!(e.span, 2..5);
    assert_eq!(e.reason, "second");
}

#[test]
fn text_helpers() {
    assert_eq!(find_stop("ab\ncd", false), 2);
    assert_eq!(find_stop("ab,cd", false), 5);
    assert_eq!(find_stop("ab,cd", true), 2);
    assert_eq!(find_stop("", true), 0);
    assert_eq!(quote("one, two\nthree", true), "one");
    assert_eq!(quote("one, two\nthree", false), "one, two");
    assert_eq!(take_text("héllo", 3), "hé");
    assert_eq!(first_width("a"), 1);
    assert_eq!(first_width("é"), 2);
    assert_eq!(first_width("€"), 3);
    assert_eq!(first_width("😀"), 4);
    assert_eq!(leading_char("€uro"), '€');
    assert!(starts_with("abc", "ab"));
    assert!(starts_with("abc", ""));
    assert!(!starts_with("abc", "abcd"));
    assert!(!starts_with("abc", "b"));
}

#[test]
fn label_consumes_exactly_the_pattern() {
    let (rest, found) = label("true", Remaining::new("true,1", 4)).unwrap();
    assert_eq!(found, "true");
    assert_eq!(rest, Remaining::new(",1", 8));
}

#[test]
fn label_is_case_sensitive() {
    assert!(label("true", at("True")).is_err());
}

#[test]
fn label_mismatch_is_recoverable_and_quotes_the_line() {
    let start = Remaining::new("fals, 1\nnext", 9);
    match label("false", start) {
        Err(JsonError::Failure(stopped, e)) => {
            assert_eq!(stopped, start);
            assert_eq!(e.span, 0..7);
            assert_eq!(e.reason, "Expected `false` found `fals, 1`");
        }
        other => panic!("{:?}", other),
    }
}

#[test]
fn label_on_too_short_input_is_recoverable() {
    match label("null", at("nu")) {
        Err(JsonError::Failure(stopped, e)) => {
            assert_eq!(stopped, at("nu"));
            assert_eq!(e.span, 0..2);
            assert_eq!(e.reason, "Expected `null` found `nu`");
        }
        other => panic!("{:?}", other),
    }
}

#[test]
fn label_with_a_multi_byte_pattern() {
    let (rest, found) = label("é", at("été")).unwrap();
    assert_eq!(found, "é");
    assert_eq!(rest, Remaining::new("té", 2));
}

#[test]
fn to_digit_values() {
    assert_eq!(to_digit('0'), Some(0));
    assert_eq!(to_digit('9'), Some(9));
    assert_eq!(to_digit('a'), Some(10));
    assert_eq!(to_digit('F'), Some(15));
    assert_eq!(to_digit('z'), Some(35));
    assert_eq!(to_digit('-'), None);
    assert_eq!(to_digit('é'), None);
}

#[test]
fn digit_consumes_one_character() {
    let (rest, c) = digit(10, Remaining::new("42", 5)).unwrap();
    assert_eq!(c, '4');
    assert_eq!(rest, Remaining::new("2", 6));
}

#[test]
fn digit_depends_on_the_base() {
    assert!(digit(16, at("f")).is_ok());
    assert!(digit(16, at("F")).is_ok());
    assert!(digit(10, at("f")).is_err());
    assert!(digit(2, at("2")).is_err());
    assert!(digit(36, at("z")).is_ok());
}

#[test]
fn digit_failure_names_the_character() {
    match digit(10, at("x1")) {
        Err(JsonError::Failure(stopped, e)) => {
            assert_eq!(stopped, at("x1"));
            assert_eq!(e.span, 0..1);
            assert_eq!(e.reason, "x is not a digit");
        }
        other => panic!("{:?}", other),
    }
    match digit(10, at("€1")) {
        Err(JsonError::Failure(_, e)) => {
            assert_eq!(e.span, 0..3);
            assert_eq!(e.reason, "€ is not a digit");
        }
        other => panic!("{:?}", other),
    }
}

#[test]
fn digit_on_empty_input() {
    match digit(10, at("")) {
        Err(JsonError::Failure(stopped, e)) => {
            assert_eq!(stopped, at(""));
            assert_eq!(e.span, 0..0);
            assert_eq!(e.reason, "Expected a digit, found nothing");
        }
        other => panic!("{:?}", other),
    }
}

#[test]
fn string_returns_the_text_between_the_quotes() {
    let (rest, text) = string(Remaining::new("\"abc\": 1", 2)).unwrap();
    assert_eq!(text, "abc");
    assert_eq!(rest, Remaining::new(": 1", 7));
}

#[test]
fn string_may_be_empty() {
    let (rest, text) = string(at("\"\"x")).unwrap();
    assert_eq!(text, "");
    assert_eq!(rest, Remaining::new("x", 2));
}

#[test]
fn string_keeps_escapes_as_written() {
    let (rest, text) = string(at("\"a\\\"b\\n\" tail")).unwrap();
    assert_eq!(text, "a\\\"b\\n");
    assert_eq!(rest, Remaining::new(" tail", 8));
}

#[test]
fn string_with_multi_byte_characters() {
    let (rest, text) = string(at("\"é€\"!")).unwrap();
    assert_eq!(text, "é€");
    assert_eq!(rest, Remaining::new("!", 7));
}

#[test]
fn string_a_backslash_escapes_the_next_character_even_after_a_backslash() {
    // Every backslash escapes what follows it, so the quote is not a closing one.
    match string(at("\"a\\\\\"")) {
        Err(JsonError::Unsavable(pos, e)) => {
            assert_eq!(pos, 0);
            assert_eq!(e.reason, "Unclosed string delimiter");
        }
        other => panic!("{:?}", other),
    }
}

#[test]
fn string_an_escaped_newline_does_not_end_the_scan() {
    let (_, text) = string(at("\"a\\\nb\"")).unwrap();
    assert_eq!(text, "a\\\nb");
}

#[test]
fn string_without_opening_quote_is_recoverable() {
    match string(at("abc")) {
        Err(JsonError::Failure(stopped, e)) => {
            assert_eq!(stopped, at("abc"));
            assert_eq!(e.reason, "Expected `\"` found `abc`");
        }
        other => panic!("{:?}", other),
    }
}

#[test]
fn string_unclosed_at_end_of_input_is_committed() {
    match string(Remaining::new("\"abc", 6)) {
        Err(JsonError::Unsavable(pos, e)) => {
            assert_eq!(pos, 6);
            assert_eq!(e.span, 0..4);
            assert_eq!(e.reason, "Unclosed string delimiter");
        }
        other => panic!("{:?}", other),
    }
}

#[test]
fn string_unclosed_at_a_raw_newline_is_committed() {
    match string(Remaining::new("\"ab\ncd\"", 1)) {
        Err(JsonError::Unsavable(pos, e)) => {
            assert_eq!(pos, 1);
            assert_eq!(e.span, 0..3);
            assert_eq!(e.reason, "Unclosed string delimiter");
        }
        other => panic!("{:?}", other),
    }
}

#[test]
fn ws_consumes_the_maximal_run() {
    let (rest, _) = ws(Remaining::new(" \t\n x ", 3)).unwrap();
    assert_eq!(rest, Remaining::new("x ", 7));
}

#[test]
fn ws_may_consume_nothing() {
    let (rest, _) = ws(at("x")).unwrap();
    assert_eq!(rest, at("x"));
    let (rest, _) = ws(at("")).unwrap();
    assert_eq!(rest, at(""));
}

#[test]
fn ws_leaves_a_carriage_return() {
    let (rest, _) = ws(at(" \r\n")).unwrap();
    assert_eq!(rest, Remaining::new("\r\n", 1));
    assert_eq!(after_blanks(at("\n\n")), Remaining::new("", 2));
}

#[test]
fn trim_takes_blanks_off_both_ends() {
    assert_eq!(trim("  \n{ }\t\n"), "{ }");
    assert_eq!(trim("x"), "x");
    assert_eq!(trim(" \t "), "");
    assert_eq!(trim(""), "");
    assert_eq!(trim(" é "), "é");
}

#[test]
fn many_collects_until_the_first_recoverable_failure() {
    let (rest, digits) = many(|c| digit(10, c), at("123abc")).unwrap();
    assert_eq!(digits, vec!['1', '2', '3']);
    assert_eq!(rest, Remaining::new("abc", 3));
}

#[test]
fn many_may_collect_nothing() {
    let (rest, digits) = many(|c| digit(10, c), at("abc")).unwrap();
    assert_eq!(digits, Vec::<char>::new());
    assert_eq!(rest, at("abc"));
}

#[test]
fn many_restores_the_cursor_in_front_of_the_failed_attempt() {
    // "ab" matches twice; the third attempt fails inside, after "a".
    let (rest, found) = many(
        |c| match label("a", c) {
            Ok((next, _)) => label("b", next),
            Err(e) => Err(e),
        },
        at("ababac"),
    )
    .unwrap();
    assert_eq!(found, vec!["b", "b"]);
    assert_eq!(rest, Remaining::new("ac", 4));
}

#[test]
fn many_is_aborted_by_a_committed_failure() {
    match many(|c| string(c), at("\"a\"\"b\"\"c")) {
        Err(JsonError::Unsavable(pos, e)) => {
            assert_eq!(pos, 6);
            assert_eq!(e.reason, "Unclosed string delimiter");
        }
        other => panic!("{:?}", other),
    }
}

#[test]
fn many_ends_on_a_success_that_consumes_nothing() {
    let (rest, found) = many(|c| ws(c), at("  x")).unwrap();
    assert_eq!(found.len(), 1);
    assert_eq!(rest, Remaining::new("x", 2));
}

#[test]
fn many1_needs_one_success() {
    let (rest, digits) = many1(|c| digit(10, c), at("7x")).unwrap();
    assert_eq!(digits, vec!['7']);
    assert_eq!(rest, Remaining::new("x", 1));
    match many1(|c| digit(10, c), at("x7")) {
        Err(JsonError::Failure(stopped, e)) => {
            assert_eq!(stopped, at("x7"));
            assert_eq!(e.reason, "x is not a digit");
        }
        other => panic!("{:?}", other),
    }
}

#[test]
fn many1_keeps_the_order() {
    let (_, digits) = many1(|c| digit(10, c), at("9081")).unwrap();
    assert_eq!(digits, vec!['9', '0', '8', '1']);
}

#[test]
fn many1_hands_on_a_committed_failure() {
    assert!(matches!(many1(|c| string(c), at("\"a")), Err(JsonError::Unsavable(0, _))));
    assert!(matches!(many1(|c| string(c), at("\"a\"\"b")), Err(JsonError::Unsavable(3, _))));
}

#[test]
fn sequence_runs_the_second_on_what_the_first_left() {
    let (rest, (a, b)) = sequence(|c| label("ab", c), |c| digit(10, c), at("ab1!")).unwrap();
    assert_eq!(a, "ab");
    assert_eq!(b, '1');
    assert_eq!(rest, Remaining::new("!", 3));
}

#[test]
fn sequence_keeps_the_tier_of_a_failure() {
    // The first stage fails recoverably.
    assert!(matches!(
        sequence(|c| label("ab", c), |c| digit(10, c), at("xb1")),
        Err(JsonError::Failure(_, _))
    ));
    // The second stage fails recoverably, at its own cursor.
    match sequence(|c| label("ab", c), |c| digit(10, c), at("abx")) {
        Err(JsonError::Failure(stopped, _)) => assert_eq!(stopped, Remaining::new("x", 2)),
        other => panic!("{:?}", other),
    }
    // The second stage fails for good.
    assert!(matches!(
        sequence(|c| label("k", c), |c| string(c), at("k\"x")),
        Err(JsonError::Unsavable(1, _))
    ));
    // The first stage fails for good.
    assert!(matches!(
        sequence(|c| string(c), |c| label("k", c), at("\"x")),
        Err(JsonError::Unsavable(0, _))
    ));
}

#[test]
fn alternative_returns_the_first_success() {
    let (rest, found) = alternative(|c| label("a", c), |c| label("ab", c), at("abc")).unwrap();
    assert_eq!(found, "a");
    assert_eq!(rest, Remaining::new("bc", 1));
}

#[test]
fn alternative_tries_the_second_from_the_same_cursor() {
    // The first branch fails only behind "a"; the second starts at "a" again.
    let first = |c| match label("a", c) {
        Ok((next, _)) => label("x", next),
        Err(e) => Err(e),
    };
    let (rest, found) = alternative(first, |c| label("ab", c), Remaining::new("abc", 4)).unwrap();
    assert_eq!(found, "ab");
    assert_eq!(rest, Remaining::new("c", 6));
}

#[test]
fn alternative_returns_the_failure_of_the_second() {
    match alternative(|c| label("a", c), |c| label("b", c), at("c")) {
        Err(JsonError::Failure(_, e)) => assert_eq!(e.reason, "Expected `b` found `c`"),
        other => panic!("{:?}", other),
    }
}

#[test]
fn alternative_does_not_try_a_sibling_after_a_committed_failure() {
    // The string commits behind its opening quote and fails; the literal
    // would match the same text.
    let text = "\"abc";
    assert!(label("\"abc", at(text)).is_ok());
    match alternative(|c| string(c), |c| label("\"abc", c), at(text)) {
        Err(JsonError::Unsavable(pos, e)) => {
            assert_eq!(pos, 0);
            assert_eq!(e.reason, "Unclosed string delimiter");
        }
        other => panic!("{:?}", other),
    }
}
