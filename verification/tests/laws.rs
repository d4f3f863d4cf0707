use partial_json_fixer::{fix_json, fix_json_parse, JsonError, JsonTokenKind, JsonUnit, JsonValue};

fn parses(text: &str) -> bool {
    serde_json::from_str::<serde_json::Value>(text).is_ok()
}

fn prefixes(doc: &str) -> Vec<&str> {
    let mut out: Vec<&str> = doc.char_indices().map(|(i, _)| &doc[..i]).collect();
    out.push(doc);
    out
}

const DOCS: [&str; 6] = [
    r#"{"a": [1, {"b": "c\"d", "e": [true, null]}], "f": -12.5e+3}"#,
    r#"[[], {}, [[0]], {"k": {"l": []}}, "x\\y", false]"#,
    r#" { "w" :	"v\u00e9" , "n" : 0.25 } "#,
    "-0.5E-10",
    "\"top\"",
    "[\"\u{1f643}\", 7]",
];

#[test]
fn every_prefix_of_nested_documents_is_completed_to_json() {
    for doc in DOCS {
        for partial in prefixes(doc) {
            let fixed = fix_json(partial);
            assert!(parses(&fixed), "fix_json({partial:?}) = {fixed:?} does not parse");
        }
    }
}

#[test]
fn whole_documents_are_returned_unchanged() {
    for doc in DOCS {
        assert_eq!(fix_json(doc), doc);
    }
    assert_eq!(fix_json("12"), "12");
    assert_eq!(fix_json(" [ ] "), " [ ] ");
}

#[test]
fn fixing_twice_changes_nothing_more() {
    for doc in DOCS {
        for partial in prefixes(doc) {
            let once = fix_json(partial);
            assert_eq!(fix_json(&once), once);
        }
    }
}

#[test]
fn only_an_incomplete_end_is_cut_and_closers_appended() {
    for doc in DOCS {
        for partial in prefixes(doc) {
            let fixed = fix_json(partial);
            if fixed == "null" {
                continue;
            }
            let kept = fixed
                .chars()
                .zip(partial.chars())
                .take_while(|(a, b)| a == b)
                .count();
            assert!(
                fixed.chars().skip(kept).all(|c| "}]\": nul".contains(c)),
                "fix_json({partial:?}) = {fixed:?}"
            );
            assert!(!fixed.trim().is_empty());
        }
    }
}

#[test]
fn nested_cut_inside_a_string_is_closed() {
    assert_eq!(fix_json(r#"{"a": [1, {"b": "c"#), r#"{"a": [1, {"b": "c"}]}"#);
}

#[test]
fn cut_inside_an_array_string_escape() {
    assert_eq!(fix_json("[\"a\\"), "[\"a\"]");
    assert_eq!(fix_json("\"ab\\u12"), "\"ab\"");
}

#[test]
fn cut_number_in_array_drops_the_separator() {
    assert_eq!(fix_json("[1, -"), "[1]");
    assert_eq!(fix_json("[1, 2e+"), "[1, 2]");
    assert_eq!(fix_json("[-"), "[]");
    assert_eq!(fix_json("-"), "null");
}

#[test]
fn unicode_white_space_after_a_comma_is_trimmed() {
    assert_eq!(fix_json("[1,\u{a0}"), "[1]");
}

#[test]
fn a_key_without_colon_gets_null() {
    assert_eq!(fix_json("{\"a\": 1, \"b\""), "{\"a\": 1, \"b\": null}");
}

#[test]
fn numbers_alone_are_read_and_written_back() {
    for input in ["0", "-0", "1.5e-7", "12E+3", "123456789012345678901234567890"] {
        let value = fix_json_parse(input).unwrap();
        assert!(matches!(value, JsonValue::Unit(JsonUnit::Number(n)) if n == input));
        assert_eq!(value.to_string(), input);
    }
}

#[test]
fn a_bare_token_running_into_a_letter_is_null() {
    let value = fix_json_parse("1\u{e9}").unwrap();
    assert!(matches!(value, JsonValue::Unit(JsonUnit::Null)));
    assert_eq!(value.to_string(), "null");
}

#[test]
fn literals_are_read() {
    assert!(matches!(fix_json_parse(" true").unwrap(), JsonValue::Unit(JsonUnit::True)));
    assert!(matches!(fix_json_parse("false").unwrap(), JsonValue::Unit(JsonUnit::False)));
    assert_eq!(fix_json_parse("[true, false, null]").unwrap().to_string(), "[true, false, null]");
}

#[test]
fn an_empty_text_is_an_unexpected_end() {
    let err = fix_json_parse("").unwrap_err();
    assert!(matches!(err, JsonError::UnexpectedEnd));
    assert_eq!(err.to_string(), "Unexpected end of input");
}

#[test]
fn a_closer_where_a_value_should_be() {
    let err = fix_json_parse("  }").unwrap_err();
    match err {
        JsonError::ExpectedToken { got, expected } => {
            assert!(matches!(got.kind, JsonTokenKind::ClosingBrace));
            assert_eq!(got.span.start, 2);
            assert_eq!(got.span.end, 3);
            assert!(expected.is_none());
        }
        other => panic!("unexpected {other:?}"),
    }
    assert_eq!(fix_json_parse("  }").unwrap_err().to_string(), "Unexpected token ClosingBrace at char 2");
}

#[test]
fn a_missing_comma_in_an_array() {
    let err = fix_json_parse("[1 2]").unwrap_err();
    assert_eq!(err.to_string(), "Expected token ClosingSquareBracket at char 3, got Number");
}

#[test]
fn a_missing_comma_in_an_object() {
    let err = fix_json_parse("{\"a\": 1 2}").unwrap_err();
    assert_eq!(err.to_string(), "Expected token ClosingBrace at char 8, got Number");
}

#[test]
fn cut_parses_fill_in_nulls() {
    assert_eq!(fix_json_parse("{\"a\": tru").unwrap().to_string(), "{\"a\": null}");
    assert_eq!(fix_json_parse("{\"a\":").unwrap().to_string(), "{\"a\": null}");
    assert_eq!(fix_json_parse("{\"a\"").unwrap().to_string(), "{\"a\": null}");
}

#[test]
fn an_unterminated_string_is_closed() {
    assert_eq!(fix_json_parse(r#"{"key": "val"#).unwrap().to_string(), r#"{"key": "val"}"#);
    assert!(parses(&fix_json_parse(r#"{"key": "val"#).unwrap().to_string()));
    assert_eq!(fix_json_parse("[\"a").unwrap().to_string(), "[\"a\"]");
    // A last quote that a backslash escapes is content, not the end.
    assert_eq!(fix_json_parse(r#"["a\""#).unwrap().to_string(), r#"["a\""]"#);
    assert_eq!(fix_json_parse(r#"["a\"", 1]"#).unwrap().to_string(), r#"["a\"", 1]"#);
}

#[test]
fn one_character_left_ends_an_array() {
    assert_eq!(fix_json_parse("[1").unwrap().to_string(), "[]");
    assert_eq!(fix_json_parse("[1,2").unwrap().to_string(), "[1]");
    assert_eq!(fix_json_parse("[1, 2").unwrap().to_string(), "[1, 2]");
    // The last character is read, so the enclosing array goes on after it.
    assert_eq!(fix_json_parse("[[], {}, [[").unwrap().to_string(), "[[], {}, []]");
    assert_eq!(fix_json_parse("{\"a\": {\"").unwrap().to_string(), "{\"a\": {}}");
}

#[test]
fn empty_containers_are_read() {
    assert_eq!(fix_json_parse("{}").unwrap().to_string(), "{}");
    assert_eq!(fix_json_parse("[]").unwrap().to_string(), "[]");
    match fix_json_parse("[[1, 2], {\"a\": \"b\"}]").unwrap() {
        JsonValue::Array(array) => {
            assert_eq!(array.members.len(), 2);
            assert_eq!(array.to_string(), "[[1, 2], {\"a\": \"b\"}]");
            match &array.members[1] {
                JsonValue::Object(object) => assert_eq!(object.to_string(), "{\"a\": \"b\"}"),
                other => panic!("unexpected {other:?}"),
            }
        }
        other => panic!("unexpected {other:?}"),
    }
}

#[test]
fn lenient_unquoted_keys_are_accepted() {
    let value = fix_json_parse("{key: \"value\"}").unwrap();
    assert_eq!(value.to_string(), "{null: \"value\"}");
    assert_eq!(fix_json("{key: \"value\""), "{key: \"value\"");
}

#[test]
fn written_text_reads_back() {
    for input in [
        "[1, [2.5, []]]",
        "{\"a\": {\"b\": {}}}",
        "{\"k\": true, \"1\": [false, \"x\\\"y\"]}",
        "{1: 2, true: null}",
        "[]",
        "\"\"",
    ] {
        let value = fix_json_parse(input).unwrap();
        assert_eq!(value.to_string(), input);
        assert_eq!(fix_json_parse(&value.to_string()).unwrap().to_string(), input);
    }
}

#[test]
fn empty_containers_anywhere_are_read_whole() {
    for input in ["[[], 1]", "{\"a\": {}, \"b\": 1}", "{\"a\": []}", "[{}, [], {\"c\": [[], {}]}]"] {
        assert_eq!(fix_json_parse(input).unwrap().to_string(), input);
    }
    assert_eq!(fix_json_parse("[1,]").unwrap().to_string(), "[1]");
}

#[test]
fn spans_count_bytes() {
    let err = fix_json_parse("\u{a0}]").unwrap_err();
    match err {
        JsonError::ExpectedToken { got, expected } => {
            assert!(matches!(got.kind, JsonTokenKind::ClosingSquareBracket));
            assert_eq!(got.span.start, 2);
            assert_eq!(got.span.end, 3);
            assert!(expected.is_none());
        }
        other => panic!("unexpected {other:?}"),
    }
    assert_eq!(fix_json_parse("\u{a0}]").unwrap_err().to_string(), "Unexpected token ClosingSquareBracket at char 2");
    assert_eq!(
        fix_json_parse("[\"\u{e9}\u{1f643}\" 1]").unwrap_err().to_string(),
        "Expected token ClosingSquareBracket at char 10, got Number"
    );
    let value = fix_json_parse("{\"\u{e9}t\u{e9}\": \"\u{1f643}\", \"k\": 1}").unwrap();
    assert_eq!(value.to_string(), "{\"\u{e9}t\u{e9}\": \"\u{1f643}\", \"k\": 1}");
}

/// Whether a prefix of a JSON text ends in the middle of a number, a literal
/// or an escape sequence.
fn ends_inside_a_token(p: &str) -> bool {
    let mut in_string = false;
    let mut escape_left = 0usize;
    for c in p.chars() {
        if in_string {
            if escape_left > 0 {
                if escape_left == 5 && c == 'u' {
                    escape_left = 4;
                } else if escape_left == 5 {
                    escape_left = 0;
                } else {
                    escape_left -= 1;
                }
            } else if c == '\\' {
                escape_left = 5;
            } else if c == '"' {
                in_string = false;
            }
        } else if c == '"' {
            in_string = true;
        }
    }
    if in_string {
        return escape_left > 0;
    }
    match p.trim_end().chars().last() {
        Some(c) => c.is_ascii_alphanumeric() || matches!(c, '.' | '+' | '-'),
        None => true,
    }
}

#[test]
fn parsing_a_cut_text_gives_a_complete_json_value() {
    for doc in DOCS {
        for p in prefixes(doc) {
            if p.trim().is_empty() || ends_inside_a_token(p) {
                continue;
            }
            let value = fix_json_parse(p).unwrap();
            assert!(parses(&value.to_string()), "{p:?} gave {}", value.to_string());
        }
    }
}

#[test]
fn a_text_cut_inside_an_escape_is_left_open() {
    // Cut inside an escape, the content keeps its pending backslash.
    assert_eq!(fix_json_parse("[\"a\\").unwrap().to_string(), "[\"a\\\"]");
    assert!(!parses(&fix_json_parse("[\"a\\").unwrap().to_string()));
    assert!(fix_json_parse(" \n").is_err());
}
