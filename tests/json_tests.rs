use json_rs::json::{
    parse_json_array, parse_json_bool, parse_json_map, parse_json_null, parse_json_number,
    parse_json_string, parse_json_value, ErrorKind, JSONObject, Numeral,
};

fn number_value(v: &JSONObject) -> f64 {
    match v {
        JSONObject::Number(n) => n.text().parse().unwrap(),
        _ => panic!("Parsed value is not a JSONObject::Number"),
    }
}

fn whole(digits: &[u8]) -> JSONObject {
    JSONObject::Number(Numeral {
        negative: false,
        integer: digits.to_vec(),
        fraction: vec![],
        exp_negative: false,
        exponent: vec![],
    })
}

fn string(s: &str) -> JSONObject {
    JSONObject::String(s.to_string())
}

#[test]
fn test_parse_json_number_valid() {
    let cases = vec![
        ("42", 42.0, ""),
        ("-3.14", -3.14, ""),
        ("0.001", 0.001, ""),
        ("1e6", 1e6, ""),
        ("-2.5E-3", -0.0025, ""),
        ("123.456e+2", 12345.6, ""),
        ("12a", 12.0, "a"),
        ("7.89xyz", 7.89, "xyz"),
        ("-0.5abc", -0.5, "abc"),
    ];

    for (input, expected_value, expected_remaining) in cases {
        let result = parse_json_number(input);
        assert!(result.is_ok(), "Parsing '{}' failed with error: {:?}", input, result);
        let (remaining, json_number) = result.unwrap();
        assert_eq!(
            remaining, expected_remaining,
            "Input '{}' was not parsed correctly. Expected remaining '{}', got '{}'",
            input, expected_remaining, remaining
        );
        let n = number_value(&json_number);
        assert!(
            (n - expected_value).abs() < f64::EPSILON,
            "Parsed value {} does not match expected {}",
            n,
            expected_value
        );
    }
}

#[test]
fn test_parse_json_number_invalid() {
    let cases = vec!["abc", "--5", "..12", ""];

    for input in cases {
        let result = parse_json_number(input);
        assert!(result.is_err(), "Invalid input '{}' was parsed successfully: {:?}", input, result);
    }
}

#[test]
fn test_parse_json_string() {
    let cases = vec![
        (r#"simple"#, "simple"),
        (r#"hello \"world\""#, "hello \"world\""),
        (r#"line\nbreak"#, "line\nbreak"),
        (r#"tab\tindent"#, "tab\tindent"),
        (r#"backslash\\test"#, "backslash\\test"),
        (r#"mix \" of \\ all \n escapes"#, "mix \" of \\ all \n escapes"),
        (r#"quote: \" and backslash: \\"#, "quote: \" and backslash: \\"),
    ];

    for (input, expected) in cases {
        let formatted = format!("\"{}\"", input);
        let result = parse_json_string(&formatted);
        assert!(result.is_ok(), "Parsing '{}' failed with error: {:?}", input, result);
        let (remaining, json_string) = result.unwrap();
        assert_eq!(remaining, "", "Input '{}' was not fully consumed", input);
        match json_string {
            JSONObject::String(s) => {
                assert_eq!(s, expected, "Parsed value '{}' does not match expected '{}'", s, expected);
            }
            _ => panic!("Parsed value is not a JSONObject::String"),
        }
    }
}

#[test]
fn test_parse_json_null() {
    let result = parse_json_null("null");
    assert!(result.is_ok(), "Expected Ok for 'null'");
    let (remaining, value) = result.unwrap();
    assert_eq!(remaining, "", "Expected no remaining input");
    match value {
        JSONObject::Null => {}
        _ => panic!("Expected JSONObject::Null"),
    }

    let invalid_inputs = vec!["nul", "NULL", "nill", "none", "Null", "nan"];
    for input in invalid_inputs {
        assert!(parse_json_null(input).is_err(), "Expected error for '{}'", input);
    }
}

#[test]
fn test_parse_json_bool() {
    let true_result = parse_json_bool("true");
    assert!(true_result.is_ok(), "Expected Ok for 'true'");
    let (remaining, value) = true_result.unwrap();
    assert_eq!(remaining, "", "Expected no remaining input");
    assert_eq!(value, JSONObject::Bool(true));

    let false_result = parse_json_bool("false");
    assert!(false_result.is_ok(), "Expected Ok for 'false'");
    let (remaining, value) = false_result.unwrap();
    assert_eq!(remaining, "", "Expected no remaining input");
    assert_eq!(value, JSONObject::Bool(false));

    let invalid_inputs = vec!["TRUE", "False", "truth", "fals"];
    for input in invalid_inputs {
        assert!(parse_json_bool(input).is_err(), "Expected error for '{}'", input);
    }
}

#[test]
fn test_parse_json_array() {
    let cases = vec![("[1, 2, 3]", vec![1.0, 2.0, 3.0])];
    for (input, expected) in cases {
        let result = parse_json_array(input);
        assert!(result.is_ok(), "Parsing '{}' failed with error: {:?}", input, result);
        let (remaining, parsed) = result.unwrap();
        assert_eq!(remaining, "", "Expected no remaining input");
        match parsed {
            JSONObject::Array(items) => {
                let values: Vec<f64> = items.iter().map(number_value).collect();
                assert_eq!(values, expected, "Parsed result does not match expected");
            }
            _ => panic!("Parsed result does not match expected"),
        }
    }
}

#[test]
fn test_parse_json_value_all_cases() {
    let cases = vec![
        ("null", JSONObject::Null),
        ("true", JSONObject::Bool(true)),
        ("false", JSONObject::Bool(false)),
        ("42", whole(&[4, 2])),
        (
            "-3.14",
            JSONObject::Number(Numeral {
                negative: true,
                integer: vec![3],
                fraction: vec![1, 4],
                exp_negative: false,
                exponent: vec![],
            }),
        ),
        (r#""hello""#, string("hello")),
        (
            "[true, null, 5]",
            JSONObject::Array(vec![JSONObject::Bool(true), JSONObject::Null, whole(&[5])]),
        ),
        (
            r#"{"a": 1, "b": false}"#,
            JSONObject::Object({
                let mut m = Vec::new();
                m.push(("a".to_string(), whole(&[1])));
                m.push(("b".to_string(), JSONObject::Bool(false)));
                m
            }),
        ),
    ];

    for (input, expected) in cases {
        let result = parse_json_value(input);
        assert!(result.is_ok(), "Parsing '{}' failed with error: {:?}", input, result);
        let (remaining, parsed) = result.unwrap();
        assert_eq!(remaining, "", "Expected no remaining input for '{}'", input);
        assert_eq!(parsed, expected, "Parsed value does not match expected for '{}'", input);
    }
    assert_eq!(number_value(&parse_json_value("42").unwrap().1), 42.0);
    assert_eq!(number_value(&parse_json_value("-3.14").unwrap().1), -3.14);
}

#[test]
fn malformed_inputs_fail() {
    for input in ["--5", ".12", "{unterminated", "[1,2,]"] {
        assert!(parse_json_value(input).is_err(), "'{}' parsed", input);
    }
    assert_eq!(parse_json_value("[1,2,]").unwrap_err().kind, ErrorKind::NoValue);
    assert_eq!(parse_json_value("{unterminated").unwrap_err().kind, ErrorKind::Collection);
    assert_eq!(parse_json_number("--5").unwrap_err().kind, ErrorKind::Number);
}

#[test]
fn error_kinds_and_positions() {
    let e = parse_json_null("nul").unwrap_err();
    assert_eq!((e.kind, e.pos), (ErrorKind::Literal, 0));
    let e = parse_json_string("\"abc").unwrap_err();
    assert_eq!((e.kind, e.pos), (ErrorKind::UnterminatedString, 4));
    let e = parse_json_string(r#""a\qb""#).unwrap_err();
    assert_eq!((e.kind, e.pos), (ErrorKind::InvalidEscape, 2));
    let e = parse_json_string(r#""\u12""#).unwrap_err();
    assert_eq!(e.kind, ErrorKind::InvalidEscape);
    let e = parse_json_array("[1 2]").unwrap_err();
    assert_eq!((e.kind, e.pos), (ErrorKind::Collection, 3));
    let e = parse_json_map("{1: 2}").unwrap_err();
    assert_eq!((e.kind, e.pos), (ErrorKind::Collection, 1));
    let e = parse_json_value("  @").unwrap_err();
    assert_eq!((e.kind, e.pos), (ErrorKind::NoValue, 2));
    let e = parse_json_map("{\"a\" 1}").unwrap_err();
    assert_eq!((e.kind, e.pos), (ErrorKind::Collection, 5));
}

#[test]
fn number_stops_at_longest_prefix() {
    let (rest, v) = parse_json_number("12a").unwrap();
    assert_eq!((rest, v), ("a", whole(&[1, 2])));
    assert_eq!(parse_json_number("1.").unwrap().0, ".");
    assert_eq!(parse_json_number("1e").unwrap().0, "e");
    assert_eq!(parse_json_number("1e+").unwrap().0, "e+");
    assert_eq!(parse_json_number("-2.5E-3,").unwrap().0, ",");
    assert!(parse_json_number("-").is_err());
    assert!(parse_json_number("+5").is_err());
    let (_, v) = parse_json_number("-2.5E-3").unwrap();
    assert_eq!(
        v,
        JSONObject::Number(Numeral {
            negative: true,
            integer: vec![2],
            fraction: vec![5],
            exp_negative: true,
            exponent: vec![3],
        })
    );
}

#[test]
fn unicode_escapes_decode() {
    let (_, v) = parse_json_string(r#""A\u00e9\u00E9""#).unwrap();
    assert_eq!(v, string("A\u{e9}\u{e9}"));
    let (_, v) = parse_json_string(r#""\ud83d\ude00!""#).unwrap();
    assert_eq!(v, string("\u{1F600}!"));
    assert!(parse_json_string(r#""\ud83d""#).is_err());
    assert!(parse_json_string(r#""\ude00""#).is_err());
    let (_, v) = parse_json_string(r#""\/\b\f\r""#).unwrap();
    assert_eq!(v, string("/\u{8}\u{c}\r"));
}

#[test]
fn quoted_world_decodes() {
    let (rest, v) = parse_json_value(r#""hello \"world\"""#).unwrap();
    assert_eq!(rest, "");
    assert_eq!(v, string("hello \"world\""));
}

#[test]
fn object_keeps_order_and_duplicates() {
    let (rest, v) = parse_json_value(" { \"b\" : 1 , \"a\":2, \"b\": [ ] } tail").unwrap();
    assert_eq!(rest, "tail");
    assert_eq!(
        v,
        JSONObject::Object(vec![
            ("b".to_string(), whole(&[1])),
            ("a".to_string(), whole(&[2])),
            ("b".to_string(), JSONObject::Array(vec![])),
        ])
    );
    assert_eq!(v.render(), "{\"b\": 1, \"a\": 2, \"b\": []}");
}

#[test]
fn render_canonical_text() {
    let (_, v) = parse_json_value("[1.50e+2,{\"k\":null},\"x\",true,false,{}]").unwrap();
    assert_eq!(v.render(), "[1.50e2, {\"k\": null}, \"x\", true, false, {}]");
    let (_, v) = parse_json_value(r#""a\"b""#).unwrap();
    assert_eq!(v.render(), "\"a\"b\"");
}

#[test]
fn render_then_parse_round_trip() {
    let text = "{\"a\": [1, -2.5e-3, {\"b\": []}], \"a\": \"x y\", \"c\": null}";
    let (rest, v) = parse_json_value(text).unwrap();
    assert_eq!(rest, "");
    let rendered = v.render();
    assert_eq!(rendered, text);
    let (rest, w) = parse_json_value(&rendered).unwrap();
    assert_eq!(rest, "");
    assert_eq!(w, v);
}

#[test]
fn nested_and_whitespace() {
    let (rest, v) = parse_json_value("\n\t[ [ ] , [ [ 0 ] ] ]\r\n").unwrap();
    assert_eq!(rest, "");
    assert_eq!(
        v,
        JSONObject::Array(vec![
            JSONObject::Array(vec![]),
            JSONObject::Array(vec![JSONObject::Array(vec![whole(&[0])])]),
        ])
    );
    assert!(parse_json_value("").is_err());
    assert!(parse_json_value("[").is_err());
    assert!(parse_json_value("[1,]").is_err());
}

#[test]
fn numeral_text_exact() {
    let (_, v) = parse_json_number("-0.5abc").unwrap();
    match v {
        JSONObject::Number(n) => assert_eq!(n.text(), "-0.5"),
        _ => panic!("not a number"),
    }
    let (_, v) = parse_json_number("123.456e+2").unwrap();
    match v {
        JSONObject::Number(n) => assert_eq!(n.text(), "123.456e2"),
        _ => panic!("not a number"),
    }
}

#[test]
fn escaped_text_reads_back() {
    let text = "\"q\\\"b\\\\s\\bf\\fn\\nr\\rt\\tc\\u0001\\u001f/\"rest";
    let (rest, v) = parse_json_string(text).unwrap();
    assert_eq!(rest, "rest");
    assert_eq!(v, string("q\"b\\s\u{8}f\u{c}n\nr\rt\tc\u{1}\u{1f}/"));
}

#[test]
fn number_followed_by_separator() {
    let (rest, v) = parse_json_number("-12.5e3]").unwrap();
    assert_eq!(rest, "]");
    assert_eq!(number_value(&v), -12500.0);
    let (rest, _) = parse_json_number("7 8").unwrap();
    assert_eq!(rest, " 8");
}

#[test]
fn collections_skip_leading_whitespace() {
    let (rest, v) = parse_json_array("  [1] x").unwrap();
    assert_eq!((rest, v), ("x", JSONObject::Array(vec![whole(&[1])])));
    let (rest, v) = parse_json_map("\n{} ").unwrap();
    assert_eq!((rest, v), ("", JSONObject::Object(vec![])));
    let e = parse_json_array("  x").unwrap_err();
    assert_eq!((e.kind, e.pos), (ErrorKind::Literal, 2));
    assert!(parse_json_null(" null").is_err());
}
