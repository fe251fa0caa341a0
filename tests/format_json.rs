use formatter::document::FormatToken;
use formatter::json::{format_json, json_to_tokens, format_json_value, JsonValue};
use formatter::printer::PrintOptions;

fn options(max_width: usize) -> PrintOptions {
    PrintOptions { max_width, indent_width: 2 }
}

#[test]
fn tokenize_number() {
    let result = json_to_tokens("6.45").unwrap();

    assert_eq!(FormatToken::string("6.45"), result);
}

#[test]
fn tokenize_string() {
    let result = json_to_tokens(r#""foo""#).unwrap();

    assert_eq!(FormatToken::string(r#""foo""#), result);
}

#[test]
fn tokenize_boolean_false() {
    let result = json_to_tokens("false").unwrap();

    assert_eq!(FormatToken::string("false"), result);
}

#[test]
fn tokenize_boolean_true() {
    let result = json_to_tokens("true").unwrap();

    assert_eq!(FormatToken::string("true"), result);
}

#[test]
fn tokenize_boolean_null() {
    let result = json_to_tokens("null").unwrap();

    assert_eq!(FormatToken::string("null"), result);
}

#[test]
fn tokenize_object() {
    let input = r#"{ "foo": "bar", "num": 5 }"#;
    let expected = FormatToken::group(FormatToken::concat(vec![
        FormatToken::string("{"),
        FormatToken::indent(FormatToken::concat(vec![
            FormatToken::soft_line(),
            FormatToken::string("\"foo\":"),
            FormatToken::Space,
            FormatToken::string("\"bar\""),
            FormatToken::string(","),
            FormatToken::soft_line_or_space(),
            FormatToken::string("\"num\":"),
            FormatToken::Space,
            FormatToken::string("5"),
            FormatToken::if_break_only(FormatToken::string(",")),
        ])),
        FormatToken::soft_line(),
        FormatToken::string("}"),
    ]));

    let result = json_to_tokens(input).unwrap();

    assert_eq!(expected, result);
}

#[test]
fn malformed_json_gives_none() {
    assert!(json_to_tokens("{\"foo\": ").is_none());
    assert!(format_json("nul", &options(80)).is_none());
}

#[test]
fn renders_bare_number() {
    assert_eq!(format_json("6.45", &options(80)).unwrap(), "6.45");
}

#[test]
fn renders_scalars_unchanged() {
    assert_eq!(format_json("null", &options(80)).unwrap(), "null");
    assert_eq!(format_json("true", &options(80)).unwrap(), "true");
    assert_eq!(format_json("false", &options(80)).unwrap(), "false");
}

#[test]
fn renders_object_flat_when_wide() {
    let out = format_json(r#"{"foo":"bar","num":5}"#, &options(80)).unwrap();
    assert_eq!(out, r#"{"foo": "bar", "num": 5}"#);
}

#[test]
fn renders_object_broken_when_narrow() {
    let out = format_json(r#"{"foo":"bar","num":5}"#, &options(10)).unwrap();
    assert_eq!(out, "{\n  \"foo\": \"bar\",\n  \"num\": 5,\n}");
}

#[test]
fn object_exactly_at_width_stays_flat() {
    // `{"foo": "bar", "num": 5}` is 24 columns wide.
    let at = format_json(r#"{"foo":"bar","num":5}"#, &options(24)).unwrap();
    assert!(!at.contains('\n'));
    let below = format_json(r#"{"foo":"bar","num":5}"#, &options(23)).unwrap();
    assert!(below.ends_with(",\n}"));
}

#[test]
fn empty_object_and_array() {
    assert_eq!(format_json("{}", &options(0)).unwrap(), "{}");
    assert_eq!(format_json("[]", &options(80)).unwrap(), "[]");
}

#[test]
fn renders_array() {
    assert_eq!(format_json("[1, 2,3]", &options(80)).unwrap(), "[1, 2, 3]");
    assert_eq!(format_json("[1,2,3]", &options(4)).unwrap(), "[\n  1,\n  2,\n  3,\n]");
}

#[test]
fn nested_groups_decide_independently() {
    let input = r#"{"a":{"b":1},"c":"dddddddddd"}"#;
    let out = format_json(input, &options(20)).unwrap();
    assert_eq!(out, "{\n  \"a\": {\"b\": 1},\n  \"c\": \"dddddddddd\",\n}");
    let narrow = format_json(input, &options(8)).unwrap();
    assert_eq!(narrow, "{\n  \"a\": {\n    \"b\": 1,\n  },\n  \"c\": \"dddddddddd\",\n}");
}

#[test]
fn strings_are_requoted_with_escapes() {
    let out = format_json(r#""a\"b\n""#, &options(80)).unwrap();
    assert_eq!(out, r#""a\"b\n""#);
    let key = format_json(r#"{"k\"":1}"#, &options(80)).unwrap();
    assert_eq!(key, r#"{"k\"": 1}"#);
}

#[test]
fn formatting_is_idempotent() {
    // Broken groups carry trailing commas, which a strict JSON parser refuses,
    // so a second pass is possible only on output that stayed flat.
    for width in [60usize, 80, 200] {
        let input = r#"{"a":[1,{"b":null}],"c":"x y","d":true,"e":-2.5e3}"#;
        let first = format_json(input, &options(width)).unwrap();
        let second = format_json(&first, &options(width)).unwrap();
        assert_eq!(first, second);
    }
}

#[test]
fn rendered_json_parses_to_the_same_value() {
    let input = r#"{"a":[1,{"b":null}],"c":"q\"uote","d":false,"e":6.45}"#;
    let parsed: serde_json::Value = serde_json::from_str(input).unwrap();
    for width in [80usize, 200] {
        let out = format_json(input, &options(width)).unwrap();
        let back: serde_json::Value = serde_json::from_str(&out).unwrap();
        assert_eq!(parsed, back);
    }
}

#[test]
fn broken_output_is_not_strict_json() {
    let out = format_json(r#"{"foo":"bar","num":5}"#, &options(10)).unwrap();
    assert!(serde_json::from_str::<serde_json::Value>(&out).is_err());
}

#[test]
fn trailing_comma_iff_broken() {
    for width in 0usize..40 {
        let out = format_json(r#"{"foo":"bar","num":5}"#, &options(width)).unwrap();
        assert_eq!(out.contains(",\n}"), out.contains('\n'));
        assert_eq!(out.contains('\n'), width < 24);
    }
}

#[test]
fn format_value_builds_from_library_values() {
    let v = JsonValue::Object(vec![
        ("x".to_string(), JsonValue::Bool(true)),
        ("y".to_string(), JsonValue::Array(vec![JsonValue::Null, JsonValue::Number("7".to_string())])),
    ]);
    assert_eq!(format_json_value(&v, &options(80)), r#"{"x": true, "y": [null, 7]}"#);
}
