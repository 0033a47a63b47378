use jfmt::grammar::Expect;
use jfmt::nodes::{Array, Null, Number, Object, Value};
use jfmt::parser::{parse, parse_json_file};

#[test]
fn formatting_is_idempotent() {
    let inputs = [
        "{\"a\":1,\"b\":[true,null,\"x\"],\"c\":{\"d\":5e3}}",
        "[1, [3]]",
        "  {  }  ",
        "[\"he\\\"llo\", -0.5]",
        "null",
    ];
    for input in inputs {
        let once = jfmt::formatter::format(input).unwrap();
        let twice = jfmt::formatter::format(&once).unwrap();
        assert_eq!(once, twice);
    }
}

#[test]
fn formatted_output_parses_back() {
    let input = "{\"k\": [1.50, {\"n\": null}], \"k\": \"dup\"}";
    let once = jfmt::formatter::format(input).unwrap();
    let reparsed = parse(&once).unwrap();
    assert_eq!(once, reparsed.format_as_root());
}

#[test]
fn object_order_is_preserved() {
    assert_eq!("{\n  \"a\": 1,\n  \"b\": 2\n}", jfmt::formatter::format("{\"a\":1,\"b\":2}").unwrap());
}

#[test]
fn duplicate_keys_both_appear_in_source_order() {
    assert_eq!("{\n  \"x\": 1,\n  \"x\": 2\n}", jfmt::formatter::format("{\"x\":1,\"x\":2}").unwrap());
}

#[test]
fn empty_containers_stay_collapsed_at_any_depth() {
    assert_eq!("{}", jfmt::formatter::format("{}").unwrap());
    assert_eq!("[]", jfmt::formatter::format("[]").unwrap());
    assert_eq!(
        "{\n  \"a\": {},\n  \"b\": [\n    []\n  ]\n}",
        jfmt::formatter::format("{\"a\": {}, \"b\": [[]]}").unwrap()
    );
}

#[test]
fn numbers_are_canonicalized() {
    assert_eq!("[\n  1.5,\n  0.001234,\n  100,\n  -0,\n  0,\n  10.01\n]",
        jfmt::formatter::format("[1.50, 12.34e-4, 1e2, -0.000, 0e5, 1001e-2]").unwrap());
}

#[test]
fn scalar_documents_format_at_the_root() {
    assert_eq!("true", jfmt::formatter::format("true").unwrap());
    assert_eq!("null", jfmt::formatter::format(" null ").unwrap());
    assert_eq!("42", jfmt::formatter::format("42").unwrap());
    assert_eq!("\"hi\"", jfmt::formatter::format("\"hi\"").unwrap());
}

#[test]
fn string_escapes_are_kept_as_written() {
    assert_eq!(
        "[\n  \"a\\nb\\u0041\\\\\"\n]",
        jfmt::formatter::format("[\"a\\nb\\u0041\\\\\"]").unwrap()
    );
}

#[test]
fn whitespace_between_tokens_is_dropped() {
    assert_eq!(
        "{\n  \"a\": [\n    1,\n    2\n  ]\n}",
        jfmt::formatter::format(" {\r\n\t\"a\" :\t[ 1 ,\n 2 ] } ").unwrap()
    );
}

#[test]
fn malformed_input_reports_line_and_column() {
    let err = parse("[1, 2, 3").unwrap_err();
    assert_eq!(1, err.line);
    assert_eq!(9, err.column);
    assert_eq!("[1, 2, 3", err.line_text);
    assert_eq!(Expect::CommaOrCloseBracket, err.expected);
    assert_eq!(
        " --> 1:9\n  |\n1 | [1, 2, 3\n  |         ^---\n  |\n  = expected ',' or ']'",
        err.message()
    );
}

#[test]
fn errors_on_later_lines_point_at_the_right_place() {
    let err = parse("{\n  \"a\": 1,\n  \"b\" 2\n}").unwrap_err();
    assert_eq!(3, err.line);
    assert_eq!(7, err.column);
    assert_eq!("  \"b\" 2", err.line_text);
    assert_eq!(Expect::Colon, err.expected);
}

#[test]
fn each_syntax_error_names_what_was_expected() {
    assert_eq!(Expect::Value, parse("x").unwrap_err().expected);
    assert_eq!(Expect::Value, parse("[").unwrap_err().expected);
    assert_eq!(Expect::Value, parse("tru").unwrap_err().expected);
    assert_eq!(Expect::KeyOrCloseBrace, parse("{x").unwrap_err().expected);
    assert_eq!(Expect::Key, parse("{\"a\":1, }").unwrap_err().expected);
    assert_eq!(Expect::Colon, parse("{\"a\" 1}").unwrap_err().expected);
    assert_eq!(Expect::CommaOrCloseBrace, parse("{\"a\":1 x").unwrap_err().expected);
    assert_eq!(Expect::CommaOrCloseBracket, parse("[1 2]").unwrap_err().expected);
    assert_eq!(Expect::CloseQuote, parse("\"abc").unwrap_err().expected);
    assert_eq!(Expect::Escape, parse("\"a\\x\"").unwrap_err().expected);
    assert_eq!(Expect::HexDigit, parse("\"\\u12g4\"").unwrap_err().expected);
    assert_eq!(Expect::Digit, parse("-x").unwrap_err().expected);
    assert_eq!(Expect::Digit, parse("[1.x]").unwrap_err().expected);
    assert_eq!(Expect::SmallerExponent, parse("1e1000001").unwrap_err().expected);
    assert_eq!(Expect::EndOfText, parse("{} x").unwrap_err().expected);
}

#[test]
fn trailing_garbage_is_rejected_not_truncated() {
    assert!(jfmt::formatter::format("[1] [2]").is_err());
    assert!(jfmt::formatter::format("{}{}").is_err());
    assert!(jfmt::formatter::format("1 2").is_err());
}

#[test]
fn leading_zeros_are_not_number_literals() {
    assert_eq!(Expect::CommaOrCloseBracket, parse("[012]").unwrap_err().expected);
}

#[test]
fn huge_exponents_are_rejected_with_a_position() {
    let err = parse("[1, 2e9999999]").unwrap_err();
    assert_eq!(1, err.line);
    assert_eq!(6, err.column);
    assert_eq!(Expect::SmallerExponent, err.expected);
}

#[test]
fn parse_json_file_matches_parse() {
    let text = "[true, {\"a\": []}]";
    let via_file = parse_json_file(text).unwrap().format_as_root();
    let via_parse = parse(text).unwrap().format_as_root();
    assert_eq!(via_file, via_parse);
}

#[test]
fn number_construction_checks_the_whole_literal() {
    assert_eq!("5000", Number::new("5e3").unwrap().format());
    assert_eq!("0.001", Number::new("1e-3").unwrap().format());
    assert_eq!("-0", Number::new("-0.000").unwrap().format());
    assert!(Number::new("abc").is_none());
    assert!(Number::new("1x").is_none());
    assert!(Number::new("").is_none());
    assert!(Number::new("1e9999999").is_none());
}

#[test]
fn child_formatting_indents_from_the_given_level() {
    let object = Object {
        members: vec![("a".chars().collect(), Value::Null(Null {}))],
    };
    assert_eq!("{\n    \"a\": null\n  }", object.format_as_child(1));
    assert_eq!("  \"a\": null", object.format_children(1));
    let array = Array { values: vec![Value::Null(Null {})] };
    assert_eq!("[\n    null\n  ]", array.format_as_child(1));
    assert_eq!("  null", array.format_children(1));
    assert_eq!("[\n  null\n]", array.format());
    assert!(!array.is_empty());
    assert!(!object.is_empty());
    assert!(Object { members: vec![] }.is_empty());
    assert!(Array { values: vec![] }.is_empty());
}

#[test]
fn deeply_nested_arrays_round_trip() {
    let input = "[[[[[[[[1]]]]]]]]";
    let expected = jfmt::formatter::format(input).unwrap();
    assert_eq!(expected, jfmt::formatter::format(&expected).unwrap());
    assert!(expected.starts_with("[\n  [\n    ["));
}
