
#[test]
fn it_formats_empty_object() {
    let input = "{}";
    let expected = "{}";
    let result = jfmt::formatter::format(input).unwrap();

    assert_eq!(expected, result);
}

#[test]
fn formatter_it_formats_empty_array() {
    let input = "[]";
    let expected = "[]";
    let result = jfmt::formatter::format(input).unwrap();

    assert_eq!(expected, result);
}

#[test]
fn it_formats_an_array_with_one_boolean_element() {
    let input = "[true]";
    let expected = "[\n  true\n]";
    let result = jfmt::formatter::format(input).unwrap();

    assert_eq!(expected, result);
}

#[test]
fn it_formats_an_array_with_many_boolean_element() {
    let input = "[true,false]";
    let expected = "[\n  true,\n  false\n]";
    let result = jfmt::formatter::format(input).unwrap();

    assert_eq!(expected, result);
}

#[test]
fn it_formats_an_array_of_null_values() {
    let input = "[false, null, null]";
    let expected = "[\n  false,\n  null,\n  null\n]";
    let result = jfmt::formatter::format(input).unwrap();

    assert_eq!(expected, result);
}

#[test]
fn it_formats_an_array_of_numbers() {
    let input = "[1, 2, -1, 5e3]";
    let expected = "[\n  1,\n  2,\n  -1,\n  5000\n]";
    let result = jfmt::formatter::format(input).unwrap();

    assert_eq!(expected, result);
}

#[test]
fn it_formats_an_array_of_strings() {
    let input = "[\"hello\",\"world\"]";
    let expected = "[\n  \"hello\",\n  \"world\"\n]";
    let result = jfmt::formatter::format(input).unwrap();

    assert_eq!(expected, result);
}

#[test]
fn it_formats_an_object() {
    let input = "{\"name\": \"Nico\",\"foo\": \"bar\"}";
    let expected = "{\n  \"name\": \"Nico\",\n  \"foo\": \"bar\"\n}";
    let result = jfmt::formatter::format(input).unwrap();

    assert_eq!(expected, result);
}

#[test]
fn it_formats_multidensional_arrays() {
    let input = "[1, [3]]";
    let expected = "[\n  1,\n  [\n    3\n  ]\n]";
    let result = jfmt::formatter::format(input).unwrap();

    assert_eq!(expected, result);
}

#[test]
fn it_does_not_panics_when_json_is_bad_formatted() {
    let input = "[1, 2, 3";
    let expected =
        "[Error]  --> 1:9\n  |\n1 | [1, 2, 3\n  |         ^---\n  |\n  = expected ',' or ']'";
    let result = jfmt::formatter::format(input).unwrap_err();

    assert_eq!(expected, format!("[Error] {}", result.message));
}
