use jfmt::nodes::{Array, Boolean, Null, Number, Object, StringNode, Value};

fn key(text: &str) -> Vec<char> {
    text.chars().collect()
}

#[test]
fn array_it_formats_empty_array() {
    let array = Array { values: vec![] };
    let expected = "[]";
    let result = array.format_root();

    assert_eq!(expected, result);
}

#[test]
fn it_formats_an_array_of_nulls() {
    let array = Array { values: vec![Value::Null(Null {})] };
    let expected = "[\n  null\n]";
    let result = array.format_root();

    assert_eq!(expected, result);
}

#[test]
fn it_formats_a_multidimensional_array_of_nulls() {
    let first_level_array = Array { values: vec![Value::Null(Null {})] };
    let root_array = Array {
        values: vec![Value::Null(Null {}), Value::Array(first_level_array)],
    };
    let expected = "[\n  null,\n  [\n    null\n  ]\n]";
    let result = root_array.format_root();

    assert_eq!(expected, result);
}

#[test]
fn it_formats_array_of_booleans() {
    let array = Array {
        values: vec![
            Value::Boolean(Boolean { value: true }),
            Value::Boolean(Boolean { value: false }),
        ],
    };
    let expected = "[\n  true,\n  false\n]";
    let result = array.format_root();

    assert_eq!(expected, result);
}

#[test]
fn it_formats_array_of_multidimensaionl_booleans() {
    let first_level_array = Array {
        values: vec![
            Value::Boolean(Boolean { value: true }),
            Value::Boolean(Boolean { value: false }),
        ],
    };
    let root_array = Array {
        values: vec![Value::Null(Null {}), Value::Array(first_level_array)],
    };
    let expected = "[\n  null,\n  [\n    true,\n    false\n  ]\n]";
    let result = root_array.format_root();

    assert_eq!(expected, result);
}

#[test]
fn test_formats_true_boolean_as_child() {
    let value = Boolean { value: true };
    let expected = "true";
    let result = value.format_as_child(0);

    assert_eq!(expected, result);
}

#[test]
fn test_formats_false_boolean_as_child() {
    let value = Boolean { value: false };
    let expected = "false";
    let result = value.format_as_child(0);

    assert_eq!(expected, result);
}

#[test]
fn test_formats_true_boolean_as_root() {
    let value = Boolean { value: true };
    let expected = "true";
    let result = value.format_as_root();

    assert_eq!(expected, result);
}

#[test]
fn test_formats_false_boolean_as_root() {
    let value = Boolean { value: false };
    let expected = "false";
    let result = value.format_as_root();

    assert_eq!(expected, result);
}

#[test]
fn test_formats_null_as_child() {
    let null = Null {};
    let result = null.format_as_child(0);

    assert_eq!("null", result);
}

#[test]
fn test_formats_null_as_root() {
    let null = Null {};
    let result = null.format_as_root();

    assert_eq!("null", result);
}

#[test]
fn it_formats_an_empty_object() {
    let object = Object { members: vec![] };
    let expected = "{}";
    let result = object.format_as_root();

    assert_eq!(expected, result);
}

#[test]
fn object_it_formats_an_object() {
    let object = Object {
        members: vec![(key("member"), Value::Text(StringNode::new("value")))],
    };
    let expected = "{\n  \"member\": \"value\"\n}";
    let result = object.format_as_root();

    assert_eq!(expected, result);
}

#[test]
fn it_formats_a_multidimensional_object() {
    let first_level_object = Object {
        members: vec![(key("member"), Value::Text(StringNode::new("value")))],
    };
    let object = Object {
        members: vec![
            (key("member"), Value::Text(StringNode::new("value"))),
            (key("number"), Value::Number(Number::new("2.0").unwrap())),
            (key("child"), Value::Object(first_level_object)),
        ],
    };
    let expected = "{\n  \"member\": \"value\",\n  \"number\": 2,\n  \"child\": {\n    \"member\": \"value\"\n  }\n}";
    let result = object.format_as_root();

    assert_eq!(expected, result);
}

#[test]
fn it_formats_string() {
    let string = StringNode::new("foo");
    let expected = "\"foo\"";
    let result = string.format();

    assert_eq!(expected, result);
}

#[test]
fn it_formats_string_as_child() {
    let string = StringNode::new("foo");
    let expected = "\"foo\"";
    let result = string.format_as_child(0);

    assert_eq!(expected, result);
}

#[test]
fn it_formats_string_as_root() {
    let string = StringNode::new("foo");
    let expected = "\"foo\"";
    let result = string.format_as_root();

    assert_eq!(expected, result);
}

#[test]
fn it_formats_positive_value() {
    let number = Number::new("2.0").unwrap();
    let expected = "2";
    let result = number.format();

    assert_eq!(expected, result);
}

#[test]
fn it_formats_negative_value() {
    let number = Number::new("-2.0").unwrap();
    let expected = "-2";
    let result = number.format();

    assert_eq!(expected, result);
}
