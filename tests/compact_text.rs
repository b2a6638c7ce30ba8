use compact_llm::compact::{to_compact_string, write_escaped, Number, Value};
use compact_llm::users::UserProfile;

fn text(s: &str) -> Value {
    Value::String(s.to_string())
}

fn object(pairs: Vec<(&str, Value)>) -> Value {
    Value::Object(pairs.into_iter().map(|(k, v)| (k.to_string(), v)).collect())
}

#[test]
fn test_basic_serialization() {
    let data = object(vec![
        ("name", text("John Doe")),
        ("age", Value::Number(Number::Unsigned(30))),
        ("active", Value::Bool(true)),
        ("tags", Value::Array(vec![text("rust"), text("developer")])),
    ]);

    let result = to_compact_string(&data);
    assert!(result.contains("name:John Doe"));
    assert!(result.contains("age:30"));
    assert!(result.contains("active:true"));
    assert!(result.contains("tags:[rust,developer]"));
    assert!(result.starts_with('{'));
    assert!(result.ends_with('}'));
}

#[test]
fn test_newline_escaping() {
    let data = object(vec![("text", text("Line 1\nLine 2\rLine 3"))]);

    let result = to_compact_string(&data);
    assert_eq!(result, "{text:Line 1\\nLine 2\\rLine 3}");
}

#[test]
fn test_nested_objects() {
    let data = object(vec![
        (
            "user",
            object(vec![("id", Value::Number(Number::Unsigned(123))), ("name", text("Alice"))]),
        ),
        (
            "items",
            Value::Array(vec![
                Value::Number(Number::Unsigned(1)),
                Value::Number(Number::Unsigned(2)),
                Value::Number(Number::Unsigned(3)),
            ]),
        ),
    ]);

    let result = to_compact_string(&data);
    assert!(result.contains("items:[1,2,3]"));
    assert!(result.contains("user:{"));
    assert!(result.contains("id:123"));
    assert!(result.contains("name:Alice"));
}

#[test]
fn test_special_values() {
    let data = object(vec![
        ("null_value", Value::Null),
        ("bool_true", Value::Bool(true)),
        ("bool_false", Value::Bool(false)),
        ("number", Value::Number(Number::Float("42.5".to_string()))),
    ]);

    let result = to_compact_string(&data);
    assert!(result.contains("null_value:null"));
    assert!(result.contains("bool_true:true"));
    assert!(result.contains("bool_false:false"));
    assert!(result.contains("number:42.5"));
}

#[test]
fn nested_objects_exact_text() {
    let data = object(vec![
        (
            "user",
            object(vec![("id", Value::Number(Number::Unsigned(123))), ("name", text("Alice"))]),
        ),
        (
            "items",
            Value::Array(vec![
                Value::Number(Number::Unsigned(1)),
                Value::Number(Number::Unsigned(2)),
                Value::Number(Number::Unsigned(3)),
            ]),
        ),
    ]);
    assert_eq!(to_compact_string(&data), "{user:{id:123,name:Alice},items:[1,2,3]}");
}

#[test]
fn empty_containers() {
    assert_eq!(to_compact_string(&Value::Array(vec![])), "[]");
    assert_eq!(to_compact_string(&Value::Object(vec![])), "{}");
}

#[test]
fn scalar_literals() {
    assert_eq!(to_compact_string(&Value::Null), "null");
    assert_eq!(to_compact_string(&Value::Bool(true)), "true");
    assert_eq!(to_compact_string(&Value::Bool(false)), "false");
}

#[test]
fn integers_render_in_decimal() {
    assert_eq!(to_compact_string(&Value::Number(Number::Unsigned(0))), "0");
    assert_eq!(to_compact_string(&Value::Number(Number::Unsigned(9))), "9");
    assert_eq!(to_compact_string(&Value::Number(Number::Unsigned(10))), "10");
    assert_eq!(
        to_compact_string(&Value::Number(Number::Unsigned(u64::MAX))),
        "18446744073709551615"
    );
    assert_eq!(to_compact_string(&Value::Number(Number::Signed(-7))), "-7");
    assert_eq!(to_compact_string(&Value::Number(Number::Signed(250))), "250");
    assert_eq!(
        to_compact_string(&Value::Number(Number::Signed(i64::MIN))),
        "-9223372036854775808"
    );
}

#[test]
fn float_text_passes_through() {
    assert_eq!(to_compact_string(&Value::Number(Number::Float("1e300".to_string()))), "1e300");
}

#[test]
fn strings_escape_only_line_breaks() {
    assert_eq!(to_compact_string(&text("")), "");
    assert_eq!(to_compact_string(&text("\n")), "\\n");
    assert_eq!(to_compact_string(&text("a\r\nb")), "a\\r\\nb");
    assert_eq!(to_compact_string(&text("a\\b:{c},[d]\t\"e\"")), "a\\b:{c},[d]\t\"e\"");
    assert_eq!(to_compact_string(&text("héllo ✓")), "héllo ✓");
}

#[test]
fn keys_are_escaped_like_strings() {
    let data = object(vec![("a\nb", Value::Null)]);
    assert_eq!(to_compact_string(&data), "{a\\nb:null}");
}

#[test]
fn write_escaped_appends() {
    let mut out = "x=".to_string();
    write_escaped("1\n2", &mut out);
    assert_eq!(out, "x=1\\n2");
}

#[test]
fn array_separators_count() {
    let items = vec![text("a"), Value::Array(vec![text("b"), text("c")]), Value::Null];
    let result = to_compact_string(&Value::Array(items));
    assert_eq!(result, "[a,[b,c],null]");
    let inner = &result[1..result.len() - 1];
    let mut depth = 0i32;
    let mut commas = 0;
    for ch in inner.chars() {
        match ch {
            '[' | '{' => depth += 1,
            ']' | '}' => depth -= 1,
            ',' if depth == 0 => commas += 1,
            _ => {}
        }
    }
    assert_eq!(commas, 2);
}

#[test]
fn empty_strings_keep_their_separators() {
    let items = vec![text(""), text(""), text("")];
    assert_eq!(to_compact_string(&Value::Array(items)), "[,,]");
}

#[test]
fn user_profile_fields() {
    let p = UserProfile {
        display_name: "Ada".to_string(),
        email_address: "ada@example.com".to_string(),
        id: "42".to_string(),
    };
    assert_eq!(p.display_name, "Ada");
    assert_eq!(p.email_address, "ada@example.com");
    assert_eq!(p.id, "42");
}
