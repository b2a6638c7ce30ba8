use compact_llm::compact::{to_compact_string, Number, Value};

#[derive(Debug, PartialEq)]
enum Shape {
    Atom(String),
    List(Vec<Shape>),
    Record(Vec<(String, Shape)>),
}

fn is_structural(c: char) -> bool {
    matches!(c, '{' | '}' | '[' | ']' | ',' | ':')
}

fn read_value(t: &[char], pos: &mut usize) -> Shape {
    if t.get(*pos) == Some(&'[') {
        *pos += 1;
        let mut items = Vec::new();
        if t.get(*pos) == Some(&']') {
            *pos += 1;
            return Shape::List(items);
        }
        loop {
            items.push(read_value(t, pos));
            let c = t[*pos];
            *pos += 1;
            if c == ']' {
                return Shape::List(items);
            }
            assert_eq!(c, ',');
        }
    } else if t.get(*pos) == Some(&'{') {
        *pos += 1;
        let mut pairs = Vec::new();
        if t.get(*pos) == Some(&'}') {
            *pos += 1;
            return Shape::Record(pairs);
        }
        loop {
            let key = read_atom(t, pos);
            assert_eq!(t[*pos], ':');
            *pos += 1;
            pairs.push((key, read_value(t, pos)));
            let c = t[*pos];
            *pos += 1;
            if c == '}' {
                return Shape::Record(pairs);
            }
            assert_eq!(c, ',');
        }
    } else {
        Shape::Atom(read_atom(t, pos))
    }
}

fn read_atom(t: &[char], pos: &mut usize) -> String {
    let start = *pos;
    while *pos < t.len() && !is_structural(t[*pos]) {
        *pos += 1;
    }
    t[start..*pos].iter().collect()
}

fn read(text: &str) -> Shape {
    let chars: Vec<char> = text.chars().collect();
    let mut pos = 0;
    let shape = read_value(&chars, &mut pos);
    assert_eq!(pos, chars.len());
    shape
}

fn atom(s: &str) -> Shape {
    Shape::Atom(s.to_string())
}

#[test]
fn readable_value_reads_back() {
    let value = Value::Object(vec![
        ("id".to_string(), Value::Number(Number::Signed(-5))),
        (
            "tags".to_string(),
            Value::Array(vec![
                Value::String("a b".to_string()),
                Value::String(String::new()),
                Value::Array(vec![]),
            ]),
        ),
        ("".to_string(), Value::Object(vec![])),
        ("ok".to_string(), Value::Bool(true)),
    ]);
    let text = to_compact_string(&value);
    assert_eq!(text, "{id:-5,tags:[a b,,[]],:{},ok:true}");
    assert_eq!(
        read(&text),
        Shape::Record(vec![
            ("id".to_string(), atom("-5")),
            ("tags".to_string(), Shape::List(vec![atom("a b"), atom(""), Shape::List(vec![])])),
            ("".to_string(), Shape::Record(vec![])),
            ("ok".to_string(), atom("true")),
        ])
    );
}

#[test]
fn lone_empty_element_reads_as_empty_array() {
    let text = to_compact_string(&Value::Array(vec![Value::String(String::new())]));
    assert_eq!(text, "[]");
    assert_eq!(read(&text), Shape::List(vec![]));
}
