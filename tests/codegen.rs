use json_highlight_writer::codegen::{dump, DumpGenerator};
use json_highlight_writer::document::{Document, Node, Number};

#[test]
fn dump_escapes_strings() {
    let mut doc = Document::new();
    let s = doc.add(Node::Str("a\"b\\c\nd\te\u{1}f\u{8}\u{c}\r\u{1b}é".to_string()));
    assert_eq!(dump(&doc, s), "\"a\\\"b\\\\c\\nd\\te\\u0001f\\b\\f\\r\\u001bé\"");
}

#[test]
fn dump_writes_clean_strings_whole() {
    let mut doc = Document::new();
    let s = doc.add(Node::Str("plain text".to_string()));
    assert_eq!(dump(&doc, s), "\"plain text\"");
}

#[test]
fn dump_formats_numbers() {
    let mut doc = Document::new();
    let a = doc.add(Node::Number(Number::from_parts(true, 42, 0)));
    let b = doc.add(Node::Number(Number::from_parts(false, 15, -1)));
    let c = doc.add(Node::Number(Number::nan()));
    let d = doc.add(Node::Number(Number::from_parts(true, 0, 0)));
    let root = doc.add(Node::Array(vec![a, b, c, d]));
    assert_eq!(dump(&doc, root), "[42,-1.5,null,0]");
}

#[test]
fn dump_empty_containers() {
    let mut doc = Document::new();
    let arr = doc.add(Node::Array(vec![]));
    let obj = doc.add(Node::Object(vec![]));
    let root = doc.add(Node::Object(vec![("a".to_string(), arr), ("b".to_string(), obj)]));
    assert_eq!(dump(&doc, root), r#"{"a":[],"b":{}}"#);
}

#[test]
fn dump_generator_appends() {
    let mut doc = Document::new();
    let t = doc.add(Node::Boolean(true));
    let mut gen = DumpGenerator::new();
    gen.write_json(&doc, t);
    gen.write_json(&doc, t);
    assert_eq!(gen.consume(), "truetrue");
}
