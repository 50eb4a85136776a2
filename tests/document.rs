use json_highlight_writer::document::{Document, Node};

#[test]
fn accepts_a_fresh_tree_node() {
    let mut doc = Document::new();
    let a = doc.add(Node::Null);
    let b = doc.add(Node::Boolean(true));
    assert!(doc.accepts(&Node::Object(vec![("a".to_string(), a), ("b".to_string(), b)])));
}

#[test]
fn refuses_a_missing_child() {
    let mut doc = Document::new();
    let a = doc.add(Node::Null);
    assert!(!doc.accepts(&Node::Array(vec![a, a + 1])));
}

#[test]
fn refuses_a_child_listed_twice() {
    let mut doc = Document::new();
    let a = doc.add(Node::Null);
    assert!(!doc.accepts(&Node::Array(vec![a, a])));
}

#[test]
fn refuses_a_child_of_another_node() {
    let mut doc = Document::new();
    let a = doc.add(Node::Null);
    doc.add(Node::Array(vec![a]));
    assert!(!doc.accepts(&Node::Array(vec![a])));
}

#[test]
fn refuses_duplicate_keys() {
    let mut doc = Document::new();
    let a = doc.add(Node::Null);
    let b = doc.add(Node::Null);
    assert!(!doc.accepts(&Node::Object(vec![("k".to_string(), a), ("k".to_string(), b)])));
}
