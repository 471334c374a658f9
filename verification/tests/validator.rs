use xirang::codec::{nil_uuid, Node, Uuid, Value};
use xirang::scan::validate_stream;
use xirang::tree::PROTOCOL_APPEND;
use xirang::validator::validate;

fn n(id: Uuid, parent: Option<Uuid>, value: Value) -> Node {
    Node { id, parent, name: String::new(), value }
}

fn ids() -> [Uuid; 6] {
    [
        Uuid([1u8; 16]),
        Uuid([2u8; 16]),
        Uuid([3u8; 16]),
        Uuid([4u8; 16]),
        Uuid([5u8; 16]),
        Uuid([6u8; 16]),
    ]
}

#[test]
fn valid_tree() {
    let [a, b, c, ..] = ids();
    let nodes = vec![
        n(a, None, Value::Empty),
        n(b, Some(a), Value::Text("x".into())),
        n(c, Some(b), Value::Reference(a)),
    ];
    assert!(validate(&nodes).is_empty());
}

#[test]
fn e001_nil_id() {
    let [_, b, ..] = ids();
    let nodes = vec![n(nil_uuid(), None, Value::Empty), n(b, None, Value::Empty)];
    let errs = validate(&nodes);
    assert!(errs.iter().any(|e| e.code == "E001"));
}

#[test]
fn e002_duplicate_id() {
    let [a, ..] = ids();
    let nodes = vec![n(a, None, Value::Empty), n(a, None, Value::Empty)];
    let errs = validate(&nodes);
    assert!(errs.iter().any(|e| e.code == "E002"));
}

#[test]
fn e005_parent_self() {
    let [a, ..] = ids();
    let nodes = vec![n(a, Some(a), Value::Empty)];
    let errs = validate(&nodes);
    assert!(errs.iter().any(|e| e.code == "E005"));
}

#[test]
fn e006_cycle() {
    let [a, b, ..] = ids();
    let nodes = vec![n(a, Some(b), Value::Empty), n(b, Some(a), Value::Empty)];
    let errs = validate(&nodes);
    assert!(errs.iter().any(|e| e.code == "E006"));
}

#[test]
fn e011_parent_dangling() {
    let [a, ..] = ids();
    let ghost = Uuid([9u8; 16]);
    let nodes = vec![n(a, Some(ghost), Value::Empty)];
    let errs = validate(&nodes);
    assert!(errs.iter().any(|e| e.code == "E011"));
}

#[test]
fn r001_reference_dangling() {
    let [a, ..] = ids();
    let ghost = Uuid([9u8; 16]);
    let nodes = vec![n(a, None, Value::Reference(ghost))];
    let errs = validate(&nodes);
    assert!(errs.iter().any(|e| e.code == "R001"));
}

#[test]
fn a_stream_that_declares_appending_may_repeat_ids() {
    let [a, b, ..] = ids();
    let plain = vec![n(a, None, Value::Empty), n(a, None, Value::Int(1))];
    assert!(validate_stream(&plain).iter().any(|e| e.code == "E002"));
    let mark = Node {
        id: b,
        parent: Some(a),
        name: "@protocol".into(),
        value: Value::Text(PROTOCOL_APPEND.into()),
    };
    let declared = vec![n(a, None, Value::Empty), mark, n(a, None, Value::Int(1))];
    assert!(validate_stream(&declared).is_empty());
}

#[test]
fn a_node_that_is_its_own_parent_is_told_once() {
    let [a, b, c, ..] = ids();
    let own = vec![n(a, Some(a), Value::Empty)];
    let codes = |v: Vec<Node>| -> Vec<String> {
        validate_stream(&v).iter().map(|e| e.code.to_string()).collect()
    };
    assert_eq!(validate(&own).len(), 1);
    assert_eq!(codes(own), vec!["E005"]);
    let below = vec![n(a, Some(a), Value::Empty), n(b, Some(a), Value::Empty)];
    assert_eq!(codes(below), vec!["E005"]);
    let sound = vec![
        n(a, None, Value::Empty),
        n(b, Some(a), Value::Empty),
        n(c, Some(b), Value::Int(1)),
    ];
    assert!(validate_stream(&sound).is_empty());
    let circle = vec![n(a, Some(b), Value::Empty), n(b, Some(a), Value::Empty)];
    assert!(codes(circle).contains(&"E006".to_string()));
}
