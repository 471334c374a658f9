use xirang::codec::{Node, Uuid, Value};
use xirang::convert::{
    from_json, from_xml, from_yaml, kind_word_of, read_xml, to_json, to_md, to_xml, to_yaml,
    value_text, xml_escape, xml_to_store, xml_unescape,
};
use xirang::tree::Store;

fn u(n: u8) -> Uuid {
    let mut b = [0u8; 16];
    b[15] = n;
    Uuid(b)
}

fn build() -> Store {
    let mut s = Store::new();
    s.add(Node { id: u(1), parent: None, name: "root".into(), value: Value::Empty });
    s.add(Node { id: u(2), parent: Some(u(1)), name: "text".into(), value: Value::Text("灯".into()) });
    s.add(Node { id: u(3), parent: Some(u(1)), name: "num".into(), value: Value::Int(2046) });
    s.add(Node { id: u(4), parent: Some(u(1)), name: "ref".into(), value: Value::Reference(u(3)) });
    s.add(Node { id: u(5), parent: Some(u(1)), name: "bin".into(), value: Value::Blob(vec![0, 255, 18]) });
    s
}

#[test]
fn json_roundtrip() {
    let s = build();
    let text = to_json(&s, &vec![]);
    let d = from_json(&text).unwrap();
    assert_eq!(d.len(), 5);
    assert_eq!(d.nodes()[1].value, Value::Text("灯".into()));
    assert_eq!(d.nodes()[3].value, Value::Reference(u(3)));
    assert_eq!(d.nodes()[4].value, Value::Blob(vec![0, 255, 18]));
}

#[test]
fn json_contains_id_and_type() {
    let s = build();
    let text = to_json(&s, &vec![]);
    assert!(text.contains("\"kernel\": \"1.0\""));
    assert!(text.contains("\"type\": \"reference\""));
}

#[test]
fn c001_bad_type() {
    let err = from_json(r#"{"nodes":[{"id":"00000000000000000000000000000001","name":"x","value":{"type":"string","value":"y"}}]}"#).unwrap_err();
    assert!(err.contains("C001"));
}

#[test]
fn c002_bad_uuid() {
    let err = from_json(r#"{"nodes":[{"id":"abc","name":"x","value":{"type":"empty","value":null}}]}"#).unwrap_err();
    assert!(err.contains("C002"));
}

#[test]
fn c005_missing_value() {
    let err = from_json(r#"{"nodes":[{"id":"00000000000000000000000000000001","name":"x"}]}"#).unwrap_err();
    assert!(err.contains("C005"));
}

#[test]
fn yaml_roundtrip() {
    let s = build();
    let text = to_yaml(&s, &vec![]);
    let d = from_yaml(&text).unwrap();
    assert_eq!(d.len(), 5);
    assert_eq!(d.nodes()[1].value, Value::Text("灯".into()));
}

#[test]
fn md_export_lossy() {
    let s = build();
    let md = to_md(&s, &vec![]);
    assert!(md.starts_with("# 息壤树"));
    assert!(md.contains("## root"));
    assert!(md.contains("**text**: 灯"));
    assert!(md.contains("→ num"));
}

#[test]
fn xml_roundtrip() {
    let s = build();
    let xml = to_xml(&s, &vec![]);
    let d = from_xml(&xml, &vec![]).unwrap();
    assert_eq!(d.len(), 5);
    assert_eq!(d.nodes()[1].value, Value::Text("灯".into()));
    assert_eq!(d.nodes()[3].value, Value::Reference(u(3)));
    assert_eq!(d.nodes()[4].value, Value::Blob(vec![0, 255, 18]));
}

#[test]
fn doubles_go_through_json_and_xml() {
    let mut s = Store::new();
    s.add(Node { id: u(1), parent: None, name: "x".into(), value: Value::Float(1.5f64.to_bits()) });
    let ft = vec![(1.5f64.to_bits(), "1.5".to_string())];
    let d = from_json(&to_json(&s, &ft)).unwrap();
    assert_eq!(d.nodes()[0].value, Value::Float(1.5f64.to_bits()));
    let fp = vec![("1.5".to_string(), 1.5f64.to_bits())];
    let d = from_xml(&to_xml(&s, &ft), &fp).unwrap();
    assert_eq!(d.nodes()[0].value, Value::Float(1.5f64.to_bits()));
}

#[test]
fn the_blob_is_written_in_base64() {
    let text = to_json(&build(), &vec![]);
    assert!(text.contains("\"AP8S\""));
    let err = from_json(r#"{"nodes":[{"id":"00000000000000000000000000000001","name":"x","value":{"type":"blob","value":"***"}}]}"#).unwrap_err();
    assert!(err.contains("C003"));
}

#[test]
fn text_that_is_no_json_is_refused() {
    assert!(from_json("{").is_err());
    assert!(from_yaml("a: [").is_err());
    assert!(from_json("{}").unwrap_err().contains("C005"));
}

#[test]
fn xml_is_escaped_and_unescaped() {
    assert_eq!(xml_escape("<a & \"b\">"), "&lt;a &amp; &quot;b&quot;&gt;");
    assert_eq!(xml_unescape("&lt;a &amp; &quot;b&quot;&gt;"), "<a & \"b\">");
}

#[test]
fn broken_xml_is_refused() {
    let scan = read_xml("<xirang><node></xirang>");
    assert!(scan.fault.is_some());
    assert!(xml_to_store(&scan, &vec![]).is_err());
}

#[test]
fn words_and_texts_of_values() {
    assert_eq!(kind_word_of(&Value::Bool(true)), "boolean");
    assert_eq!(value_text(&Value::Int(-3), &vec![]), "-3");
}

const ODD: [char; 17] = [
    'a', ' ', '\n', '\t', '\r', '\0', '-', '#', ':', '\'', '"', '\u{7f}', '\u{85}', '\u{2028}',
    '\u{feff}', '\u{ffff}', '灯',
];

fn odd_texts(longest: usize) -> Vec<String> {
    let mut all = vec![String::new()];
    let mut last = vec![String::new()];
    for _ in 0..longest {
        last = last.iter().flat_map(|t| ODD.iter().map(move |c| format!("{t}{c}"))).collect();
        all.extend(last.iter().cloned());
    }
    all
}

#[test]
fn yaml_keeps_texts_of_all_characters() {
    let texts = odd_texts(3);
    let mut s = Store::new();
    for (i, t) in texts.iter().enumerate() {
        let id = Uuid((i as u128 + 1).to_be_bytes());
        s.add(Node { id, parent: None, name: t.clone(), value: Value::Text(t.clone()) });
    }
    let d = from_yaml(&to_yaml(&s, &vec![])).unwrap();
    assert_eq!(d.len(), texts.len());
    for (n, t) in d.nodes().iter().zip(&texts) {
        assert_eq!((&n.name, &n.value), (t, &Value::Text(t.clone())));
    }
}

#[test]
fn yaml_keeps_a_text_at_the_end_of_the_document() {
    for t in odd_texts(2) {
        let mut s = Store::new();
        s.add(Node { id: u(1), parent: None, name: "n".into(), value: Value::Text(t.clone()) });
        let d = from_yaml(&to_yaml(&s, &vec![])).unwrap();
        assert_eq!(d.nodes()[0].value, Value::Text(t));
    }
    for t in ["a\n\n b\n\n", "\n\n  a\n", " a\n  b\nc", "a\u{2028}b\nc\u{2029}", "---\n...\n# x\n"] {
        let mut s = Store::new();
        s.add(Node { id: u(1), parent: None, name: t.into(), value: Value::Text(t.into()) });
        let d = from_yaml(&to_yaml(&s, &vec![])).unwrap();
        assert_eq!((d.nodes()[0].name.as_str(), &d.nodes()[0].value), (t, &Value::Text(t.into())));
    }
}

#[test]
fn yaml_keeps_doubles() {
    let values = [0.0, -0.0, 1.0, -2.5, 0.1, 1e16, 1e300, 5e-324, f64::MAX, f64::MIN_POSITIVE, 1.0 / 3.0];
    let mut s = Store::new();
    let mut texts = Vec::new();
    for (i, v) in values.iter().enumerate() {
        texts.push((v.to_bits(), format!("{v}")));
        s.add(Node { id: u(i as u8 + 1), parent: None, name: "n".into(), value: Value::Float(v.to_bits()) });
    }
    let d = from_yaml(&to_yaml(&s, &texts)).unwrap();
    for (n, v) in d.nodes().iter().zip(&values) {
        assert_eq!(n.value, Value::Float(v.to_bits()));
    }
}
