use xirang::codec::{
    decode_node, decode_value, encode_node, encode_value, is_canonical_int, nil_uuid, parse_value,
    Error, Node, NodeIter, Uuid, Value,
};

fn node(id: [u8; 16], parent: Option<[u8; 16]>, name: &str, value: Value) -> Node {
    Node { id: Uuid(id), parent: parent.map(Uuid), name: name.into(), value }
}

#[test]
fn value_roundtrip() {
    let vals = vec![
        Value::Empty,
        Value::Int(2046),
        Value::Int(-42),
        Value::Float(1.5f64.to_bits()),
        Value::Bool(true),
        Value::Bool(false),
        Value::Text("灯".into()),
        Value::Text("hello world".into()),
        Value::Reference(Uuid([7u8; 16])),
        Value::Blob(vec![0xff, 0x00, 0x12]),
    ];
    for v in vals {
        let enc = encode_value(&v);
        let mut off: usize = 0;
        let dec = decode_value(&enc, &mut off).unwrap();
        assert_eq!(v, dec);
        assert_eq!(off, enc.len());
    }
}

#[test]
fn canonical_bytes() {
    assert_eq!(encode_value(&Value::Empty), vec![0x00]);
    assert_eq!(encode_value(&Value::Int(2046)), vec![0x01, 0, 0, 0, 0, 0, 0, 0x07, 0xfe]);
    assert_eq!(
        encode_value(&Value::Float(1.5f64.to_bits())),
        vec![0x02, 0x3f, 0xf8, 0, 0, 0, 0, 0, 0]
    );
    assert_eq!(encode_value(&Value::Bool(true)), vec![0x03, 0x01]);
    assert_eq!(
        encode_value(&Value::Text("灯".into())),
        vec![0x04, 0, 0, 0, 3, 0xe7, 0x81, 0xaf]
    );
}

#[test]
fn node_roundtrip() {
    let n = node([1u8; 16], None, "灯", Value::Reference(Uuid([2u8; 16])));
    let enc = encode_node(&n).unwrap();
    let mut off: usize = 0;
    let dec = decode_node(&enc, &mut off).unwrap();
    assert_eq!(n, dec);
    assert_eq!(off, enc.len());
}

#[test]
fn truncated() {
    let enc = encode_value(&Value::Text("灯".into()));
    let mut off: usize = 0;
    assert_eq!(decode_value(&enc[..5], &mut off), Err(Error::Truncated));
}

#[test]
fn invalid_tag() {
    let mut off: usize = 0;
    assert_eq!(decode_value(&[99u8], &mut off), Err(Error::InvalidTag(99)));
}

#[test]
fn name_too_long() {
    let n = node([1u8; 16], None, &"x".repeat(300), Value::Empty);
    assert!(matches!(encode_node(&n), Err(Error::NameTooLong(300))));
}

#[test]
fn streaming_node_iter() {
    let nodes = vec![
        node([1u8; 16], None, "a", Value::Empty),
        node([2u8; 16], Some([1u8; 16]), "b", Value::Int(42)),
        node([3u8; 16], Some([2u8; 16]), "c", Value::Text("灯".into())),
    ];
    let mut bytes = Vec::new();
    for n in &nodes {
        bytes.extend_from_slice(&encode_node(n).unwrap());
    }
    let mut iter = NodeIter::new(&bytes);
    let mut decoded: Vec<Node> = Vec::new();
    while let Some(r) = iter.next() {
        decoded.push(r.unwrap());
    }
    assert_eq!(decoded.len(), 3);
    assert_eq!(decoded[1].name, "b");
    assert_eq!(decoded[2].value, Value::Text("灯".into()));
}

#[test]
fn invalid_utf8_is_refused() {
    let mut off: usize = 0;
    assert_eq!(decode_value(&[4, 0, 0, 0, 1, 0xff], &mut off), Err(Error::InvalidUtf8));
}

#[test]
fn ids_are_written_and_read() {
    let id = Uuid::parse("00112233-4455-6677-8899-aabbccddeeff").unwrap();
    assert_eq!(id.0[1], 0x11);
    assert_eq!(id.to_string(), "00112233-4455-6677-8899-aabbccddeeff");
    assert!(Uuid::parse("abc").is_none());
    assert!(nil_uuid().is_nil());
}

#[test]
fn random_ids_are_version_four_and_differ() {
    let a = Uuid::random_v4();
    let b = Uuid::random_v4();
    assert_ne!(a, b);
    assert_eq!(a.0[6] >> 4, 4);
    assert_eq!(a.0[8] >> 6, 2);
}

#[test]
fn values_are_read_from_text() {
    assert_eq!(parse_value("42", None), Value::Int(42));
    assert_eq!(parse_value("true", None), Value::Bool(true));
    assert_eq!(parse_value("灯", None), Value::Text("灯".into()));
    assert_eq!(parse_value("1.5", Some(1.5f64.to_bits())), Value::Float(1.5f64.to_bits()));
    assert!(is_canonical_int("-7"));
    assert!(!is_canonical_int("007"));
}

#[test]
fn a_double_that_is_no_number_equals_nothing() {
    let nan = Value::Float(f64::NAN.to_bits());
    assert!(!(nan == Value::Float(f64::NAN.to_bits())));
    assert!(Value::Float(0.0f64.to_bits()) == Value::Float((-0.0f64).to_bits()));
}
