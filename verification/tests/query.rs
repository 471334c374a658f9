use xirang::codec::{Node, Uuid, Value};
use xirang::query::{by_shape, find_roots, name_index, shape_ids, value_matches, ShapeIndex};
use xirang::tree::Store;

#[test]
fn shape_ignores_order_and_aux() {
    let mut s = Store::new();
    let root = s.create(None, "词条", Value::Empty, true);
    let a = s.create(Some(root.id), "词形", Value::Text("灯".into()), true);
    let b = s.create(Some(root.id), "词频", Value::Int(2046), true);
    let _c = s.create(Some(root.id), "词义", Value::Empty, true);
    let _ = a;
    let _ = b;
    let shapes = shape_ids(&s);
    let mut s2 = Store::new();
    let r2 = s2.create(None, "词条", Value::Empty, false);
    s2.create(Some(r2.id), "词义", Value::Empty, false);
    s2.create(Some(r2.id), "词形", Value::Text("灯".into()), false);
    s2.create(Some(r2.id), "词频", Value::Int(42), false);
    let shapes2 = shape_ids(&s2);
    assert_eq!(shapes[0], shapes2[0]);
}

#[test]
fn shape_index_groups_same_structure() {
    let mut s = Store::new();
    let r1 = s.create(None, "词条", Value::Empty, false);
    s.create(Some(r1.id), "词形", Value::Text("灯".into()), false);
    s.create(Some(r1.id), "词频", Value::Int(2046), false);
    let r2 = s.create(None, "词条", Value::Empty, false);
    s.create(Some(r2.id), "词形", Value::Text("火".into()), false);
    s.create(Some(r2.id), "词频", Value::Int(7), false);
    let sidx = ShapeIndex::build(&s);
    let shape_of_r1 = sidx.shapes[0];
    let r2_idx = s.nodes().iter().position(|x| x.id == r2.id).unwrap();
    assert_eq!(sidx.shapes[r2_idx], shape_of_r1);
    assert_eq!(sidx.by_shape[&shape_of_r1].len(), 2);
    assert_eq!(by_shape(&sidx, shape_of_r1), vec![0, r2_idx]);
}

#[test]
fn find_roots_by_name_and_where() {
    let mut s = Store::new();
    let r1 = s.create(None, "词条", Value::Empty, false);
    s.create(Some(r1.id), "词形", Value::Text("灯".into()), false);
    let r2 = s.create(None, "词条", Value::Empty, false);
    s.create(Some(r2.id), "词形", Value::Text("火".into()), false);
    let hits = find_roots(&s, "词条", &vec![("词形".to_string(), "灯".to_string())], &vec![]);
    assert_eq!(hits.len(), 1);
    assert_eq!(s.nodes()[hits[0]].id, r1.id);
}

#[test]
fn names_are_looked_up() {
    let mut s = Store::new();
    s.create(None, "乙", Value::Empty, false);
    s.create(None, "甲", Value::Empty, false);
    s.create(None, "乙", Value::Empty, false);
    let idx = name_index(&s);
    assert_eq!(idx.get("乙"), vec![0, 2]);
    assert!(idx.get("丙").is_empty());
}

#[test]
fn values_match_texts() {
    assert!(value_matches(&Value::Int(7), "7", &vec![]));
    assert!(!value_matches(&Value::Int(7), "8", &vec![]));
    assert!(value_matches(&Value::Bool(true), "true", &vec![]));
    let near = vec![(1.5f64.to_bits(), "1.50".to_string())];
    assert!(value_matches(&Value::Float(1.5f64.to_bits()), "1.50", &near));
    assert!(!value_matches(&Value::Float(1.5f64.to_bits()), "1.6", &near));
}

#[test]
fn shapes_do_not_rest_on_the_order_of_the_nodes() {
    let node = |i: u8, p: Option<u8>, name: &str| Node {
        id: Uuid([i; 16]),
        parent: p.map(|x| Uuid([x; 16])),
        name: name.to_string(),
        value: Value::Empty,
    };
    let mut s = Store::new();
    s.add(node(3, Some(2), "孙"));
    s.add(node(2, Some(1), "子"));
    s.add(node(1, None, "根"));
    s.add(node(4, None, "根"));
    s.add(node(5, Some(4), "子"));
    s.add(node(6, Some(5), "孙"));
    s.add(node(7, None, "根"));
    s.add(node(8, Some(7), "子"));
    let ids = shape_ids(&s);
    assert_eq!(ids[2], ids[3]);
    assert_eq!(ids[1], ids[4]);
    assert_eq!(ids[0], ids[5]);
    assert_ne!(ids[2], ids[6]);
    assert_ne!(ids[1], ids[7]);
    assert_eq!(by_shape(&ShapeIndex::build(&s), ids[2]), vec![2, 3]);
}
