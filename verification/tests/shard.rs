use xirang::codec::{Node, Uuid, Value};
use xirang::edit::append_records;
use xirang::shard::{
    add_shard_entry, changed_nodes, fold, read_manifest, record_bytes, split, split_files,
    Collection, Manifest, ShardEntry, ShardRule, PROTOCOL,
};
use xirang::tree::Store;

fn node(id: Uuid, parent: Option<Uuid>, name: &str, value: Value) -> Node {
    Node { id, parent, name: name.to_string(), value }
}

#[test]
fn fold_last_write_wins() {
    let a = Uuid([1u8; 16]);
    let b = Uuid([2u8; 16]);
    let mut s = Store::new();
    s.add(node(a, None, "甲", Value::Text("旧".into())));
    s.add(node(a, None, "甲", Value::Text("新".into())));
    s.add(node(b, None, "乙", Value::Empty));
    let f = fold(&s);
    assert_eq!(f.len(), 2);
    assert_eq!(f.get(a).unwrap().value, Value::Text("新".into()));
    assert_eq!(f.get(b).unwrap().name, "乙");
}

#[test]
fn split_root_rule_and_orphan() {
    let a = Uuid([1u8; 16]);
    let b = Uuid([2u8; 16]);
    let xing = Uuid([11u8; 16]);
    let orphan = Uuid([3u8; 16]);
    let mut s = Store::new();
    s.add(node(a, None, "甲", Value::Empty));
    s.add(node(xing, Some(a), "词形", Value::Text("灯".into())));
    s.add(node(b, None, "乙", Value::Empty));
    s.add(node(orphan, Some(Uuid([99u8; 16])), "孤儿", Value::Empty));

    let shards = split(&s, &ShardRule::Root).unwrap();
    assert_eq!(shards.len(), 3);
    let a_shard = shards.iter().find(|(id, _)| *id == a).unwrap().1.clone();
    assert!(a_shard.get(xing).is_some(), "甲 的子节点应归入甲分片");
    assert!(shards.iter().any(|(id, _)| *id == orphan));
}

#[test]
fn split_name_rule_keeps_extra_nodes() {
    let root = Uuid([1u8; 16]);
    let e1 = Uuid([2u8; 16]);
    let e2 = Uuid([3u8; 16]);
    let shiyi = Uuid([21u8; 16]);
    let extra = Uuid([22u8; 16]);
    let mut s = Store::new();
    s.add(node(root, None, "词库", Value::Empty));
    s.add(node(e1, Some(root), "词条", Value::Empty));
    s.add(node(shiyi, Some(e1), "释义", Value::Text("A".into())));
    s.add(node(extra, Some(e1), "额外", Value::Text("X".into())));
    s.add(node(e2, Some(root), "词条", Value::Empty));

    let shards = split(&s, &ShardRule::Name("词条".to_string())).unwrap();
    assert_eq!(shards.len(), 3);
    let e1_shard = shards.iter().find(|(id, _)| *id == e1).unwrap().1.clone();
    assert!(e1_shard.get(shiyi).is_some());
    assert!(e1_shard.get(extra).is_some(), "用户额外节点也应归入同一分片");
}

#[test]
fn split_marker_rule() {
    let root = Uuid([1u8; 16]);
    let a = Uuid([2u8; 16]);
    let b = Uuid([3u8; 16]);
    let mut s = Store::new();
    s.add(node(root, None, "词库", Value::Empty));
    s.add(node(a, Some(root), "甲", Value::Empty));
    s.add(node(Uuid([21u8; 16]), Some(a), "@分片", Value::Empty));
    s.add(node(b, Some(root), "乙", Value::Empty));
    s.add(node(Uuid([31u8; 16]), Some(b), "@分片", Value::Empty));

    let shards = split(&s, &ShardRule::Marker("@分片".to_string())).unwrap();
    assert_eq!(shards.len(), 3);
}

#[test]
fn split_depth_rule() {
    let root = Uuid([1u8; 16]);
    let a = Uuid([2u8; 16]);
    let b = Uuid([3u8; 16]);
    let child = Uuid([21u8; 16]);
    let mut s = Store::new();
    s.add(node(root, None, "词库", Value::Empty));
    s.add(node(a, Some(root), "甲", Value::Empty));
    s.add(node(child, Some(a), "子", Value::Empty));
    s.add(node(b, Some(root), "乙", Value::Empty));

    let shards = split(&s, &ShardRule::Depth(1)).unwrap();
    assert_eq!(shards.len(), 3);
    let a_shard = shards.iter().find(|(id, _)| *id == a).unwrap().1.clone();
    assert!(a_shard.get(child).is_some());
}

#[test]
fn append_changes_is_append_only() {
    let a = Uuid([9u8; 16]);
    let mut s = Store::new();
    s.add(node(a, None, "词条", Value::Empty));
    let mut file = s.save().unwrap();
    let before = Store::load(&file).unwrap();
    let size0 = file.len();
    let mut after = before.clone();
    after.set_quiet(a, Value::Text("新".into())).unwrap();
    file.extend_from_slice(&record_bytes(&changed_nodes(&before, &after)).unwrap());
    assert!(file.len() > size0, "应为追加");
    let raw = Store::load(&file).unwrap();
    assert_eq!(raw.nodes().iter().filter(|n| n.id == a).count(), 2);
    assert_eq!(fold(&raw).get(a).unwrap().value, Value::Text("新".into()));
}

#[test]
fn split_to_dir_append_compact_roundtrip() {
    let root = Uuid([1u8; 16]);
    let e1 = Uuid([2u8; 16]);
    let e2 = Uuid([3u8; 16]);
    let mut s = Store::new();
    s.add(node(root, None, "词库", Value::Empty));
    s.add(node(e1, Some(root), "词条", Value::Empty));
    s.add(node(Uuid([21u8; 16]), Some(e1), "词形", Value::Text("灯".into())));
    s.add(node(e2, Some(root), "词条", Value::Empty));
    s.add(node(Uuid([31u8; 16]), Some(e2), "词形", Value::Text("火".into())));

    let (files, manifest) = split_files(&s, &ShardRule::Name("词条".to_string()));
    assert_eq!(files.len(), 3);
    assert_eq!(manifest.shards.len(), 3);
    let mut raw: Vec<Vec<u8>> = files.iter().map(|(_, s)| s.save().unwrap()).collect();

    let open = |raw: &Vec<Vec<u8>>| {
        let m = read_manifest(&manifest.to_store().save().unwrap()).unwrap();
        let stores = raw.iter().map(|b| Some(Store::load(b).unwrap())).collect();
        Collection::open(m, stores).unwrap()
    };
    assert_eq!(open(&raw).find(e1).unwrap().name, "词条");

    let at = files.iter().position(|(f, _)| *f == format!("{}.xirang", e1.to_string())).unwrap();
    let revision = node(e1, Some(root), "词条", Value::Text("灯·新".into()));
    raw[at].extend_from_slice(&append_records(&vec![revision]).unwrap());
    assert_eq!(open(&raw).find(e1).unwrap().value, Value::Text("灯·新".into()));

    raw[at] = fold(&Store::load(&raw[at]).unwrap()).save().unwrap();
    assert_eq!(open(&raw).find(e1).unwrap().value, Value::Text("灯·新".into()));
    assert_eq!(open(&raw).shard_file_for(e1), Some(files[at].0.as_str()));
}

#[test]
fn manifest_roundtrip() {
    let m = Manifest {
        rule: ShardRule::Name("词条".to_string()),
        shards: vec![ShardEntry { name: "灯".to_string(), filename: "a.xirang".to_string() }],
    };
    let s = m.to_store();
    let back = Manifest::from_store(&s).unwrap();
    assert_eq!(back.rule, m.rule);
    assert_eq!(back.shards.len(), 1);
    assert_eq!(back.shards[0].filename, "a.xirang");
}

#[test]
fn rules_are_written_and_read() {
    for text in ["root", "name:词条", "depth:2", "marker:@分片"] {
        assert_eq!(ShardRule::parse(text).unwrap().as_str(), text);
    }
    assert!(ShardRule::parse("depth:x").is_err());
    assert!(ShardRule::parse("other").is_err());
}

#[test]
fn an_entry_is_added_to_a_manifest() {
    let m = Manifest { rule: ShardRule::Root, shards: vec![] };
    let mut s = m.to_store();
    let entry = ShardEntry { name: "灯".to_string(), filename: "b.xirang".to_string() };
    add_shard_entry(&mut s, entry).unwrap();
    assert_eq!(Manifest::from_store(&s).unwrap().shards[0].filename, "b.xirang");
    assert!(add_shard_entry(
        &mut Store::new(),
        ShardEntry { name: "灯".to_string(), filename: "b.xirang".to_string() }
    )
    .is_err());
}

#[test]
fn entries_below_the_root_of_a_manifest_are_kept() {
    let mut s = Store::new();
    let root = s.create(None, "清单", Value::Empty, false).id;
    s.create(Some(root), "@protocol", Value::Text(PROTOCOL.to_string()), false);
    s.create(Some(root), "旧", Value::Text("old.xirang".to_string()), false);
    assert_eq!(Manifest::from_store(&s).unwrap().shards.len(), 1);
    let entry = ShardEntry { name: "新".to_string(), filename: "new.xirang".to_string() };
    add_shard_entry(&mut s, entry).unwrap();
    let got = Manifest::from_store(&s).unwrap().shards;
    let files: Vec<&str> = got.iter().map(|e| e.filename.as_str()).collect();
    assert_eq!(files, vec!["old.xirang", "new.xirang"]);
}

#[test]
fn the_bytes_of_a_change_behind_a_file_give_the_new_state() {
    let a = Uuid([1u8; 16]);
    let b = Uuid([2u8; 16]);
    let c = Uuid([3u8; 16]);
    let mut before = Store::new();
    before.add(node(a, None, "根", Value::Empty));
    before.add(node(b, Some(a), "旧", Value::Int(1)));
    let mut after = Store::new();
    after.add(node(a, None, "根", Value::Int(2)));
    after.add(node(c, Some(a), "新", Value::Empty));
    let mut file = before.save().unwrap();
    file.extend_from_slice(&record_bytes(&changed_nodes(&before, &after)).unwrap());
    let now = fold(&Store::load(&file).unwrap());
    assert_eq!(now.get(a).unwrap().value, Value::Int(2));
    assert_eq!(now.get(c).unwrap().name, "新");
    let gone = now.get(b).unwrap();
    assert_eq!((gone.parent, gone.name.as_str()), (None, ""));
    assert_eq!(gone.value, Value::Empty);
}

#[test]
fn an_entry_may_be_named_like_a_mark() {
    let m = Manifest { rule: ShardRule::Root, shards: vec![] };
    let mut s = m.to_store();
    for (name, file) in [("@protocol", "a.xirang"), ("@protocol", "shard-v1"), ("@rule", "b.xirang")] {
        let entry = ShardEntry { name: name.to_string(), filename: file.to_string() };
        add_shard_entry(&mut s, entry).unwrap();
    }
    let got = Manifest::from_store(&s).unwrap();
    assert_eq!(got.rule, ShardRule::Root);
    let files: Vec<&str> = got.shards.iter().map(|e| e.filename.as_str()).collect();
    assert_eq!(files, vec!["a.xirang", "shard-v1", "b.xirang"]);
}
