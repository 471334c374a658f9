use xirang::codec::{Node, Uuid, Value};
use xirang::tree::{
    fold, make_file, node_data_start, parse_file, read_header, CopyOptions, Store, PROTOCOL_APPEND,
};

fn n(id: Uuid, parent: Option<Uuid>, name: &str, value: Value) -> Node {
    Node { id, parent, name: name.into(), value }
}

fn build() -> (Store, [Uuid; 4]) {
    let ids = [Uuid([1u8; 16]), Uuid([2u8; 16]), Uuid([3u8; 16]), Uuid([4u8; 16])];
    let mut s = Store::new();
    s.add(n(ids[0], None, "根", Value::Empty));
    s.add(n(ids[1], Some(ids[0]), "甲", Value::Text("hello".into())));
    s.add(n(ids[2], Some(ids[0]), "乙", Value::Int(42)));
    s.add(n(ids[3], Some(ids[0]), "指向甲", Value::Reference(ids[1])));
    (s, ids)
}

#[test]
fn save_load_roundtrip() {
    let (s, _) = build();
    let bytes = s.save().unwrap();
    let loaded = Store::load(&bytes).unwrap();
    assert_eq!(loaded.len(), 4);
    assert_eq!(loaded.nodes()[1].name, "甲");
}

#[test]
fn roots_and_children() {
    let (s, ids) = build();
    assert_eq!(s.roots().len(), 1);
    let root = s.roots()[0];
    assert_eq!(s.children(root).len(), 3);
    assert_eq!(s.child_by_name(root, "甲").unwrap().id, ids[1]);
}

#[test]
fn subtree_preorder() {
    let (s, ids) = build();
    let root = s.roots()[0];
    let sub = s.subtree(root);
    assert_eq!(sub.len(), 4);
    assert_eq!(sub[0].id, ids[0]);
    assert_eq!(sub[1].id, ids[1]);
}

#[test]
fn subtree_stops_on_parent_cycle() {
    let a = Uuid([1u8; 16]);
    let b = Uuid([2u8; 16]);
    let mut s = Store::new();
    s.add(n(a, Some(b), "A", Value::Empty));
    s.add(n(b, Some(a), "B", Value::Empty));
    assert_eq!(s.subtree(s.get(a).unwrap()).len(), 2);
}

#[test]
fn resolve_and_references_to() {
    let (s, ids) = build();
    let root = s.roots()[0];
    let referrer = s.child_by_name(root, "指向甲").unwrap();
    assert_eq!(s.resolve(referrer).unwrap().id, ids[1]);
    let target = s.child_by_name(root, "甲").unwrap();
    assert_eq!(s.references_to(target).len(), 1);
}

#[test]
fn parse_file_bad_magic() {
    assert!(parse_file(b"XXXX").unwrap_err().contains("F001"));
}

#[test]
fn parse_file_bad_version() {
    let f = make_file(&[]);
    let mut bad = f.clone();
    bad[4] = 99;
    assert!(parse_file(&bad).unwrap_err().contains("F002"));
}

#[test]
fn encode_decode_roundtrip() {
    let (s, _) = build();
    let bytes = s.encode().unwrap();
    let d = Store::decode(&bytes).unwrap();
    assert_eq!(d.len(), 4);
    assert_eq!(d.nodes()[0].name, "根");
}

#[test]
fn parity_with_python() {
    fn u(n: u8) -> Uuid {
        let mut b = [0u8; 16];
        b[15] = n;
        Uuid(b)
    }
    let mut s = Store::new();
    s.add(n(u(1), None, "root", Value::Empty));
    s.add(n(u(2), Some(u(1)), "text", Value::Text("灯".into())));
    s.add(n(u(3), Some(u(1)), "int", Value::Int(2046)));
    s.add(n(u(4), Some(u(1)), "float", Value::Float(1.5f64.to_bits())));
    s.add(n(u(5), Some(u(1)), "bool", Value::Bool(true)));
    s.add(n(u(6), Some(u(2)), "ref", Value::Reference(u(3))));
    s.add(n(u(7), Some(u(2)), "blob", Value::Blob(vec![0x00, 0xff, 0x12])));

    let expect = "000000000000000000000000000000010000000000000000000000000000000004726f6f7400000000000000000000000000000000020000000000000000000000000000000104746578740400000003e781af000000000000000000000000000000030000000000000000000000000000000103696e740100000000000007fe000000000000000000000000000000040000000000000000000000000000000105666c6f6174023ff8000000000000000000000000000000000000000000050000000000000000000000000000000104626f6f6c03010000000000000000000000000000000600000000000000000000000000000002037265660500000000000000000000000000000003000000000000000000000000000000070000000000000000000000000000000204626c6f6206000000000000000300ff12";

    let got: String = s.encode().unwrap().iter().map(|b| format!("{:02x}", b)).collect();
    assert_eq!(got, expect);
}

#[test]
fn write_new_update_remove() {
    let mut s = Store::new();
    let root = s.create(None, "根", Value::Empty, true);
    assert!(s.child_by_name(&root, "@created").is_some());

    let child = s.create(Some(root.id), "光源", Value::Text("能发光的物体".into()), true);

    s.update(child.id, Value::Text("新的定义".into())).unwrap();
    assert_eq!(s.get(child.id).unwrap().value, Value::Text("新的定义".into()));
    let hist = s.child_by_name(&child, "@history").unwrap();
    let snap = s.child_by_name(hist, "光源").unwrap();
    assert_eq!(snap.value, Value::Text("能发光的物体".into()));
    assert!(s.child_by_name(snap, "@replaced").is_some());

    s.remove(child.id).unwrap();
    let c = s.get(child.id).unwrap();
    assert_eq!(c.name, "");
    assert_eq!(c.value, Value::Empty);
    let hist2 = s.child_by_name(c, "@history").unwrap();
    assert_eq!(s.children(hist2).len(), 2);
}

#[test]
fn rename_keeps_id_and_records_history() {
    let mut s = Store::new();
    let root = s.create(None, "根", Value::Empty, false);
    let child = s.create(Some(root.id), "旧名", Value::Text("值".into()), false);
    let grand = s.create(Some(child.id), "子", Value::Empty, false);

    s.rename(child.id, "新名".into()).unwrap();
    let c = s.get(child.id).unwrap();
    assert_eq!(c.name, "新名");
    assert_eq!(c.value, Value::Text("值".into()));
    assert_eq!(s.get(grand.id).unwrap().parent, Some(child.id));
    let hist = s.child_by_name(c, "@history").unwrap();
    assert_eq!(s.child_by_name(hist, "旧名").unwrap().name, "旧名");

    let n = s.children(hist).len();
    s.rename(child.id, "新名".into()).unwrap();
    let hist = s.child_by_name(s.get(child.id).unwrap(), "@history").unwrap();
    assert_eq!(s.children(hist).len(), n);

    s.rename_quiet(child.id, "安静名".into()).unwrap();
    let c = s.get(child.id).unwrap();
    assert_eq!(c.name, "安静名");
    let hist = s.child_by_name(c, "@history").unwrap();
    assert_eq!(s.children(hist).len(), n);

    assert!(s.rename(child.id, "字".repeat(100)).is_err());
    assert!(s.rename_quiet(child.id, "字".repeat(100)).is_err());
    assert_eq!(s.get(child.id).unwrap().name, "安静名");
}

#[test]
fn restore_and_sub_store() {
    let mut s = Store::new();
    let root = s.create(None, "根", Value::Empty, false);
    let child = s.create(Some(root.id), "甲", Value::Text("旧".into()), false);
    s.update(child.id, Value::Text("新".into())).unwrap();

    let hist = s.child_by_name(&child, "@history").unwrap();
    let snap = s.children(hist).last().copied().unwrap();
    let (name, value) = (snap.name.clone(), snap.value.clone());
    s.restore(child.id, name, value).unwrap();
    assert_eq!(s.get(child.id).unwrap().value, Value::Text("旧".into()));

    let sub = s.sub_store(&root);
    assert_eq!(sub.len(), 5);
    assert!(sub.get(child.id).is_some());
}

#[test]
fn revert_restores_snapshot() {
    let mut s = Store::new();
    let root = s.create(None, "根", Value::Empty, false);
    let child = s.create(Some(root.id), "甲", Value::Text("旧".into()), false);
    s.update(child.id, Value::Text("新".into())).unwrap();
    assert_eq!(s.get(child.id).unwrap().value, Value::Text("新".into()));
    s.revert(child.id).unwrap();
    assert_eq!(s.get(child.id).unwrap().value, Value::Text("旧".into()));
}

#[test]
fn set_quiet_changes_value_without_history() {
    let mut s = Store::new();
    let root = s.create(None, "根", Value::Empty, false);
    let child = s.create(Some(root.id), "甲", Value::Text("旧".into()), false);
    s.set_quiet(child.id, Value::Text("新".into())).unwrap();
    assert_eq!(s.get(child.id).unwrap().value, Value::Text("新".into()));
    assert!(s.child_by_name(&child, "@history").is_none());
    s.set_quiet(child.id, Value::Text("新".into())).unwrap();
    assert!(s.child_by_name(&child, "@history").is_none());
}

#[test]
fn remove_subtree_removes_entire_tree() {
    let mut s = Store::new();
    let root = s.create(None, "根", Value::Empty, false);
    let a = s.create(Some(root.id), "甲", Value::Text("x".into()), false);
    let b = s.create(Some(a.id), "乙", Value::Empty, false);
    let total = s.len();
    assert_eq!(total, 3);
    s.remove_subtree(root.id).unwrap();
    assert_eq!(s.len(), 0);
    assert!(s.get(root.id).is_none());
    assert!(s.get(a.id).is_none());
    assert!(s.get(b.id).is_none());
}

#[test]
fn is_editable_annotation_rule() {
    let mut s = Store::new();
    let root = s.create(None, "数据", Value::Empty, false);
    assert!(s.is_editable(s.get(root.id).unwrap()));

    let tpl = s.create(None, "词条", Value::Empty, false);
    s.create(Some(tpl.id), "@模板", Value::Empty, false);
    s.create(Some(tpl.id), "词形", Value::Empty, false);
    assert!(!s.is_editable(s.get(tpl.id).unwrap()));
    assert!(!s.is_editable(s.child_by_name(s.get(tpl.id).unwrap(), "词形").unwrap()));

    let inst = s.create(None, "词条", Value::Empty, false);
    s.create(Some(inst.id), "@实例", Value::Empty, false);
    s.create(Some(inst.id), "@模板", Value::Reference(tpl.id), false);
    s.create(Some(inst.id), "词形", Value::Text("火".into()), false);
    assert!(s.is_editable(s.get(inst.id).unwrap()));
    assert!(s.is_editable(s.child_by_name(s.get(inst.id).unwrap(), "词形").unwrap()));
    assert_eq!(s.template_ref(s.get(inst.id).unwrap()), Some(tpl.id));

    assert!(s.is_template_root(s.get(tpl.id).unwrap()));
    assert!(s.is_instance_root(s.get(inst.id).unwrap()));
    assert!(!s.is_instance_root(s.get(tpl.id).unwrap()));
}

#[test]
fn copy_subtree_repoints_internal_and_keeps_external() {
    let mut s = Store::new();
    let root = s.create(None, "世界", Value::Empty, false);
    let lamp = s.create(Some(root.id), "灯", Value::Empty, false);
    let _word = s.create(Some(lamp.id), "词形", Value::Text("灯".into()), false);
    let light = s.create(Some(root.id), "光源", Value::Empty, false);
    let _parent = s.create(Some(lamp.id), "父类", Value::Reference(light.id), false);
    let _self_ref = s.create(Some(lamp.id), "指向灯", Value::Reference(lamp.id), false);
    s.update(lamp.id, Value::Text("新".into())).unwrap();

    let opts = CopyOptions { blank_values: false, history: true };
    let new_id = s.copy_subtree(lamp.id, Some(root.id), &opts).unwrap();
    assert_eq!(s.get(new_id).unwrap().name, "灯");
    assert_eq!(s.get(new_id).unwrap().value, Value::Text("新".into()));
    let new_parent = s.child_by_name(s.get(new_id).unwrap(), "父类").unwrap();
    let target = match new_parent.value {
        Value::Reference(t) => t,
        _ => panic!("应为引用"),
    };
    assert_eq!(target, light.id);
    let new_self = s.child_by_name(s.get(new_id).unwrap(), "指向灯").unwrap();
    match new_self.value {
        Value::Reference(t) => assert_eq!(t, new_id),
        _ => panic!("应为引用"),
    }
    assert!(s.child_by_name(s.get(new_id).unwrap(), "@history").is_some());

    let opts2 = CopyOptions { blank_values: true, history: false };
    let new2 = s.copy_subtree(lamp.id, Some(root.id), &opts2).unwrap();
    let n = s.get(new2).unwrap();
    assert_eq!(n.value, Value::Empty);
    assert_eq!(s.child_by_name(n, "词形").unwrap().value, Value::Empty);
    assert!(matches!(s.child_by_name(n, "父类").unwrap().value, Value::Reference(_)));
    assert!(s.child_by_name(n, "@history").is_none());
}

#[test]
fn noop_operations_record_nothing() {
    let mut s = Store::new();
    let root = s.create(None, "根", Value::Empty, false);
    let child = s.create(Some(root.id), "甲", Value::Text("旧".into()), false);

    s.update(child.id, Value::Text("旧".into())).unwrap();
    assert!(s.child_by_name(&child, "@history").is_none());

    s.rename(child.id, "甲".into()).unwrap();
    assert!(s.child_by_name(&child, "@history").is_none());

    let blank = s.create(Some(root.id), "丙", Value::Empty, false).id;
    s.remove(blank).unwrap();
    let hist = s.child_by_name(s.get(blank).unwrap(), "@history").unwrap();
    let snaps_before = s.children(hist).len();
    s.remove(blank).unwrap();
    let hist2 = s.child_by_name(s.get(blank).unwrap(), "@history").unwrap();
    assert_eq!(s.children(hist2).len(), snaps_before);

    s.update(child.id, Value::Text("新".into())).unwrap();
    assert!(s.child_by_name(&child, "@history").is_some());
}

#[test]
fn rename_changes_name_with_history() {
    let mut s = Store::new();
    let root = s.create(None, "根", Value::Empty, false);
    let child = s.create(Some(root.id), "甲", Value::Text("值".into()), false);
    s.rename(child.id, "乙".into()).unwrap();
    assert_eq!(s.get(child.id).unwrap().name, "乙");
    assert_eq!(s.get(child.id).unwrap().value, Value::Text("值".into()));
    let hist = s.child_by_name(&child, "@history").unwrap();
    let snaps = s.children(hist);
    let snap = snaps.last().unwrap();
    assert_eq!(snap.name, "甲");
}

#[test]
fn fold_keeps_last_record_and_first_position() {
    let mut s = Store::new();
    let root = s.create(None, "根", Value::Empty, false).id;
    let a = s.create(Some(root), "甲", Value::Text("旧".into()), false).id;
    let b = s.create(Some(root), "乙", Value::Empty, false).id;
    s.add(n(a, Some(root), "甲", Value::Text("新".into())));

    let folded = fold(&s);
    assert_eq!(folded.len(), 3, "折叠后只应有 3 个编号");
    assert_eq!(folded.get(a).unwrap().value, Value::Text("新".into()));
    let ids: Vec<Uuid> = folded.nodes().iter().map(|x| x.id).collect();
    assert_eq!(ids, vec![root, a, b]);
    assert_eq!(folded.children(folded.get(root).unwrap()).len(), 2);
}

#[test]
fn fold_handles_empty_slot_and_parent_move() {
    let mut s = Store::new();
    let root = s.create(None, "根", Value::Empty, false).id;
    let other = s.create(None, "另一个根", Value::Empty, false).id;
    let a = s.create(Some(root), "甲", Value::Text("值".into()), false).id;
    s.add(n(a, Some(root), "", Value::Empty));
    s.add(n(a, Some(other), "甲", Value::Text("搬家".into())));

    let folded = fold(&s);
    assert_eq!(folded.children(folded.get(root).unwrap()).len(), 0);
    assert_eq!(folded.children(folded.get(other).unwrap()).len(), 1);
    assert_eq!(folded.get(a).unwrap().value, Value::Text("搬家".into()));
}

#[test]
fn protocol_detection_reads_marker_node() {
    let mut s = Store::new();
    let root = s.create(None, "根", Value::Empty, false).id;
    let plain = s.create(None, "普通根", Value::Empty, false).id;
    s.create(Some(root), "@protocol", Value::Text(PROTOCOL_APPEND.into()), false);

    assert!(s.declares_protocol(root, PROTOCOL_APPEND));
    assert!(!s.declares_protocol(plain, PROTOCOL_APPEND));
    assert_eq!(s.protocol_roots(PROTOCOL_APPEND), vec![root]);
    assert_eq!(s.root_of(root), Some(root));
}

#[test]
fn node_data_start_matches_make_file() {
    let mut s = Store::new();
    s.create(None, "根", Value::Empty, false);
    let bytes = make_file(&s.encode().unwrap());
    let start = node_data_start(&bytes).unwrap() as usize;
    assert_eq!(&bytes[start..], parse_file(&bytes).unwrap());
}

#[test]
fn pruning_keeps_the_newest() {
    let mut s = Store::new();
    let id = s.create(None, "根", Value::Empty, false).id;
    for i in 0..5 {
        s.update(id, Value::Int(i)).unwrap();
    }
    let report = s.prune_history(id, 2, None).unwrap();
    assert_eq!(report.removed, 3);
    assert_eq!(report.kept, 2);
    assert_eq!(report.before_nodes - report.after_nodes, 6);
    s.revert(id).unwrap();
    assert_eq!(s.get(id).unwrap().value, Value::Int(3));
}

#[test]
fn the_header_is_read_back() {
    let bytes = make_file(&[]);
    let (version, header) = read_header(&bytes).unwrap();
    assert_eq!(version, 1);
    assert!(header.starts_with("XiRang Tree v1.0"));
}

#[test]
fn traces_hold_a_time() {
    let mut s = Store::new();
    let root = s.create(None, "根", Value::Empty, true);
    match &s.child_by_name(&root, "@created").unwrap().value {
        Value::Text(t) => {
            assert_eq!(&t[4..5], "-");
            assert_eq!(&t[10..11], "T");
        }
        _ => panic!("a time is a text"),
    }
}

#[test]
fn a_missing_node_is_an_error() {
    let (mut s, _) = build();
    let gone = Uuid([9u8; 16]);
    assert!(s.update(gone, Value::Empty).is_err());
    assert!(s.set_parent(gone, None).is_err());
    assert!(s.copy_subtree(gone, None, &CopyOptions::default()).is_err());
    assert!(s.remove_subtree(gone).is_err());
}

#[test]
fn copies_have_new_version_four_ids() {
    let mut s = Store::new();
    let a = s.create(None, "根", Value::Empty, false).id;
    s.create(Some(a), "子", Value::Int(1), false);
    let before: Vec<Uuid> = s.nodes().iter().map(|n| n.id).collect();
    s.copy_subtree(a, None, &CopyOptions::default()).unwrap();
    assert_eq!(s.len(), 4);
    for n in &s.nodes()[2..] {
        assert!(!before.contains(&n.id));
        assert_eq!(n.id.0[6] >> 4, 4);
        assert_eq!(n.id.0[8] >> 6, 2);
    }
    assert_eq!(s.nodes()[3].parent, Some(s.nodes()[2].id));
}

#[test]
fn a_second_revert_brings_the_change_back() {
    let mut s = Store::new();
    let root = s.create(None, "根", Value::Empty, false).id;
    let a = s.create(Some(root), "甲", Value::Int(1), false).id;
    s.update(a, Value::Int(2)).unwrap();
    s.revert(a).unwrap();
    assert_eq!(s.get(a).unwrap().value, Value::Int(1));
    s.revert(a).unwrap();
    assert_eq!(s.get(a).unwrap().value, Value::Int(2));
}

#[test]
fn a_change_of_a_node_that_is_its_own_parent_is_taken_back() {
    let mut s = Store::new();
    let a = Uuid([1u8; 16]);
    s.add(n(a, Some(a), "@history", Value::Int(1)));
    s.update(a, Value::Int(2)).unwrap();
    s.revert(a).unwrap();
    assert_eq!(s.get(a).unwrap().value, Value::Int(1));
    s.revert(a).unwrap();
    assert_eq!(s.get(a).unwrap().value, Value::Int(2));
}
