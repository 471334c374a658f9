use xirang::change::{
    blob_export, blob_import, copy_node, create_in_shard, create_node, create_shard, fill_values,
    link_in_collection, link_nodes, prune_history, remove_node, rename_node, revert_node, set_value,
};
use xirang::codec::{Node, Uuid, Value};
use xirang::json::parse_json;
use xirang::lookup::{
    blob_info, diff, find, history, info, instances, refs, search, MatchQuery,
};
use xirang::ops::{
    is_within, label, load_error, parse_parent, parse_uuid, realish, view, ErrKind, Layout, Policy,
    ViewOpts,
};
use xirang::request::records_of;
use xirang::template::{
    has_end, import_instances, instantiate, resolve_template, template_define, template_list,
    template_remove,
};
use xirang::transfer::{export_data, import_append, import_data};
use xirang::tree::Store;

fn lamp() -> (Store, Uuid, Uuid) {
    let mut s = Store::new();
    let root = s.create(None, "词条", Value::Empty, false).id;
    let word = s.create(Some(root), "词形", Value::Text("灯".into()), false).id;
    (s, root, word)
}

fn all() -> ViewOpts {
    ViewOpts { skip_aux: false, include_ids: false, max_depth: None, limit: None }
}

#[test]
fn a_node_is_created_below_its_parent() {
    let (mut s, root, _) = lamp();
    let out = create_node(&mut s, false, Some(root), "词频", Value::Int(3), true).unwrap();
    assert_eq!(s.get(out.id).unwrap().parent, Some(root));
    assert_eq!(s.len(), 3);
    let e = create_node(&mut s, false, Some(Uuid([9; 16])), "x", Value::Empty, true).unwrap_err();
    assert_eq!(e.kind, ErrKind::Guarded);
    assert_eq!(s.len(), 3);
}

#[test]
fn values_and_names_are_changed_with_a_trace() {
    let (mut s, root, word) = lamp();
    set_value(&mut s, false, word, Value::Text("火".into()), false).unwrap();
    rename_node(&mut s, false, word, "字形", true).unwrap();
    assert_eq!(s.get(word).unwrap().name, "字形");
    assert_eq!(history(&s, &word.to_string(), &vec![]).unwrap().snapshots.len(), 1);
    assert_eq!(rename_node(&mut s, false, word, "", true).unwrap_err().kind, ErrKind::InvalidArgument);
    assert_eq!(
        rename_node(&mut s, false, word, &"x".repeat(256), true).unwrap_err().kind,
        ErrKind::InvalidArgument
    );
    assert_eq!(
        set_value(&mut s, false, Uuid([9; 16]), Value::Empty, true).unwrap_err().kind,
        ErrKind::Internal
    );
    let back = revert_node(&mut s, &word.to_string(), word).unwrap();
    assert!(back.no_snapshot.is_none());
    assert_eq!(s.get(word).unwrap().value, Value::Text("灯".into()));
    remove_node(&mut s, false, root).unwrap();
    assert_eq!(s.get(root).unwrap().name, "");
}

#[test]
fn links_and_copies() {
    let (mut s, root, word) = lamp();
    link_nodes(&mut s, false, word, root, true).unwrap();
    assert_eq!(s.get(word).unwrap().value, Value::Reference(root));
    assert!(link_nodes(&mut s, false, word, Uuid([9; 16]), true).is_err());
    assert!(link_in_collection(&mut s, false, word, Uuid([9; 16]), true, true).is_ok());
    assert!(link_in_collection(&mut s, false, word, Uuid([9; 16]), false, true).is_err());
    let out = copy_node(&mut s, false, &root.to_string(), root, None, true, true).unwrap();
    assert_eq!(out.src_id, root);
    assert_ne!(out.new_id, root);
    assert_eq!(s.len(), 4);
    assert!(copy_node(&mut s, false, "x", Uuid([9; 16]), None, true, true).is_err());
}

#[test]
fn values_are_filled_in_by_path_or_not_at_all() {
    let (mut s, root, word) = lamp();
    let good = vec![("词形".to_string(), Value::Text("火".into()))];
    assert_eq!(fill_values(&mut s, false, "r", root, &good, true).unwrap().count, 1);
    assert_eq!(s.get(word).unwrap().value, Value::Text("火".into()));
    let bad = vec![
        ("词形".to_string(), Value::Text("水".into())),
        ("没有".to_string(), Value::Empty),
    ];
    assert_eq!(fill_values(&mut s, false, "r", root, &bad, true).unwrap_err().kind, ErrKind::NotFound);
    assert_eq!(s.get(word).unwrap().value, Value::Text("火".into()));
}

#[test]
fn cutting_a_history_is_guarded() {
    let (mut s, _, word) = lamp();
    for i in 0..4 {
        set_value(&mut s, false, word, Value::Int(i), false).unwrap();
    }
    let w = word.to_string();
    let e = prune_history(&mut s, false, &w, word, 1, None, false, 10).unwrap_err();
    assert_eq!(e.kind, ErrKind::Guarded);
    assert!(e.message.contains("回滚能力") || e.hint.unwrap().contains("回滚能力"));
    let n = s.len();
    let mut trial = s.clone();
    let tried = prune_history(&mut trial, true, &w, word, 1, None, true, 10).unwrap();
    assert_eq!((tried.removed, tried.kept, tried.dry_run), (3, 1, true));
    assert!(!tried.must_save());
    let done = prune_history(&mut s, true, &w, word, 1, None, false, 10).unwrap();
    assert!(done.must_save());
    assert_eq!(n - s.len(), 6);
}

#[test]
fn blobs_go_in_and_out() {
    let (mut s, root, _) = lamp();
    let (id, name) = blob_import(&mut s, Some(root), Some("note.bin"), b"hello blob".to_vec());
    assert_eq!(name, "note.bin");
    let b = blob_info(&s, &id.to_string()).unwrap();
    assert_eq!(b.bytes, 10);
    assert_eq!(b.preview.unwrap(), "hello blob");
    assert!(blob_info(&s, &root.to_string()).is_err());
    assert_eq!(blob_export(&s, false, &id.to_string(), "out.bin", false).unwrap().bytes, 10);
    assert_eq!(
        blob_export(&s, false, &id.to_string(), "out.bin", true).unwrap_err().kind,
        ErrKind::Guarded
    );
    assert!(blob_export(&s, true, &id.to_string(), "out.bin", true).is_ok());
}

#[test]
fn a_shard_is_made_for_a_new_root() {
    let (s, entry, out) = create_shard("新词条", Value::Empty, true);
    assert!(out.new_shard);
    assert_eq!(entry.filename, format!("{}.xirang", out.id.to_string()));
    assert_eq!(s.roots()[0].name, "新词条");
    let mut t = s.clone();
    let kid = create_in_shard(&mut t, out.id, "词形", Value::Empty, true);
    assert_eq!(t.get(kid.id).unwrap().parent, Some(out.id));
}

#[test]
fn a_diff_is_complete() {
    let (a, root, word) = lamp();
    let mut b = a.clone();
    b.set_quiet(word, Value::Text("火".into())).unwrap();
    let new = b.create(Some(root), "词频", Value::Int(1), false).id;
    let d = diff(&a, &b, &vec![]);
    assert_eq!(d.added.len(), 1);
    assert_eq!(d.added[0].id, new);
    assert_eq!(d.changed.len(), 1);
    assert_eq!(d.changed[0].id, word);
    assert!(d.removed.is_empty());
    let same = diff(&a, &a, &vec![]);
    assert!(same.added.is_empty() && same.removed.is_empty() && same.changed.is_empty());
}

#[test]
fn nodes_are_found_by_text_shape_and_conditions() {
    let (mut s, root, word) = lamp();
    let other = s.create(None, "词条", Value::Empty, false).id;
    s.create(Some(other), "词形", Value::Text("火".into()), false);
    let hits = find(s.nodes().clone(), "灯", &vec![]);
    assert_eq!(hits.len(), 1);
    assert_eq!(hits[0].id, word);
    let q = MatchQuery {
        root: Some("词条".into()),
        shape_of: None,
        template: None,
        wheres: vec![("词形".into(), "火".into())],
        with_tree: true,
    };
    let m = search(&s, &q, &vec![], &vec![]).unwrap();
    assert_eq!(m.items.len(), 1);
    assert_eq!(m.items[0].id, other);
    assert_eq!(m.items[0].tree.as_ref().unwrap().children[0].name, "词形");
    let q = MatchQuery {
        root: None,
        shape_of: Some(root.to_string()),
        template: None,
        wheres: vec![],
        with_tree: false,
    };
    assert_eq!(search(&s, &q, &vec![], &vec![]).unwrap().items.len(), 2);
}

#[test]
fn references_are_told_both_ways() {
    let (mut s, root, word) = lamp();
    s.set_quiet(word, Value::Reference(root)).unwrap();
    let r = refs(&s, &word.to_string()).unwrap();
    assert!(r.reference.unwrap().exists);
    let r = refs(&s, &root.to_string()).unwrap();
    assert_eq!(r.incoming.len(), 1);
    assert!(refs(&s, "x").is_err());
}

#[test]
fn a_summary_of_a_file() {
    let (s, _, _) = lamp();
    let out = info("a.xirang", &s.save().unwrap()).unwrap();
    assert_eq!((out.version, out.nodes, out.roots), (1, 2, 1));
    assert!(out.header_first_line.starts_with("XiRang"));
    assert!(info("a.xirang", b"not-a-xirang-file").unwrap_err().message.contains("F001"));
}

#[test]
fn a_view_shows_what_it_says() {
    let (s, root, _) = lamp();
    let v = view(&s, "a.xirang", None, all(), Layout::Tree, None, &vec![]).unwrap();
    assert_eq!((v.total, v.printed), (2, 2));
    assert!(!v.truncated());
    assert_eq!(v.roots[0].children[0].label, "词形 = 灯");
    let few = ViewOpts { limit: Some(1), ..all() };
    let v = view(&s, "a.xirang", None, few, Layout::Flat, None, &vec![]).unwrap();
    assert_eq!(v.items.len(), 1);
    assert!(v.truncated());
    let flat = ViewOpts { max_depth: Some(1), ..all() };
    let v = view(&s, "a.xirang", None, flat, Layout::Tree, None, &vec![]).unwrap();
    assert!(v.roots[0].children.is_empty());
    let e = view(&s, "a.xirang", None, all(), Layout::Tree, Some(1), &vec![]).unwrap_err();
    assert_eq!(e.kind, ErrKind::Guarded);
    assert!(view(&s, "a.xirang", Some("x"), all(), Layout::Tree, None, &vec![]).is_err());
    assert_eq!(label(&s, s.get(root).unwrap(), &vec![]), "词条");
}

#[test]
fn templates_are_defined_used_and_removed() {
    let mut s = Store::new();
    let sample = parse_json(r#"{"词形":"","词义":{"释义":""}}"#).unwrap();
    let tpl = template_define(&mut s, "词条", &sample.root()).unwrap();
    assert_eq!(resolve_template(&s, "词条").unwrap(), tpl);
    assert!(resolve_template(&s, "没有").is_err());
    assert!(template_define(&mut s, "词条", &sample.root()).is_err());
    assert!(has_end(&s, tpl));
    let record = parse_json(r#"{"词形":"灯","词义":{"释义":"照明器具"}}"#).unwrap();
    let made = instantiate(&mut s, tpl, None, &record.root()).unwrap();
    let word = s.child_by_name(s.get(made).unwrap(), "词形").unwrap();
    assert_eq!(word.value, Value::Text("灯".into()));
    let many = import_instances(&mut s, tpl, None, &records_of(&record)).unwrap();
    assert_eq!(many.count, 1);
    assert_eq!(template_list(&s)[0].instances, 2);
    assert_eq!(instances(&s, "词条", &vec![]).unwrap().instances.len(), 2);
    let e = rename_node(&mut s, false, tpl, "别名", true).unwrap_err();
    assert_eq!(e.kind, ErrKind::Guarded);
    assert!(rename_node(&mut s, true, tpl, "别名", true).is_ok());
    assert_eq!(template_remove(&mut s, false, "别名").unwrap_err().kind, ErrKind::Guarded);
    let gone = template_remove(&mut s, true, "别名").unwrap();
    assert_eq!(gone.removed_instances, 2);
    assert!(s.is_empty());
}

#[test]
fn a_template_that_refers_to_itself_has_no_end() {
    let mut s = Store::new();
    let sample = parse_json(r#"{"词形":""}"#).unwrap();
    let tpl = template_define(&mut s, "词条", &sample.root()).unwrap();
    let part = s.child_by_name(s.get(tpl).unwrap(), "词形").unwrap().id;
    s.set_parent(tpl, Some(part)).unwrap();
    assert!(!has_end(&s, tpl));
}

#[test]
fn data_goes_out_and_comes_in() {
    let (s, _, word) = lamp();
    let out = export_data(&s, "json", None, &vec![]).unwrap();
    let (back, told) = import_data(false, "a.xirang", "json", &out.text, None, &vec![]).unwrap();
    assert_eq!(told.nodes, 2);
    assert_eq!(back.get(word).unwrap().value, Value::Text("灯".into()));
    let e = import_data(false, "a.xirang", "json", &out.text, Some(2), &vec![]).unwrap_err();
    assert_eq!(e.kind, ErrKind::Guarded);
    assert!(import_data(true, "a.xirang", "json", &out.text, Some(2), &vec![]).is_ok());
    assert!(export_data(&s, "doc", None, &vec![]).is_err());
    assert!(export_data(&s, "md", Some(&word.to_string()), &vec![]).unwrap().text.contains("灯"));
    let mut t = s.clone();
    let more = parse_json(r#"{"甲":1,"乙":["x",true]}"#).unwrap();
    let after = import_append(&mut t, None, &more.root());
    assert_eq!(after.nodes_after, t.len());
    assert!(t.find_by_name("甲").iter().any(|n| n.value == Value::Int(1)));
}

#[test]
fn paths_are_kept_inside_the_roots() {
    assert!(is_within("/a/b/c", "/a/b"));
    assert!(!is_within("/a/bc", "/a/b"));
    let p = Policy::mcp(false, vec!["/work".to_string()]);
    assert_eq!(p.joined("x.xirang"), "/work/x.xirang");
    assert!(p.resolve("x", "/work/x", &vec!["/work".to_string()]).is_ok());
    let e = p.resolve("../x", "/x", &vec!["/work".to_string()]).unwrap_err();
    assert_eq!(e.kind, ErrKind::PathDenied);
    assert!(Policy::cli(true).resolve("../x", "/x", &vec![]).is_ok());
    assert!(!Policy::default().force);
    let base = vec!["work".to_string(), "a".to_string()];
    let tail = vec!["b".to_string(), "..".to_string()];
    assert_eq!(realish(base, &tail), vec!["work".to_string(), "b".to_string()]);
}

#[test]
fn arguments_are_read() {
    assert!(parse_uuid("节点 ID", "x").unwrap_err().message.contains("无效节点 ID：x"));
    assert!(parse_parent(Some("nil")).unwrap().is_none());
    assert!(parse_parent(None).unwrap().is_none());
    assert!(parse_parent(Some("x")).is_err());
    assert_eq!(load_error(false, "a.xirang", "e").kind, ErrKind::NotFound);
    assert_eq!(load_error(true, "a.xirang", "e").kind, ErrKind::Internal);
}

#[test]
fn a_record_of_a_node_is_kept_whole() {
    let n = Node { id: Uuid([5; 16]), parent: None, name: "甲".into(), value: Value::Bool(true) };
    assert!(n.clone() == n);
}
