use xirang::backend::FileNode;
use xirang::codec::{Node, Uuid, Value};
use xirang::console::{
    flag_value, forget_targets, has_flag, index_options, index_step, is_known_flag, is_mistyped,
    label_brief, related_files, render_forest, report, sidecar_step, sync_node, trash_dest,
    usable_files, views_disagree, IndexStep, SidecarStep, Synced,
};
use xirang::ops::{tree_view, OpError};
use xirang::paths::{
    collect_data_files, default_path, index_dir, lexical_abs, normalize, parent_dir, takes_path,
    workspace_root,
};
use xirang::tree::Store;

fn strings(v: &[&str]) -> Vec<String> {
    v.iter().map(|s| s.to_string()).collect()
}

fn node(id: u8, name: &str, value: Value) -> Node {
    Node { id: Uuid([id; 16]), parent: None, name: name.into(), value }
}

#[test]
fn flags_are_found() {
    let args = strings(&["a.xirang", "--keep", "5", "--yes"]);
    assert!(has_flag(&args, "--yes"));
    assert!(!has_flag(&args, "--json"));
    assert_eq!(flag_value(&args, "--keep"), Some("5"));
    assert_eq!(flag_value(&args, "--yes"), None);
    assert!(is_known_flag("--yes"));
    assert!(is_mistyped("--yess"));
    assert!(!is_mistyped("a.xirang"));
}

#[test]
fn errors_are_told_in_one_line() {
    assert_eq!(report(&OpError::invalid("坏")), "错误：坏");
    assert_eq!(report(&OpError::guarded("不行", "加 --yes")), "（不行；加 --yes）");
    assert_eq!(report(&OpError::path_denied("越界")), "（越界）");
}

#[test]
fn a_tree_is_drawn() {
    let mut s = Store::new();
    let root = s.create(None, "根", Value::Empty, false).id;
    s.create(Some(root), "甲", Value::Int(1), false);
    s.create(Some(root), "乙", Value::Text("hello".into()), false);
    let v = tree_view(&s, s.get(root).unwrap(), &vec![]);
    let lines = render_forest(&vec![v], false);
    assert_eq!(lines.len(), 3);
    assert!(lines[0].ends_with("根"));
    assert!(lines[2].ends_with("└─ 乙 = hello"));
}

#[test]
fn dangerous_steps_are_asked_about() {
    assert_eq!(index_step("drop", false, false, false), IndexStep::AskDrop);
    assert_eq!(index_step("drop", true, false, false), IndexStep::AskDrop);
    assert_eq!(index_step("drop", true, true, false), IndexStep::TellDrop);
    assert_eq!(index_step("drop", false, true, false), IndexStep::Drop);
    assert_eq!(index_step("forget", false, true, false), IndexStep::NoTargets);
    assert_eq!(index_step("forget", false, false, true), IndexStep::AskForget);
    assert_eq!(index_step("forget", false, true, true), IndexStep::Forget);
    assert_eq!(index_step("x", false, true, true), IndexStep::Unknown);
    assert_eq!(sidecar_step("drop", false, false), SidecarStep::AskDrop);
    assert_eq!(sidecar_step("compact", false, false), SidecarStep::NoCompact);
}

#[test]
fn options_of_the_index() {
    let o = index_options(&strings(&["a.xirang"]), &strings(&["--json", "--sample", "7"]));
    assert!(o.json && !o.yes);
    assert_eq!(o.sample, 7);
    assert_eq!(o.paths, strings(&["a.xirang"]));
    assert_eq!(forget_targets(&strings(&["a.xirang", "b.xirang"])).len(), 2);
}

#[test]
fn files_that_have_to_do_with_a_node() {
    let given = strings(&["/a"]);
    let known = strings(&["/a", "/b"]);
    assert_eq!(related_files(None, &given, &known), strings(&["/a", "/b"]));
    assert_eq!(related_files(Some("/c"), &given, &known), strings(&["/c"]));
    let places = vec![Some("/a".to_string()), Some("/a".to_string()), None];
    assert_eq!(usable_files(&strings(&["a", "./a", "b"]), &places), strings(&["a"]));
}

#[test]
fn views_that_differ_are_brought_together() {
    let one: FileNode = ("a".to_string(), node(1, "灯", Value::Empty));
    let same: FileNode = ("b".to_string(), node(1, "灯", Value::Empty));
    let other: FileNode = ("b".to_string(), node(1, "火", Value::Int(1)));
    assert!(!views_disagree(&vec![one, same]));
    let base = node(1, "灯", Value::Empty);
    let mut s = Store::new();
    assert!(matches!(sync_node(&mut s, base.id, &base), Synced::Absent));
    s.add(other.1);
    assert!(matches!(sync_node(&mut s, base.id, &base), Synced::Done));
    assert_eq!(s.get(base.id).unwrap().name, "灯");
    assert_eq!(s.get(base.id).unwrap().value, Value::Empty);
    assert!(matches!(sync_node(&mut s, base.id, &base), Synced::Same));
    assert_eq!(label_brief(&node(1, "甲", Value::Int(4)), &vec![]), "甲 = 4");
}

#[test]
fn files_go_to_the_trash() {
    assert_eq!(trash_dest("/d/a", Some("/t"), Some("a"), false, 9), "/t/a");
    assert_eq!(trash_dest("/d/a", Some("/t"), Some("a"), true, 9), "/t/9-a");
    assert_eq!(trash_dest("/d/a", None, Some("a"), false, 9), "/d/a.trashed");
}

#[test]
fn paths_are_folded_and_sorted() {
    assert_eq!(normalize("/a/./b/../c"), "/a/c");
    assert_eq!(lexical_abs("/work", "../x"), "/x");
    assert_eq!(index_dir("/work"), "/work/.xirang-index");
    assert_eq!(parent_dir("/a/b"), "/a");
    assert!(takes_path("a/b.xirang"));
    assert!(takes_path("b.xirang"));
    assert!(!takes_path("a/.xirang-index/b.xirang"));
    assert!(!takes_path(".xirang-index/b.xirang"));
    assert_eq!(
        collect_data_files(&strings(&["b.xirang", "x.txt", "a.xirang"])),
        strings(&["a.xirang", "b.xirang"])
    );
    assert_eq!(default_path(Some("/c.idx"), None, None), "/c.idx");
    assert_eq!(workspace_root(None, "/a/b.xirang", false), "/a");
    assert_eq!(workspace_root(Some("/w"), "/a", true), "/w");
}
