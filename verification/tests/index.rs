use xirang::backend::{
    choose_backend, index_mode, sidecar_enabled, BackendKind, IndexMode, IndexedFile, LazyWorkspace,
    MemoryBackend, SidecarBackend,
};
use xirang::codec::{Node, Uuid, Value};
use xirang::index::{build, read_node_at, sidecar_path, Sidecar};
use xirang::tree::{make_file, Store};

fn file_bytes(store: &Store) -> Vec<u8> {
    make_file(&store.encode().unwrap())
}

fn indexed(path: &str, store: &Store) -> IndexedFile {
    let data = file_bytes(store);
    let index = Sidecar::open(xirang::index::write(&build(&data).unwrap())).unwrap();
    IndexedFile { path: path.to_string(), index, data }
}

#[test]
fn build_roots_assign_reverse() {
    let mut s = Store::new();
    let a = s.create(None, "甲", Value::Empty, false).id;
    s.create(Some(a), "词形", Value::Text("灯".into()), false);
    let b = s.create(None, "乙", Value::Empty, false).id;
    s.create(Some(b), "释义", Value::Text("目标".into()), false);
    let c = s.create(Some(b), "父类", Value::Reference(a), false).id;

    let idx = build(&file_bytes(&s)).unwrap();
    assert!(idx.roots.contains_key(a));
    assert!(idx.roots.contains_key(b));
    assert_eq!(*idx.assign.get(a).unwrap(), a);
    assert_eq!(*idx.assign.get(b).unwrap(), b);
    let xing = s.nodes().iter().find(|n| n.name == "词形").unwrap().id;
    assert_eq!(*idx.assign.get(xing).unwrap(), a);
    assert_eq!(*idx.reverse.get(a).unwrap(), vec![c]);
}

#[test]
fn build_detects_template_and_instance_roots() {
    let mut s = Store::new();
    let tpl = s.create(None, "词条", Value::Empty, false).id;
    s.create(Some(tpl), "@模板", Value::Empty, false);
    s.create(Some(tpl), "词形", Value::Empty, false);
    let inst = s.create(None, "灯", Value::Empty, false).id;
    s.create(Some(inst), "@实例", Value::Empty, false);
    s.create(Some(inst), "@模板", Value::Reference(tpl), false);

    let idx = build(&file_bytes(&s)).unwrap();
    assert!(idx.roots.contains_key(tpl));
    assert!(idx.roots.contains_key(inst));
    assert_eq!(*idx.assign.get(tpl).unwrap(), tpl);
    assert_eq!(*idx.assign.get(inst).unwrap(), inst);
    let xing = s.nodes().iter().find(|n| n.name == "词形").unwrap().id;
    assert_eq!(*idx.assign.get(xing).unwrap(), tpl);
}

#[test]
fn sidecar_lookup_roundtrip() {
    let mut s = Store::new();
    let a = s.create(None, "根", Value::Empty, false).id;
    let b = s.create(Some(a), "子", Value::Reference(a), false).id;
    let idx = build(&file_bytes(&s)).unwrap();

    let sc = Sidecar::open(xirang::index::write(&idx)).unwrap();
    assert_eq!(sc.find_root(a).unwrap(), Some(*idx.roots.get(a).unwrap()));
    assert_eq!(sc.find_assign(b).unwrap(), Some(a));
    assert_eq!(sc.find_reverse(a).unwrap(), vec![b]);
    assert!(sc.find_root(Uuid([9u8; 16])).unwrap().is_none());
}

#[test]
fn stale_index_rebuilds() {
    let mut s = Store::new();
    s.create(None, "根", Value::Empty, false);
    let data = file_bytes(&s);
    let mut idx = build(&data).unwrap();
    idx.source_size = data.len() as u64;
    idx.source_mtime_sec = 7;
    let sc = Sidecar::open(xirang::index::write(&idx)).unwrap();
    assert_eq!(sc.node_count, 1);

    let mut s2 = Store::new();
    s2.create(None, "根", Value::Empty, false);
    s2.create(None, "二", Value::Empty, false);
    let data2 = file_bytes(&s2);
    assert!(sc.is_fresh(data.len() as u64, 7, 0));
    assert!(!sc.is_fresh(data2.len() as u64, 7, 0));
    assert_eq!(Sidecar::open(xirang::index::write(&build(&data2).unwrap())).unwrap().node_count, 2);
}

#[test]
fn lazy_workspace_resolves_non_root_cross_file() {
    let mut s2 = Store::new();
    let b = s2.create(None, "乙", Value::Empty, false).id;
    let child = s2.create(Some(b), "词义", Value::Text("目标".into()), false).id;
    let mut s1 = Store::new();
    let a = s1.create(None, "甲", Value::Empty, false).id;
    let ref_node = s1.create(Some(a), "指向", Value::Reference(child), false).id;

    let paths = vec!["ws1.xirang".to_string(), "ws2.xirang".to_string()];
    let files = vec![indexed(&paths[0], &s1), indexed(&paths[1], &s2)];
    let ws = LazyWorkspace { backend: SidecarBackend::open(files) };

    let (file1, n) = ws.find(ref_node).unwrap();
    assert_eq!(file1, paths[0]);
    assert_eq!(n.id, ref_node);
    let (file2, target) = ws.find(child).unwrap();
    assert_eq!(file2, paths[1]);
    assert_eq!(target.name, "词义");
    let incoming = ws.references_to(child);
    assert_eq!(incoming.len(), 1);
    assert_eq!(incoming[0].1.id, ref_node);
}

fn two_files() -> (Vec<String>, Store, Store, Uuid, Vec<Uuid>) {
    let shared = Uuid::random_v4();
    let mut s1 = Store::new();
    let a = s1.create(None, "甲", Value::Empty, false).id;
    s1.add(Node { id: shared, parent: Some(a), name: "共享".into(), value: Value::Text("同".into()) });
    let kid1 = s1.create(Some(shared), "形态", Value::Text("甲孩子".into()), false).id;
    let dup_kid = s1.create(Some(shared), "同孩", Value::Text("原".into()), false).id;

    let mut s2 = Store::new();
    let b = s2.create(None, "乙", Value::Empty, false).id;
    s2.add(Node { id: shared, parent: Some(b), name: "共享".into(), value: Value::Text("同".into()) });
    let kid2 = s2.create(Some(shared), "形态", Value::Text("乙孩子".into()), false).id;
    s2.add(Node {
        id: dup_kid,
        parent: Some(shared),
        name: "同孩".into(),
        value: Value::Text("原".into()),
    });
    let paths = vec!["u1.xirang".to_string(), "u2.xirang".to_string()];
    (paths, s1, s2, shared, vec![kid1, dup_kid, kid2])
}

#[test]
fn node_views_and_children_union_across_files() {
    let (paths, s1, s2, shared, want) = two_files();
    let files = vec![indexed(&paths[0], &s1), indexed(&paths[1], &s2)];
    let ws = LazyWorkspace { backend: SidecarBackend::open(files) };

    let views = ws.node_views(shared);
    assert_eq!(views.len(), 2);
    assert_eq!(views[0].0, paths[0]);
    assert_eq!(views[1].0, paths[1]);

    let kids = ws.children_union(shared);
    let ids: Vec<Uuid> = kids.iter().map(|(_, n)| n.id).collect();
    assert_eq!(ids, want);
    assert_eq!(kids[0].0, paths[0]);
    assert_eq!(kids[1].0, paths[0]);
    assert_eq!(kids[2].0, paths[1]);
}

#[test]
fn files_in_memory_answer_as_indexed_ones_do() {
    let (paths, s1, s2, shared, want) = two_files();
    let files = vec![(paths[0].clone(), s1), (paths[1].clone(), s2)];
    let ws = LazyWorkspace { backend: MemoryBackend::load(files) };
    assert_eq!(ws.node_views(shared).len(), 2);
    let ids: Vec<Uuid> = ws.children_union(shared).iter().map(|(_, n)| n.id).collect();
    assert_eq!(ids, want);
    assert_eq!(ws.subtree(shared).len(), 4);
}

#[test]
fn a_node_is_read_where_the_index_says() {
    let mut s = Store::new();
    let a = s.create(None, "根", Value::Empty, false).id;
    let b = s.create(Some(a), "子", Value::Int(5), false).id;
    let data = file_bytes(&s);
    let sc = Sidecar::open(xirang::index::write(&build(&data).unwrap())).unwrap();
    let (off, len) = sc.find_node_loc(b).unwrap().unwrap();
    let n = read_node_at(&data, sc.node_data_start, off, len).unwrap();
    assert_eq!(n.value, Value::Int(5));
    assert!(read_node_at(&data, sc.node_data_start, data.len() as u64, len).is_err());
    assert_eq!(sc.find_children(a).unwrap().len(), 1);
}

#[test]
fn a_broken_sidecar_is_refused() {
    assert!(Sidecar::open(vec![1, 2, 3]).is_err());
    assert_eq!(sidecar_path("/d/a.xirang"), "/d/a.xirang.idx");
}

#[test]
fn the_backend_follows_the_mode() {
    assert_eq!(index_mode(None), IndexMode::Workspace);
    assert_eq!(index_mode(Some("sidecar")), IndexMode::Sidecar);
    assert!(sidecar_enabled(Some("sidecar")));
    assert_eq!(choose_backend(IndexMode::Workspace, true, true), BackendKind::Workspace);
    assert_eq!(choose_backend(IndexMode::Sidecar, true, true), BackendKind::Sidecar);
}

#[test]
fn children_of_files_without_the_parent_are_found() {
    let shared = Uuid([7; 16]);
    let mut s1 = Store::new();
    s1.add(Node { id: shared, parent: None, name: "共享".into(), value: Value::Empty });
    let kid1 = s1.create(Some(shared), "甲", Value::Empty, false).id;
    let mut s2 = Store::new();
    let kid2 = s2.create(Some(shared), "乙", Value::Empty, false).id;
    let paths = vec!["a.xirang".to_string(), "b.xirang".to_string()];
    let sidecars = vec![indexed(&paths[0], &s1), indexed(&paths[1], &s2)];
    let ws = LazyWorkspace { backend: SidecarBackend::open(sidecars) };
    let ids: Vec<Uuid> = ws.children_union(shared).iter().map(|(_, n)| n.id).collect();
    assert_eq!(ids, vec![kid1, kid2]);
    let files = vec![(paths[0].clone(), s1), (paths[1].clone(), s2)];
    let ws = LazyWorkspace { backend: MemoryBackend::load(files) };
    let ids: Vec<Uuid> = ws.children_union(shared).iter().map(|(_, n)| n.id).collect();
    assert_eq!(ids, vec![kid1, kid2]);
}

#[test]
fn nodes_map_to_their_roots_in_any_order() {
    let node = |i: u8, p: Option<u8>| Node {
        id: Uuid([i; 16]),
        parent: p.map(|x| Uuid([x; 16])),
        name: "n".into(),
        value: Value::Empty,
    };
    let mut s = Store::new();
    s.add(node(3, Some(2)));
    s.add(node(2, Some(1)));
    s.add(node(1, None));
    let idx = build(&file_bytes(&s)).unwrap();
    for i in 1..4u8 {
        assert_eq!(*idx.assign.get(Uuid([i; 16])).unwrap(), Uuid([1; 16]));
    }
}

#[test]
fn a_workspace_names_its_backend_and_counts_its_files() {
    let (paths, s1, s2, ..) = two_files();
    let files = vec![indexed(&paths[0], &s1), indexed(&paths[1], &s2)];
    let ws = LazyWorkspace { backend: SidecarBackend::open(files) };
    assert_eq!((ws.backend_kind(), ws.file_count()), ("sidecar", 2));
    let ws = LazyWorkspace { backend: MemoryBackend::load(vec![(paths[0].clone(), s1)]) };
    assert_eq!((ws.backend_kind(), ws.file_count()), ("memory", 1));
}
