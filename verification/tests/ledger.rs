use xirang::backend::{Backend, LazyWorkspace};
use xirang::codec::{Node, Uuid, Value};
use xirang::console::{check_index, Recount};
use xirang::edit::{append_records, edit_node};
use xirang::ledger::{load_index, BlockFiles, Reader, WorkspaceBackend};
use xirang::tree::{fold, Store};
use xirang::wsidx::{
    append_file, build_ledgers, compact, dec_manifest, enc_manifest, file_current, files_status,
    forget_files, gc, maintenance_enabled, maintenance_needed, new_log, read_manifest, rebuild,
    scan_targets, status, update, Ledger, Manifest, Prepared, Target,
};

const PRINT: (u64, i64, u32) = (100, 1, 2);

fn target(path: &str, data: Vec<u8>) -> Target {
    Target { path: path.to_string(), print: Some(PRINT), data: Ok(data) }
}

fn prepare(files: Vec<(&str, Vec<u8>)>) -> Prepared {
    let targets = files.into_iter().map(|(p, d)| target(p, d)).collect();
    let scans = scan_targets(&targets, 1).unwrap();
    build_ledgers(&scans, 1, (0, 0, 0))
}

fn held(files: Vec<(String, Vec<u8>)>) -> Vec<Option<Vec<u8>>> {
    files.into_iter().map(|(_, b)| Some(b)).collect()
}

fn backend(p: Prepared, logs: [Option<Vec<u8>>; 3], data: Vec<Vec<u8>>) -> WorkspaceBackend {
    let m = dec_manifest(&enc_manifest(&p.manifest)).unwrap();
    let blocks =
        BlockFiles { loc: held(p.loc_files), rel: held(p.rel_files), rev: held(p.rev_files) };
    let index =
        load_index(m, blocks, logs[0].as_deref(), logs[1].as_deref(), logs[2].as_deref()).unwrap();
    let n = index.at.files.len();
    assert_eq!(n, data.len());
    let reader = Reader::open(
        index,
        (0..n).map(|_| Some(PRINT)).collect(),
        data.iter().map(|d| Ok(d.clone())).collect(),
    );
    WorkspaceBackend::open(reader, data.into_iter().map(Ok).collect())
}

fn sample() -> (Vec<u8>, Vec<u8>, Uuid, Uuid, Uuid) {
    let mut s2 = Store::new();
    let b = s2.create(None, "乙", Value::Empty, false).id;
    let child = s2.create(Some(b), "词义", Value::Text("目标".into()), false).id;
    let mut s1 = Store::new();
    let a = s1.create(None, "甲", Value::Empty, false).id;
    let from = s1.create(Some(a), "指向", Value::Reference(child), false).id;
    (s1.save().unwrap(), s2.save().unwrap(), b, child, from)
}

#[test]
fn ledgers_find_nodes_children_and_references() {
    let (d1, d2, b, child, from) = sample();
    let p = prepare(vec![("/a.xirang", d1.clone()), ("/b.xirang", d2.clone())]);
    assert_eq!(p.stats.files, 2);
    assert_eq!(p.stats.loc, 4);
    let ws = LazyWorkspace { backend: backend(p, [None, None, None], vec![d1, d2]) };
    let (file, n) = ws.find(child).unwrap();
    assert_eq!(file, "/b.xirang");
    assert_eq!(n.name, "词义");
    assert_eq!(ws.children_union(b).len(), 1);
    assert_eq!(ws.references_to(child)[0].1.id, from);
    assert_eq!(ws.subtree(b).len(), 2);
    assert_eq!(ws.backend.reader.root_of(child), Some(b));
    assert!(ws.backend.reader.covers("/a.xirang", None));
    assert!(!ws.backend.reader.covers("/c.xirang", None));
    assert!(ws.backend.locate(Uuid([9; 16])).is_empty());
}

#[test]
fn a_changed_file_is_appended_to_the_ledgers() {
    let (d1, d2, b, child, _) = sample();
    let p = prepare(vec![("/a.xirang", d1.clone()), ("/b.xirang", d2.clone())]);
    let mut s = Store::load(&d2).unwrap();
    let new = s.create(Some(b), "释义", Value::Int(1), false).id;
    let d3 = s.save().unwrap();
    let m = dec_manifest(&enc_manifest(&p.manifest)).unwrap();
    let added = append_file(m, "/b.xirang", PRINT, &d3).unwrap();
    let log = |kind: Ledger, tail: &Vec<u8>| {
        let mut l = new_log(kind);
        l.extend_from_slice(tail);
        Some(l)
    };
    let logs = [
        log(Ledger::Loc, &added.loc_log),
        log(Ledger::Rel, &added.rel_log),
        log(Ledger::Rev, &added.rev_log),
    ];
    let p = Prepared { manifest: added.manifest, ..p };
    let be = backend(p, logs, vec![d1, d3]);
    assert_eq!(be.locate(new).len(), 1);
    assert_eq!(be.locate(child).len(), 1);
    assert_eq!(be.children(b).len(), 2);
    let ids = vec![b, child, new];
    let told = check_index(&be, 0, &ids, &vec![]);
    assert_eq!(told.problems, 0);
    let wrong = Recount { path: "/b.xirang".into(), entries: 2, actual: Ok(3) };
    assert!(check_index(&be, 0, &ids, &vec![wrong]).problems > 0);
}

#[test]
fn an_edit_through_the_ledgers_is_a_few_records() {
    let (d1, d2, b, child, _) = sample();
    let p = prepare(vec![("/a.xirang", d1.clone()), ("/b.xirang", d2.clone())]);
    let be = backend(p, [None, None, None], vec![d1, d2.clone()]);
    let out =
        edit_node(&be, "/b.xirang", child, None, Some(Value::Text("新".into())), true).unwrap();
    assert_eq!(out.before.value, Value::Text("目标".into()));
    assert_eq!(out.records.len(), 5);
    let mut file = d2;
    file.extend_from_slice(&append_records(&out.records).unwrap());
    let now = fold(&Store::load(&file).unwrap());
    assert_eq!(now.get(child).unwrap().value, Value::Text("新".into()));
    assert_eq!(now.root_of(child), Some(b));
    assert!(edit_node(&be, "/b.xirang", Uuid([9; 16]), None, Some(Value::Empty), true).is_err());
}

#[test]
fn files_leave_the_ledgers() {
    let (d1, d2, ..) = sample();
    let p = prepare(vec![("/a.xirang", d1), ("/b.xirang", d2)]);
    let copy = || dec_manifest(&enc_manifest(&p.manifest)).unwrap();
    let gone = gc(copy(), &vec![true, false]);
    assert_eq!(gone.removed, 1);
    assert_eq!(gone.manifest.files.len(), 1);
    let gone = forget_files(copy(), &vec!["/a.xirang".to_string()]);
    assert_eq!(gone.removed, 1);
    assert_eq!(gone.manifest.files[0].path, "/b.xirang");
}

#[test]
fn the_state_of_the_ledgers_is_told() {
    let (d1, d2, ..) = sample();
    let p = prepare(vec![("/a.xirang", d1), ("/b.xirang", d2)]);
    let now = vec![Some(PRINT), None];
    let s = status(&p.manifest, &now, false).unwrap();
    assert_eq!((s.files, s.loc_entries), (2, 4));
    assert_eq!(s.stale_files, vec!["/b.xirang".to_string()]);
    assert!(file_current(&p.manifest.files[0], Some(PRINT)));
    let fs = files_status(&p.manifest, &now, &vec![true, false]);
    assert!(fs[0].fresh && !fs[1].exists);
    assert!(update(&fs).is_empty());
    let moved = files_status(&p.manifest, &vec![Some(PRINT), Some((1, 1, 1))], &vec![true, true]);
    assert_eq!(update(&moved), vec!["/b.xirang".to_string()]);
    assert!(maintenance_needed(&p.manifest, 1_000_000, false).is_none());
    assert!(maintenance_enabled(None));
    assert!(!maintenance_enabled(Some("off")));
    assert!(read_manifest(None).unwrap().files.is_empty());
    assert!(read_manifest(Some(b"xx")).is_err());
    assert!(compact(p, 1, &vec![Some((1, 1, 1)), Some(PRINT)]).is_err());
    assert_eq!(Manifest::default().files.len(), 0);
}

#[test]
fn a_file_that_cannot_be_read_stops_the_scan() {
    let t = Target { path: "/a".into(), print: Some(PRINT), data: Err("no".into()) };
    assert!(scan_targets(&vec![t], 1).is_err());
    assert!(scan_targets(&vec![target("/a", b"bad".to_vec())], 1).is_err());
}

#[test]
fn limits_bound_what_is_told() {
    let (d1, d2, ..) = sample();
    let p = prepare(vec![("/a.xirang", d1.clone()), ("/b.xirang", d2.clone())]);
    let be = backend(p, [None, None, None], vec![d1, d2]);
    let r = &be.reader;
    assert!(r.edges(0).is_empty() && r.sample_nodes(0).is_empty() && r.roots(0).is_empty());
    assert_eq!(r.edges(9).len(), 1);
    assert_eq!(r.sample_nodes(3).len(), 3);
    assert_eq!(r.roots(1).len(), 1);
    assert_eq!(r.roots(9).len(), 2);
}

#[test]
fn ledgers_find_children_of_files_without_the_parent() {
    let shared = Uuid([7; 16]);
    let mut s1 = Store::new();
    let root = s1.create(None, "根", Value::Empty, false).id;
    s1.add(Node { id: shared, parent: Some(root), name: "共享".into(), value: Value::Empty });
    let kid1 = s1.create(Some(shared), "甲", Value::Empty, false).id;
    let mut s2 = Store::new();
    let kid2 = s2.create(Some(shared), "乙", Value::Empty, false).id;
    let (d1, d2) = (s1.save().unwrap(), s2.save().unwrap());
    let p = prepare(vec![("/a.xirang", d1.clone()), ("/b.xirang", d2.clone())]);
    let ws = LazyWorkspace { backend: backend(p, [None, None, None], vec![d1, d2]) };
    let mut ids: Vec<Uuid> = ws.children_union(shared).iter().map(|(_, n)| n.id).collect();
    ids.sort_by_key(|x| x.0);
    let mut want = vec![kid1, kid2];
    want.sort_by_key(|x| x.0);
    assert_eq!(ids, want);
}

#[test]
fn a_rebuilt_index_forgets_its_logs() {
    let (d1, d2, b, child, from) = sample();
    let p = prepare(vec![("/a.xirang", d1.clone()), ("/b.xirang", d2.clone())]);
    let m = dec_manifest(&enc_manifest(&p.manifest)).unwrap();
    let added = append_file(m, "/b.xirang", PRINT, &d2).unwrap();
    let targets = vec![target("/a.xirang", d1.clone()), target("/b.xirang", d2.clone())];
    let next = added.manifest.generation + 1;
    let scans = scan_targets(&targets, next).unwrap();
    let p = rebuild(build_ledgers(&scans, next, (7, 8, 9)));
    let n = new_log(Ledger::Loc).len() as u64;
    assert_eq!((p.manifest.loc.log_bytes, p.manifest.rev.log_bytes), (n, n));
    assert_eq!(p.stats.log_bytes, 3 * n);
    let logs = [
        Some(new_log(Ledger::Loc)),
        Some(new_log(Ledger::Rel)),
        Some(new_log(Ledger::Rev)),
    ];
    let be = backend(p, logs, vec![d1, d2]);
    assert_eq!(be.locate(child).len(), 1);
    assert_eq!(be.locate(b).len(), 1);
    assert_eq!(be.reader.references(child).unwrap()[0].1, from);
}

#[test]
fn a_log_of_an_older_generation_does_not_outlast_a_rebuild() {
    let (d1, d2, _, child, _) = sample();
    let p = prepare(vec![("/a.xirang", d1.clone()), ("/b.xirang", d2.clone())]);
    let m = dec_manifest(&enc_manifest(&p.manifest)).unwrap();
    let added = append_file(m, "/b.xirang", PRINT, &d2).unwrap();
    let log = |kind: Ledger, tail: &Vec<u8>| {
        let mut l = new_log(kind);
        l.extend_from_slice(tail);
        Some(l)
    };
    let logs = [
        log(Ledger::Loc, &added.loc_log),
        log(Ledger::Rel, &added.rel_log),
        log(Ledger::Rev, &added.rev_log),
    ];
    let targets = vec![target("/a.xirang", d1.clone()), target("/b.xirang", d2.clone())];
    let next = added.manifest.generation + 1;
    let p = build_ledgers(&scan_targets(&targets, next).unwrap(), next, (0, 0, 0));
    let be = backend(p, logs, vec![d1, d2]);
    assert_eq!(be.locate(child).len(), 1);
}

#[test]
fn an_update_leaves_all_files_fresh() {
    let (d1, d2, ..) = sample();
    let p = prepare(vec![("/a.xirang", d1), ("/b.xirang", d2.clone()), ("/c.xirang", d2.clone())]);
    let m = dec_manifest(&enc_manifest(&p.manifest)).unwrap();
    let moved = (101, 1, 2);
    let now = vec![Some(PRINT), Some(moved), None];
    let stale = update(&files_status(&m, &now, &vec![true, true, false]));
    assert_eq!(stale, vec!["/b.xirang".to_string()]);
    let m = append_file(m, "/b.xirang", moved, &d2).unwrap().manifest;
    let m = gc(m, &vec![true, true, false]).manifest;
    assert_eq!(m.files.len(), 2);
    assert!(file_current(&m.files[0], Some(PRINT)) && file_current(&m.files[1], Some(moved)));
    let again = files_status(&m, &vec![Some(PRINT), Some(moved)], &vec![true, true]);
    assert!(update(&again).is_empty());
}

#[test]
fn a_rebuilt_index_reads_nodes_and_orders_references() {
    let target_id = Uuid([9; 16]);
    let node = |i: u8, value: Value| Node { id: Uuid([i; 16]), parent: None, name: "n".into(), value };
    let mut s1 = Store::new();
    s1.add(node(3, Value::Reference(target_id)));
    s1.add(node(1, Value::Reference(target_id)));
    s1.add(node(3, Value::Reference(target_id)));
    let mut s2 = Store::new();
    s2.add(node(2, Value::Reference(target_id)));
    s2.add(node(3, Value::Reference(target_id)));
    s2.add(node(9, Value::Text("目标".into())));
    let (d1, d2) = (s1.save().unwrap(), s2.save().unwrap());
    let p = rebuild(prepare(vec![("/a.xirang", d1.clone()), ("/b.xirang", d2.clone())]));
    let be = backend(p, [None, None, None], vec![d1, d2]);
    let refs = be.reader.references(target_id).unwrap();
    let got: Vec<(&str, u8)> = refs.iter().map(|(f, id)| (f.as_str(), id.0[0])).collect();
    assert_eq!(got, vec![("/a.xirang", 1), ("/b.xirang", 2), ("/a.xirang", 3), ("/b.xirang", 3)]);
    let hits = be.reader.locate(target_id).unwrap();
    assert_eq!(hits.len(), 1);
    let n = be.read_node_at_hit(&hits[0]).unwrap();
    assert_eq!((n.id, &n.value), (target_id, &Value::Text("目标".into())));
    let ws = LazyWorkspace { backend: be };
    assert_eq!((ws.backend_kind(), ws.file_count()), ("workspace", 2));
}

#[test]
fn an_update_counts_files_and_ids() {
    let mut s = Store::new();
    for i in [1u8, 2, 1] {
        s.add(Node { id: Uuid([i; 16]), parent: None, name: "n".into(), value: Value::Empty });
    }
    let d = s.save().unwrap();
    let p = prepare(vec![("/a.xirang", d.clone()), ("/b.xirang", d.clone()), ("/c.xirang", d.clone())]);
    let m = dec_manifest(&enc_manifest(&p.manifest)).unwrap();
    let moved = (101, 1, 2);
    let here = vec![true, true, false];
    let stale = update(&files_status(&m, &vec![Some(PRINT), Some(moved), None], &here));
    assert_eq!(stale.len(), 1);
    let added = append_file(m, "/b.xirang", moved, &d).unwrap();
    assert_eq!(added.entries.loc.len(), 2);
    assert_eq!(gc(added.manifest, &here).removed, 1);
}
