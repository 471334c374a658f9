use xirang::batch::{append_plan, batch_edit, batch_files, batch_groups, batch_lines, batch_ops};
use xirang::codec::{Uuid, Value};
use xirang::edit::append_records;
use xirang::json::{parse_json, JsonRef};
use xirang::request::records_of;
use xirang::shard::{Collection, Manifest, ShardEntry, ShardRule};
use xirang::tree::{fold, Store, PROTOCOL_APPEND};

fn words(n: usize) -> (Store, Uuid, Vec<Uuid>) {
    let mut s = Store::new();
    let root = s.create(None, "根", Value::Empty, false).id;
    let mut ids = Vec::new();
    for i in 0..n {
        ids.push(s.create(Some(root), &format!("词{i}"), Value::Text("旧".into()), false).id);
    }
    (s, root, ids)
}

fn set_line(id: Uuid, value: &str) -> String {
    format!("{{\"op\":\"set\",\"id\":\"{}\",\"value\":\"{value}\"}}\n", id.to_string())
}

#[test]
fn a_batch_is_made_in_order() {
    let (mut s, _, ids) = words(5);
    let mut list = String::new();
    for (i, id) in ids.iter().enumerate() {
        list.push_str(&set_line(*id, &format!("新{i}")));
    }
    list.push_str(&format!(
        "\n{{\"op\":\"rename\",\"id\":\"{}\",\"name\":\"改过\"}}\n",
        ids[0].to_string()
    ));
    let lines = batch_lines(&list).unwrap();
    let items: Vec<JsonRef> = lines.iter().map(|j| j.root()).collect();
    let ops = batch_ops(&items).unwrap();
    assert_eq!(ops.len(), 6);
    assert_eq!(ops[5].number, 6);
    let out = batch_edit(&mut s, false, &ops, true).unwrap();
    assert_eq!(out.changed, 5);
    assert_eq!(s.get(ids[0]).unwrap().name, "改过");
    assert_eq!(s.get(ids[0]).unwrap().value, Value::Text("新0".into()));
    assert_eq!(s.len(), 6);
}

#[test]
fn a_bad_change_stops_the_whole_batch() {
    let (mut s, _, ids) = words(2);
    let bad = format!(
        "{}{}",
        set_line(ids[1], "这行是好的"),
        set_line(Uuid([0; 16]), "坏")
    );
    let lines = batch_lines(&bad).unwrap();
    let items: Vec<JsonRef> = lines.iter().map(|j| j.root()).collect();
    let ops = batch_ops(&items).unwrap();
    let e = batch_edit(&mut s, false, &ops, true).unwrap_err();
    assert!(e.message.contains("第 2 条"));
    assert_eq!(s.get(ids[1]).unwrap().value, Value::Text("旧".into()));
}

#[test]
fn items_that_ask_for_nothing_are_named() {
    let list = parse_json(r#"[{"op":"set","id":"00000000000000000000000000000001","value":1},{"op":"drop","id":"00000000000000000000000000000001"}]"#).unwrap();
    assert!(batch_ops(&records_of(&list)).unwrap_err().message.contains("第 2 条"));
    let list = parse_json(r#"[{"op":"set","id":"x","value":1}]"#).unwrap();
    assert!(batch_ops(&records_of(&list)).unwrap_err().message.contains("第 1 条"));
    assert!(batch_lines("{}\n{").unwrap_err().message.contains("第 2 条"));
}

#[test]
fn a_change_is_appended_and_read_back() {
    let (before, root, ids) = words(2);
    let mut file = before.save().unwrap();
    let size = file.len();
    let mut after = before.clone();
    after.update(ids[0], Value::Text("第一个值".into())).unwrap();
    let plan = append_plan(&before, &after).unwrap();
    assert_eq!(plan.len(), 5);
    file.extend_from_slice(&append_records(&plan).unwrap());
    assert!(file.len() - size < 600);
    let now = fold(&Store::load(&file).unwrap());
    assert_eq!(now.get(ids[0]).unwrap().value, Value::Text("第一个值".into()));
    assert_eq!(now.get(ids[1]).unwrap().value, Value::Text("旧".into()));
    assert!(now.declares_protocol(root, PROTOCOL_APPEND));

    let mut again = now.clone();
    again.set_quiet(ids[0], Value::Text("第二个值".into())).unwrap();
    assert_eq!(append_plan(&now, &again).unwrap().len(), 1);
    assert!(append_plan(&now, &now).unwrap().is_empty());
}

#[test]
fn a_node_that_is_gone_calls_for_a_rewrite() {
    let (before, _, ids) = words(2);
    let mut after = before.clone();
    after.remove_subtree(ids[0]).unwrap();
    assert!(append_plan(&before, &after).is_none());
}

fn two_shards() -> (Collection, Vec<Uuid>, Vec<Uuid>) {
    let (a, _, in_a) = words(2);
    let (b, _, in_b) = words(1);
    let shards = ["a.xirang", "b.xirang"]
        .iter()
        .map(|f| ShardEntry { name: "根".into(), filename: f.to_string() })
        .collect();
    let m = Manifest { rule: ShardRule::Root, shards };
    (Collection::open(m, vec![Some(a), Some(b)]).unwrap(), in_a, in_b)
}

#[test]
fn a_batch_over_shards_is_split_by_file() {
    let (col, in_a, in_b) = two_shards();
    let list = format!(
        "{}{}{}",
        set_line(in_b[0], "一"),
        set_line(in_a[0], "二"),
        set_line(in_b[0], "三")
    );
    let lines = batch_lines(&list).unwrap();
    let items: Vec<JsonRef> = lines.iter().map(|j| j.root()).collect();
    let ops = batch_ops(&items).unwrap();
    let files = batch_files(&col, &ops).unwrap();
    assert_eq!(files, vec!["b.xirang", "a.xirang", "b.xirang"]);
    let groups = batch_groups(&files);
    assert_eq!(
        groups,
        vec![("b.xirang".to_string(), vec![0, 2]), ("a.xirang".to_string(), vec![1])]
    );
}

#[test]
fn a_change_to_a_node_in_no_shard_is_named() {
    let (col, in_a, _) = two_shards();
    let list = format!("{}{}", set_line(in_a[1], "一"), set_line(Uuid([7; 16]), "二"));
    let lines = batch_lines(&list).unwrap();
    let items: Vec<JsonRef> = lines.iter().map(|j| j.root()).collect();
    let e = batch_files(&col, &batch_ops(&items).unwrap()).unwrap_err();
    assert_eq!(
        e.message,
        "第 2 条：节点不存在于词库：07070707-0707-0707-0707-070707070707"
    );
}
