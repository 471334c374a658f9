use xirang::codec::{Node, Uuid, Value};
use xirang::tree::Store;
use xirang::workspace::Workspace;

fn u(n: u8) -> Uuid {
    let mut b = [0u8; 16];
    b[15] = n;
    Uuid(b)
}

fn node(id: Uuid, parent: Option<Uuid>, name: &str, value: Value) -> Node {
    Node { id, parent, name: name.into(), value }
}

#[test]
fn cross_file_resolve() {
    let mut s2 = Store::new();
    s2.add(node(u(2), None, "乙", Value::Text("目标".into())));
    let mut s1 = Store::new();
    s1.add(node(u(1), None, "甲", Value::Reference(u(2))));

    let mut ws = Workspace::new();
    ws.add("file1.xirang".into(), s1);
    ws.add("file2.xirang".into(), s2);

    let a = ws.find(u(1)).unwrap().1;
    let (file, target) = ws.resolve(a).expect("跨文件解析成功");
    assert_eq!(file, "file2.xirang");
    assert_eq!(target.name, "乙");

    let back = ws.references_to(u(2));
    assert_eq!(back.len(), 1);
    assert_eq!(back[0].0, "file1.xirang");
    assert_eq!(back[0].1.name, "甲");
}

#[test]
fn unresolved_reference() {
    let mut s1 = Store::new();
    s1.add(node(u(1), None, "甲", Value::Reference(u(99))));
    let mut ws = Workspace::new();
    ws.add("f.xirang".into(), s1);
    assert!(ws.find(u(99)).is_none());
}
