//! Editing one node of a file through the index of its workspace: the changed record
//! is appended, and nothing else is read than the records that it needs.
use crate::backend::Backend;
use crate::codec::{models, same_value, uuid_text, Node, SpecNode, SpecValue, Uuid, Value};
use crate::ledger::{place_models, Hit, SpecPlace, WorkspaceBackend};
use crate::model::first_pick;
use crate::shard::record_bytes;
use crate::text::{decimal, join3, owned, same_text};
use crate::tree::{all_bytes, history_node, name_too_long, snapshot, time_note, PROTOCOL_APPEND};
use vstd::prelude::*;
use vstd::utf8::encode_utf8;

verus! {

/// How many steps up a chain of parents may take.
pub const MAX_STEPS: usize = 4_096;

/// What is said of an id that the index does not know in the file.
pub open spec fn unknown_message(id: Uuid) -> Seq<char> {
    "编号 "@ + uuid_text(id) + " 不在这个文件里（台账没登记）"@
}

/// What is said of a chain of parents that does not end.
pub const CHAIN_TOO_LONG: &'static str = "父链太长（可能成环）：需要整份载入处理";

fn unknown_text(id: Uuid) -> (r: String)
    ensures
        r@ == unknown_message(id),
{
    join3("编号 ", id.to_string().as_str(), " 不在这个文件里（台账没登记）")
}

/// The first place in the file.
pub open spec fn in_file(ps: Seq<SpecPlace>, path: Seq<char>) -> Option<int>
    decreases ps.len(),
{
    if ps.len() == 0 {
        None
    } else {
        match in_file(ps.drop_last(), path) {
            Some(i) => Some(i),
            None => if ps.last().file == path {
                Some(ps.len() - 1)
            } else {
                None
            },
        }
    }
}

/// The node with the id in the file, if the index knows it there.
pub open spec fn node_of(b: WorkspaceBackend, path: Seq<char>, id: Uuid) -> Result<
    Option<SpecNode>,
    Seq<char>,
> {
    match b.reader.found(id) {
        Err(e) => Err(e),
        Ok(ps) => match in_file(ps, path) {
            None => Ok(None),
            Some(i) => match b.node_at_place(ps[i]) {
                Ok(n) => Ok(Some(n)),
                Err(e) => Err(e),
            },
        },
    }
}

/// The nodes at the places in the file; or what is wrong with the first that cannot
/// be read.
pub open spec fn nodes_in_file(b: WorkspaceBackend, ps: Seq<SpecPlace>, path: Seq<char>) -> Result<
    Seq<SpecNode>,
    Seq<char>,
>
    decreases ps.len(),
{
    if ps.len() == 0 {
        Ok(Seq::<SpecNode>::empty())
    } else {
        match nodes_in_file(b, ps.drop_last(), path) {
            Err(e) => Err(e),
            Ok(ns) => if ps.last().file != path {
                Ok(ns)
            } else {
                match b.node_at_place(ps.last()) {
                    Ok(n) => Ok(ns.push(n)),
                    Err(e) => Err(e),
                }
            },
        }
    }
}

/// The children of the node in the file.
pub open spec fn kids_of(b: WorkspaceBackend, path: Seq<char>, id: Uuid) -> Result<
    Seq<SpecNode>,
    Seq<char>,
> {
    match b.reader.children_found(id) {
        Err(e) => Err(e),
        Ok(ps) => nodes_in_file(b, ps, path),
    }
}

/// The first place in the file.
fn find_in_file(hits: &Vec<Hit>, path: &str) -> (r: Option<usize>)
    ensures
        match r {
            Some(i) => in_file(place_models(hits@), path@) == Some(i as int) && i < hits@.len(),
            None => in_file(place_models(hits@), path@) is None,
        },
{
    let ghost ps = place_models(hits@);
    let mut found: Option<usize> = None;
    let mut i: usize = 0;
    assert(ps.take(0) =~= Seq::<SpecPlace>::empty());
    while i < hits.len()
        invariant
            i <= hits@.len(),
            ps == place_models(hits@),
            match found {
                Some(k) => in_file(ps.take(i as int), path@) == Some(k as int) && k < hits@.len(),
                None => in_file(ps.take(i as int), path@) is None,
            },
        decreases hits@.len() - i,
    {
        proof {
            assert(ps.take(i + 1).drop_last() =~= ps.take(i as int));
            assert(ps.take(i + 1).last() == hits@[i as int]@);
        }
        if found.is_none() && same_text(hits[i].file.as_str(), path) {
            found = Some(i);
        }
        i = i + 1;
    }
    assert(ps.take(ps.len() as int) =~= ps);
    found
}

/// Reads the node with the id in the file, if the index knows it there.
pub fn read_node(b: &WorkspaceBackend, path: &str, id: Uuid) -> (r: Result<Option<Node>, String>)
    requires
        b.wf(),
    ensures
        match node_of(*b, path@, id) {
            Err(e) => r is Err && r->Err_0@ == e,
            Ok(None) => r is Ok && r->Ok_0 is None,
            Ok(Some(n)) => r is Ok && r->Ok_0 is Some && r->Ok_0->Some_0@ == n,
        },
{
    let hits = match b.reader.locate(id) {
        Ok(h) => h,
        Err(e) => return Err(e),
    };
    match find_in_file(&hits, path) {
        None => Ok(None),
        Some(i) => {
            assert(place_models(hits@)[i as int] == hits@[i as int]@);
            match b.read_node_at_hit(&hits[i]) {
                Ok(n) => Ok(Some(n)),
                Err(e) => Err(e),
            }
        },
    }
}

proof fn lemma_nodes_fail(b: WorkspaceBackend, ps: Seq<SpecPlace>, path: Seq<char>, i: int)
    requires
        0 <= i <= ps.len(),
        nodes_in_file(b, ps.take(i), path) is Err,
    ensures
        nodes_in_file(b, ps, path) == nodes_in_file(b, ps.take(i), path),
    decreases ps.len(),
{
    if i < ps.len() {
        let d = ps.drop_last();
        assert(d.take(i) =~= ps.take(i));
        lemma_nodes_fail(b, d, path, i);
    } else {
        assert(ps.take(i) =~= ps);
    }
}

/// Reads the children of the node in the file.
pub fn children_in_file(b: &WorkspaceBackend, path: &str, id: Uuid) -> (r: Result<
    Vec<Node>,
    String,
>)
    requires
        b.wf(),
    ensures
        match kids_of(*b, path@, id) {
            Err(e) => r is Err && r->Err_0@ == e,
            Ok(ns) => r is Ok && models(r->Ok_0@) == ns,
        },
{
    let hits = match b.reader.children_of(id) {
        Ok(h) => h,
        Err(e) => return Err(e),
    };
    let ghost ps = place_models(hits@);
    let mut out: Vec<Node> = Vec::new();
    let mut i: usize = 0;
    assert(ps.take(0) =~= Seq::<SpecPlace>::empty());
    assert(models(out@) =~= Seq::<SpecNode>::empty());
    while i < hits.len()
        invariant
            i <= hits@.len(),
            b.wf(),
            ps == place_models(hits@),
            b.reader.children_found(id) == Ok::<Seq<SpecPlace>, Seq<char>>(ps),
            nodes_in_file(*b, ps.take(i as int), path@) == Ok::<Seq<SpecNode>, Seq<char>>(
                models(out@),
            ),
        decreases hits@.len() - i,
    {
        proof {
            assert(ps.take(i + 1).drop_last() =~= ps.take(i as int));
            assert(ps.take(i + 1).last() == hits@[i as int]@);
        }
        if same_text(hits[i].file.as_str(), path) {
            match b.read_node_at_hit(&hits[i]) {
                Ok(n) => {
                    let ghost o0 = out@;
                    let ghost nm = n@;
                    out.push(n);
                    assert(models(out@) =~= models(o0).push(nm));
                },
                Err(e) => {
                    proof {
                        lemma_nodes_fail(*b, ps, path@, i + 1);
                    }
                    return Err(e);
                },
            }
        }
        i = i + 1;
    }
    assert(ps.take(ps.len() as int) =~= ps);
    Ok(out)
}

/// The root of the tree that the node is in, as its parents in the file lead to it.
pub open spec fn root_above(b: WorkspaceBackend, path: Seq<char>, id: Uuid, steps: nat) -> Result<
    Uuid,
    Seq<char>,
>
    decreases steps,
{
    if steps == 0 {
        Err(CHAIN_TOO_LONG@)
    } else {
        match node_of(b, path, id) {
            Err(e) => Err(e),
            Ok(None) => Err(unknown_message(id)),
            Ok(Some(n)) => match n.parent {
                None => Ok(n.id),
                Some(p) => root_above(b, path, p, (steps - 1) as nat),
            },
        }
    }
}

/// The root of the tree that the node is in.
pub fn root_of(b: &WorkspaceBackend, path: &str, id: Uuid) -> (r: Result<Uuid, String>)
    requires
        b.wf(),
    ensures
        match root_above(*b, path@, id, MAX_STEPS as nat) {
            Err(e) => r is Err && r->Err_0@ == e,
            Ok(u) => r is Ok && r->Ok_0 == u,
        },
{
    let mut cur = id;
    let mut steps: usize = MAX_STEPS;
    while steps > 0
        invariant
            b.wf(),
            root_above(*b, path@, id, MAX_STEPS as nat) == root_above(
                *b,
                path@,
                cur,
                steps as nat,
            ),
        decreases steps,
    {
        match read_node(b, path, cur) {
            Err(e) => return Err(e),
            Ok(None) => return Err(unknown_text(cur)),
            Ok(Some(n)) => match n.parent {
                None => return Ok(n.id),
                Some(p) => {
                    cur = p;
                },
            },
        }
        steps = steps - 1;
    }
    Err(owned(CHAIN_TOO_LONG))
}

/// Whether a node declares the protocol.
pub open spec fn protocol_mark(n: SpecNode, protocol: Seq<char>) -> bool {
    n.name == "@protocol"@ && n.value == SpecValue::Text(protocol)
}

/// Whether one of the nodes declares the protocol.
pub open spec fn marked(ns: Seq<SpecNode>, protocol: Seq<char>) -> bool {
    exists|i: int| 0 <= i < ns.len() && protocol_mark(#[trigger] ns[i], protocol)
}

/// Whether the tree with the root declares the protocol in the file.
pub fn declares_protocol(b: &WorkspaceBackend, path: &str, root: Uuid, protocol: &str) -> (r: Result<
    bool,
    String,
>)
    requires
        b.wf(),
    ensures
        match kids_of(*b, path@, root) {
            Err(e) => r is Err && r->Err_0@ == e,
            Ok(ns) => r is Ok && r->Ok_0 == marked(ns, protocol@),
        },
{
    let kids = match children_in_file(b, path, root) {
        Ok(k) => k,
        Err(e) => return Err(e),
    };
    let ghost ns = models(kids@);
    let mut i: usize = 0;
    while i < kids.len()
        invariant
            i <= kids@.len(),
            ns == models(kids@),
            kids_of(*b, path@, root) == Ok::<Seq<SpecNode>, Seq<char>>(ns),
            forall|k: int| 0 <= k < i ==> !protocol_mark(#[trigger] ns[k], protocol@),
        decreases kids@.len() - i,
    {
        let n = &kids[i];
        assert(ns[i as int] == n@);
        if same_text(n.name.as_str(), "@protocol") {
            if let Value::Text(t) = &n.value {
                if same_text(t.as_str(), protocol) {
                    assert(protocol_mark(ns[i as int], protocol@));
                    return Ok(true);
                }
            }
        }
        i = i + 1;
    }
    Ok(false)
}

/// Whether a node marks its parent as a template.
pub open spec fn template_sign(n: SpecNode) -> bool {
    n.name == "@模板"@ && n.value == SpecValue::Empty
}

/// Whether one of the nodes marks a template.
pub open spec fn has_template_sign(ns: Seq<SpecNode>) -> bool {
    exists|i: int| 0 <= i < ns.len() && template_sign(#[trigger] ns[i])
}

/// Whether one of the nodes marks an instance.
pub open spec fn has_instance_sign(ns: Seq<SpecNode>) -> bool {
    exists|i: int| 0 <= i < ns.len() && (#[trigger] ns[i]).name == "@实例"@
}

/// Whether the node is part of a template: of it and its parents, a template mark is
/// met before an instance mark.
pub open spec fn template_above(
    b: WorkspaceBackend,
    path: Seq<char>,
    at: Option<Uuid>,
    steps: nat,
) -> Result<bool, Seq<char>>
    decreases steps,
{
    if steps == 0 {
        Err(CHAIN_TOO_LONG@)
    } else {
        match at {
            None => Ok(false),
            Some(id) => match b.reader.found(id) {
                Err(e) => Err(e),
                Ok(ps) => match in_file(ps, path) {
                    None => Err(unknown_message(id)),
                    Some(i) => match kids_of(b, path, id) {
                        Err(e) => Err(e),
                        Ok(ns) => if has_template_sign(ns) {
                            Ok(true)
                        } else if has_instance_sign(ns) {
                            Ok(false)
                        } else {
                            match b.node_at_place(ps[i]) {
                                Err(e) => Err(e),
                                Ok(n) => template_above(b, path, n.parent, (steps - 1) as nat),
                            }
                        },
                    },
                },
            },
        }
    }
}

/// Whether one of the nodes marks a template.
fn any_template_sign(kids: &Vec<Node>) -> (r: bool)
    ensures
        r == has_template_sign(models(kids@)),
{
    let ghost ns = models(kids@);
    let mut i: usize = 0;
    while i < kids.len()
        invariant
            i <= kids@.len(),
            ns == models(kids@),
            forall|k: int| 0 <= k < i ==> !template_sign(#[trigger] ns[k]),
        decreases kids@.len() - i,
    {
        assert(ns[i as int] == kids@[i as int]@);
        if same_text(kids[i].name.as_str(), "@模板") {
            if let Value::Empty = &kids[i].value {
                assert(template_sign(ns[i as int]));
                return true;
            }
        }
        i = i + 1;
    }
    false
}

/// Whether one of the nodes has the name.
fn any_named(kids: &Vec<Node>, name: &str) -> (r: Option<usize>)
    ensures
        match r {
            Some(i) => i < kids@.len() && models(kids@)[i as int].name == name@ && forall|k: int|
                0 <= k < i ==> (#[trigger] models(kids@)[k]).name != name@,
            None => forall|k: int|
                0 <= k < kids@.len() ==> (#[trigger] models(kids@)[k]).name != name@,
        },
{
    let ghost ns = models(kids@);
    let mut i: usize = 0;
    while i < kids.len()
        invariant
            i <= kids@.len(),
            ns == models(kids@),
            forall|k: int| 0 <= k < i ==> (#[trigger] ns[k]).name != name@,
        decreases kids@.len() - i,
    {
        assert(ns[i as int] == kids@[i as int]@);
        if same_text(kids[i].name.as_str(), name) {
            return Some(i);
        }
        i = i + 1;
    }
    None
}

/// Whether the node is part of a template, which is guarded.
pub fn under_template(b: &WorkspaceBackend, path: &str, id: Uuid) -> (r: Result<bool, String>)
    requires
        b.wf(),
    ensures
        match template_above(*b, path@, Some(id), MAX_STEPS as nat) {
            Err(e) => r is Err && r->Err_0@ == e,
            Ok(v) => r is Ok && r->Ok_0 == v,
        },
{
    let mut cur: Option<Uuid> = Some(id);
    let mut steps: usize = MAX_STEPS;
    while steps > 0
        invariant
            b.wf(),
            template_above(*b, path@, Some(id), MAX_STEPS as nat) == template_above(
                *b,
                path@,
                cur,
                steps as nat,
            ),
        decreases steps,
    {
        let c = match cur {
            None => return Ok(false),
            Some(c) => c,
        };
        let hits = match b.reader.locate(c) {
            Ok(h) => h,
            Err(e) => return Err(e),
        };
        let i: usize = match find_in_file(&hits, path) {
            Some(i) => i,
            None => return Err(unknown_text(c)),
        };
        assert(place_models(hits@)[i as int] == hits@[i as int]@);
        let kids = match children_in_file(b, path, c) {
            Ok(k) => k,
            Err(e) => return Err(e),
        };
        if any_template_sign(&kids) {
            return Ok(true);
        }
        if any_named(&kids, "@实例").is_some() {
            return Ok(false);
        }
        assert(!has_instance_sign(models(kids@)));
        match b.read_node_at_hit(&hits[i]) {
            Ok(n) => {
                cur = n.parent;
            },
            Err(e) => return Err(e),
        }
        steps = steps - 1;
    }
    Err(owned(CHAIN_TOO_LONG))
}

/// The bytes to append for records.
pub fn append_records(records: &Vec<Node>) -> (r: Result<Vec<u8>, String>)
    ensures
        match first_pick(models(records@), |n: SpecNode| name_too_long(n)) {
            None => r is Ok && r->Ok_0@ == all_bytes(models(records@)),
            Some(i) => r is Err && r->Err_0@ == "节点编码失败（"@ + ("NameTooLong("@ + decimal(
                encode_utf8(models(records@)[i].name).len(),
            ) + ")"@) + "）"@,
        },
{
    match record_bytes(records) {
        Ok(b) => Ok(b),
        Err(e) => Err(join3("节点编码失败（", e.as_str(), "）")),
    }
}

/// An edit of one node: what it was, what it becomes, and the records to append.
#[derive(Debug)]
pub struct EditOutcome {
    pub before: Node,
    pub after: Node,
    pub records: Vec<Node>,
}

/// The name of a node after an edit.
pub open spec fn edited(n: SpecNode, id: Uuid, name: Option<Seq<char>>, value: Option<SpecValue>) -> SpecNode {
    SpecNode {
        id,
        parent: n.parent,
        name: match name {
            Some(s) => s,
            None => n.name,
        },
        value: match value {
            Some(v) => v,
            None => n.value,
        },
    }
}

/// The first of the nodes with the name.
pub open spec fn first_named(ns: Seq<SpecNode>, name: Seq<char>) -> Option<int>
    decreases ns.len(),
{
    if ns.len() == 0 {
        None
    } else {
        match first_named(ns.drop_last(), name) {
            Some(i) => Some(i),
            None => if ns.last().name == name {
                Some(ns.len() - 1)
            } else {
                None
            },
        }
    }
}

proof fn lemma_first_named(ns: Seq<SpecNode>, name: Seq<char>)
    ensures
        match first_named(ns, name) {
            Some(i) => 0 <= i < ns.len() && ns[i].name == name && forall|k: int|
                0 <= k < i ==> (#[trigger] ns[k]).name != name,
            None => forall|k: int| 0 <= k < ns.len() ==> (#[trigger] ns[k]).name != name,
        },
    decreases ns.len(),
{
    if ns.len() > 0 {
        let d = ns.drop_last();
        lemma_first_named(d, name);
        assert forall|k: int| 0 <= k < d.len() implies (#[trigger] ns[k]) == d[k] by {}
    }
}

/// Whether records file the name and value of a node below its `@history` child
/// (made if it has none), with the time of the change.
pub open spec fn trace_of(rs: Seq<SpecNode>, before: SpecNode, id: Uuid, kids: Seq<SpecNode>) -> bool {
    match first_named(kids, "@history"@) {
        Some(h) => {
            &&& rs.len() == 2
            &&& snapshot(rs[0], kids[h].id, before)
            &&& time_note(rs[1], rs[0].id, "@replaced"@)
        },
        None => {
            &&& rs.len() == 3
            &&& history_node(rs[0], id)
            &&& snapshot(rs[1], rs[0].id, before)
            &&& time_note(rs[2], rs[1].id, "@replaced"@)
        },
    }
}

/// Whether `rs` declares that records are appended, below the root.
pub open spec fn declaration(rs: Seq<SpecNode>, root: Uuid) -> bool {
    &&& rs.len() == 1
    &&& crate::codec::drawn(rs[0].id)
    &&& rs[0].parent == Some(root)
    &&& protocol_mark(rs[0], PROTOCOL_APPEND@)
}

/// Whether `rs` are the records of an edit: the trace where one is kept, the node as
/// it becomes, and the declaration where there is none.
pub open spec fn is_edit(
    rs: Seq<SpecNode>,
    before: SpecNode,
    after: SpecNode,
    trace: Option<Seq<SpecNode>>,
    root: Uuid,
    declared: bool,
) -> bool {
    let t: int = match trace {
        None => 0,
        Some(kids) => if first_named(kids, "@history"@) is Some {
            2
        } else {
            3
        },
    };
    &&& rs.len() == t + (if declared {
        1int
    } else {
        2
    })
    &&& (trace is Some ==> trace_of(rs.take(t), before, after.id, trace->Some_0))
    &&& rs[t] == after
    &&& (!declared ==> declaration(rs.skip(t + 1), root))
}

/// The trace of an edit: a `@history` node where there is none, a snapshot, and the
/// time.
fn make_trace(before: &Node, id: Uuid, kids: &Vec<Node>) -> (r: Vec<Node>)
    ensures
        trace_of(models(r@), before@, id, models(kids@)),
{
    proof {
        lemma_first_named(models(kids@), "@history"@);
    }
    let mut out: Vec<Node> = Vec::new();
    let hist: Uuid = match any_named(kids, "@history") {
        Some(i) => {
            assert(models(kids@)[i as int] == kids@[i as int]@);
            kids[i].id
        },
        None => {
            let h = Uuid::random_v4();
            out.push(Node { id: h, parent: Some(id), name: owned("@history"), value: Value::Empty });
            h
        },
    };
    let snap = Uuid::random_v4();
    out.push(
        Node {
            id: snap,
            parent: Some(hist),
            name: before.name.clone(),
            value: before.value.clone(),
        },
    );
    out.push(
        Node {
            id: Uuid::random_v4(),
            parent: Some(snap),
            name: owned("@replaced"),
            value: Value::Text(crate::tree::now_text()),
        },
    );
    out
}

/// What an edit by id leads to.
pub open spec fn edit_outcome(
    b: WorkspaceBackend,
    path: Seq<char>,
    id: Uuid,
    name: Option<Seq<char>>,
    value: Option<SpecValue>,
    history: bool,
    r: Result<EditOutcome, String>,
) -> bool {
    match node_of(b, path, id) {
        Err(e) => r is Err && r->Err_0@ == e,
        Ok(None) => r is Err && r->Err_0@ == unknown_message(id),
        Ok(Some(before)) => {
            let after = edited(before, id, name, value);
            if after.name == before.name && same_value(after.value, before.value) {
                &&& r is Ok
                &&& r->Ok_0.before@ == before
                &&& r->Ok_0.after@ == after
                &&& r->Ok_0.records@.len() == 0
            } else if history && kids_of(b, path, id) is Err {
                r is Err && r->Err_0@ == kids_of(b, path, id)->Err_0
            } else {
                match root_above(b, path, id, MAX_STEPS as nat) {
                    Err(e) => r is Err && r->Err_0@ == e,
                    Ok(root) => match kids_of(b, path, root) {
                        Err(e) => r is Err && r->Err_0@ == e,
                        Ok(top) => {
                            &&& r is Ok
                            &&& r->Ok_0.before@ == before
                            &&& r->Ok_0.after@ == after
                            &&& is_edit(
                                models(r->Ok_0.records@),
                                before,
                                after,
                                if history {
                                    Some(kids_of(b, path, id)->Ok_0)
                                } else {
                                    None
                                },
                                root,
                                marked(top, PROTOCOL_APPEND@),
                            )
                        },
                    },
                }
            }
        },
    }
}

/// The text of an optional name.
pub open spec fn name_view(s: Option<String>) -> Option<Seq<char>> {
    match s {
        Some(t) => Some(t@),
        None => None,
    }
}

/// The model of an optional value.
pub open spec fn value_view(v: Option<Value>) -> Option<SpecValue> {
    match v {
        Some(x) => Some(x@),
        None => None,
    }
}

/// Edits the name or the value of a node of the file: gives the records to append.
/// Where nothing changes, there are none.
pub fn edit_node(
    b: &WorkspaceBackend,
    path: &str,
    id: Uuid,
    new_name: Option<String>,
    new_value: Option<Value>,
    history: bool,
) -> (r: Result<EditOutcome, String>)
    requires
        b.wf(),
    ensures
        edit_outcome(*b, path@, id, name_view(new_name), value_view(new_value), history, r),
        r is Ok ==> r->Ok_0.after.parent == r->Ok_0.before.parent,
        r is Ok && new_name is None ==> r->Ok_0.after.name@ == r->Ok_0.before.name@,
        r is Ok && new_value is None ==> r->Ok_0.after.value@ == r->Ok_0.before.value@,
{
    let before = match read_node(b, path, id) {
        Err(e) => return Err(e),
        Ok(None) => return Err(unknown_text(id)),
        Ok(Some(n)) => n,
    };
    let name = match new_name {
        Some(s) => s,
        None => before.name.clone(),
    };
    let value = match new_value {
        Some(v) => v,
        None => before.value.clone(),
    };
    let after = Node { id, parent: before.parent, name, value };
    assert(after@ == edited(before@, id, name_view(new_name), value_view(new_value)));
    if same_text(after.name.as_str(), before.name.as_str()) && after.value == before.value {
        return Ok(EditOutcome { before, after, records: Vec::new() });
    }
    let mut recs: Vec<Node> = Vec::new();
    if history {
        let kids = match children_in_file(b, path, id) {
            Ok(k) => k,
            Err(e) => return Err(e),
        };
        recs = make_trace(&before, id, &kids);
    }
    let ghost trace = models(recs@);
    recs.push(after.clone());
    let ghost with_after = models(recs@);
    assert(with_after =~= trace.push(after@));
    let root = match root_of(b, path, id) {
        Ok(u) => u,
        Err(e) => return Err(e),
    };
    let declared = match declares_protocol(b, path, root, PROTOCOL_APPEND) {
        Ok(d) => d,
        Err(e) => return Err(e),
    };
    if !declared {
        recs.push(
            Node {
                id: Uuid::random_v4(),
                parent: Some(root),
                name: owned("@protocol"),
                value: Value::Text(owned(PROTOCOL_APPEND)),
            },
        );
    }
    proof {
        let rs = models(recs@);
        let t = trace.len() as int;
        assert(rs.take(t) =~= trace);
        assert(rs[t] == with_after[t]);
        if !declared {
            assert(rs.skip(t + 1).len() == 1);
            assert(rs.skip(t + 1)[0] == recs@[t + 1]@);
        }
    }
    Ok(EditOutcome { before, after, records: recs })
}

// ---------------------------------------------------------------------------
// Laws of edits
// ---------------------------------------------------------------------------

/// What an edit does not ask to change stays. The node keeps its id and its parent; its name
/// is the given one, or else the one it had; so is its value. Records are written exactly if
/// the name changes or the value is not equal; then the node as it is after the edit is among
/// them. With history, so is what it was: its old name and its old value, below the
/// `@history` child that the node has or gets. Without, the only other record declares the
/// protocol.
pub proof fn edit_keeps_the_rest(
    b: WorkspaceBackend,
    path: Seq<char>,
    id: Uuid,
    name: Option<Seq<char>>,
    value: Option<SpecValue>,
    history: bool,
    r: Result<EditOutcome, String>,
)
    requires
        edit_outcome(b, path, id, name, value, history, r),
        r is Ok,
    ensures
        ({
            let before = r->Ok_0.before@;
            let after = r->Ok_0.after@;
            let rs = models(r->Ok_0.records@);
            &&& node_of(b, path, id) == Ok::<Option<SpecNode>, Seq<char>>(Some(before))
            &&& after.id == id
            &&& after.parent == before.parent
            &&& name is None ==> after.name == before.name
            &&& name is Some ==> after.name == name->Some_0
            &&& value is None ==> after.value == before.value
            &&& value is Some ==> after.value == value->Some_0
            &&& rs.len() == 0 <==> after.name == before.name && same_value(
                after.value,
                before.value,
            )
            &&& rs.len() > 0 ==> exists|k: int| 0 <= k < rs.len() && #[trigger] rs[k] == after
            &&& rs.len() > 0 && !history ==> rs[0] == after && rs.len() <= 2 && (rs.len() == 2
                ==> rs[1].name == "@protocol"@ && rs[1].value == SpecValue::Text("append-v1"@))
            &&& rs.len() > 0 && history ==> exists|k: int|
                0 <= k < rs.len() && (#[trigger] rs[k]).name == before.name && rs[k].value
                    == before.value && filed_as_history(b, path, id, rs, rs[k].parent)
        }),
{
    let before = r->Ok_0.before@;
    let after = r->Ok_0.after@;
    let rs = models(r->Ok_0.records@);
    if rs.len() > 0 {
        if history {
            let kids = kids_of(b, path, id)->Ok_0;
            lemma_first_named(kids, "@history"@);
            match first_named(kids, "@history"@) {
                Some(h) => {
                    assert(rs.take(2)[0] == rs[0]);
                    assert(rs[2] == after);
                    assert(kids[h].name == "@history"@);
                    assert(filed_as_history(b, path, id, rs, rs[0].parent));
                },
                None => {
                    assert(rs.take(3)[0] == rs[0] && rs.take(3)[1] == rs[1]);
                    assert(rs[3] == after);
                    assert(rs[0].name == "@history"@);
                    assert(filed_as_history(b, path, id, rs, rs[1].parent));
                },
            }
        } else {
            assert(rs[0] == after);
            if rs.len() == 2 {
                assert(rs.skip(1)[0] == rs[1]);
            }
        }
    }
}

/// Whether a parent is a `@history` child of the node: one that the file has, or else one
/// that the records make.
pub open spec fn filed_as_history(
    b: WorkspaceBackend,
    path: Seq<char>,
    id: Uuid,
    rs: Seq<SpecNode>,
    parent: Option<Uuid>,
) -> bool {
    match kids_of(b, path, id) {
        Err(_) => false,
        Ok(kids) => {
            ||| exists|h: int|
                0 <= h < kids.len() && (#[trigger] kids[h]).name == "@history"@ && parent == Some(
                    kids[h].id,
                ) && forall|g: int| 0 <= g < h ==> (#[trigger] kids[g]).name != "@history"@
            ||| (forall|g: int| 0 <= g < kids.len() ==> (#[trigger] kids[g]).name != "@history"@)
                && exists|h: int|
                0 <= h < rs.len() && (#[trigger] rs[h]).name == "@history"@ && rs[h].parent == Some(
                    id,
                ) && rs[h].value == SpecValue::Empty && parent == Some(rs[h].id)
        },
    }
}

/// A node of a file is what stands at the first place that the index gives for its id in that
/// file; an id without a place there has none.
pub proof fn nodes_are_read_at_their_first_place(
    b: WorkspaceBackend,
    path: Seq<char>,
    id: Uuid,
    ps: Seq<SpecPlace>,
)
    requires
        b.reader.found(id) == Ok::<Seq<SpecPlace>, Seq<char>>(ps),
    ensures
        forall|i: int|
            0 <= i < ps.len() && (#[trigger] ps[i]).file == path && (forall|j: int|
                0 <= j < i ==> (#[trigger] ps[j]).file != path) ==> (match b.node_at_place(ps[i]) {
                Ok(n) => node_of(b, path, id) == Ok::<Option<SpecNode>, Seq<char>>(Some(n)),
                Err(e) => node_of(b, path, id) == Err::<Option<SpecNode>, Seq<char>>(e),
            }),
        (forall|j: int| 0 <= j < ps.len() ==> (#[trigger] ps[j]).file != path) ==> node_of(
            b,
            path,
            id,
        ) == Ok::<Option<SpecNode>, Seq<char>>(None),
{
    lemma_in_file(ps, path);
    assert forall|i: int|
        0 <= i < ps.len() && (#[trigger] ps[i]).file == path && (forall|j: int|
            0 <= j < i ==> (#[trigger] ps[j]).file != path) implies (match b.node_at_place(ps[i]) {
        Ok(n) => node_of(b, path, id) == Ok::<Option<SpecNode>, Seq<char>>(Some(n)),
        Err(e) => node_of(b, path, id) == Err::<Option<SpecNode>, Seq<char>>(e),
    }) by {
        let k = in_file(ps, path)->Some_0;
        if k < i {
            assert(ps[k].file != path);
        } else if i < k {
            assert(ps[i].file != path);
        }
    }
}

proof fn lemma_in_file(ps: Seq<SpecPlace>, path: Seq<char>)
    ensures
        match in_file(ps, path) {
            Some(i) => 0 <= i < ps.len() && ps[i].file == path && forall|k: int|
                0 <= k < i ==> (#[trigger] ps[k]).file != path,
            None => forall|k: int| 0 <= k < ps.len() ==> (#[trigger] ps[k]).file != path,
        },
    decreases ps.len(),
{
    if ps.len() > 0 {
        let d = ps.drop_last();
        lemma_in_file(d, path);
        assert forall|k: int| 0 <= k < d.len() implies (#[trigger] ps[k]) == d[k] by {}
    }
}

/// The children of a node in a file are what stands at the places in that file that the index
/// gives for them, all of these and no other, in order.
pub proof fn children_are_read_at_their_places(
    b: WorkspaceBackend,
    path: Seq<char>,
    id: Uuid,
    ps: Seq<SpecPlace>,
) -> (at: Seq<int>)
    requires
        b.reader.children_found(id) == Ok::<Seq<SpecPlace>, Seq<char>>(ps),
        kids_of(b, path, id) is Ok,
    ensures
        at.len() == kids_of(b, path, id)->Ok_0.len(),
        forall|x: int|
            0 <= x < at.len() ==> 0 <= #[trigger] at[x] < ps.len() && ps[at[x]].file == path
                && b.node_at_place(ps[at[x]]) == Ok::<SpecNode, Seq<char>>(
                kids_of(b, path, id)->Ok_0[x],
            ),
        forall|x: int, y: int| 0 <= x < y < at.len() ==> #[trigger] at[x] < #[trigger] at[y],
        forall|i: int| 0 <= i < ps.len() && (#[trigger] ps[i]).file == path ==> at.contains(i),
{
    lemma_nodes_in_file(b, ps, path)
}

proof fn lemma_nodes_in_file(b: WorkspaceBackend, ps: Seq<SpecPlace>, path: Seq<char>) -> (at: Seq<
    int,
>)
    requires
        nodes_in_file(b, ps, path) is Ok,
    ensures
        at.len() == nodes_in_file(b, ps, path)->Ok_0.len(),
        forall|x: int|
            0 <= x < at.len() ==> 0 <= #[trigger] at[x] < ps.len() && ps[at[x]].file == path
                && b.node_at_place(ps[at[x]]) == Ok::<SpecNode, Seq<char>>(
                nodes_in_file(b, ps, path)->Ok_0[x],
            ),
        forall|x: int, y: int| 0 <= x < y < at.len() ==> #[trigger] at[x] < #[trigger] at[y],
        forall|i: int| 0 <= i < ps.len() && (#[trigger] ps[i]).file == path ==> at.contains(i),
    decreases ps.len(),
{
    if ps.len() == 0 {
        Seq::empty()
    } else {
        let d = ps.drop_last();
        let rest = lemma_nodes_in_file(b, d, path);
        let last = ps.len() - 1;
        let at = if ps.last().file == path {
            rest.push(last)
        } else {
            rest
        };
        assert forall|i: int| 0 <= i < ps.len() && (#[trigger] ps[i]).file == path implies at.contains(
            i,
        ) by {
            if i < last {
                assert(d[i] == ps[i]);
                let x = choose|x: int| 0 <= x < rest.len() && rest[x] == i;
                assert(at[x] == i);
            } else {
                assert(at[rest.len() as int] == i);
            }
        }
        assert forall|x: int| 0 <= x < at.len() implies 0 <= #[trigger] at[x] < ps.len()
            && ps[at[x]].file == path && b.node_at_place(ps[at[x]]) == Ok::<SpecNode, Seq<char>>(
            nodes_in_file(b, ps, path)->Ok_0[x],
        ) by {
            if x < rest.len() {
                assert(at[x] == rest[x]);
                assert(d[rest[x]] == ps[rest[x]]);
            }
        }
        at
    }
}

/// The root of a tree is where the parents lead: each node of the way is read in the file,
/// the next is its parent, and the last has none.
pub proof fn the_root_has_no_parent(b: WorkspaceBackend, path: Seq<char>, id: Uuid, steps: nat) -> (way:
    Seq<SpecNode>)
    requires
        root_above(b, path, id, steps) is Ok,
    ensures
        1 <= way.len() <= steps,
        node_of(b, path, id) == Ok::<Option<SpecNode>, Seq<char>>(Some(way[0])),
        forall|k: int|
            0 <= k < way.len() - 1 ==> (#[trigger] way[k]).parent is Some && node_of(
                b,
                path,
                way[k].parent->Some_0,
            ) == Ok::<Option<SpecNode>, Seq<char>>(Some(way[k + 1])),
        way.last().parent is None,
        root_above(b, path, id, steps)->Ok_0 == way.last().id,
    decreases steps,
{
    let n = node_of(b, path, id)->Ok_0->Some_0;
    match n.parent {
        None => seq![n],
        Some(p) => {
            let rest = the_root_has_no_parent(b, path, p, (steps - 1) as nat);
            let way = seq![n] + rest;
            assert(way.last() == rest.last());
            assert forall|k: int| 0 <= k < way.len() - 1 implies (#[trigger] way[k]).parent is Some
                && node_of(b, path, way[k].parent->Some_0) == Ok::<Option<SpecNode>, Seq<char>>(
                Some(way[k + 1]),
            ) by {
                if k > 0 {
                    assert(way[k] == rest[k - 1] && way[k + 1] == rest[k]);
                } else {
                    assert(way[1] == rest[0]);
                }
            }
            way
        },
    }
}

/// A way of parents that ends within the number of steps leads to the root.
pub proof fn parents_lead_to_the_root(
    b: WorkspaceBackend,
    path: Seq<char>,
    id: Uuid,
    steps: nat,
    way: Seq<SpecNode>,
)
    requires
        1 <= way.len() <= steps,
        node_of(b, path, id) == Ok::<Option<SpecNode>, Seq<char>>(Some(way[0])),
        forall|k: int|
            0 <= k < way.len() - 1 ==> (#[trigger] way[k]).parent is Some && node_of(
                b,
                path,
                way[k].parent->Some_0,
            ) == Ok::<Option<SpecNode>, Seq<char>>(Some(way[k + 1])),
        way.last().parent is None,
    ensures
        root_above(b, path, id, steps) == Ok::<Uuid, Seq<char>>(way.last().id),
    decreases steps,
{
    if way.len() > 1 {
        let rest = way.skip(1);
        assert(way[0].parent is Some && rest[0] == way[1]);
        assert(rest.last() == way.last());
        assert forall|k: int| 0 <= k < rest.len() - 1 implies (#[trigger] rest[k]).parent is Some
            && node_of(b, path, rest[k].parent->Some_0) == Ok::<Option<SpecNode>, Seq<char>>(
            Some(rest[k + 1]),
        ) by {
            assert(rest[k] == way[k + 1] && rest[k + 1] == way[k + 1 + 1]);
        }
        parents_lead_to_the_root(b, path, way[0].parent->Some_0, (steps - 1) as nat, rest);
    } else {
        assert(way[0].parent is None);
    }
}

/// Whether the node has an empty `@模板` child in the file.
pub open spec fn has_template_child(b: WorkspaceBackend, path: Seq<char>, id: Uuid) -> bool {
    match kids_of(b, path, id) {
        Ok(ns) => exists|i: int|
            0 <= i < ns.len() && (#[trigger] ns[i]).name == "@模板"@ && ns[i].value
                == SpecValue::Empty,
        Err(_) => false,
    }
}

/// Whether the node has an `@实例` child in the file.
pub open spec fn has_instance_child(b: WorkspaceBackend, path: Seq<char>, id: Uuid) -> bool {
    match kids_of(b, path, id) {
        Ok(ns) => exists|i: int| 0 <= i < ns.len() && (#[trigger] ns[i]).name == "@实例"@,
        Err(_) => false,
    }
}

/// The node with the id in the file has the parent.
pub open spec fn has_parent(
    b: WorkspaceBackend,
    path: Seq<char>,
    id: Uuid,
    parent: Option<Uuid>,
) -> bool {
    match node_of(b, path, id) {
        Ok(Some(n)) => n.parent == parent,
        _ => false,
    }
}

/// Going up from a node, the first that has an empty `@模板` child or an `@实例` child
/// decides: the node is part of a template exactly if that one has the former. Where there is
/// none up to a node without a parent, it is not.
pub proof fn part_of_a_template(
    b: WorkspaceBackend,
    path: Seq<char>,
    id: Uuid,
    steps: nat,
) -> (way: Seq<Uuid>)
    requires
        template_above(b, path, Some(id), steps) is Ok,
    ensures
        1 <= way.len() <= steps,
        way[0] == id,
        forall|k: int|
            0 <= k < way.len() - 1 ==> !has_template_child(b, path, #[trigger] way[k])
                && !has_instance_child(b, path, way[k]) && has_parent(
                b,
                path,
                way[k],
                Some(way[k + 1]),
            ),
        template_above(b, path, Some(id), steps)->Ok_0 <==> has_template_child(
            b,
            path,
            way.last(),
        ),
        has_template_child(b, path, way.last()) || has_instance_child(b, path, way.last())
            || has_parent(b, path, way.last(), None),
    decreases steps,
{
    lemma_signs(b, path, id);
    let ns = kids_of(b, path, id)->Ok_0;
    if has_template_sign(ns) || has_instance_sign(ns) {
        seq![id]
    } else {
        match node_of(b, path, id)->Ok_0->Some_0.parent {
            None => {
                assert(has_parent(b, path, id, None));
                assert(steps > 1);
                seq![id]
            },
            Some(p) => {
                let rest = part_of_a_template(b, path, p, (steps - 1) as nat);
                let way = seq![id] + rest;
                assert(way.last() == rest.last());
                assert forall|k: int| 0 <= k < way.len() - 1 implies !has_template_child(
                    b,
                    path,
                    #[trigger] way[k],
                ) && !has_instance_child(b, path, way[k]) && has_parent(
                    b,
                    path,
                    way[k],
                    Some(way[k + 1]),
                ) by {
                    if k > 0 {
                        assert(way[k] == rest[k - 1] && way[k + 1] == rest[k]);
                    } else {
                        assert(way[1] == rest[0]);
                    }
                }
                way
            },
        }
    }
}

proof fn lemma_signs(b: WorkspaceBackend, path: Seq<char>, id: Uuid)
    requires
        kids_of(b, path, id) is Ok,
    ensures
        has_template_child(b, path, id) == has_template_sign(kids_of(b, path, id)->Ok_0),
        has_instance_child(b, path, id) == has_instance_sign(kids_of(b, path, id)->Ok_0),
{
    let ns = kids_of(b, path, id)->Ok_0;
    if has_template_sign(ns) {
        let i = choose|i: int| 0 <= i < ns.len() && template_sign(#[trigger] ns[i]);
        assert(ns[i].name == "@模板"@);
    }
    if has_template_child(b, path, id) {
        let i = choose|i: int|
            0 <= i < ns.len() && (#[trigger] ns[i]).name == "@模板"@ && ns[i].value
                == SpecValue::Empty;
        assert(template_sign(ns[i]));
    }
}

} // verus!
