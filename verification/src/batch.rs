//! Changing many nodes at once, and writing a change down as records at the end of a
//! file.
use crate::catalog::has_text;
use crate::change::{name_fault, name_put, no_such_node, rename_node, set_value, value_put};
use crate::codec::{models, uuid_text, Node, SpecNode, SpecValue, Uuid, Value};
use crate::convert::text_field;
use crate::edit::declaration;
use crate::grow::value_from_json;
use crate::json::{field_of, json_read, json_tree, json_trees, parse_json, ref_tree, ref_trees, Json,
    JsonRef, SpecJson};
use crate::model::{distinct_ids, find_id, folded, Nodes};
use crate::ops::{id_argument, may_edit, parse_uuid, plain_error, template_guard, ErrKind, OpError,
    OpResult, SpecOpError};
use crate::request::{str_arg, text_needed, value_given, wrong};
use crate::shard::{change_records, changed_nodes, slot_of, Collection, SpecShard};
use crate::text::{decimal, decimal_text, join2, join3, owned, same_text, split_at_char, split_char,
    text_views, trim, trimmed};
use crate::tree::{climb, declares, found, Store, PROTOCOL_APPEND};
use vstd::prelude::*;

verus! {

// ---------------------------------------------------------------------------
// Records at the end
// ---------------------------------------------------------------------------

/// Whether a node of `before` is gone, which no record can say.
pub open spec fn something_gone(before: Nodes, after: Nodes) -> bool {
    exists|i: int| 0 <= i < before.len() && found(after, (#[trigger] before[i]).id) is None
}

/// The roots above the first `k` records that do not say that records are appended, each
/// once.
pub open spec fn undeclared(after: Nodes, rs: Nodes, k: nat) -> Seq<Uuid>
    decreases k,
{
    if k == 0 {
        Seq::empty()
    } else {
        let s = undeclared(after, rs, (k - 1) as nat);
        match climb(after, rs[k - 1].id, 1_000_000) {
            Some(root) => if declares(after, root, PROTOCOL_APPEND@) || s.contains(root) {
                s
            } else {
                s.push(root)
            },
            None => s,
        }
    }
}

/// Whether `ds` are declarations, one below each root.
pub open spec fn declarations(ds: Nodes, roots: Seq<Uuid>) -> bool {
    &&& ds.len() == roots.len()
    &&& forall|i: int| 0 <= i < ds.len() ==> declaration(seq![#[trigger] ds[i]], roots[i])
}

/// Whether `rs` are the records that lead from `before` to `after`: what is new or
/// changed, and a declaration below each root that has none.
pub open spec fn is_plan(rs: Nodes, before: Nodes, after: Nodes) -> bool {
    let c = change_records(before, after);
    let roots = undeclared(after, c, c.len());
    &&& rs.len() == c.len() + roots.len()
    &&& rs.take(c.len() as int) == c
    &&& declarations(rs.skip(c.len() as int), roots)
}

/// Whether a node of `before` is gone.
fn any_gone(before: &Store, after: &Store) -> (r: bool)
    requires
        before.wf(),
        after.wf(),
    ensures
        r == something_gone(before@, after@),
{
    let mut i: usize = 0;
    while i < before.len()
        invariant
            i <= before@.len(),
            after.wf(),
            forall|k: int| 0 <= k < i ==> found(after@, (#[trigger] before@[k]).id) is Some,
        decreases before@.len() - i,
    {
        let id = before.at(i).id;
        if after.get(id).is_none() {
            assert(found(after@, before@[i as int].id) is None);
            return true;
        }
        i = i + 1;
    }
    false
}

/// The roots above records that do not say that records are appended, each once.
fn roots_to_declare(after: &Store, records: &Vec<Node>) -> (r: Vec<Uuid>)
    requires
        after.wf(),
    ensures
        r@ == undeclared(after@, models(records@), records@.len()),
{
    let ghost rs = models(records@);
    let mut out: Vec<Uuid> = Vec::new();
    let mut i: usize = 0;
    while i < records.len()
        invariant
            i <= records@.len(),
            rs == models(records@),
            after.wf(),
            out@ == undeclared(after@, rs, i as nat),
        decreases records@.len() - i,
    {
        assert(rs[i as int] == records@[i as int]@);
        if let Some(root) = after.root_of(records[i].id) {
            if !after.declares_protocol(root, PROTOCOL_APPEND) && !holds(&out, root) {
                out.push(root);
            }
        }
        i = i + 1;
    }
    out
}

/// Whether an id is among others.
fn holds(ids: &Vec<Uuid>, id: Uuid) -> (r: bool)
    ensures
        r == ids@.contains(id),
{
    let mut i: usize = 0;
    while i < ids.len()
        invariant
            i <= ids@.len(),
            forall|k: int| 0 <= k < i ==> ids@[k] != id,
        decreases ids@.len() - i,
    {
        if ids[i] == id {
            assert(ids@[i as int] == id);
            return true;
        }
        i = i + 1;
    }
    false
}

/// The records to append to a file so that, read folded, it goes from one state to
/// another; none where a node is gone and the file has to be written anew.
pub fn append_plan(before: &Store, after: &Store) -> (r: Option<Vec<Node>>)
    requires
        before.wf(),
        after.wf(),
    ensures
        r is None <==> something_gone(before@, after@),
        r is Some ==> is_plan(models(r->Some_0@), before@, after@),
{
    if any_gone(before, after) {
        return None;
    }
    let mut out = changed_nodes(before, after);
    let roots = roots_to_declare(after, &out);
    let ghost c = models(out@);
    let mut i: usize = 0;
    assert(models(out@).take(c.len() as int) =~= c);
    while i < roots.len()
        invariant
            i <= roots@.len(),
            models(out@).len() == c.len() + i,
            models(out@).take(c.len() as int) == c,
            forall|k: int|
                0 <= k < i ==> declaration(seq![#[trigger] models(out@)[c.len() + k]], roots@[k]),
        decreases roots@.len() - i,
    {
        let ghost o0 = models(out@);
        let root = roots[i];
        let node = Node {
            id: Uuid::random_v4(),
            parent: Some(root),
            name: owned("@protocol"),
            value: Value::Text(owned(PROTOCOL_APPEND)),
        };
        let ghost n = node@;
        out.push(node);
        proof {
            assert(models(out@) =~= o0.push(n));
            assert(models(out@).take(c.len() as int) =~= o0.take(c.len() as int));
            assert(declaration(seq![n], root));
            assert forall|k: int| 0 <= k < i + 1 implies declaration(
                seq![#[trigger] models(out@)[c.len() + k]],
                roots@[k],
            ) by {
                if k < i {
                    assert(models(out@)[c.len() + k] == o0[c.len() + k]);
                }
            }
        }
        i = i + 1;
    }
    proof {
        let ds = models(out@).skip(c.len() as int);
        assert forall|k: int| 0 <= k < ds.len() implies declaration(
            seq![#[trigger] ds[k]],
            roots@[k],
        ) by {
            assert(ds[k] == models(out@)[c.len() + k]);
        }
    }
    Some(out)
}

/// Appending the records of a change and reading the file folded gives the new state:
/// every id but those of the new declarations is found as it is there, or as a node
/// equal to that.
pub proof fn appended_plan_reads_back(rs: Nodes, before: Nodes, after: Nodes, id: Uuid)
    requires
        distinct_ids(before),
        distinct_ids(after),
        !something_gone(before, after),
        is_plan(rs, before, after),
        found(rs.skip(change_records(before, after).len() as int), id) is None,
    ensures
        ({
            let now = found(folded(before + rs), id);
            match found(after, id) {
                Some(n) => now is Some && (now == Some(n) || crate::codec::same_node(
                    now->Some_0,
                    n,
                )),
                None => now is None,
            }
        }),
{
    let c = change_records(before, after);
    let ds = rs.skip(c.len() as int);
    assert(before + rs =~= (before + c) + ds);
    crate::shard::appended_changes_read_back(before, after, id);
    crate::shard::lemma_found_append(before + c, ds, id);
    crate::model::fold_keeps_lookup(before + rs, id);
    crate::model::fold_keeps_lookup(before + c, id);
    crate::model::lemma_find_id(before, id);
}

/// Once a change has been appended, every root above it says that records are appended,
/// so that a further change declares nothing more there.
pub proof fn plan_declares_once(rs: Nodes, before: Nodes, after: Nodes, i: int)
    requires
        is_plan(rs, before, after),
        ({
            let c = change_records(before, after);
            0 <= i < c.len() && climb(after, c[i].id, 1_000_000) is Some
        }),
    ensures
        ({
            let c = change_records(before, after);
            declares(
                after + rs.skip(c.len() as int),
                climb(after, c[i].id, 1_000_000)->Some_0,
                PROTOCOL_APPEND@,
            )
        }),
{
    let c = change_records(before, after);
    let ds = rs.skip(c.len() as int);
    let roots = undeclared(after, c, c.len());
    let root = climb(after, c[i].id, 1_000_000)->Some_0;
    let all = after + ds;
    lemma_climb_found(after, c[i].id, 1_000_000);
    crate::shard::lemma_found_append(after, ds, root);
    if declares(after, root, PROTOCOL_APPEND@) {
        let k = choose|k: int|
            0 <= k < after.len() && (#[trigger] after[k]).parent == Some(root) && after[k].name
                == "@protocol"@ && after[k].value == SpecValue::Text(PROTOCOL_APPEND@);
        assert(all[k] == after[k]);
    } else {
        lemma_undeclared_holds(after, c, i, c.len());
        let k = choose|k: int| 0 <= k < roots.len() && roots[k] == root;
        assert(declaration(seq![ds[k]], roots[k]));
        assert(all[after.len() + k] == ds[k]);
    }
}

proof fn lemma_climb_found(t: Nodes, id: Uuid, steps: nat)
    requires
        climb(t, id, steps) is Some,
    ensures
        found(t, climb(t, id, steps)->Some_0) is Some,
    decreases steps,
{
    let n = found(t, id)->Some_0;
    crate::model::lemma_find_id(t, id);
    if let Some(p) = n.parent {
        if !(p == n.id || found(t, p) is None || steps == 0) {
            lemma_climb_found(t, p, (steps - 1) as nat);
        }
    }
}

proof fn lemma_undeclared_holds(after: Nodes, rs: Nodes, i: int, k: nat)
    requires
        0 <= i < k,
        climb(after, rs[i].id, 1_000_000) is Some,
        !declares(after, climb(after, rs[i].id, 1_000_000)->Some_0, PROTOCOL_APPEND@),
    ensures
        undeclared(after, rs, k).contains(climb(after, rs[i].id, 1_000_000)->Some_0),
    decreases k,
{
    let root = climb(after, rs[i].id, 1_000_000)->Some_0;
    let s = undeclared(after, rs, (k - 1) as nat);
    let u = undeclared(after, rs, k);
    if i < k - 1 {
        lemma_undeclared_holds(after, rs, i, (k - 1) as nat);
        let j = choose|j: int| 0 <= j < s.len() && s[j] == root;
        assert(u[j] == root);
    } else if !s.contains(root) {
        assert(u[s.len() as int] == root);
    }
}

// ---------------------------------------------------------------------------
// Many changes
// ---------------------------------------------------------------------------

/// A change to a node.
#[derive(Debug)]
pub enum BatchChange {
    Put(Value),
    Rename(String),
}

/// A change to a node: the model of [`BatchChange`].
pub enum SpecBatchChange {
    Put(SpecValue),
    Rename(Seq<char>),
}

impl View for BatchChange {
    type V = SpecBatchChange;

    open spec fn view(&self) -> SpecBatchChange {
        match *self {
            BatchChange::Put(v) => SpecBatchChange::Put(v@),
            BatchChange::Rename(s) => SpecBatchChange::Rename(s@),
        }
    }
}

/// One change of many, with its number in the list.
#[derive(Debug)]
pub struct BatchOp {
    pub number: usize,
    pub id: Uuid,
    pub change: BatchChange,
}

/// One change of many: the model of [`BatchOp`].
pub struct SpecBatchOp {
    pub number: nat,
    pub id: Uuid,
    pub change: SpecBatchChange,
}

impl View for BatchOp {
    type V = SpecBatchOp;

    open spec fn view(&self) -> SpecBatchOp {
        SpecBatchOp { number: self.number as nat, id: self.id, change: self.change@ }
    }
}

/// The models of changes.
pub open spec fn op_views(s: Seq<BatchOp>) -> Seq<SpecBatchOp> {
    Seq::new(s.len(), |i: int| s[i]@)
}

/// An error with the number of the change that it is about.
pub open spec fn numbered(n: nat, e: SpecOpError) -> SpecOpError {
    SpecOpError { message: "第 "@ + decimal(n) + " 条："@ + e.message, ..e }
}

/// An error with the number of the change that it is about.
pub fn numbered_error(n: usize, e: OpError) -> (r: OpError)
    ensures
        r@ == numbered(n as nat, e@),
{
    let mut m = join3("第 ", decimal_text(n as u64).as_str(), " 条：");
    m.append(e.message.as_str());
    OpError { kind: e.kind, message: m, hint: e.hint }
}

/// The change that an item of a list asks for, or what is wrong with it.
pub open spec fn op_asked(number: nat, j: SpecJson) -> Result<SpecBatchOp, SpecOpError> {
    match text_needed(j, "id"@) {
        Err(e) => Err(numbered(number, e)),
        Ok(raw) => match id_argument("节点 ID"@, raw) {
            Err(e) => Err(numbered(number, e)),
            Ok(id) => if text_field(j, "op"@) == Some("set"@) {
                if field_of(j, "value"@) is None {
                    Err(numbered(number, wrong("set 需要 value"@)))
                } else {
                    Ok(SpecBatchOp { number, id, change: SpecBatchChange::Put(value_given(j)) })
                }
            } else if text_field(j, "op"@) == Some("rename"@) {
                match text_needed(j, "name"@) {
                    Err(e) => Err(numbered(number, e)),
                    Ok(name) => Ok(
                        SpecBatchOp { number, id, change: SpecBatchChange::Rename(name) },
                    ),
                }
            } else {
                Err(numbered(number, wrong("op 只能是 set / rename"@)))
            },
        },
    }
}

/// The changes that the first `k` items of a list ask for, or what is wrong with the first
/// that asks for none.
pub open spec fn ops_asked(items: Seq<SpecJson>, k: nat) -> Result<Seq<SpecBatchOp>, SpecOpError>
    decreases k,
{
    if k == 0 {
        Ok(Seq::empty())
    } else {
        match ops_asked(items, (k - 1) as nat) {
            Err(e) => Err(e),
            Ok(s) => match op_asked(k, items[k - 1]) {
                Err(e) => Err(e),
                Ok(op) => Ok(s.push(op)),
            },
        }
    }
}

proof fn lemma_ops_stop(items: Seq<SpecJson>, k: nat, n: nat)
    requires
        k <= n,
        ops_asked(items, k) is Err,
    ensures
        ops_asked(items, n) == ops_asked(items, k),
    decreases n,
{
    if k < n {
        lemma_ops_stop(items, k, (n - 1) as nat);
    }
}

/// The change that an item of a list asks for.
fn batch_op(number: usize, j: &JsonRef<'_>) -> (r: OpResult<BatchOp>)
    ensures
        match op_asked(number as nat, ref_tree(*j)) {
            Ok(op) => r is Ok && r->Ok_0@ == op,
            Err(e) => r is Err && r->Err_0@ == e,
        },
{
    let raw = match str_arg(j, "id") {
        Ok(s) => s,
        Err(e) => {
            return Err(numbered_error(number, e));
        },
    };
    let id = match parse_uuid("节点 ID", raw.as_str()) {
        Ok(u) => u,
        Err(e) => {
            return Err(numbered_error(number, e));
        },
    };
    let op = match j.get("op") {
        Some(x) => x.as_str(),
        None => None,
    };
    if let Some(word) = op {
        if same_text(word, "set") {
            return match j.get("value") {
                None => Err(numbered_error(number, OpError::invalid("set 需要 value"))),
                Some(v) => Ok(
                    BatchOp { number, id, change: BatchChange::Put(value_from_json(Some(&v))) },
                ),
            };
        }
        if same_text(word, "rename") {
            return match str_arg(j, "name") {
                Err(e) => Err(numbered_error(number, e)),
                Ok(name) => Ok(BatchOp { number, id, change: BatchChange::Rename(name) }),
            };
        }
    }
    Err(numbered_error(number, OpError::invalid("op 只能是 set / rename")))
}

/// The changes that the items of a list ask for, numbered from one.
pub fn batch_ops(items: &Vec<JsonRef<'_>>) -> (r: OpResult<Vec<BatchOp>>)
    ensures
        match ops_asked(ref_trees(items@), items@.len()) {
            Ok(s) => r is Ok && op_views(r->Ok_0@) == s,
            Err(e) => r is Err && r->Err_0@ == e,
        },
{
    let ghost js = ref_trees(items@);
    let mut out: Vec<BatchOp> = Vec::new();
    let mut i: usize = 0;
    assert(op_views(out@) =~= Seq::<SpecBatchOp>::empty());
    while i < items.len()
        invariant
            i <= items@.len(),
            js == ref_trees(items@),
            ops_asked(js, i as nat) == Ok::<Seq<SpecBatchOp>, SpecOpError>(op_views(out@)),
        decreases items@.len() - i,
    {
        let x = &items[i];
        assert(js[i as int] == ref_tree(*x));
        match batch_op(i + 1, x) {
            Err(e) => {
                proof {
                    lemma_ops_stop(js, (i + 1) as nat, js.len());
                }
                return Err(e);
            },
            Ok(op) => {
                let ghost o0 = out@;
                let ghost v = op@;
                out.push(op);
                assert(op_views(out@) =~= op_views(o0).push(v));
            },
        }
        i = i + 1;
    }
    Ok(out)
}

/// The values that the first `k` lines hold, blank ones left out; or what is wrong with
/// the first that holds none.
pub open spec fn lines_read(ls: Seq<Seq<char>>, k: nat) -> Result<Seq<SpecJson>, SpecOpError>
    decreases k,
{
    if k == 0 {
        Ok(Seq::empty())
    } else {
        match lines_read(ls, (k - 1) as nat) {
            Err(e) => Err(e),
            Ok(s) => if trimmed(ls[k - 1]).len() == 0 {
                Ok(s)
            } else {
                match json_read(trimmed(ls[k - 1])) {
                    Ok(j) => Ok(s.push(j)),
                    Err(e) => Err(numbered(s.len() + 1, wrong("不是合法 JSON："@ + e))),
                }
            },
        }
    }
}

proof fn lemma_lines_stop(ls: Seq<Seq<char>>, k: nat, n: nat)
    requires
        k <= n,
        lines_read(ls, k) is Err,
    ensures
        lines_read(ls, n) == lines_read(ls, k),
    decreases n,
{
    if k < n {
        lemma_lines_stop(ls, k, (n - 1) as nat);
    }
}

/// The values that the lines of a text hold, one each; blank lines hold none.
pub fn batch_lines(text: &str) -> (r: OpResult<Vec<Json>>)
    ensures
        ({
            let ls = split_at_char(text@, '\n');
            match lines_read(ls, ls.len()) {
                Ok(s) => r is Ok && json_trees(r->Ok_0@) == s,
                Err(e) => r is Err && r->Err_0@ == e,
            }
        }),
{
    let lines = split_char(text, '\n');
    let ghost ls = text_views(lines@);
    let mut out: Vec<Json> = Vec::new();
    let mut i: usize = 0;
    assert(json_trees(out@) =~= Seq::<SpecJson>::empty());
    while i < lines.len()
        invariant
            i <= lines@.len(),
            ls == text_views(lines@),
            ls == split_at_char(text@, '\n'),
            out@.len() <= i,
            lines_read(ls, i as nat) == Ok::<Seq<SpecJson>, SpecOpError>(json_trees(out@)),
        decreases lines@.len() - i,
    {
        assert(ls[i as int] == lines@[i as int]@);
        let line = trim(lines[i].as_str());
        if !line.as_str().is_empty() {
            match parse_json(line.as_str()) {
                Ok(j) => {
                    let ghost o0 = out@;
                    let ghost t = json_tree(j);
                    out.push(j);
                    assert(json_trees(out@) =~= json_trees(o0).push(t));
                },
                Err(e) => {
                    proof {
                        lemma_lines_stop(ls, (i + 1) as nat, ls.len());
                    }
                    return Err(
                        numbered_error(
                            out.len() + 1,
                            OpError::invalid(join2("不是合法 JSON：", e.as_str()).as_str()),
                        ),
                    );
                },
            }
        }
        i = i + 1;
    }
    Ok(out)
}

/// What keeps a change from being made.
pub open spec fn op_fault(t: Nodes, force: bool, op: SpecBatchOp) -> Option<SpecOpError> {
    let fault = match op.change {
        SpecBatchChange::Put(_) => None,
        SpecBatchChange::Rename(name) => name_fault(name),
    };
    if fault is Some {
        fault
    } else if !may_edit(force, t, op.id) {
        Some(template_guard())
    } else if find_id(t, op.id) is None {
        Some(no_such_node())
    } else {
        None
    }
}

/// Whether a change can be made and leads from `t` to `u`.
pub open spec fn op_made(t: Nodes, u: Nodes, force: bool, op: SpecBatchOp, quiet: bool) -> bool {
    &&& op_fault(t, force, op) is None
    &&& match op.change {
        SpecBatchChange::Put(v) => value_put(t, u, find_id(t, op.id)->Some_0, v, quiet),
        SpecBatchChange::Rename(s) => name_put(t, u, find_id(t, op.id)->Some_0, s, quiet),
    }
}

/// Whether the first `k` changes, one after the other, lead from `t` to `u`.
pub open spec fn ops_made(
    t: Nodes,
    u: Nodes,
    force: bool,
    ops: Seq<SpecBatchOp>,
    quiet: bool,
    k: nat,
) -> bool
    decreases k,
{
    if k == 0 {
        u == t
    } else {
        exists|m: Nodes| #[trigger]
            op_made(m, u, force, ops[k - 1], quiet) && ops_made(
                t,
                m,
                force,
                ops,
                quiet,
                (k - 1) as nat,
            )
    }
}

/// Whether `e` is what is said of a change, where all before it could be made and it
/// cannot.
pub open spec fn batch_stopped(
    t: Nodes,
    m: Nodes,
    force: bool,
    ops: Seq<SpecBatchOp>,
    quiet: bool,
    k: nat,
    e: SpecOpError,
) -> bool {
    &&& k < ops.len()
    &&& ops_made(t, m, force, ops, quiet, k)
    &&& op_fault(m, force, ops[k as int]) is Some
    &&& e == numbered(ops[k as int].number, op_fault(m, force, ops[k as int])->Some_0)
}

/// The nodes that the first `k` changes are about, each once.
pub open spec fn op_targets(ops: Seq<SpecBatchOp>, k: nat) -> Seq<Uuid>
    decreases k,
{
    if k == 0 {
        Seq::empty()
    } else {
        let s = op_targets(ops, (k - 1) as nat);
        if s.contains(ops[k - 1].id) {
            s
        } else {
            s.push(ops[k - 1].id)
        }
    }
}

/// What a batch of changes came to.
#[derive(Clone, Copy, Debug)]
pub struct BatchOutcome {
    /// How many nodes the changes are about.
    pub changed: usize,
}

/// Makes a change.
fn make_change(store: &mut Store, force: bool, op: &BatchOp, no_history: bool) -> (r: OpResult<Uuid>)
    requires
        old(store).wf(),
    ensures
        final(store).wf(),
        match op_fault(old(store)@, force, op@) {
            Some(e) => r is Err && r->Err_0@ == e,
            None => r is Ok && op_made(old(store)@, final(store)@, force, op@, no_history),
        },
{
    match &op.change {
        BatchChange::Put(v) => set_value(store, force, op.id, v.clone(), no_history),
        BatchChange::Rename(name) => rename_node(store, force, op.id, name.as_str(), no_history),
    }
}

/// Makes changes one after the other; where one cannot be made, none is, and the error
/// names it.
pub fn batch_edit(store: &mut Store, force: bool, ops: &Vec<BatchOp>, no_history: bool) -> (r: OpResult<
    BatchOutcome,
>)
    requires
        old(store).wf(),
    ensures
        final(store).wf(),
        match r {
            Ok(out) => {
                &&& ops_made(
                    old(store)@,
                    final(store)@,
                    force,
                    op_views(ops@),
                    no_history,
                    ops@.len(),
                )
                &&& out.changed == op_targets(op_views(ops@), ops@.len()).len()
            },
            Err(e) => {
                &&& final(store)@ == old(store)@
                &&& exists|m: Nodes, k: nat| #[trigger]
                    batch_stopped(
                        old(store)@,
                        m,
                        force,
                        op_views(ops@),
                        no_history,
                        k,
                        e@,
                    )
            },
        },
{
    let ghost all = op_views(ops@);
    let ghost t = store@;
    let mut work = store.clone();
    let mut ids: Vec<Uuid> = Vec::new();
    let mut i: usize = 0;
    while i < ops.len()
        invariant
            i <= ops@.len(),
            all == op_views(ops@),
            t == store@,
            store.wf(),
            t == old(store)@,
            work.wf(),
            ops_made(t, work@, force, all, no_history, i as nat),
            ids@ == op_targets(all, i as nat),
        decreases ops@.len() - i,
    {
        let ghost m = work@;
        assert(all[i as int] == ops@[i as int]@);
        match make_change(&mut work, force, &ops[i], no_history) {
            Err(e) => {
                let e = numbered_error(ops[i].number, e);
                assert(batch_stopped(t, m, force, all, no_history, i as nat, e@));
                return Err(e);
            },
            Ok(_) => {
                proof {
                    assert(op_made(m, work@, force, all[i as int], no_history));
                    assert(ops_made(t, m, force, all, no_history, ((i + 1) - 1) as nat));
                }
            },
        }
        if !holds(&ids, ops[i].id) {
            ids.push(ops[i].id);
        }
        i = i + 1;
    }
    *store = work;
    Ok(BatchOutcome { changed: ids.len() })
}

// ---------------------------------------------------------------------------
// A batch over the shards of a collection
// ---------------------------------------------------------------------------

/// What is said of a change to a node that no shard has.
pub open spec fn in_no_shard(op: SpecBatchOp) -> SpecOpError {
    numbered(
        op.number,
        plain_error(ErrKind::NotFound, "节点不存在于词库："@ + uuid_text(op.id)),
    )
}

/// The first of the changes whose node no shard has.
pub open spec fn first_homeless(w: Seq<SpecShard>, ops: Seq<SpecBatchOp>) -> Option<int>
    decreases ops.len(),
{
    if ops.len() == 0 {
        None
    } else {
        match first_homeless(w, ops.drop_last()) {
            Some(i) => Some(i),
            None => if slot_of(w, ops.last().id) is None {
                Some(ops.len() - 1)
            } else {
                None
            },
        }
    }
}

/// The file of the shard that has a node.
pub open spec fn home_of(w: Seq<SpecShard>, id: Uuid) -> Seq<char> {
    w[slot_of(w, id)->Some_0].file
}

/// The files that the changes of a batch go to, each beside its change. The first change
/// whose node no shard has is an error.
pub fn batch_files(col: &Collection, ops: &Vec<BatchOp>) -> (r: OpResult<Vec<String>>)
    requires
        col.wf(),
    ensures
        match (r, first_homeless(col@, op_views(ops@))) {
            (Ok(files), None) => text_views(files@) == Seq::new(
                ops@.len(),
                |i: int| home_of(col@, ops@[i].id),
            ),
            (Err(e), Some(i)) => 0 <= i < ops@.len() && e@ == in_no_shard(ops@[i]@),
            _ => false,
        },
{
    let ghost all = op_views(ops@);
    let mut files: Vec<String> = Vec::new();
    let mut i: usize = 0;
    assert(first_homeless(col@, all.take(0)) is None);
    while i < ops.len()
        invariant
            i <= ops@.len(),
            col.wf(),
            all == op_views(ops@),
            first_homeless(col@, all.take(i as int)) is None,
            text_views(files@) == Seq::new(i as nat, |k: int| home_of(col@, ops@[k].id)),
        decreases ops@.len() - i,
    {
        assert(all.take(i + 1).drop_last() == all.take(i as int));
        assert(all.take(i + 1).last() == ops@[i as int]@);
        match col.shard_file_for(ops[i].id) {
            None => {
                let e = OpError::not_found(
                    join2("节点不存在于词库：", ops[i].id.to_string().as_str()).as_str(),
                );
                proof {
                    lemma_homeless_first(col@, all, i + 1);
                }
                return Err(numbered_error(ops[i].number, e));
            },
            Some(f) => {
                let ghost before = files@;
                files.push(owned(f));
                assert(text_views(files@) == text_views(before).push(f@));
                assert(text_views(files@) == Seq::new(
                    (i + 1) as nat,
                    |k: int| home_of(col@, ops@[k].id),
                ));
            },
        }
        i = i + 1;
    }
    assert(all.take(ops@.len() as int) == all);
    Ok(files)
}

/// The first homeless change of a front part is that of the whole.
proof fn lemma_homeless_first(w: Seq<SpecShard>, ops: Seq<SpecBatchOp>, n: int)
    requires
        0 <= n <= ops.len(),
        first_homeless(w, ops.take(n)) is Some,
    ensures
        first_homeless(w, ops) == first_homeless(w, ops.take(n)),
    decreases ops.len(),
{
    if n < ops.len() {
        assert(ops.drop_last().take(n) == ops.take(n));
        lemma_homeless_first(w, ops.drop_last(), n);
    } else {
        assert(ops.take(n) == ops);
    }
}

/// The first `k` names, each where it first comes.
pub open spec fn names_met(names: Seq<Seq<char>>, k: nat) -> Seq<Seq<char>>
    decreases k,
{
    if k == 0 {
        Seq::empty()
    } else {
        let s = names_met(names, (k - 1) as nat);
        if s.contains(names[k - 1]) {
            s
        } else {
            s.push(names[k - 1])
        }
    }
}

/// The places of a name among the first `k`.
pub open spec fn places_of(names: Seq<Seq<char>>, name: Seq<char>, k: nat) -> Seq<usize>
    decreases k,
{
    if k == 0 {
        Seq::empty()
    } else {
        let s = places_of(names, name, (k - 1) as nat);
        if names[k - 1] == name {
            s.push((k - 1) as usize)
        } else {
            s
        }
    }
}

/// The names, each where it first comes.
pub fn each_once(files: &Vec<String>) -> (met: Vec<String>)
    ensures
        text_views(met@) == names_met(text_views(files@), files@.len()),
{
    let ghost names = text_views(files@);
    let mut met: Vec<String> = Vec::new();
    let mut i: usize = 0;
    while i < files.len()
        invariant
            i <= files@.len(),
            names == text_views(files@),
            text_views(met@) == names_met(names, i as nat),
        decreases files@.len() - i,
    {
        assert(names[i as int] == files@[i as int]@);
        if !has_text(&met, files[i].as_str()) {
            let ghost before = met@;
            met.push(owned(files[i].as_str()));
            assert(text_views(met@) == text_views(before).push(names[i as int]));
        }
        i = i + 1;
    }
    met
}

/// The changes of a batch by the file that they go to: the files as they first come, each
/// with the places of its changes in order.
pub fn batch_groups(files: &Vec<String>) -> (r: Vec<(String, Vec<usize>)>)
    ensures
        Seq::new(r@.len(), |g: int| r@[g].0@) == names_met(text_views(files@), files@.len()),
        forall|g: int|
            0 <= g < r@.len() ==> (#[trigger] r@[g]).1@ == places_of(
                text_views(files@),
                r@[g].0@,
                files@.len(),
            ),
{
    let ghost names = text_views(files@);
    let met = each_once(files);
    let mut groups: Vec<(String, Vec<usize>)> = Vec::new();
    let mut g: usize = 0;
    while g < met.len()
        invariant
            g <= met@.len(),
            names == text_views(files@),
            text_views(met@) == names_met(names, files@.len()),
            groups@.len() == g,
            forall|k: int|
                0 <= k < g ==> (#[trigger] groups@[k]).0@ == met@[k]@ && groups@[k].1@
                    == places_of(names, met@[k]@, files@.len()),
        decreases met@.len() - g,
    {
        let mut places: Vec<usize> = Vec::new();
        let mut i: usize = 0;
        while i < files.len()
            invariant
                g < met@.len(),
                i <= files@.len(),
                names == text_views(files@),
                places@ == places_of(names, met@[g as int]@, i as nat),
            decreases files@.len() - i,
        {
            assert(names[i as int] == files@[i as int]@);
            if same_text(files[i].as_str(), met[g].as_str()) {
                places.push(i);
            }
            i = i + 1;
        }
        groups.push((owned(met[g].as_str()), places));
        g = g + 1;
    }
    assert(Seq::new(groups@.len(), |k: int| groups@[k].0@) =~= text_views(met@)) by {
        assert forall|k: int| 0 <= k < groups@.len() implies groups@[k].0@ == text_views(
            met@,
        )[k] by {
            assert(groups@[k].0@ == met@[k]@);
        }
    }
    groups
}

/// Every change of a batch is in the group of its file, and in no other.
pub proof fn groups_split_the_batch(names: Seq<Seq<char>>, i: int)
    requires
        0 <= i < names.len() <= usize::MAX,
    ensures
        names_met(names, names.len()).contains(names[i]),
        names_met(names, names.len()).no_duplicates(),
        forall|name: Seq<char>|
            places_of(names, name, names.len()).contains(i as usize) <==> name == names[i],
{
    lemma_met(names, names.len());
    assert forall|name: Seq<char>|
        places_of(names, name, names.len()).contains(i as usize) <==> name == names[i] by {
        lemma_places(names, name, names.len(), i);
    }
}

/// The names met are those that came, once each.
proof fn lemma_met(names: Seq<Seq<char>>, k: nat)
    requires
        k <= names.len(),
    ensures
        names_met(names, k).no_duplicates(),
        forall|i: int| 0 <= i < k ==> names_met(names, k).contains(#[trigger] names[i]),
    decreases k,
{
    if k > 0 {
        lemma_met(names, (k - 1) as nat);
        let s = names_met(names, (k - 1) as nat);
        assert forall|i: int| 0 <= i < k implies names_met(names, k).contains(
            #[trigger] names[i],
        ) by {
            if !s.contains(names[k - 1]) {
                let t = s.push(names[k - 1]);
                if i < k - 1 {
                    let j = choose|j: int| 0 <= j < s.len() && s[j] == names[i];
                    assert(t[j] == names[i]);
                } else {
                    assert(t[s.len() as int] == names[i]);
                }
            }
        }
    }
}

/// A place is among those of its own name only.
proof fn lemma_places(names: Seq<Seq<char>>, name: Seq<char>, k: nat, i: int)
    requires
        k <= names.len() <= usize::MAX,
        0 <= i < names.len(),
    ensures
        places_of(names, name, k).contains(i as usize) <==> (i < k && name == names[i]),
    decreases k,
{
    if k > 0 {
        lemma_places(names, name, (k - 1) as nat, i);
        let s = places_of(names, name, (k - 1) as nat);
        if names[k - 1] == name {
            let t = s.push((k - 1) as usize);
            if s.contains(i as usize) {
                let j = choose|j: int| 0 <= j < s.len() && s[j] == i as usize;
                assert(t[j] == i as usize);
            }
            assert(t[s.len() as int] == (k - 1) as usize);
            if t.contains(i as usize) && i != k - 1 {
                let j = choose|j: int| 0 <= j < t.len() && t[j] == i as usize;
                assert(s[j] == i as usize);
            }
        }
    }
}

// ---------------------------------------------------------------------------
// Laws of many changes
// ---------------------------------------------------------------------------

/// What an item asks for: a change of the node with the id that it gives; a value where it
/// says `set`, which it must give, and a name where it says `rename`.
pub proof fn an_item_asks_for_a_change(number: nat, j: SpecJson)
    ensures
        op_asked(number, j) is Ok ==> ({
            let op = op_asked(number, j)->Ok_0;
            &&& op.number == number
            &&& text_field(j, "id"@) is Some && crate::codec::id_of_text(
                text_field(j, "id"@)->Some_0,
            ) == Some(op.id)
            &&& op.change is Put ==> text_field(j, "op"@) == Some("set"@) && field_of(j, "value"@)
                is Some && op.change->Put_0 == crate::grow::json_value(
                field_of(j, "value"@)->Some_0,
            )
            &&& op.change is Rename ==> text_field(j, "op"@) == Some("rename"@) && text_field(
                j,
                "name"@,
            ) == Some(op.change->Rename_0)
        }),
        text_field(j, "id"@) is Some && text_field(j, "id"@)->Some_0.len() > 0
            && crate::codec::id_of_text(text_field(j, "id"@)->Some_0) is Some && ((text_field(
            j,
            "op"@,
        ) == Some("set"@) && field_of(j, "value"@) is Some) || (text_field(j, "op"@) == Some(
            "rename"@,
        ) && text_field(j, "name"@) is Some && text_field(j, "name"@)->Some_0.len() > 0))
            ==> op_asked(number, j) is Ok,
        op_asked(number, j) is Err ==> op_asked(number, j)->Err_0.kind == ErrKind::InvalidArgument,
{
    reveal_strlit("set");
    reveal_strlit("rename");
    assert("set"@.len() != "rename"@.len());
}

/// The changes that a list asks for, in order, each with its number from one on.
pub proof fn changes_are_numbered_from_one(items: Seq<SpecJson>, k: nat, i: int)
    requires
        0 <= i < k <= items.len(),
        ops_asked(items, k) is Ok,
    ensures
        ops_asked(items, k)->Ok_0.len() == k,
        op_asked((i + 1) as nat, items[i]) == Ok::<SpecBatchOp, SpecOpError>(
            ops_asked(items, k)->Ok_0[i],
        ),
    decreases k,
{
    if i < k - 1 {
        changes_are_numbered_from_one(items, (k - 1) as nat, i);
    } else if k > 1 {
        changes_are_numbered_from_one(items, (k - 1) as nat, 0);
    }
}

/// Where a list does not ask for changes alone, what is wrong with the first item that asks
/// for none is told.
pub proof fn the_first_wrong_item_is_told(items: Seq<SpecJson>, k: nat) -> (i: int)
    requires
        k <= items.len(),
        ops_asked(items, k) is Err,
    ensures
        0 <= i < k,
        ops_asked(items, i as nat) is Ok,
        op_asked((i + 1) as nat, items[i]) is Err,
        ops_asked(items, k)->Err_0 == op_asked((i + 1) as nat, items[i])->Err_0,
    decreases k,
{
    if ops_asked(items, (k - 1) as nat) is Err {
        the_first_wrong_item_is_told(items, (k - 1) as nat)
    } else {
        k - 1
    }
}

/// Lines without anything but white space are passed over; each other is read, in order.
pub proof fn every_line_is_read(ls: Seq<Seq<char>>, k: nat) -> (at: Seq<int>)
    requires
        k <= ls.len(),
        lines_read(ls, k) is Ok,
    ensures
        at.len() == lines_read(ls, k)->Ok_0.len(),
        forall|x: int|
            0 <= x < at.len() ==> 0 <= #[trigger] at[x] < k && trimmed(ls[at[x]]).len() > 0
                && json_read(trimmed(ls[at[x]])) == Ok::<SpecJson, Seq<char>>(
                lines_read(ls, k)->Ok_0[x],
            ),
        forall|x: int, y: int| 0 <= x < y < at.len() ==> #[trigger] at[x] < #[trigger] at[y],
        forall|i: int| 0 <= i < k && trimmed(#[trigger] ls[i]).len() > 0 ==> at.contains(i),
    decreases k,
{
    if k == 0 {
        Seq::empty()
    } else {
        let n = (k - 1) as nat;
        let rest = every_line_is_read(ls, n);
        let at = if trimmed(ls[k - 1]).len() == 0 {
            rest
        } else {
            rest.push(k - 1)
        };
        assert forall|i: int| 0 <= i < k && trimmed(#[trigger] ls[i]).len() > 0 implies at.contains(
            i,
        ) by {
            if i < n {
                let x = choose|x: int| 0 <= x < rest.len() && rest[x] == i;
                assert(at[x] == i);
            } else {
                assert(at[rest.len() as int] == i);
            }
        }
        at
    }
}

/// A change is refused exactly if it renames to a name that cannot be, if the node may not be
/// edited, or if there is no such node.
pub proof fn changes_are_refused_for_a_reason(t: Nodes, force: bool, op: SpecBatchOp)
    ensures
        op_fault(t, force, op) is None <==> {
            &&& find_id(t, op.id) is Some
            &&& may_edit(force, t, op.id)
            &&& op.change is Rename ==> name_fault(op.change->Rename_0) is None
        },
{
}

/// Many changes without a trace: the ids and the parents stay, a node that no change is about
/// stays as it is, and the last change of a node is seen in it.
pub proof fn many_changes_touch_their_nodes(
    t: Nodes,
    u: Nodes,
    force: bool,
    ops: Seq<SpecBatchOp>,
    k: nat,
)
    requires
        k <= ops.len(),
        ops_made(t, u, force, ops, true, k),
    ensures
        crate::model::same_shape(t, u),
        forall|p: int|
            0 <= p < t.len() && (forall|j: int|
                0 <= j < k ==> find_id(t, (#[trigger] ops[j]).id) != Some(p)) ==> #[trigger] u[p]
                == t[p],
        forall|j: int|
            0 <= j < k ==> find_id(t, (#[trigger] ops[j]).id) is Some,
        forall|j: int|
            0 <= j < k && (forall|l: int| j < l < k ==> (#[trigger] ops[l]).id != ops[j].id)
                ==> change_shows(u[find_id(t, (#[trigger] ops[j]).id)->Some_0], ops[j].change),
    decreases k,
{
    if k > 0 {
        let n = (k - 1) as nat;
        let op = ops[k - 1];
        let m = choose|m: Nodes| #[trigger]
            op_made(m, u, force, op, true) && ops_made(t, m, force, ops, true, n);
        many_changes_touch_their_nodes(t, m, force, ops, n);
        let q = find_id(m, op.id)->Some_0;
        crate::model::lemma_find_id(m, op.id);
        match op.change {
            SpecBatchChange::Put(v) => crate::change::what_is_put_is_there(m, u, q, v, true),
            SpecBatchChange::Rename(s) => crate::change::a_renamed_node_has_the_name(
                m,
                u,
                q,
                s,
                true,
            ),
        }
        assert forall|id: Uuid| find_id(t, id) == find_id(m, id) by {
            crate::model::lemma_same_shape(t, m, id);
        }
        assert forall|p: int| 0 <= p < t.len() implies (#[trigger] t[p]).id == u[p].id && t[p].parent
            == u[p].parent by {
            assert(m[p].id == t[p].id);
            if p != q {
                assert(u[p] == m[p]);
            }
        }
        assert forall|p: int|
            0 <= p < t.len() && (forall|j: int|
                0 <= j < k ==> find_id(t, (#[trigger] ops[j]).id) != Some(p)) implies #[trigger] u[p]
            == t[p] by {
            assert(find_id(t, ops[k - 1].id) != Some(p));
            assert(m[p] == t[p]);
        }
        assert forall|j: int| 0 <= j < k implies find_id(t, (#[trigger] ops[j]).id) is Some by {}
        assert forall|j: int|
            0 <= j < k && (forall|l: int| j < l < k ==> (#[trigger] ops[l]).id != ops[j].id) implies change_shows(
            u[find_id(t, (#[trigger] ops[j]).id)->Some_0],
            ops[j].change,
        ) by {
            if let SpecBatchChange::Put(v) = op.change {
                crate::codec::equal_values_are_the_same(m[q].value, v);
            }
            if j < n {
                assert(ops[k - 1].id != ops[j].id);
                crate::model::lemma_find_id(m, ops[j].id);
                let p = find_id(m, ops[j].id)->Some_0;
                assert(p != q);
                assert(u[p] == m[p]);
            }
        }
    }
}

/// Whether a change is seen in a node.
pub open spec fn change_shows(n: SpecNode, c: SpecBatchChange) -> bool {
    match c {
        SpecBatchChange::Put(v) => crate::change::is_or_equals(n.value, v),
        SpecBatchChange::Rename(s) => n.name == s,
    }
}

/// The nodes that changes are about are all listed, each once, and no other.
pub proof fn every_target_is_listed_once(ops: Seq<SpecBatchOp>, k: nat)
    requires
        k <= ops.len(),
    ensures
        op_targets(ops, k).no_duplicates(),
        forall|i: int| 0 <= i < k ==> op_targets(ops, k).contains((#[trigger] ops[i]).id),
        forall|x: int|
            0 <= x < op_targets(ops, k).len() ==> exists|i: int|
                0 <= i < k && (#[trigger] ops[i]).id == #[trigger] op_targets(ops, k)[x],
    decreases k,
{
    if k > 0 {
        let n = (k - 1) as nat;
        every_target_is_listed_once(ops, n);
        let s = op_targets(ops, n);
        let r = op_targets(ops, k);
        assert forall|i: int| 0 <= i < k implies r.contains((#[trigger] ops[i]).id) by {
            if i < n {
                let x = choose|x: int| 0 <= x < s.len() && s[x] == ops[i].id;
                assert(r[x] == ops[i].id);
            } else if !s.contains(ops[i].id) {
                assert(r[s.len() as int] == ops[i].id);
            }
        }
        assert forall|x: int| 0 <= x < r.len() implies exists|i: int|
            0 <= i < k && (#[trigger] ops[i]).id == #[trigger] r[x] by {
            if x < s.len() {
                assert(r[x] == s[x]);
                let i = choose|i: int| 0 <= i < n && (#[trigger] ops[i]).id == s[x];
                assert(ops[i].id == r[x]);
            } else {
                assert(ops[k - 1].id == r[x]);
            }
        }
    }
}

/// A change that no shard has a node for is the first such one.
pub proof fn the_first_homeless_change_is_told(w: Seq<SpecShard>, ops: Seq<SpecBatchOp>)
    ensures
        match first_homeless(w, ops) {
            Some(i) => 0 <= i < ops.len() && slot_of(w, ops[i].id) is None && forall|j: int|
                0 <= j < i ==> slot_of(w, (#[trigger] ops[j]).id) is Some,
            None => forall|j: int|
                0 <= j < ops.len() ==> slot_of(w, (#[trigger] ops[j]).id) is Some,
        },
    decreases ops.len(),
{
    if ops.len() > 0 {
        let d = ops.drop_last();
        the_first_homeless_change_is_told(w, d);
        assert forall|j: int| 0 <= j < d.len() implies (#[trigger] ops[j]) == d[j] by {}
    }
}

/// The error of a change says its number and keeps its kind and its hint.
pub proof fn errors_are_numbered(n: nat, e: SpecOpError)
    ensures
        numbered(n, e).kind == e.kind && numbered(n, e).hint == e.hint,
        numbered(n, e).message == "第 "@ + decimal(n) + " 条："@ + e.message,
{
}

} // verus!
