//! What can be done to a file. Each operation changes the nodes of a store, or leaves
//! them as they are and says why.
use crate::codec::{drawn, same_value, SpecNode, SpecValue, Uuid, Value};
use crate::lookup::{name_or_empty, node_name};
use crate::model::{find_id, Nodes};
use crate::ops::{comes_to, guard_editable, guarded_error, may_edit, missing_node, no_node,
    plain_error, template_guard, ErrKind, OpError, OpResult, SpecOpError};
use crate::query::{descend, walk_path};
use crate::shard::{shard_file_name, ShardEntry};
use crate::text::{begins, decimal, decimal_text, is_aux_name, join2, join3, owned, split_at_char,
    split_char, text_views};
use crate::tree::{changed_with_trace, found, pruned, reverted, subtree_copied, time_note,
    CopyOptions, PruneReport, Store};
use vstd::prelude::*;
use vstd::utf8::encode_utf8;

verus! {

/// Whether an operation was refused: the nodes are as they were, and the error is the
/// one that is owed.
pub open spec fn refused<T>(t: Nodes, u: Nodes, r: OpResult<T>, e: SpecOpError) -> bool {
    u == t && r is Err && r->Err_0@ == e
}

/// What is said of a node that the store does not have.
pub open spec fn no_such_node() -> SpecOpError {
    plain_error(ErrKind::Internal, "节点不存在"@)
}

// ---------------------------------------------------------------------------
// New nodes
// ---------------------------------------------------------------------------

/// A node was made.
#[derive(Debug)]
pub struct CreateOutcome {
    pub id: Uuid,
    pub name: String,
    pub new_shard: bool,
    pub warnings: Vec<String>,
}

/// Whether `u` is `t` with a new node, and a note of when it was made if `noted`.
pub open spec fn node_made(
    t: Nodes,
    u: Nodes,
    parent: Option<Uuid>,
    name: Seq<char>,
    value: SpecValue,
    noted: bool,
) -> bool {
    let n = t.len() as int;
    &&& u.len() == n + (if noted {
        2int
    } else {
        1
    })
    &&& u.take(n) == t
    &&& u[n] == (SpecNode { id: u[n].id, parent, name, value })
    &&& drawn(u[n].id)
    &&& noted ==> time_note(u[n + 1], u[n].id, "@created"@)
}

/// Whether an outcome tells of the node at the end of `t`.
pub open spec fn tells_of_new(
    t: Nodes,
    u: Nodes,
    name: Seq<char>,
    out: CreateOutcome,
    new_shard: bool,
    warnings: Seq<Seq<char>>,
) -> bool {
    &&& out.id == u[t.len() as int].id
    &&& out.name@ == name
    &&& out.new_shard == new_shard
    &&& text_views(out.warnings@) == warnings
}

/// What is said where a node that is no `@` node gets another child: its shape changes.
pub open spec fn shape_warning(t: Nodes, parent: Option<Uuid>, done: Seq<char>) -> Seq<Seq<char>> {
    match parent {
        Some(p) => match found(t, p) {
            Some(n) => if begins(n.name, '@') {
                Seq::empty()
            } else {
                seq![
                    "（提示：在「"@ + n.name + "」下"@ + done
                        + "会改变该子树形状码，可能影响按结构检索；--yes 跳过）"@,
                ]
            },
            None => Seq::empty(),
        },
        None => Seq::empty(),
    }
}

/// What is said where a node that is no `@` node gets another child.
fn warn_of_shape(store: &Store, parent: Option<Uuid>, done: &str) -> (r: Vec<String>)
    requires
        store.wf(),
    ensures
        text_views(r@) == shape_warning(store@, parent, done@),
{
    let mut out: Vec<String> = Vec::new();
    if let Some(p) = parent {
        if let Some(n) = store.get(p) {
            if !is_aux_name(n.name.as_str()) {
                let mut m = join3("（提示：在「", n.name.as_str(), "」下");
                m.append(done);
                m.append("会改变该子树形状码，可能影响按结构检索；--yes 跳过）");
                out.push(m);
            }
        }
    }
    assert(text_views(out@) =~= shape_warning(store@, parent, done@));
    out
}

/// What is said where the parent of a new node is not there.
pub open spec fn missing_parent(p: Uuid) -> SpecOpError {
    guarded_error(
        "父节点不存在："@ + crate::codec::uuid_text(p),
        "继续创建会留下 E011 父边断裂；确实要建请显式强制（CLI：--yes，MCP：force）"@,
    )
}

/// Makes a node in a file. A parent that is not there is only taken where the caller
/// insists.
pub fn create_node(
    store: &mut Store,
    force: bool,
    parent: Option<Uuid>,
    name: &str,
    value: Value,
    no_history: bool,
) -> (r: OpResult<CreateOutcome>)
    requires
        old(store).wf(),
    ensures
        final(store).wf(),
        if parent is Some && found(old(store)@, parent->Some_0) is None && !force {
            refused(old(store)@, final(store)@, r, missing_parent(parent->Some_0))
        } else {
            &&& r is Ok
            &&& node_made(old(store)@, final(store)@, parent, name@, value@, !no_history)
            &&& tells_of_new(
                old(store)@,
                final(store)@,
                name@,
                r->Ok_0,
                false,
                shape_warning(old(store)@, parent, "新增节点"@),
            )
        },
{
    if let Some(p) = parent {
        if store.get(p).is_none() && !force {
            return Err(
                OpError::guarded(
                    join2("父节点不存在：", p.to_string().as_str()).as_str(),
                    "继续创建会留下 E011 父边断裂；确实要建请显式强制（CLI：--yes，MCP：force）",
                ),
            );
        }
    }
    let warnings = warn_of_shape(store, parent, "新增节点");
    let n = store.create(parent, name, value, !no_history);
    Ok(CreateOutcome { id: n.id, name: owned(name), new_shard: false, warnings })
}

/// Makes a node below another one in a collection.
pub fn create_in_shard(
    store: &mut Store,
    parent: Uuid,
    name: &str,
    value: Value,
    no_history: bool,
) -> (r: CreateOutcome)
    requires
        old(store).wf(),
    ensures
        final(store).wf(),
        node_made(old(store)@, final(store)@, Some(parent), name@, value@, !no_history),
        tells_of_new(old(store)@, final(store)@, name@, r, false, Seq::empty()),
{
    let n = store.create(Some(parent), name, value, !no_history);
    let warnings: Vec<String> = Vec::new();
    assert(text_views(warnings@) =~= Seq::<Seq<char>>::empty());
    CreateOutcome { id: n.id, name: owned(name), new_shard: false, warnings }
}

/// Makes a node in a new shard of a collection: gives the nodes of the shard, and its
/// entry for the manifest.
pub fn create_shard(name: &str, value: Value, no_history: bool) -> (r: (
    Store,
    ShardEntry,
    CreateOutcome,
))
    ensures
        r.0.wf(),
        node_made(Seq::empty(), r.0@, None, name@, value@, !no_history),
        tells_of_new(Seq::empty(), r.0@, name@, r.2, true, Seq::empty()),
        r.1.name@ == name@,
        r.1.filename@ == shard_file_name(r.2.id),
{
    let mut store = Store::new();
    let n = store.create(None, name, value, !no_history);
    assert(store@.take(0) =~= Seq::<SpecNode>::empty());
    let entry = ShardEntry {
        name: owned(name),
        filename: join2(n.id.to_string().as_str(), ".xirang"),
    };
    let warnings: Vec<String> = Vec::new();
    assert(text_views(warnings@) =~= Seq::<Seq<char>>::empty());
    (store, entry, CreateOutcome { id: n.id, name: owned(name), new_shard: true, warnings })
}

/// The name of a blob that is taken in: that of its file, or `blob`.
pub open spec fn blob_name(file_name: Option<Seq<char>>) -> Seq<char> {
    match file_name {
        Some(s) => s,
        None => "blob"@,
    }
}

/// Takes a blob in, under the name of its file. Gives the id of the new node, and its
/// name.
pub fn blob_import(
    store: &mut Store,
    parent: Option<Uuid>,
    file_name: Option<&str>,
    bytes: Vec<u8>,
) -> (r: (Uuid, String))
    requires
        old(store).wf(),
    ensures
        final(store).wf(),
        node_made(
            old(store)@,
            final(store)@,
            parent,
            blob_name(crate::backend::opt_view(file_name)),
            SpecValue::Blob(bytes@),
            true,
        ),
        r.0 == final(store)@[old(store)@.len() as int].id,
        r.1@ == blob_name(crate::backend::opt_view(file_name)),
{
    let name = match file_name {
        Some(s) => owned(s),
        None => owned("blob"),
    };
    let n = store.create(parent, name.as_str(), Value::Blob(bytes), true);
    (n.id, name)
}

// ---------------------------------------------------------------------------
// Values and names
// ---------------------------------------------------------------------------

/// Whether `u` is `t` with another value of node `i`, with a trace unless `quiet`. The
/// same value changes nothing.
pub open spec fn value_put(t: Nodes, u: Nodes, i: int, v: SpecValue, quiet: bool) -> bool {
    if same_value(t[i].value, v) {
        u == t
    } else if quiet {
        u == t.update(i, SpecNode { value: v, ..t[i] })
    } else {
        changed_with_trace(t, u, i, SpecNode { value: v, ..t[i] })
    }
}

/// Puts a value, with a trace unless `quiet`.
fn put_value(store: &mut Store, id: Uuid, value: Value, quiet: bool) -> (r: OpResult<()>)
    requires
        old(store).wf(),
    ensures
        final(store).wf(),
        match find_id(old(store)@, id) {
            None => refused(old(store)@, final(store)@, r, no_such_node()),
            Some(i) => r is Ok && value_put(old(store)@, final(store)@, i, value@, quiet),
        },
{
    let done = if quiet {
        store.set_quiet(id, value)
    } else {
        store.update(id, value)
    };
    match done {
        Ok(()) => Ok(()),
        Err(e) => Err(OpError::internal(e.as_str())),
    }
}

/// Sets the value of a node.
pub fn set_value(store: &mut Store, force: bool, id: Uuid, value: Value, no_history: bool) -> (r:
    OpResult<Uuid>)
    requires
        old(store).wf(),
    ensures
        final(store).wf(),
        if !may_edit(force, old(store)@, id) {
            refused(old(store)@, final(store)@, r, template_guard())
        } else {
            match find_id(old(store)@, id) {
                None => refused(old(store)@, final(store)@, r, no_such_node()),
                Some(i) => comes_to(r, Ok(id)) && value_put(
                    old(store)@,
                    final(store)@,
                    i,
                    value@,
                    no_history,
                ),
            }
        },
{
    if let Err(e) = guard_editable(force, store, id) {
        return Err(e);
    }
    match put_value(store, id, value, no_history) {
        Ok(()) => Ok(id),
        Err(e) => Err(e),
    }
}

/// What is wrong with a new name.
pub open spec fn name_fault(name: Seq<char>) -> Option<SpecOpError> {
    if name.len() == 0 {
        Some(plain_error(ErrKind::InvalidArgument, "新名字不能为空（要清空名字请用 rm）"@))
    } else if encode_utf8(name).len() > 255 {
        Some(plain_error(ErrKind::InvalidArgument, "名字超 255 字节"@))
    } else {
        None
    }
}

/// Refuses a name that no node can have.
pub fn check_name(name: &str) -> (r: OpResult<()>)
    ensures
        match name_fault(name@) {
            Some(e) => r is Err && r->Err_0@ == e,
            None => r is Ok,
        },
{
    if name.is_empty() {
        return Err(OpError::invalid("新名字不能为空（要清空名字请用 rm）"));
    }
    if name.as_bytes().len() > 255 {
        return Err(OpError::invalid("名字超 255 字节"));
    }
    Ok(())
}

/// Whether `u` is `t` with another name of node `i`, with a trace unless `quiet`. The
/// same name changes nothing.
pub open spec fn name_put(t: Nodes, u: Nodes, i: int, name: Seq<char>, quiet: bool) -> bool {
    if t[i].name == name {
        u == t
    } else if quiet {
        u == t.update(i, SpecNode { name, ..t[i] })
    } else {
        changed_with_trace(t, u, i, SpecNode { name, ..t[i] })
    }
}

/// Renames a node.
pub fn rename_node(store: &mut Store, force: bool, id: Uuid, new_name: &str, no_history: bool) -> (r:
    OpResult<Uuid>)
    requires
        old(store).wf(),
    ensures
        final(store).wf(),
        if name_fault(new_name@) is Some {
            refused(old(store)@, final(store)@, r, name_fault(new_name@)->Some_0)
        } else if !may_edit(force, old(store)@, id) {
            refused(old(store)@, final(store)@, r, template_guard())
        } else {
            match find_id(old(store)@, id) {
                None => refused(old(store)@, final(store)@, r, no_such_node()),
                Some(i) => comes_to(r, Ok(id)) && name_put(
                    old(store)@,
                    final(store)@,
                    i,
                    new_name@,
                    no_history,
                ),
            }
        },
{
    if let Err(e) = check_name(new_name) {
        return Err(e);
    }
    if let Err(e) = guard_editable(force, store, id) {
        return Err(e);
    }
    let done = if no_history {
        store.rename_quiet(id, owned(new_name))
    } else {
        store.rename(id, owned(new_name))
    };
    proof {
        if let Some(i) = find_id(old(store)@, id) {
            crate::model::lemma_find_id(old(store)@, id);
            let t = old(store)@;
            assert(t.update(i, t[i]) =~= t);
        }
    }
    match done {
        Ok(()) => Ok(id),
        Err(e) => Err(OpError::internal(e.as_str())),
    }
}

/// Whether `u` is `t` with node `i` emptied, with a trace. An empty node is left alone.
pub open spec fn node_emptied(t: Nodes, u: Nodes, i: int) -> bool {
    if t[i].name.len() == 0 && t[i].value == SpecValue::Empty {
        u == t
    } else {
        changed_with_trace(
            t,
            u,
            i,
            SpecNode { name: Seq::<char>::empty(), value: SpecValue::Empty, ..t[i] },
        )
    }
}

/// Empties a node.
pub fn remove_node(store: &mut Store, force: bool, id: Uuid) -> (r: OpResult<Uuid>)
    requires
        old(store).wf(),
    ensures
        final(store).wf(),
        if !may_edit(force, old(store)@, id) {
            refused(old(store)@, final(store)@, r, template_guard())
        } else {
            match find_id(old(store)@, id) {
                None => refused(old(store)@, final(store)@, r, no_such_node()),
                Some(i) => comes_to(r, Ok(id)) && node_emptied(old(store)@, final(store)@, i),
            }
        },
{
    if let Err(e) = guard_editable(force, store, id) {
        return Err(e);
    }
    match store.remove(id) {
        Ok(()) => Ok(id),
        Err(e) => Err(OpError::internal(e.as_str())),
    }
}

/// How to go on where a reference would lead nowhere.
pub open spec fn link_hint() -> Seq<char> {
    "继续连边会留下 R001 引用断裂；确实要连请显式强制（CLI：--yes，MCP：force）"@
}

/// Makes a node of a file refer to another one.
pub fn link_nodes(store: &mut Store, force: bool, from: Uuid, to: Uuid, no_history: bool) -> (r:
    OpResult<(Uuid, Uuid)>)
    requires
        old(store).wf(),
    ensures
        final(store).wf(),
        if !may_edit(force, old(store)@, from) {
            refused(old(store)@, final(store)@, r, template_guard())
        } else if (found(old(store)@, from) is None || found(old(store)@, to) is None) && !force {
            refused(
                old(store)@,
                final(store)@,
                r,
                guarded_error("from 或 to 节点不存在"@, link_hint()),
            )
        } else {
            match find_id(old(store)@, from) {
                None => refused(old(store)@, final(store)@, r, no_such_node()),
                Some(i) => comes_to(r, Ok((from, to))) && value_put(
                    old(store)@,
                    final(store)@,
                    i,
                    SpecValue::Reference(to),
                    no_history,
                ),
            }
        },
{
    if let Err(e) = guard_editable(force, store, from) {
        return Err(e);
    }
    if (store.get(from).is_none() || store.get(to).is_none()) && !force {
        return Err(
            OpError::guarded(
                "from 或 to 节点不存在",
                "继续连边会留下 R001 引用断裂；确实要连请显式强制（CLI：--yes，MCP：force）",
            ),
        );
    }
    match put_value(store, from, Value::Reference(to), no_history) {
        Ok(()) => Ok((from, to)),
        Err(e) => Err(e),
    }
}

/// Makes a node of a collection refer to another one; `target_ok` tells whether the
/// collection has that one.
pub fn link_in_collection(
    store: &mut Store,
    force: bool,
    from: Uuid,
    to: Uuid,
    target_ok: bool,
    no_history: bool,
) -> (r: OpResult<(Uuid, Uuid)>)
    requires
        old(store).wf(),
    ensures
        final(store).wf(),
        if !may_edit(force, old(store)@, from) {
            refused(old(store)@, final(store)@, r, template_guard())
        } else if !target_ok && !force {
            refused(
                old(store)@,
                final(store)@,
                r,
                guarded_error("引用目标不在该词库："@ + crate::codec::uuid_text(to), link_hint()),
            )
        } else {
            match find_id(old(store)@, from) {
                None => refused(old(store)@, final(store)@, r, no_such_node()),
                Some(i) => comes_to(r, Ok((from, to))) && value_put(
                    old(store)@,
                    final(store)@,
                    i,
                    SpecValue::Reference(to),
                    no_history,
                ),
            }
        },
{
    if let Err(e) = guard_editable(force, store, from) {
        return Err(e);
    }
    if !target_ok && !force {
        return Err(
            OpError::guarded(
                join2("引用目标不在该词库：", to.to_string().as_str()).as_str(),
                "继续连边会留下 R001 引用断裂；确实要连请显式强制（CLI：--yes，MCP：force）",
            ),
        );
    }
    match put_value(store, from, Value::Reference(to), no_history) {
        Ok(()) => Ok((from, to)),
        Err(e) => Err(e),
    }
}

// ---------------------------------------------------------------------------
// Copies
// ---------------------------------------------------------------------------

/// A subtree was copied.
#[derive(Debug)]
pub struct CopyOutcome {
    pub src_id: Uuid,
    pub src_name: String,
    pub new_id: Uuid,
    pub warnings: Vec<String>,
}

/// What a copy takes over.
pub open spec fn copy_options(blank: bool, no_history: bool) -> CopyOptions {
    CopyOptions { blank_values: blank, history: !no_history }
}

/// Copies the subtree of a node below `parent`, under fresh ids; without the values if
/// `blank`, and without the history if `no_history`.
pub fn copy_node(
    store: &mut Store,
    force: bool,
    node: &str,
    id: Uuid,
    parent: Option<Uuid>,
    blank: bool,
    no_history: bool,
) -> (r: OpResult<CopyOutcome>)
    requires
        old(store).wf(),
    ensures
        final(store).wf(),
        if found(old(store)@, id) is None {
            refused(old(store)@, final(store)@, r, missing_node(node@))
        } else if parent is Some && !may_edit(force, old(store)@, parent->Some_0) {
            refused(old(store)@, final(store)@, r, template_guard())
        } else {
            exists|done: Result<Uuid, String>|
                {
                    &&& #[trigger] subtree_copied(
                        old(store)@,
                        final(store)@,
                        id,
                        parent,
                        copy_options(blank, no_history),
                        done,
                    )
                    &&& match done {
                        Err(e) => r is Err && r->Err_0@ == plain_error(ErrKind::Internal, e@),
                        Ok(new_id) => {
                            &&& r is Ok
                            &&& r->Ok_0.src_id == id
                            &&& r->Ok_0.src_name@ == name_or_empty(old(store)@, id)
                            &&& r->Ok_0.new_id == new_id
                            &&& text_views(r->Ok_0.warnings@) == (if force {
                                Seq::empty()
                            } else {
                                shape_warning(old(store)@, parent, "复制子树"@)
                            })
                        },
                    }
                }
        },
{
    if store.get(id).is_none() {
        return Err(no_node(node));
    }
    let src_name = node_name(store, id);
    let mut warnings: Vec<String> = Vec::new();
    assert(text_views(warnings@) =~= Seq::<Seq<char>>::empty());
    if !force {
        if let Some(p) = parent {
            if let Err(e) = guard_editable(force, store, p) {
                return Err(e);
            }
        }
        warnings = warn_of_shape(store, parent, "复制子树");
    }
    let opts = CopyOptions { blank_values: blank, history: !no_history };
    let done = store.copy_subtree(id, parent, &opts);
    assert(subtree_copied(
        old(store)@,
        store@,
        id,
        parent,
        copy_options(blank, no_history),
        done,
    ));
    match done {
        Err(e) => Err(OpError::internal(e.as_str())),
        Ok(new_id) => Ok(CopyOutcome { src_id: id, src_name, new_id, warnings }),
    }
}

// ---------------------------------------------------------------------------
// Filling in
// ---------------------------------------------------------------------------

/// Values were filled in.
#[derive(Debug)]
pub struct FillOutcome {
    pub count: usize,
}

/// Whether a path has an empty part.
pub open spec fn has_empty_part(p: Seq<Seq<char>>) -> bool {
    exists|i: int| 0 <= i < p.len() && (#[trigger] p[i]).len() == 0
}

/// The node that a path leads to from a root, or what is said where it leads nowhere.
pub open spec fn fill_target(t: Nodes, root: Uuid, path: Seq<char>) -> Result<Uuid, SpecOpError> {
    let parts = split_at_char(path, '/');
    if has_empty_part(parts) {
        Err(plain_error(ErrKind::InvalidArgument, "路径为空："@ + path))
    } else {
        match descend(t, root, parts) {
            Some(id) => Ok(id),
            None => Err(plain_error(ErrKind::NotFound, "路径不存在："@ + path)),
        }
    }
}

/// The nodes that the first `k` paths lead to, or what is said of the first that leads
/// nowhere.
pub open spec fn fill_targets(t: Nodes, root: Uuid, assigns: Seq<(String, Value)>, k: nat) -> Result<
    Seq<Uuid>,
    SpecOpError,
>
    decreases k,
{
    if k == 0 {
        Ok(Seq::empty())
    } else {
        match fill_targets(t, root, assigns, (k - 1) as nat) {
            Err(e) => Err(e),
            Ok(ids) => match fill_target(t, root, assigns[k - 1].0@) {
                Err(e) => Err(e),
                Ok(id) => Ok(ids.push(id)),
            },
        }
    }
}

/// Whether `u` is `t` after the first `k` values were put in turn.
pub open spec fn values_put(
    t: Nodes,
    u: Nodes,
    ids: Seq<Uuid>,
    assigns: Seq<(String, Value)>,
    quiet: bool,
    k: nat,
) -> bool
    decreases k,
{
    if k == 0 {
        u == t
    } else {
        exists|m: Nodes|
            {
                &&& values_put(t, m, ids, assigns, quiet, (k - 1) as nat)
                &&& find_id(m, ids[k - 1]) is Some
                &&& #[trigger] value_put(
                    m,
                    u,
                    find_id(m, ids[k - 1])->Some_0,
                    assigns[k - 1].1@,
                    quiet,
                )
            }
    }
}

/// Whether one of the parts is empty.
fn any_empty(parts: &Vec<String>) -> (r: bool)
    ensures
        r == has_empty_part(text_views(parts@)),
{
    let ghost p = text_views(parts@);
    let mut i: usize = 0;
    while i < parts.len()
        invariant
            i <= parts@.len(),
            p == text_views(parts@),
            forall|k: int| 0 <= k < i ==> (#[trigger] p[k]).len() > 0,
        decreases parts@.len() - i,
    {
        assert(p[i as int] == parts@[i as int]@);
        if parts[i].as_str().is_empty() {
            assert(p[i as int].len() == 0);
            return true;
        }
        i = i + 1;
    }
    false
}

proof fn lemma_targets_stop(t: Nodes, root: Uuid, assigns: Seq<(String, Value)>, k: nat, n: nat)
    requires
        k <= n,
        fill_targets(t, root, assigns, k) is Err,
    ensures
        fill_targets(t, root, assigns, n) == fill_targets(t, root, assigns, k),
    decreases n,
{
    if k < n {
        lemma_targets_stop(t, root, assigns, k, (n - 1) as nat);
    }
}

proof fn lemma_descend_found(t: Nodes, root: Uuid, p: Seq<Seq<char>>)
    requires
        p.len() > 0,
        descend(t, root, p) is Some,
    ensures
        find_id(t, descend(t, root, p)->Some_0) is Some,
{
    let a = descend(t, root, p.drop_last())->Some_0;
    let c = crate::model::named_child(t, a, p.last())->Some_0;
    crate::model::lemma_first_pick(t, |n: SpecNode| n.parent == Some(a) && n.name == p.last());
    crate::model::lemma_find_id(t, t[c].id);
}

proof fn lemma_parts_some(s: Seq<char>, c: char)
    ensures
        split_at_char(s, c).len() > 0,
    decreases s.len(),
{
    if s.len() > 0 {
        lemma_parts_some(s.drop_last(), c);
    }
}

/// The nodes that paths lead to from a root.
fn find_targets(store: &Store, root: Uuid, assigns: &Vec<(String, Value)>) -> (r: OpResult<Vec<Uuid>>)
    requires
        store.wf(),
    ensures
        match fill_targets(store@, root, assigns@, assigns@.len()) {
            Ok(ids) => r is Ok && r->Ok_0@ == ids && ids.len() == assigns@.len() && forall|k: int|
                0 <= k < ids.len() ==> find_id(store@, #[trigger] ids[k]) is Some,
            Err(e) => r is Err && r->Err_0@ == e,
        },
{
    let ghost t = store@;
    let ghost n = assigns@.len();
    let mut out: Vec<Uuid> = Vec::new();
    let mut i: usize = 0;
    assert(out@ =~= Seq::<Uuid>::empty());
    while i < assigns.len()
        invariant
            i <= assigns@.len(),
            n == assigns@.len(),
            store.wf(),
            t == store@,
            fill_targets(t, root, assigns@, i as nat) == Ok::<Seq<Uuid>, SpecOpError>(out@),
            out@.len() == i,
            forall|k: int| 0 <= k < out@.len() ==> find_id(t, #[trigger] out@[k]) is Some,
        decreases assigns@.len() - i,
    {
        let path = assigns[i].0.as_str();
        let parts = split_char(path, '/');
        let ghost p = split_at_char(path@, '/');
        if any_empty(&parts) {
            proof {
                lemma_targets_stop(t, root, assigns@, (i + 1) as nat, n);
            }
            return Err(OpError::invalid(join2("路径为空：", path).as_str()));
        }
        match walk_path(store, root, &parts) {
            None => {
                proof {
                    lemma_targets_stop(t, root, assigns@, (i + 1) as nat, n);
                }
                return Err(OpError::not_found(join2("路径不存在：", path).as_str()));
            },
            Some(id) => {
                proof {
                    lemma_parts_some(path@, '/');
                    lemma_descend_found(t, root, p);
                }
                out.push(id);
            },
        }
        i = i + 1;
    }
    Ok(out)
}

proof fn lemma_put_keeps_ids(t: Nodes, u: Nodes, i: int, v: SpecValue, quiet: bool, id: Uuid)
    requires
        0 <= i < t.len(),
        value_put(t, u, i, v, quiet),
        find_id(t, id) is Some,
    ensures
        find_id(u, id) is Some,
{
    crate::model::lemma_find_id(t, id);
    crate::model::lemma_find_id(u, id);
    let j = find_id(t, id)->Some_0;
    if !same_value(t[i].value, v) {
        if quiet {
            assert(u[j].id == id);
        } else {
            let w = u.update(i, t[i]);
            assert(w.take(t.len() as int) == t);
            assert(w.take(t.len() as int)[j] == t[j]);
            assert(u[j].id == id);
        }
    }
}

/// Fills values in below a root: each goes to the node that its path leads to. Where a
/// path leads nowhere, nothing is changed.
pub fn fill_values(
    store: &mut Store,
    force: bool,
    root: &str,
    root_id: Uuid,
    assigns: &Vec<(String, Value)>,
    no_history: bool,
) -> (r: OpResult<FillOutcome>)
    requires
        old(store).wf(),
    ensures
        final(store).wf(),
        if found(old(store)@, root_id) is None {
            refused(old(store)@, final(store)@, r, missing_node(root@))
        } else if !may_edit(force, old(store)@, root_id) {
            refused(old(store)@, final(store)@, r, template_guard())
        } else {
            match fill_targets(old(store)@, root_id, assigns@, assigns@.len()) {
                Err(e) => refused(old(store)@, final(store)@, r, e),
                Ok(ids) => {
                    &&& r is Ok
                    &&& r->Ok_0.count == assigns@.len()
                    &&& values_put(
                        old(store)@,
                        final(store)@,
                        ids,
                        assigns@,
                        no_history,
                        assigns@.len(),
                    )
                },
            }
        },
{
    if store.get(root_id).is_none() {
        return Err(no_node(root));
    }
    if let Err(e) = guard_editable(force, store, root_id) {
        return Err(e);
    }
    let targets = match find_targets(store, root_id, assigns) {
        Ok(ids) => ids,
        Err(e) => {
            return Err(e);
        },
    };
    let ghost t = store@;
    let mut i: usize = 0;
    while i < assigns.len()
        invariant
            i <= assigns@.len(),
            targets@.len() == assigns@.len(),
            store.wf(),
            values_put(t, store@, targets@, assigns@, no_history, i as nat),
            forall|k: int| 0 <= k < targets@.len() ==> find_id(store@, #[trigger] targets@[k]) is Some,
        decreases assigns@.len() - i,
    {
        let ghost m = store@;
        assert(find_id(m, targets@[i as int]) is Some);
        proof {
            crate::model::lemma_find_id(m, targets@[i as int]);
        }
        let done = put_value(store, targets[i], assigns[i].1.clone(), no_history);
        proof {
            let at = find_id(m, targets@[i as int])->Some_0;
            assert(value_put(m, store@, at, assigns@[i as int].1@, no_history));
            assert(values_put(t, m, targets@, assigns@, no_history, ((i + 1) - 1) as nat));
            assert forall|k: int| 0 <= k < targets@.len() implies find_id(
                store@,
                #[trigger] targets@[k],
            ) is Some by {
                lemma_put_keeps_ids(
                    m,
                    store@,
                    at,
                    assigns@[i as int].1@,
                    no_history,
                    targets@[k],
                );
            }
        }
        i = i + 1;
    }
    Ok(FillOutcome { count: assigns.len() })
}

// ---------------------------------------------------------------------------
// Histories
// ---------------------------------------------------------------------------

/// What cutting a history did.
#[derive(Clone, Copy, Debug)]
pub struct PruneHistoryOutcome {
    pub removed: usize,
    pub kept: usize,
    pub nodes_before: usize,
    pub nodes_after: usize,
    pub bytes_before: u64,
    pub bytes_after: u64,
    pub dry_run: bool,
}

impl PruneHistoryOutcome {
    /// Whether the file is to be written.
    pub fn must_save(&self) -> (r: bool)
        ensures
            r == (!self.dry_run && self.removed > 0),
    {
        !self.dry_run && self.removed > 0
    }
}

/// What is said where cutting a history would lose snapshots.
pub open spec fn prune_guard(removed: nat, kept: nat) -> SpecOpError {
    guarded_error(
        "裁剪留痕会丢掉这 "@ + decimal(removed) + " 条快照的回滚能力（保留 "@ + decimal(kept) + " 条）"@,
        "确认要裁就带 force（CLI：--yes）"@,
    )
}

/// Cuts the history of a node, where the caller insists or nothing is lost. The file has
/// `bytes` bytes; the bytes that it has when it is written are for the caller to fill in.
pub fn prune_history(
    store: &mut Store,
    force: bool,
    node: &str,
    id: Uuid,
    keep: usize,
    before: Option<&str>,
    dry_run: bool,
    bytes: u64,
) -> (r: OpResult<PruneHistoryOutcome>)
    requires
        old(store).wf(),
    ensures
        final(store).wf(),
        if found(old(store)@, id) is None {
            refused(old(store)@, final(store)@, r, missing_node(node@))
        } else if !may_edit(force, old(store)@, id) {
            refused(old(store)@, final(store)@, r, template_guard())
        } else {
            exists|u: Nodes, done: Result<PruneReport, String>|
                {
                    &&& #[trigger] pruned(
                        old(store)@,
                        u,
                        id,
                        keep as nat,
                        crate::backend::opt_view(before),
                        done,
                    )
                    &&& match done {
                        Err(e) => refused(
                            old(store)@,
                            final(store)@,
                            r,
                            plain_error(ErrKind::Internal, e@),
                        ),
                        Ok(p) => if p.removed > 0 && !force {
                            refused(
                                old(store)@,
                                final(store)@,
                                r,
                                prune_guard(p.removed as nat, p.kept as nat),
                            )
                        } else {
                            &&& final(store)@ == u
                            &&& r is Ok
                            &&& r->Ok_0 == (PruneHistoryOutcome {
                                removed: p.removed,
                                kept: p.kept,
                                nodes_before: p.before_nodes,
                                nodes_after: p.after_nodes,
                                bytes_before: bytes,
                                bytes_after: bytes,
                                dry_run,
                            })
                        },
                    }
                }
        },
{
    if store.get(id).is_none() {
        return Err(no_node(node));
    }
    if let Err(e) = guard_editable(force, store, id) {
        return Err(e);
    }
    let nodes_before: usize = store.len();
    let spare = store.clone();
    let done = store.prune_history(id, keep, before);
    let ghost u = store@;
    assert(pruned(old(store)@, u, id, keep as nat, crate::backend::opt_view(before), done));
    match done {
        Err(e) => {
            *store = spare;
            Err(OpError::internal(e.as_str()))
        },
        Ok(p) => {
            if p.removed > 0 && !force {
                *store = spare;
                let mut m = join3(
                    "裁剪留痕会丢掉这 ",
                    decimal_text(p.removed as u64).as_str(),
                    " 条快照的回滚能力（保留 ",
                );
                m.append(decimal_text(p.kept as u64).as_str());
                m.append(" 条）");
                return Err(OpError::guarded(m.as_str(), "确认要裁就带 force（CLI：--yes）"));
            }
            Ok(
                PruneHistoryOutcome {
                    removed: p.removed,
                    kept: p.kept,
                    nodes_before,
                    nodes_after: p.after_nodes,
                    bytes_before: bytes,
                    bytes_after: bytes,
                    dry_run,
                },
            )
        },
    }
}

/// A node was taken back to what it was before, or why not.
#[derive(Debug)]
pub struct RevertOutcome {
    pub id: Uuid,
    pub name: String,
    pub no_snapshot: Option<String>,
}

/// Takes a node back to the last snapshot in its history. That there is none is no
/// error.
pub fn revert_node(store: &mut Store, node: &str, id: Uuid) -> (r: OpResult<RevertOutcome>)
    requires
        old(store).wf(),
    ensures
        final(store).wf(),
        if found(old(store)@, id) is None {
            refused(old(store)@, final(store)@, r, missing_node(node@))
        } else {
            exists|done: Result<(), String>|
                {
                    &&& #[trigger] reverted(old(store)@, final(store)@, id, done)
                    &&& r is Ok
                    &&& r->Ok_0.id == id
                    &&& r->Ok_0.name@ == name_or_empty(final(store)@, id)
                    &&& crate::convert::opt_text(r->Ok_0.no_snapshot) == (match done {
                        Ok(()) => None,
                        Err(e) => Some(e@),
                    })
                }
        },
{
    if store.get(id).is_none() {
        return Err(no_node(node));
    }
    let done = store.revert(id);
    assert(reverted(old(store)@, store@, id, done));
    let name = node_name(store, id);
    let no_snapshot = match done {
        Ok(()) => None,
        Err(e) => Some(e),
    };
    Ok(RevertOutcome { id, name, no_snapshot })
}

// ---------------------------------------------------------------------------
// Blobs
// ---------------------------------------------------------------------------

/// A blob was written out.
#[derive(Debug)]
pub struct BlobExportOutcome {
    pub bytes: usize,
    pub dest: String,
}

/// What is said where a file would be overwritten.
pub open spec fn overwrite_guard(dest: Seq<char>) -> SpecOpError {
    guarded_error(
        "目标文件已存在："@ + dest,
        "导出会覆盖它；确认覆盖请显式强制（CLI：--yes，MCP：force）"@,
    )
}

/// The bytes of the blob of a node.
pub fn blob_bytes<'a>(store: &'a Store, node_id: &str) -> (r: OpResult<&'a Vec<u8>>)
    requires
        store.wf(),
    ensures
        match crate::lookup::blob_meant(store@, node_id@) {
            Ok((_, b)) => r is Ok && r->Ok_0@ == b,
            Err(e) => r is Err && r->Err_0@ == e,
        },
{
    match crate::lookup::find_node(store, node_id) {
        Err(e) => Err(e),
        Ok(n) => match &n.value {
            Value::Blob(b) => Ok(b),
            _ => Err(crate::lookup::no_blob(node_id)),
        },
    }
}

/// Whether the blob of a node may be written to a file: one that is there is only
/// overwritten where the caller insists.
pub fn blob_export(
    store: &Store,
    force: bool,
    node_id: &str,
    dest: &str,
    dest_exists: bool,
) -> (r: OpResult<BlobExportOutcome>)
    requires
        store.wf(),
    ensures
        match crate::lookup::blob_meant(store@, node_id@) {
            Err(e) => r is Err && r->Err_0@ == e,
            Ok((_, b)) => if dest_exists && !force {
                r is Err && r->Err_0@ == overwrite_guard(dest@)
            } else {
                r is Ok && r->Ok_0.bytes == b.len() && r->Ok_0.dest@ == dest@
            },
        },
{
    match blob_bytes(store, node_id) {
        Err(e) => Err(e),
        Ok(b) => {
            if dest_exists && !force {
                return Err(
                    OpError::guarded(
                        join2("目标文件已存在：", dest).as_str(),
                        "导出会覆盖它；确认覆盖请显式强制（CLI：--yes，MCP：force）",
                    ),
                );
            }
            Ok(BlobExportOutcome { bytes: b.len(), dest: owned(dest) })
        },
    }
}

// ---------------------------------------------------------------------------
// Laws of changes
// ---------------------------------------------------------------------------

/// A value that was put is there: the node has it, with the id, the parent and the name that
/// it had; every other node stays; without a trace nothing is added, and with one, what the
/// node was is filed.
pub proof fn what_is_put_is_there(t: Nodes, u: Nodes, i: int, v: SpecValue, quiet: bool)
    requires
        0 <= i < t.len(),
        value_put(t, u, i, v, quiet),
    ensures
        t.len() <= u.len(),
        u[i].id == t[i].id && u[i].parent == t[i].parent && u[i].name == t[i].name,
        u[i].value == v || (same_value(t[i].value, v) && u[i].value == t[i].value),
        forall|j: int| 0 <= j < t.len() && j != i ==> #[trigger] u[j] == t[j],
        quiet || same_value(t[i].value, v) ==> u.len() == t.len(),
        !quiet && !same_value(t[i].value, v) ==> exists|s: int|
            t.len() <= s < u.len() && (#[trigger] u[s]).name == t[i].name && u[s].value
                == t[i].value,
{
    if !quiet && !same_value(t[i].value, v) {
        let s = crate::tree::a_change_files_what_was(t, u, i, SpecNode { value: v, ..t[i] });
        assert(u[s].name == t[i].name);
    }
}

/// A name that was put is there: the node has it, with the id, the parent and the value that
/// it had; every other node stays; without a trace nothing is added, and with one, what the
/// node was is filed.
pub proof fn a_renamed_node_has_the_name(t: Nodes, u: Nodes, i: int, name: Seq<char>, quiet: bool)
    requires
        0 <= i < t.len(),
        name_put(t, u, i, name, quiet),
    ensures
        t.len() <= u.len(),
        u[i].id == t[i].id && u[i].parent == t[i].parent && u[i].value == t[i].value,
        u[i].name == name,
        forall|j: int| 0 <= j < t.len() && j != i ==> #[trigger] u[j] == t[j],
        quiet || t[i].name == name ==> u.len() == t.len(),
        !quiet && t[i].name != name ==> exists|s: int|
            t.len() <= s < u.len() && (#[trigger] u[s]).name == t[i].name && u[s].value
                == t[i].value,
{
    if !quiet && t[i].name != name {
        let s = crate::tree::a_change_files_what_was(t, u, i, SpecNode { name, ..t[i] });
        assert(u[s].name == t[i].name);
    }
}

/// A node that was emptied keeps its id and its parent, and has no name and no value; every
/// other node stays; what it was is filed, unless it was empty already.
pub proof fn an_emptied_node_stays_in_place(t: Nodes, u: Nodes, i: int)
    requires
        0 <= i < t.len(),
        node_emptied(t, u, i),
    ensures
        t.len() <= u.len(),
        u[i].id == t[i].id && u[i].parent == t[i].parent,
        u[i].name.len() == 0 && u[i].value == SpecValue::Empty,
        forall|j: int| 0 <= j < t.len() && j != i ==> #[trigger] u[j] == t[j],
        u.len() == t.len() <==> t[i].name.len() == 0 && t[i].value == SpecValue::Empty,
        u.len() > t.len() ==> exists|s: int|
            t.len() <= s < u.len() && (#[trigger] u[s]).name == t[i].name && u[s].value
                == t[i].value,
{
    if !(t[i].name.len() == 0 && t[i].value == SpecValue::Empty) {
        let s = crate::tree::a_change_files_what_was(
            t,
            u,
            i,
            SpecNode { name: Seq::<char>::empty(), value: SpecValue::Empty, ..t[i] },
        );
        assert(u[s].name == t[i].name);
    }
}

/// A new node is added at the end with the name, the value and the parent that were given; all
/// nodes before stay; where it is noted, a `@created` child with a text comes behind, and
/// nothing else.
pub proof fn a_new_node_comes_last(
    t: Nodes,
    u: Nodes,
    parent: Option<Uuid>,
    name: Seq<char>,
    value: SpecValue,
    noted: bool,
)
    requires
        node_made(t, u, parent, name, value, noted),
    ensures
        ({
            let n = t.len() as int;
            &&& forall|j: int| 0 <= j < n ==> #[trigger] u[j] == t[j]
            &&& u.len() > n && u[n].parent == parent && u[n].name == name && u[n].value == value
            &&& !noted ==> u.len() == n + 1
            &&& noted ==> u.len() == n + 2 && u[n + 1].parent == Some(u[n].id) && u[n + 1].name
                == "@created"@ && u[n + 1].value is Text
        }),
{
    let n = t.len() as int;
    assert forall|j: int| 0 <= j < n implies #[trigger] u[j] == t[j] by {
        assert(u.take(n)[j] == u[j]);
    }
}

/// A name is taken exactly if it is not empty and has no more than 255 bytes.
pub proof fn names_are_neither_empty_nor_long(name: Seq<char>)
    ensures
        name_fault(name) is None <==> 0 < name.len() && encode_utf8(name).len() < 256,
        name_fault(name) is Some ==> name_fault(name)->Some_0.kind == ErrKind::InvalidArgument,
{
}

/// A warning of the shape is given, once, exactly where the parent is there and its name does
/// not begin with `@`.
pub proof fn shapes_are_warned_of_once(t: Nodes, parent: Option<Uuid>, done: Seq<char>)
    ensures
        shape_warning(t, parent, done).len() == (if parent is Some && found(
            t,
            parent->Some_0,
        ) is Some && !(found(t, parent->Some_0)->Some_0.name.len() > 0 && found(
            t,
            parent->Some_0,
        )->Some_0.name[0] == '@') {
            1int
        } else {
            0
        }),
{
}

/// The nodes to fill are found for all paths, each where its path leads; a path that is
/// broken or leads nowhere stops it all.
pub proof fn every_path_is_filled(
    t: Nodes,
    root: Uuid,
    assigns: Seq<(String, Value)>,
    k: nat,
)
    requires
        k <= assigns.len(),
    ensures
        fill_targets(t, root, assigns, k) is Ok <==> forall|j: int|
            0 <= j < k ==> ({
                let parts = split_at_char((#[trigger] assigns[j]).0@, '/');
                descend(t, root, parts) is Some && forall|i: int|
                    0 <= i < parts.len() ==> (#[trigger] parts[i]).len() > 0
            }),
        fill_targets(t, root, assigns, k) is Ok ==> fill_targets(t, root, assigns, k)->Ok_0.len()
            == k && forall|j: int|
            0 <= j < k ==> descend(t, root, split_at_char((#[trigger] assigns[j]).0@, '/')) == Some(
                fill_targets(t, root, assigns, k)->Ok_0[j],
            ),
    decreases k,
{
    if k > 0 {
        let n = (k - 1) as nat;
        every_path_is_filled(t, root, assigns, n);
        let parts = split_at_char(assigns[n as int].0@, '/');
        if forall|i: int| 0 <= i < parts.len() ==> (#[trigger] parts[i]).len() > 0 {
            assert(!has_empty_part(parts));
        }
        if fill_targets(t, root, assigns, n) is Ok && fill_target(t, root, assigns[n as int].0@) is Ok {
            let a = fill_targets(t, root, assigns, n)->Ok_0;
            let b = fill_targets(t, root, assigns, k)->Ok_0;
            assert(b == a.push(fill_target(t, root, assigns[n as int].0@)->Ok_0));
            assert forall|i: int| 0 <= i < parts.len() implies (#[trigger] parts[i]).len() > 0 by {}
            assert forall|j: int| 0 <= j < k implies descend(
                t,
                root,
                split_at_char((#[trigger] assigns[j]).0@, '/'),
            ) == Some(b[j]) by {
                if j < n {
                    assert(b[j] == a[j]);
                }
            }
        }
    }
}

/// Whether `u` is `t` with the values of the first `k` nodes to fill alone: each of them has
/// the value that was given for it last.
pub open spec fn filled(
    t: Nodes,
    u: Nodes,
    ids: Seq<Uuid>,
    assigns: Seq<(String, Value)>,
    k: nat,
) -> bool {
    &&& u.len() == t.len()
    &&& forall|p: int|
        0 <= p < t.len() ==> (#[trigger] u[p]).id == t[p].id && u[p].parent == t[p].parent
            && u[p].name == t[p].name
    &&& forall|p: int|
        0 <= p < t.len() && (forall|j: int|
            0 <= j < k ==> find_id(t, #[trigger] ids[j]) != Some(p)) ==> #[trigger] u[p] == t[p]
    &&& forall|j: int|
        0 <= j < k && (forall|l: int| j < l < k ==> #[trigger] ids[l] != ids[j]) ==> find_id(
            t,
            #[trigger] ids[j],
        ) is Some && is_or_equals(u[find_id(t, ids[j])->Some_0].value, assigns[j].1@)
}

/// Filling without a trace touches the values of the nodes to fill alone; each of them has
/// the value that was given for it last.
pub proof fn what_is_filled_is_there(
    t: Nodes,
    u: Nodes,
    ids: Seq<Uuid>,
    assigns: Seq<(String, Value)>,
    k: nat,
)
    requires
        k <= ids.len() && k <= assigns.len(),
        values_put(t, u, ids, assigns, true, k),
    ensures
        filled(t, u, ids, assigns, k),
    decreases k,
{
    if k > 0 {
        let n = (k - 1) as nat;
        let m = choose|m: Nodes|
            {
                &&& values_put(t, m, ids, assigns, true, n)
                &&& find_id(m, ids[k - 1]) is Some
                &&& #[trigger] value_put(
                    m,
                    u,
                    find_id(m, ids[k - 1])->Some_0,
                    assigns[k - 1].1@,
                    true,
                )
            };
        what_is_filled_is_there(t, m, ids, assigns, n);
        let q = find_id(m, ids[k - 1])->Some_0;
        crate::model::lemma_find_id(m, ids[k - 1]);
        what_is_put_is_there(m, u, q, assigns[k - 1].1@, true);
        lemma_filled_on(t, m, u, ids, assigns, k, q);
    }
}

proof fn lemma_filled_on(
    t: Nodes,
    m: Nodes,
    u: Nodes,
    ids: Seq<Uuid>,
    assigns: Seq<(String, Value)>,
    k: nat,
    q: int,
)
    requires
        0 < k <= ids.len() && k <= assigns.len(),
        filled(t, m, ids, assigns, (k - 1) as nat),
        find_id(m, ids[k - 1]) == Some(q),
        0 <= q < m.len(),
        u.len() == m.len(),
        u[q].id == m[q].id && u[q].parent == m[q].parent && u[q].name == m[q].name,
        u[q].value == assigns[k - 1].1@ || (same_value(m[q].value, assigns[k - 1].1@) && u[q].value
            == m[q].value),
        forall|j: int| 0 <= j < m.len() && j != q ==> #[trigger] u[j] == m[j],
    ensures
        filled(t, u, ids, assigns, k),
{
    assert(crate::model::same_shape(t, m)) by {
        assert forall|p: int| 0 <= p < t.len() implies (#[trigger] t[p]).id == m[p].id
            && t[p].parent == m[p].parent by {
            assert(m[p].id == t[p].id);
        }
    }
    assert forall|p: int| 0 <= p < t.len() implies (#[trigger] u[p]).id == t[p].id && u[p].parent
        == t[p].parent && u[p].name == t[p].name by {
        assert(m[p].id == t[p].id);
    }
    crate::model::lemma_same_shape(t, m, ids[k - 1]);
    assert forall|p: int|
        0 <= p < t.len() && (forall|j: int|
            0 <= j < k ==> find_id(t, #[trigger] ids[j]) != Some(p)) implies #[trigger] u[p]
        == t[p] by {
        assert(find_id(t, ids[k - 1]) != Some(p));
        assert(m[p] == t[p]);
    }
    assert forall|j: int|
        0 <= j < k && (forall|l: int| j < l < k ==> #[trigger] ids[l] != ids[j]) implies find_id(
        t,
        #[trigger] ids[j],
    ) is Some && is_or_equals(u[find_id(t, ids[j])->Some_0].value, assigns[j].1@) by {
        if j < k - 1 {
            assert(ids[k - 1] != ids[j]);
            crate::model::lemma_same_shape(t, m, ids[j]);
            crate::model::lemma_find_id(m, ids[j]);
            crate::model::lemma_find_id(m, ids[k - 1]);
            let p = find_id(m, ids[j])->Some_0;
            assert(p != q);
            assert(u[p] == m[p]);
        }
    }
}

/// Whether a value is the given one or equal to it.
pub open spec fn is_or_equals(v: SpecValue, given: SpecValue) -> bool {
    v == given || same_value(v, given)
}

/// A copy takes the history along exactly if it is not told to leave it out, and blanks
/// values exactly if it is told to.
pub proof fn copies_are_made_as_told(blank: bool, no_history: bool)
    ensures
        copy_options(blank, no_history).blank_values <==> blank,
        copy_options(blank, no_history).history <==> !no_history,
{
}

} // verus!
