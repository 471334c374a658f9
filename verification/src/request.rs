//! What a client asks the server for: the tools with their actions, the arguments of
//! each, and the messages around them.
use crate::batch::{batch_ops, op_views, ops_asked, BatchOp, SpecBatchOp};
use crate::codec::{SpecValue, Value};
use crate::convert::{opt_text, text_field};
use crate::grow::{json_value_or_empty, value_from_json};
use crate::json::{compact_json, field_names, field_of, json_bool, json_list, json_null,
    json_to_line, json_tree, json_trees, object_names, ref_tree, ref_trees, Json, JsonRef,
    SpecJson};
use crate::lookup::MatchQuery;
use crate::ops::{plain_error, ErrKind, Layout, OpError, OpResult, SpecOpError, ViewOpts};
use crate::reply::{build, error_json, field, object, pairs, start, text};
use crate::text::{join2, join3, owned, same_text};
use vstd::prelude::*;

verus! {

// ---------------------------------------------------------------------------
// Arguments
// ---------------------------------------------------------------------------

/// What is said of an argument that is wrong.
pub open spec fn wrong(message: Seq<char>) -> SpecOpError {
    plain_error(ErrKind::InvalidArgument, message)
}

/// The text of an argument, if it has one that is not empty.
pub open spec fn text_given(args: SpecJson, key: Seq<char>) -> Option<Seq<char>> {
    match text_field(args, key) {
        Some(s) => if s.len() > 0 {
            Some(s)
        } else {
            None
        },
        None => None,
    }
}

/// The text of an argument that must be there.
pub open spec fn text_needed(args: SpecJson, key: Seq<char>) -> Result<Seq<char>, SpecOpError> {
    match text_given(args, key) {
        Some(s) => Ok(s),
        None => Err(wrong("缺参数 "@ + key)),
    }
}

/// Whether a result is the text that is owed.
pub open spec fn gives_text(r: OpResult<String>, want: Result<Seq<char>, SpecOpError>) -> bool {
    match want {
        Ok(s) => r is Ok && r->Ok_0@ == s,
        Err(e) => r is Err && r->Err_0@ == e,
    }
}

/// The text of an argument, if it has one that is not empty.
pub fn opt_str(args: &JsonRef<'_>, key: &str) -> (r: Option<String>)
    ensures
        opt_text(r) == text_given(ref_tree(*args), key@),
{
    match args.get(key) {
        Some(x) => match x.as_str() {
            Some(s) => if s.is_empty() {
                None
            } else {
                Some(owned(s))
            },
            None => None,
        },
        None => None,
    }
}

/// The text of an argument that must be there.
pub fn str_arg(args: &JsonRef<'_>, key: &str) -> (r: OpResult<String>)
    ensures
        gives_text(r, text_needed(ref_tree(*args), key@)),
{
    match opt_str(args, key) {
        Some(s) => Ok(s),
        None => Err(OpError::invalid(join2("缺参数 ", key).as_str())),
    }
}

/// The truth value of an argument, or another one where it has none.
pub open spec fn truth_given(args: SpecJson, key: Seq<char>, or: bool) -> bool {
    match field_of(args, key) {
        Some(SpecJson::Bool(b)) => b,
        _ => or,
    }
}

/// The truth value of an argument, or another one where it has none.
pub fn bool_arg(args: &JsonRef<'_>, key: &str, or: bool) -> (r: bool)
    ensures
        r == truth_given(ref_tree(*args), key@, or),
{
    match args.get(key) {
        Some(x) => match x.as_bool() {
            Some(b) => b,
            None => or,
        },
        None => or,
    }
}

/// The number of an argument, if it has one that is whole and not negative.
pub open spec fn number_given(args: SpecJson, key: Seq<char>) -> Option<usize> {
    match field_of(args, key) {
        Some(SpecJson::Int(n)) => if 0 <= n <= u64::MAX {
            Some((n as u64) as usize)
        } else {
            None
        },
        _ => None,
    }
}

/// The number of an argument, if it has one that is whole and not negative.
pub fn usz_arg(args: &JsonRef<'_>, key: &str) -> (r: Option<usize>)
    ensures
        r == number_given(ref_tree(*args), key@),
{
    match args.get(key) {
        Some(x) => match x.as_u64() {
            Some(n) => Some(n as usize),
            None => None,
        },
        None => None,
    }
}

// ---------------------------------------------------------------------------
// Tools and actions
// ---------------------------------------------------------------------------

/// The tools of the server.
#[derive(Clone, Copy, Debug, PartialEq, Eq, Structural)]
pub enum Tool {
    Context,
    FileInfo,
    FileValidate,
    FileDiff,
    Tree,
    Query,
    Node,
    Template,
    Convert,
    Blob,
}

/// The names of the tools, in the order in which they are listed.
pub open spec fn tool_names() -> Seq<Seq<char>> {
    seq![
        "context"@,
        "file_info"@,
        "file_validate"@,
        "file_diff"@,
        "tree"@,
        "query"@,
        "node"@,
        "template"@,
        "convert"@,
        "blob"@,
    ]
}

/// The tool with a name.
pub open spec fn tool_named(name: Seq<char>) -> Result<Tool, SpecOpError> {
    if name == "context"@ {
        Ok(Tool::Context)
    } else if name == "file_info"@ {
        Ok(Tool::FileInfo)
    } else if name == "file_validate"@ {
        Ok(Tool::FileValidate)
    } else if name == "file_diff"@ {
        Ok(Tool::FileDiff)
    } else if name == "tree"@ {
        Ok(Tool::Tree)
    } else if name == "query"@ {
        Ok(Tool::Query)
    } else if name == "node"@ {
        Ok(Tool::Node)
    } else if name == "template"@ {
        Ok(Tool::Template)
    } else if name == "convert"@ {
        Ok(Tool::Convert)
    } else if name == "blob"@ {
        Ok(Tool::Blob)
    } else {
        Err(wrong("未知工具："@ + name))
    }
}

/// The tool with a name.
pub fn dispatch(name: &str) -> (r: OpResult<Tool>)
    ensures
        crate::ops::comes_to(r, tool_named(name@)),
{
    if same_text(name, "context") {
        Ok(Tool::Context)
    } else if same_text(name, "file_info") {
        Ok(Tool::FileInfo)
    } else if same_text(name, "file_validate") {
        Ok(Tool::FileValidate)
    } else if same_text(name, "file_diff") {
        Ok(Tool::FileDiff)
    } else if same_text(name, "tree") {
        Ok(Tool::Tree)
    } else if same_text(name, "query") {
        Ok(Tool::Query)
    } else if same_text(name, "node") {
        Ok(Tool::Node)
    } else if same_text(name, "template") {
        Ok(Tool::Template)
    } else if same_text(name, "convert") {
        Ok(Tool::Convert)
    } else if same_text(name, "blob") {
        Ok(Tool::Blob)
    } else {
        Err(OpError::invalid(join2("未知工具：", name).as_str()))
    }
}

/// Every tool that is listed is known.
pub proof fn listed_tools_are_known(i: int)
    requires
        0 <= i < tool_names().len(),
    ensures
        tool_named(tool_names()[i]) is Ok,
{
}

/// The actions of a tool.
pub open spec fn actions(tool: Tool) -> Seq<Seq<char>> {
    match tool {
        Tool::Query => seq!["find"@, "match"@, "instances"@, "refs"@, "history"@],
        Tool::Node => seq![
            "create"@,
            "set"@,
            "rename"@,
            "remove"@,
            "link"@,
            "copy"@,
            "fill"@,
            "revert"@,
            "prune_history"@,
            "batch"@,
        ],
        Tool::Template => seq!["define"@, "list"@, "instantiate"@, "remove"@],
        Tool::Convert => seq!["export"@, "import"@, "append"@],
        Tool::Blob => seq!["import"@, "export"@, "info"@],
        _ => Seq::empty(),
    }
}

/// The actions of a tool.
pub fn action_list(tool: Tool) -> (r: Vec<&'static str>)
    ensures
        crate::console::str_views(r@) == actions(tool),
{
    let r: Vec<&'static str> = match tool {
        Tool::Query => vec!["find", "match", "instances", "refs", "history"],
        Tool::Node => vec![
            "create", "set", "rename", "remove", "link", "copy", "fill", "revert", "prune_history",
            "batch",
        ],
        Tool::Template => vec!["define", "list", "instantiate", "remove"],
        Tool::Convert => vec!["export", "import", "append"],
        Tool::Blob => vec!["import", "export", "info"],
        _ => Vec::new(),
    };
    assert(crate::console::str_views(r@) =~= actions(tool));
    r
}

/// The names of the tools.
pub fn tool_list() -> (r: Vec<&'static str>)
    ensures
        crate::console::str_views(r@) == tool_names(),
{
    let r: Vec<&'static str> = vec![
        "context", "file_info", "file_validate", "file_diff", "tree", "query", "node", "template",
        "convert", "blob",
    ];
    assert(crate::console::str_views(r@) =~= tool_names());
    r
}

/// Texts one after the other, with a slash between them.
pub open spec fn slashed(s: Seq<Seq<char>>) -> Seq<char>
    decreases s.len(),
{
    if s.len() == 0 {
        Seq::empty()
    } else if s.len() == 1 {
        s[0]
    } else {
        slashed(s.drop_last()) + " / "@ + s.last()
    }
}

/// Texts one after the other, with a slash between them.
fn with_slashes(s: &Vec<&'static str>) -> (r: String)
    ensures
        r@ == slashed(crate::console::str_views(s@)),
{
    let ghost all = crate::console::str_views(s@);
    let mut out = String::new();
    let mut i: usize = 0;
    assert(all.take(0) =~= Seq::<Seq<char>>::empty());
    assert(out@ =~= Seq::<char>::empty());
    while i < s.len()
        invariant
            i <= s@.len(),
            all == crate::console::str_views(s@),
            out@ == slashed(all.take(i as int)),
        decreases s@.len() - i,
    {
        proof {
            assert(all.take(i + 1).drop_last() =~= all.take(i as int));
            assert(all.take(i + 1).last() == s@[i as int]@);
        }
        let ghost o0 = out@;
        if i > 0 {
            out.append(" / ");
        }
        out.append(s[i]);
        proof {
            if i == 0 {
                assert(out@ =~= s@[0]@);
            } else {
                assert(out@ =~= o0 + " / "@ + s@[i as int]@);
            }
        }
        i = i + 1;
    }
    assert(all.take(all.len() as int) =~= all);
    out
}

/// The action that is asked of a tool.
pub open spec fn action_asked(args: SpecJson, tool: Tool) -> Result<Seq<char>, SpecOpError> {
    match text_needed(args, "action"@) {
        Err(e) => Err(e),
        Ok(a) => if actions(tool).contains(a) {
            Ok(a)
        } else {
            Err(wrong("未知 action："@ + a + "（可用："@ + slashed(actions(tool)) + "）"@))
        },
    }
}

/// The action that is asked of a tool.
pub fn action_arg(args: &JsonRef<'_>, tool: Tool) -> (r: OpResult<String>)
    ensures
        gives_text(r, action_asked(ref_tree(*args), tool)),
{
    let a = match str_arg(args, "action") {
        Ok(a) => a,
        Err(e) => {
            return Err(e);
        },
    };
    let allowed = action_list(tool);
    let ghost all = actions(tool);
    let mut i: usize = 0;
    while i < allowed.len()
        invariant
            i <= allowed@.len(),
            all == crate::console::str_views(allowed@),
            all == actions(tool),
            text_needed(ref_tree(*args), "action"@) == Ok::<Seq<char>, SpecOpError>(a@),
            forall|k: int| 0 <= k < i ==> all[k] != a@,
        decreases allowed@.len() - i,
    {
        assert(all[i as int] == allowed@[i as int]@);
        if same_text(allowed[i], a.as_str()) {
            assert(all[i as int] == a@);
            return Ok(a);
        }
        i = i + 1;
    }
    let mut m = join3("未知 action：", a.as_str(), "（可用：");
    m.append(with_slashes(&allowed).as_str());
    m.append("）");
    Err(OpError::invalid(m.as_str()))
}

// ---------------------------------------------------------------------------
// Views
// ---------------------------------------------------------------------------

/// How many nodes a view shows where no number is given.
pub const DEFAULT_LIMIT: usize = 200;

/// The layout that is asked for.
pub open spec fn layout_asked(args: SpecJson) -> Result<Layout, SpecOpError> {
    match text_given(args, "layout"@) {
        None => Ok(Layout::Tree),
        Some(s) => if s == "tree"@ {
            Ok(Layout::Tree)
        } else if s == "flat"@ {
            Ok(Layout::Flat)
        } else {
            Err(wrong("未知 layout："@ + s + "（可用：tree / flat）"@))
        },
    }
}

/// The layout that is asked for.
pub fn layout_arg(args: &JsonRef<'_>) -> (r: OpResult<Layout>)
    ensures
        crate::ops::comes_to(r, layout_asked(ref_tree(*args))),
{
    match opt_str(args, "layout") {
        None => Ok(Layout::Tree),
        Some(s) => if same_text(s.as_str(), "tree") {
            Ok(Layout::Tree)
        } else if same_text(s.as_str(), "flat") {
            Ok(Layout::Flat)
        } else {
            Err(OpError::invalid(join3("未知 layout：", s.as_str(), "（可用：tree / flat）").as_str()))
        },
    }
}

/// What is to be shown.
pub open spec fn view_asked(args: SpecJson) -> ViewOpts {
    ViewOpts {
        skip_aux: truth_given(args, "skip_aux"@, false),
        include_ids: truth_given(args, "include_ids"@, false),
        max_depth: number_given(args, "depth"@),
        limit: Some(
            match number_given(args, "limit"@) {
                Some(n) => n,
                None => DEFAULT_LIMIT,
            },
        ),
    }
}

/// What is to be shown.
pub fn view_args(args: &JsonRef<'_>) -> (r: ViewOpts)
    ensures
        r == view_asked(ref_tree(*args)),
{
    let limit: usize = match usz_arg(args, "limit") {
        Some(n) => n,
        None => DEFAULT_LIMIT,
    };
    ViewOpts {
        skip_aux: bool_arg(args, "skip_aux", false),
        include_ids: bool_arg(args, "include_ids", false),
        max_depth: usz_arg(args, "depth"),
        limit: Some(limit),
    }
}

// ---------------------------------------------------------------------------
// Searches
// ---------------------------------------------------------------------------

/// A value as a text that values are held against.
pub open spec fn value_words_of(j: SpecJson) -> Seq<char> {
    match j {
        SpecJson::Text(s) => s,
        SpecJson::Null => Seq::empty(),
        _ => compact_json(j),
    }
}

/// A value as a text that values are held against.
fn value_to_string(v: &JsonRef<'_>) -> (r: String)
    ensures
        r@ == value_words_of(ref_tree(*v)),
{
    match v.as_str() {
        Some(s) => owned(s),
        None => if v.is_null() {
            String::new()
        } else {
            json_to_line(&v.cloned())
        },
    }
}

/// The model of conditions.
pub open spec fn condition_views(s: Seq<(String, String)>) -> Seq<(Seq<char>, Seq<char>)> {
    Seq::new(s.len(), |i: int| (s[i].0@, s[i].1@))
}

/// The conditions that an object gives: its fields in the order of their names.
pub open spec fn conditions_of(m: Map<Seq<char>, SpecJson>) -> Seq<(Seq<char>, Seq<char>)> {
    let names = object_names(m);
    Seq::new(names.len(), |i: int| (names[i], value_words_of(m[names[i]])))
}

/// The conditions that are asked for.
pub open spec fn conditions_asked(args: SpecJson) -> Seq<(Seq<char>, Seq<char>)> {
    match field_of(args, "where"@) {
        Some(SpecJson::Object(m)) => conditions_of(m),
        _ => Seq::empty(),
    }
}

/// Whether a search is the one that is asked for.
pub open spec fn is_search_asked(q: MatchQuery, args: SpecJson) -> bool {
    &&& opt_text(q.root) == text_given(args, "root"@)
    &&& opt_text(q.shape_of) == text_given(args, "shape_of"@)
    &&& opt_text(q.template) == text_given(args, "template"@)
    &&& condition_views(q.wheres@) == conditions_asked(args)
    &&& q.with_tree == truth_given(args, "tree"@, false)
}

/// The search that is asked for.
pub fn match_args(args: &JsonRef<'_>) -> (r: MatchQuery)
    ensures
        is_search_asked(r, ref_tree(*args)),
{
    let mut wheres: Vec<(String, String)> = Vec::new();
    let ghost j = ref_tree(*args);
    assert(condition_views(wheres@) =~= Seq::<(Seq<char>, Seq<char>)>::empty());
    if let Some(w) = args.get("where") {
        if let Some(fields) = w.fields() {
            let ghost m = ref_tree(w)->Object_0;
            let ghost names = field_names(fields@);
            let ghost want = conditions_of(m);
            proof {
                crate::json::lemma_object_names(m, names);
            }
            let mut i: usize = 0;
            assert(condition_views(wheres@) =~= want.take(0));
            while i < fields.len()
                invariant
                    i <= fields@.len(),
                    names == field_names(fields@),
                    names == object_names(m),
                    want == conditions_of(m),
                    forall|k: int|
                        0 <= k < fields@.len() ==> ref_tree((#[trigger] fields@[k]).1)
                            == m[fields@[k].0@],
                    condition_views(wheres@) == want.take(i as int),
                decreases fields@.len() - i,
            {
                let ghost w0 = wheres@;
                let v = value_to_string(&fields[i].1);
                let k = owned(fields[i].0.as_str());
                wheres.push((k, v));
                proof {
                    assert(names[i as int] == fields@[i as int].0@);
                    assert(condition_views(wheres@) =~= condition_views(w0).push(want[i as int]));
                    assert(want.take(i + 1) =~= want.take(i as int).push(want[i as int]));
                }
                i = i + 1;
            }
            assert(want.take(want.len() as int) =~= want);
        }
    }
    MatchQuery {
        root: opt_str(args, "root"),
        shape_of: opt_str(args, "shape_of"),
        template: opt_str(args, "template"),
        wheres,
        with_tree: bool_arg(args, "tree", false),
    }
}

// ---------------------------------------------------------------------------
// Changes
// ---------------------------------------------------------------------------

/// What is asked to be done to a node.
#[derive(Debug)]
pub enum NodeRequest {
    Create { name: String, parent: Option<String>, value: Value },
    Put { node: String, value: Value },
    Rename { node: String, name: String },
    Remove { node: String },
    Link { from: String, to: String },
    Copy { node: String, parent: Option<String>, blank: bool },
    Fill { root: String, assigns: Vec<(String, Value)> },
    Revert { node: String },
    Prune { node: String, keep: usize, before: Option<String> },
    Batch { ops: Vec<BatchOp>, dry_run: bool },
}

/// The model of [`NodeRequest`].
pub enum SpecNodeRequest {
    Create { name: Seq<char>, parent: Option<Seq<char>>, value: SpecValue },
    Put { node: Seq<char>, value: SpecValue },
    Rename { node: Seq<char>, name: Seq<char> },
    Remove { node: Seq<char> },
    Link { from: Seq<char>, to: Seq<char> },
    Copy { node: Seq<char>, parent: Option<Seq<char>>, blank: bool },
    Fill { root: Seq<char>, assigns: Seq<(Seq<char>, SpecValue)> },
    Revert { node: Seq<char> },
    Prune { node: Seq<char>, keep: usize, before: Option<Seq<char>> },
    Batch { ops: Seq<SpecBatchOp>, dry_run: bool },
}

/// The models of values with their paths.
pub open spec fn assign_views(s: Seq<(String, Value)>) -> Seq<(Seq<char>, SpecValue)> {
    Seq::new(s.len(), |i: int| (s[i].0@, s[i].1@))
}

impl View for NodeRequest {
    type V = SpecNodeRequest;

    open spec fn view(&self) -> SpecNodeRequest {
        match self {
            NodeRequest::Create { name, parent, value } => SpecNodeRequest::Create {
                name: name@,
                parent: opt_text(*parent),
                value: value@,
            },
            NodeRequest::Put { node, value } => SpecNodeRequest::Put {
                node: node@,
                value: value@,
            },
            NodeRequest::Rename { node, name } => SpecNodeRequest::Rename {
                node: node@,
                name: name@,
            },
            NodeRequest::Remove { node } => SpecNodeRequest::Remove { node: node@ },
            NodeRequest::Link { from, to } => SpecNodeRequest::Link { from: from@, to: to@ },
            NodeRequest::Copy { node, parent, blank } => SpecNodeRequest::Copy {
                node: node@,
                parent: opt_text(*parent),
                blank: *blank,
            },
            NodeRequest::Fill { root, assigns } => SpecNodeRequest::Fill {
                root: root@,
                assigns: assign_views(assigns@),
            },
            NodeRequest::Revert { node } => SpecNodeRequest::Revert { node: node@ },
            NodeRequest::Prune { node, keep, before } => SpecNodeRequest::Prune {
                node: node@,
                keep: *keep,
                before: opt_text(*before),
            },
            NodeRequest::Batch { ops, dry_run } => SpecNodeRequest::Batch {
                ops: op_views(ops@),
                dry_run: *dry_run,
            },
        }
    }
}

/// How many snapshots stay where no number is given.
pub const DEFAULT_KEEP: usize = 20;

/// The value of an argument.
pub open spec fn value_given(args: SpecJson) -> SpecValue {
    json_value_or_empty(field_of(args, "value"@))
}

/// The values with their paths that the first `k` items of a list give, or what is said
/// of the first that gives none.
pub open spec fn assigns_of(items: Seq<SpecJson>, k: nat) -> Result<
    Seq<(Seq<char>, SpecValue)>,
    SpecOpError,
>
    decreases k,
{
    if k == 0 {
        Ok(Seq::empty())
    } else {
        match assigns_of(items, (k - 1) as nat) {
            Err(e) => Err(e),
            Ok(s) => match text_field(items[k - 1], "path"@) {
                Some(p) => Ok(s.push((p, value_given(items[k - 1])))),
                None => Err(wrong("assigns 每项需要 path"@)),
            },
        }
    }
}

/// The values with their paths that are given.
pub open spec fn assigns_given(args: SpecJson) -> Result<Seq<(Seq<char>, SpecValue)>, SpecOpError> {
    match field_of(args, "assigns"@) {
        Some(SpecJson::List(items)) => assigns_of(items, items.len()),
        _ => Err(wrong("fill 需要 assigns（[{path, value}] 数组）"@)),
    }
}

/// The changes of a batch that are given.
pub open spec fn ops_given(args: SpecJson) -> Result<Seq<SpecBatchOp>, SpecOpError> {
    match field_of(args, "ops"@) {
        Some(SpecJson::List(items)) => ops_asked(items, items.len()),
        _ => Err(wrong("batch 需要 ops（[{op, id, value/name}] 数组）"@)),
    }
}

/// The changes of a batch that are given.
fn ops_arg(args: &JsonRef<'_>) -> (r: OpResult<Vec<BatchOp>>)
    ensures
        match ops_given(ref_tree(*args)) {
            Ok(s) => r is Ok && op_views(r->Ok_0@) == s,
            Err(e) => r is Err && r->Err_0@ == e,
        },
{
    let list = match args.get("ops") {
        Some(x) => x.items(),
        None => None,
    };
    match list {
        None => Err(OpError::invalid("batch 需要 ops（[{op, id, value/name}] 数组）")),
        Some(items) => batch_ops(&items),
    }
}

/// What is asked to be done to a node by an action of the tool for nodes.
pub open spec fn node_asked(args: SpecJson, action: Seq<char>) -> Result<SpecNodeRequest, SpecOpError> {
    let node = text_needed(args, "node"@);
    if action == "create"@ {
        match text_needed(args, "name"@) {
            Err(e) => Err(e),
            Ok(name) => Ok(
                SpecNodeRequest::Create {
                    name,
                    parent: text_given(args, "parent"@),
                    value: value_given(args),
                },
            ),
        }
    } else if action == "link"@ {
        match (text_needed(args, "from"@), text_needed(args, "to"@)) {
            (Err(e), _) => Err(e),
            (Ok(_), Err(e)) => Err(e),
            (Ok(from), Ok(to)) => Ok(SpecNodeRequest::Link { from, to }),
        }
    } else if action == "fill"@ {
        match (text_needed(args, "root"@), assigns_given(args)) {
            (Err(e), _) => Err(e),
            (Ok(_), Err(e)) => Err(e),
            (Ok(root), Ok(assigns)) => Ok(SpecNodeRequest::Fill { root, assigns }),
        }
    } else if action == "batch"@ {
        match ops_given(args) {
            Err(e) => Err(e),
            Ok(ops) => Ok(
                SpecNodeRequest::Batch { ops, dry_run: truth_given(args, "dry_run"@, false) },
            ),
        }
    } else if node is Err {
        Err(node->Err_0)
    } else {
        let node = node->Ok_0;
        if action == "set"@ {
            if field_of(args, "value"@) is None {
                Err(wrong("set 需要 value"@))
            } else {
                Ok(SpecNodeRequest::Put { node, value: value_given(args) })
            }
        } else if action == "rename"@ {
            match text_needed(args, "name"@) {
                Err(e) => Err(e),
                Ok(name) => Ok(SpecNodeRequest::Rename { node, name }),
            }
        } else if action == "remove"@ {
            Ok(SpecNodeRequest::Remove { node })
        } else if action == "copy"@ {
            Ok(
                SpecNodeRequest::Copy {
                    node,
                    parent: text_given(args, "parent"@),
                    blank: truth_given(args, "blank"@, false),
                },
            )
        } else if action == "revert"@ {
            Ok(SpecNodeRequest::Revert { node })
        } else {
            Ok(
                SpecNodeRequest::Prune {
                    node,
                    keep: match number_given(args, "keep"@) {
                        Some(n) => n,
                        None => DEFAULT_KEEP,
                    },
                    before: text_given(args, "before"@),
                },
            )
        }
    }
}

proof fn lemma_assigns_stop(items: Seq<SpecJson>, k: nat, n: nat)
    requires
        k <= n,
        assigns_of(items, k) is Err,
    ensures
        assigns_of(items, n) == assigns_of(items, k),
    decreases n,
{
    if k < n {
        lemma_assigns_stop(items, k, (n - 1) as nat);
    }
}

/// The values with their paths that are given.
fn assigns_arg(args: &JsonRef<'_>) -> (r: OpResult<Vec<(String, Value)>>)
    ensures
        match assigns_given(ref_tree(*args)) {
            Ok(s) => r is Ok && assign_views(r->Ok_0@) == s,
            Err(e) => r is Err && r->Err_0@ == e,
        },
{
    let list = match args.get("assigns") {
        Some(x) => x.items(),
        None => None,
    };
    match list {
        None => Err(OpError::invalid("fill 需要 assigns（[{path, value}] 数组）")),
        Some(items) => {
            let ghost js = ref_trees(items@);
            let mut out: Vec<(String, Value)> = Vec::new();
            let mut i: usize = 0;
            assert(assign_views(out@) =~= Seq::<(Seq<char>, SpecValue)>::empty());
            while i < items.len()
                invariant
                    i <= items@.len(),
                    js == ref_trees(items@),
                    assigns_given(ref_tree(*args)) == assigns_of(js, js.len()),
                    assigns_of(js, i as nat) == Ok::<Seq<(Seq<char>, SpecValue)>, SpecOpError>(
                        assign_views(out@),
                    ),
                decreases items@.len() - i,
            {
                let x = &items[i];
                assert(js[i as int] == ref_tree(*x));
                let path = match x.get("path") {
                    Some(p) => p.as_str(),
                    None => None,
                };
                match path {
                    None => {
                        proof {
                            lemma_assigns_stop(js, (i + 1) as nat, js.len());
                        }
                        return Err(OpError::invalid("assigns 每项需要 path"));
                    },
                    Some(p) => {
                        let ghost o0 = out@;
                        let v = value_from_json(x.get("value").as_ref());
                        let ghost pair = (p@, v@);
                        out.push((owned(p), v));
                        assert(assign_views(out@) =~= assign_views(o0).push(pair));
                    },
                }
                i = i + 1;
            }
            Ok(out)
        },
    }
}

/// What is asked to be done to a node by an action of the tool for nodes.
pub fn node_request(args: &JsonRef<'_>, action: &str) -> (r: OpResult<NodeRequest>)
    requires
        actions(Tool::Node).contains(action@),
    ensures
        crate::ops::amounts_to(r, node_asked(ref_tree(*args), action@)),
{
    if same_text(action, "create") {
        return match str_arg(args, "name") {
            Err(e) => Err(e),
            Ok(name) => Ok(
                NodeRequest::Create {
                    name,
                    parent: opt_str(args, "parent"),
                    value: value_from_json(args.get("value").as_ref()),
                },
            ),
        };
    }
    if same_text(action, "link") {
        let from = match str_arg(args, "from") {
            Ok(s) => s,
            Err(e) => {
                return Err(e);
            },
        };
        return match str_arg(args, "to") {
            Err(e) => Err(e),
            Ok(to) => Ok(NodeRequest::Link { from, to }),
        };
    }
    if same_text(action, "fill") {
        let root = match str_arg(args, "root") {
            Ok(s) => s,
            Err(e) => {
                return Err(e);
            },
        };
        return match assigns_arg(args) {
            Err(e) => Err(e),
            Ok(assigns) => Ok(NodeRequest::Fill { root, assigns }),
        };
    }
    if same_text(action, "batch") {
        return match ops_arg(args) {
            Err(e) => Err(e),
            Ok(ops) => Ok(
                NodeRequest::Batch { ops, dry_run: bool_arg(args, "dry_run", false) },
            ),
        };
    }
    let node = match str_arg(args, "node") {
        Ok(s) => s,
        Err(e) => {
            return Err(e);
        },
    };
    if same_text(action, "set") {
        match args.get("value") {
            None => Err(OpError::invalid("set 需要 value")),
            Some(v) => Ok(NodeRequest::Put { node, value: value_from_json(Some(&v)) }),
        }
    } else if same_text(action, "rename") {
        match str_arg(args, "name") {
            Err(e) => Err(e),
            Ok(name) => Ok(NodeRequest::Rename { node, name }),
        }
    } else if same_text(action, "remove") {
        Ok(NodeRequest::Remove { node })
    } else if same_text(action, "copy") {
        Ok(
            NodeRequest::Copy {
                node,
                parent: opt_str(args, "parent"),
                blank: bool_arg(args, "blank", false),
            },
        )
    } else if same_text(action, "revert") {
        Ok(NodeRequest::Revert { node })
    } else {
        let keep: usize = match usz_arg(args, "keep") {
            Some(n) => n,
            None => DEFAULT_KEEP,
        };
        Ok(NodeRequest::Prune { node, keep, before: opt_str(args, "before") })
    }
}

/// The records that an argument gives: the items of a list, or the one value that it is.
pub open spec fn records_given(args: SpecJson, key: Seq<char>) -> Option<Seq<SpecJson>> {
    match field_of(args, key) {
        None => None,
        Some(SpecJson::List(items)) => Some(items),
        Some(j) => Some(seq![j]),
    }
}

/// The records that an argument gives.
pub fn records_arg<'a>(args: &JsonRef<'a>, key: &str) -> (r: Option<Vec<JsonRef<'a>>>)
    ensures
        match records_given(ref_tree(*args), key@) {
            Some(s) => r is Some && ref_trees(r->Some_0@) == s,
            None => r is None,
        },
{
    match args.get(key) {
        None => None,
        Some(x) => match x.items() {
            Some(items) => Some(items),
            None => {
                let ghost t = ref_tree(x);
                let mut out: Vec<JsonRef<'a>> = Vec::new();
                out.push(x);
                assert(ref_trees(out@) =~= seq![t]);
                Some(out)
            },
        },
    }
}

/// The records that a value gives: the items of a list, or the value itself.
pub fn records_of<'a>(j: &'a Json) -> (r: Vec<JsonRef<'a>>)
    ensures
        ref_trees(r@) == (match json_tree(*j) {
            SpecJson::List(items) => items,
            x => seq![x],
        }),
{
    match j.root().items() {
        Some(items) => items,
        None => {
            let mut out: Vec<JsonRef<'a>> = Vec::new();
            out.push(j.root());
            assert(ref_trees(out@) =~= seq![json_tree(*j)]);
            out
        },
    }
}

/// An argument that must be there, or what is said where it is not.
pub fn field_arg<'a>(args: &JsonRef<'a>, key: &str, message: &str) -> (r: OpResult<JsonRef<'a>>)
    ensures
        match field_of(ref_tree(*args), key@) {
            Some(j) => r is Ok && ref_tree(r->Ok_0) == j,
            None => r is Err && r->Err_0@ == wrong(message@),
        },
{
    match args.get(key) {
        Some(x) => Ok(x),
        None => Err(OpError::invalid(message)),
    }
}

// ---------------------------------------------------------------------------
// Messages
// ---------------------------------------------------------------------------

/// What a message asks for.
#[derive(Debug)]
pub enum RpcStep {
    Ignore,
    Initialize,
    Ping,
    ListTools,
    Call(String),
    Unknown(String),
}

/// The model of [`RpcStep`].
pub enum SpecStep {
    Ignore,
    Initialize,
    Ping,
    ListTools,
    Call(Seq<char>),
    Unknown(Seq<char>),
}

impl View for RpcStep {
    type V = SpecStep;

    open spec fn view(&self) -> SpecStep {
        match self {
            RpcStep::Ignore => SpecStep::Ignore,
            RpcStep::Initialize => SpecStep::Initialize,
            RpcStep::Ping => SpecStep::Ping,
            RpcStep::ListTools => SpecStep::ListTools,
            RpcStep::Call(s) => SpecStep::Call(s@),
            RpcStep::Unknown(s) => SpecStep::Unknown(s@),
        }
    }
}

/// The text of a field, or the empty text.
pub open spec fn text_or_empty(j: SpecJson, key: Seq<char>) -> Seq<char> {
    match text_field(j, key) {
        Some(s) => s,
        None => Seq::empty(),
    }
}

/// A field, or nothing as a value.
pub open spec fn field_or_null(j: SpecJson, key: Seq<char>) -> SpecJson {
    match field_of(j, key) {
        Some(x) => x,
        None => SpecJson::Null,
    }
}

/// What a message asks for. Notifications are not answered.
pub open spec fn step_asked(msg: SpecJson) -> SpecStep {
    let method = text_or_empty(msg, "method"@);
    if crate::shard::starts(method, "notifications/"@) {
        SpecStep::Ignore
    } else if method == "initialize"@ {
        SpecStep::Initialize
    } else if method == "ping"@ {
        SpecStep::Ping
    } else if method == "tools/list"@ {
        SpecStep::ListTools
    } else if method == "tools/call"@ {
        SpecStep::Call(text_or_empty(field_or_null(msg, "params"@), "name"@))
    } else {
        SpecStep::Unknown(method)
    }
}

/// The text of a field, or the empty text.
fn str_or_empty<'a>(j: &JsonRef<'a>, key: &str) -> (r: String)
    ensures
        r@ == text_or_empty(ref_tree(*j), key@),
{
    match j.get(key) {
        Some(x) => match x.as_str() {
            Some(s) => owned(s),
            None => String::new(),
        },
        None => String::new(),
    }
}

/// What a message asks for.
pub fn rpc_step(msg: &JsonRef<'_>) -> (r: RpcStep)
    ensures
        r@ == step_asked(ref_tree(*msg)),
{
    let method = str_or_empty(msg, "method");
    if let Some(rest) = crate::text::strip_prefix(method.as_str(), "notifications/") {
        assert(method@.take("notifications/"@.len() as int) =~= "notifications/"@);
        return RpcStep::Ignore;
    }
    if same_text(method.as_str(), "initialize") {
        RpcStep::Initialize
    } else if same_text(method.as_str(), "ping") {
        RpcStep::Ping
    } else if same_text(method.as_str(), "tools/list") {
        RpcStep::ListTools
    } else if same_text(method.as_str(), "tools/call") {
        let name = match msg.get("params") {
            Some(p) => str_or_empty(&p, "name"),
            None => String::new(),
        };
        RpcStep::Call(name)
    } else {
        RpcStep::Unknown(method)
    }
}

/// The arguments of a call; none are an empty value.
pub fn call_arguments(msg: &JsonRef<'_>) -> (r: Json)
    ensures
        json_tree(r) == field_or_null(field_or_null(ref_tree(*msg), "params"@), "arguments"@),
{
    match msg.get("params") {
        Some(p) => match p.get("arguments") {
            Some(a) => a.cloned(),
            None => json_null(),
        },
        None => json_null(),
    }
}

/// One piece of text as a result.
pub open spec fn content_json(s: Seq<char>) -> SpecJson {
    SpecJson::List(
        seq![object(seq![("type"@, SpecJson::Text("text"@)), ("text"@, SpecJson::Text(s))])],
    )
}

/// One piece of text as a result.
fn content(s: &str) -> (r: Json)
    ensures
        json_tree(r) == content_json(s@),
{
    let mut f = start();
    field(&mut f, "type", text("text"));
    field(&mut f, "text", text(s));
    assert(pairs(f@) =~= seq![
        ("type"@, SpecJson::Text("text"@)),
        ("text"@, SpecJson::Text(s@)),
    ]);
    let one = build(f);
    let ghost t = json_tree(one);
    let mut items: Vec<Json> = Vec::new();
    items.push(one);
    assert(json_trees(items@) =~= seq![t]);
    json_list(items)
}

/// What a call gives back: the result as a text, or the error as one.
pub open spec fn call_json(r: Result<SpecJson, SpecOpError>) -> SpecJson {
    match r {
        Ok(j) => object(seq![("content"@, content_json(compact_json(j)))]),
        Err(e) => object(
            seq![
                ("isError"@, SpecJson::Bool(true)),
                (
                    "content"@,
                    content_json(compact_json(object(seq![("error"@, error_json(e))]))),
                ),
            ],
        ),
    }
}

/// The model of what a call came to.
pub open spec fn call_model(r: OpResult<Json>) -> Result<SpecJson, SpecOpError> {
    match r {
        Ok(j) => Ok(json_tree(j)),
        Err(e) => Err(e@),
    }
}

/// What a call gives back.
pub fn call_result(r: &OpResult<Json>) -> (out: Json)
    ensures
        json_tree(out) == call_json(call_model(*r)),
{
    let mut f = start();
    match r {
        Ok(j) => {
            field(&mut f, "content", content(j.line().as_str()));
            assert(pairs(f@) =~= seq![("content"@, content_json(compact_json(json_tree(*j))))]);
        },
        Err(e) => {
            let mut g = start();
            field(&mut g, "error", e.to_json());
            assert(pairs(g@) =~= seq![("error"@, error_json(e@))]);
            let wrapped = build(g);
            field(&mut f, "isError", json_bool(true));
            field(&mut f, "content", content(wrapped.line().as_str()));
            assert(pairs(f@) =~= seq![
                ("isError"@, SpecJson::Bool(true)),
                (
                    "content"@,
                    content_json(compact_json(object(seq![("error"@, error_json(e@))]))),
                ),
            ]);
        },
    }
    build(f)
}

/// The answer to a message with an id: the result.
pub open spec fn answer_json(id: SpecJson, result: SpecJson) -> SpecJson {
    object(seq![("jsonrpc"@, SpecJson::Text("2.0"@)), ("id"@, id), ("result"@, result)])
}

/// The answer to a message, if it has an id.
pub fn answer(msg: &JsonRef<'_>, result: Json) -> (r: Option<Json>)
    ensures
        match field_of(ref_tree(*msg), "id"@) {
            Some(id) => r is Some && json_tree(r->Some_0) == answer_json(id, json_tree(result)),
            None => r is None,
        },
{
    match msg.get("id") {
        None => None,
        Some(id) => {
            let ghost i = ref_tree(id);
            let ghost t = json_tree(result);
            let mut f = start();
            field(&mut f, "jsonrpc", text("2.0"));
            field(&mut f, "id", id.cloned());
            field(&mut f, "result", result);
            assert(pairs(f@) =~= seq![
                ("jsonrpc"@, SpecJson::Text("2.0"@)),
                ("id"@, i),
                ("result"@, t),
            ]);
            Some(build(f))
        },
    }
}

/// The code of an error for a method that is not known.
pub const METHOD_NOT_FOUND: i64 = -32601;

/// The answer to a message with an id whose method is not known.
pub open spec fn refusal_json(id: SpecJson, method: Seq<char>) -> SpecJson {
    object(
        seq![
            ("jsonrpc"@, SpecJson::Text("2.0"@)),
            ("id"@, id),
            (
                "error"@,
                object(
                    seq![
                        ("code"@, SpecJson::Int(METHOD_NOT_FOUND as int)),
                        ("message"@, SpecJson::Text("未知方法："@ + method)),
                    ],
                ),
            ),
        ],
    )
}

/// The answer to a message whose method is not known, if it has an id.
pub fn refuse(msg: &JsonRef<'_>, method: &str) -> (r: Option<Json>)
    ensures
        match field_of(ref_tree(*msg), "id"@) {
            Some(id) => r is Some && json_tree(r->Some_0) == refusal_json(id, method@),
            None => r is None,
        },
{
    match msg.get("id") {
        None => None,
        Some(id) => {
            let ghost i = ref_tree(id);
            let mut g = start();
            field(&mut g, "code", crate::json::json_int(METHOD_NOT_FOUND));
            field(&mut g, "message", text(join2("未知方法：", method).as_str()));
            assert(pairs(g@) =~= seq![
                ("code"@, SpecJson::Int(METHOD_NOT_FOUND as int)),
                ("message"@, SpecJson::Text("未知方法："@ + method@)),
            ]);
            let mut f = start();
            field(&mut f, "jsonrpc", text("2.0"));
            field(&mut f, "id", id.cloned());
            field(&mut f, "error", build(g));
            assert(pairs(f@) =~= seq![
                ("jsonrpc"@, SpecJson::Text("2.0"@)),
                ("id"@, i),
                (
                    "error"@,
                    object(
                        seq![
                            ("code"@, SpecJson::Int(METHOD_NOT_FOUND as int)),
                            ("message"@, SpecJson::Text("未知方法："@ + method@)),
                        ],
                    ),
                ),
            ]);
            Some(build(f))
        },
    }
}

// ---------------------------------------------------------------------------
// Laws of requests
// ---------------------------------------------------------------------------

/// A request for nodes is the one that its action names, with the arguments of these names:
/// the node, the name, the value, the two ends of a link, the parent and so on.
pub proof fn requests_are_as_asked(args: SpecJson, action: Seq<char>)
    requires
        node_asked(args, action) is Ok,
        actions(Tool::Node).contains(action),
    ensures
        match node_asked(args, action)->Ok_0 {
            SpecNodeRequest::Create { name, parent, value } => action == "create"@ && text_given(
                args,
                "name"@,
            ) == Some(name) && parent == text_given(args, "parent"@) && value
                == json_value_or_empty(field_of(args, "value"@)),
            SpecNodeRequest::Put { node, value } => action == "set"@ && text_given(args, "node"@)
                == Some(node) && field_of(args, "value"@) is Some && value == crate::grow::json_value(
                field_of(args, "value"@)->Some_0,
            ),
            SpecNodeRequest::Rename { node, name } => action == "rename"@ && text_given(
                args,
                "node"@,
            ) == Some(node) && text_given(args, "name"@) == Some(name),
            SpecNodeRequest::Remove { node } => action == "remove"@ && text_given(args, "node"@)
                == Some(node),
            SpecNodeRequest::Link { from, to } => action == "link"@ && text_given(args, "from"@)
                == Some(from) && text_given(args, "to"@) == Some(to),
            SpecNodeRequest::Copy { node, parent, blank } => action == "copy"@ && text_given(
                args,
                "node"@,
            ) == Some(node) && parent == text_given(args, "parent"@) && (blank <==> field_of(
                args,
                "blank"@,
            ) == Some(SpecJson::Bool(true))),
            SpecNodeRequest::Fill { root, assigns } => action == "fill"@ && text_given(
                args,
                "root"@,
            ) == Some(root) && assigns_given(args) == Ok::<Seq<(Seq<char>, SpecValue)>, SpecOpError>(
                assigns,
            ),
            SpecNodeRequest::Revert { node } => action == "revert"@ && text_given(args, "node"@)
                == Some(node),
            SpecNodeRequest::Prune { node, keep, before } => action == "prune_history"@
                && text_given(args, "node"@) == Some(node) && before == text_given(
                args,
                "before"@,
            ) && (field_of(args, "keep"@) is None ==> keep == 20),
            SpecNodeRequest::Batch { ops, dry_run } => action == "batch"@ && ops_given(args) == Ok::<
                Seq<SpecBatchOp>,
                SpecOpError,
            >(ops) && (dry_run <==> field_of(args, "dry_run"@) == Some(SpecJson::Bool(true))),
        },
{
    let i = choose|i: int|
        0 <= i < actions(Tool::Node).len() && actions(Tool::Node)[i] == action;
    assert(action == "create"@ || action == "set"@ || action == "rename"@ || action == "remove"@
        || action == "link"@ || action == "copy"@ || action == "fill"@ || action == "revert"@
        || action == "prune_history"@ || action == "batch"@);
}

/// A text argument is given where it is a text that is not empty; a truth value where it is
/// one; a number where it is a whole one that is not negative.
pub proof fn arguments_are_given_by_kind(args: SpecJson, key: Seq<char>, s: Seq<char>, or: bool)
    ensures
        text_given(args, key) == Some(s) <==> field_of(args, key) == Some(SpecJson::Text(s)) && s.len()
            > 0,
        field_of(args, key) == Some(SpecJson::Bool(true)) ==> truth_given(args, key, or),
        field_of(args, key) == Some(SpecJson::Bool(false)) ==> !truth_given(args, key, or),
        !(field_of(args, key) is Some && field_of(args, key)->Some_0 is Bool) ==> truth_given(
            args,
            key,
            or,
        ) == or,
        number_given(args, key) is Some <==> field_of(args, key) is Some && field_of(
            args,
            key,
        )->Some_0 is Int && 0 <= field_of(args, key)->Some_0->Int_0 <= u64::MAX,
        number_given(args, key) is Some && field_of(args, key)->Some_0->Int_0 <= usize::MAX
            ==> number_given(args, key)->Some_0 as int == field_of(args, key)->Some_0->Int_0,
{
}

/// A message asks for what its method names; a notification asks for nothing, and a method
/// that there is not is named.
pub proof fn messages_ask_by_method(msg: SpecJson)
    ensures
        match step_asked(msg) {
            SpecStep::Ignore => text_field(msg, "method"@) is Some && crate::shard::starts(
                text_field(msg, "method"@)->Some_0,
                "notifications/"@,
            ),
            SpecStep::Initialize => text_field(msg, "method"@) == Some("initialize"@),
            SpecStep::Ping => text_field(msg, "method"@) == Some("ping"@),
            SpecStep::ListTools => text_field(msg, "method"@) == Some("tools/list"@),
            SpecStep::Call(name) => text_field(msg, "method"@) == Some("tools/call"@) && (field_of(
                msg,
                "params"@,
            ) is Some && text_field(field_of(msg, "params"@)->Some_0, "name"@) is Some ==> name
                == text_field(field_of(msg, "params"@)->Some_0, "name"@)->Some_0),
            SpecStep::Unknown(m) => text_field(msg, "method"@) is Some ==> m == text_field(
                msg,
                "method"@,
            )->Some_0,
        },
{
    reveal_strlit("notifications/");
    reveal_strlit("initialize");
    reveal_strlit("ping");
    reveal_strlit("tools/list");
    reveal_strlit("tools/call");
    assert("notifications/"@.len() > 0 && "initialize"@.len() > 0 && "ping"@.len() > 0
        && "tools/list"@.len() > 0 && "tools/call"@.len() > 0);
}

/// What a view is asked to show: as the arguments say, and no more than two hundred nodes
/// where they do not say how many.
pub proof fn views_are_limited(args: SpecJson)
    ensures
        ({
            let v = view_asked(args);
            &&& v.skip_aux <==> field_of(args, "skip_aux"@) == Some(SpecJson::Bool(true))
            &&& v.include_ids <==> field_of(args, "include_ids"@) == Some(SpecJson::Bool(true))
            &&& v.max_depth == number_given(args, "depth"@)
            &&& v.limit is Some
            &&& number_given(args, "limit"@) is Some ==> v.limit == number_given(args, "limit"@)
            &&& number_given(args, "limit"@) is None ==> v.limit == Some(200usize)
        }),
        layout_asked(args) == Ok::<Layout, SpecOpError>(Layout::Flat) <==> text_given(
            args,
            "layout"@,
        ) == Some("flat"@),
        layout_asked(args) == Ok::<Layout, SpecOpError>(Layout::Tree) <==> text_given(
            args,
            "layout"@,
        ) is None || text_given(args, "layout"@) == Some("tree"@),
{
    reveal_strlit("tree");
    reveal_strlit("flat");
    assert("tree"@[0] == 't' && "flat"@[0] == 'f');
}

/// An action is one of those of the tool.
pub proof fn actions_are_known(args: SpecJson, tool: Tool, a: Seq<char>)
    ensures
        action_asked(args, tool) == Ok::<Seq<char>, SpecOpError>(a) <==> text_given(
            args,
            "action"@,
        ) == Some(a) && actions(tool).contains(a),
        action_asked(args, tool) is Err ==> action_asked(args, tool)->Err_0.kind
            == ErrKind::InvalidArgument,
{
}

/// Values to fill are given with their paths, each item one, in order.
pub proof fn every_item_assigns(items: Seq<SpecJson>, k: nat, i: int)
    requires
        0 <= i < k <= items.len(),
        assigns_of(items, k) is Ok,
    ensures
        assigns_of(items, k)->Ok_0.len() == k,
        text_field(items[i], "path"@) == Some(assigns_of(items, k)->Ok_0[i].0),
        assigns_of(items, k)->Ok_0[i].1 == json_value_or_empty(field_of(items[i], "value"@)),
    decreases k,
{
    if i < k - 1 {
        every_item_assigns(items, (k - 1) as nat, i);
    } else if k > 1 {
        every_item_assigns(items, (k - 1) as nat, 0);
    }
}

/// A condition is asked for by the path that is its name and the text of its value, each of
/// them once.
pub proof fn conditions_are_asked_by_name(
    m: Map<Seq<char>, SpecJson>,
    names: Seq<Seq<char>>,
    k: Seq<char>,
)
    requires
        crate::json::names_in_order(m, names),
        m.contains_key(k),
    ensures
        conditions_of(m).len() == names.len(),
        exists|i: int|
            0 <= i < conditions_of(m).len() && (#[trigger] conditions_of(m)[i]).0 == k
                && conditions_of(m)[i].1 == value_words_of(m[k]),
        m[k] is Text ==> value_words_of(m[k]) == m[k]->Text_0,
        m[k] is Null ==> value_words_of(m[k]).len() == 0,
{
    crate::json::lemma_object_names(m, names);
    let i = choose|i: int| 0 <= i < names.len() && names[i] == k;
    assert(conditions_of(m)[i].0 == k);
}

/// A list of records is taken item by item; anything else that is given is one record.
pub proof fn records_are_taken_one_by_one(args: SpecJson, key: Seq<char>)
    ensures
        field_of(args, key) is None ==> records_given(args, key) is None,
        field_of(args, key) is Some && field_of(args, key)->Some_0 is List ==> records_given(
            args,
            key,
        ) == Some(field_of(args, key)->Some_0->List_0),
        field_of(args, key) is Some && !(field_of(args, key)->Some_0 is List) ==> records_given(
            args,
            key,
        ) is Some && records_given(args, key)->Some_0.len() == 1 && records_given(
            args,
            key,
        )->Some_0[0] == field_of(args, key)->Some_0,
{
}

/// What a call comes to is wrapped with a mark exactly where it failed; an answer and a refusal
/// carry the id of the message.
pub proof fn answers_are_marked(
    r: Result<SpecJson, SpecOpError>,
    id: SpecJson,
    result: SpecJson,
    method: Seq<char>,
)
    ensures
        field_of(call_json(r), "isError"@) == Some(SpecJson::Bool(true)) <==> r is Err,
        r is Ok ==> field_of(call_json(r), "isError"@) is None,
        field_of(answer_json(id, result), "id"@) == Some(id),
        field_of(answer_json(id, result), "result"@) == Some(result),
        field_of(answer_json(id, result), "error"@) is None,
        field_of(refusal_json(id, method), "id"@) == Some(id),
        field_of(refusal_json(id, method), "result"@) is None,
        field_of(refusal_json(id, method), "error"@) is Some,
{
    reveal_strlit("isError");
    reveal_strlit("content");
    reveal_strlit("jsonrpc");
    reveal_strlit("id");
    reveal_strlit("result");
    reveal_strlit("error");
    assert("isError"@[0] == 'i' && "isError"@[1] == 's' && "content"@[0] == 'c' && "jsonrpc"@[0]
        == 'j' && "id"@[0] == 'i' && "id"@[1] == 'd' && "result"@[0] == 'r' && "error"@[0] == 'e');
    let a = seq![("jsonrpc"@, SpecJson::Text("2.0"@)), ("id"@, id), ("result"@, result)];
    crate::reply::the_last_field_counts(a, "id"@);
    crate::reply::the_last_field_counts(a, "result"@);
    crate::reply::the_last_field_counts(a, "error"@);
    assert(a[1].0 == "id"@ && a[2].0 == "result"@);
    let e = object(
        seq![
            ("code"@, SpecJson::Int(METHOD_NOT_FOUND as int)),
            ("message"@, SpecJson::Text("未知方法："@ + method)),
        ],
    );
    let f = seq![("jsonrpc"@, SpecJson::Text("2.0"@)), ("id"@, id), ("error"@, e)];
    crate::reply::the_last_field_counts(f, "id"@);
    crate::reply::the_last_field_counts(f, "result"@);
    crate::reply::the_last_field_counts(f, "error"@);
    assert(f[1].0 == "id"@ && f[2].0 == "error"@);
    assert(refusal_json(id, method) == object(f));
    match r {
        Ok(j) => {
            let c = seq![("content"@, content_json(compact_json(j)))];
            crate::reply::the_last_field_counts(c, "isError"@);
        },
        Err(x) => {
            let c = seq![
                ("isError"@, SpecJson::Bool(true)),
                (
                    "content"@,
                    content_json(compact_json(object(seq![("error"@, error_json(x))]))),
                ),
            ];
            crate::reply::the_last_field_counts(c, "isError"@);
            assert(c[0].0 == "isError"@);
        },
    }
}

} // verus!
