//! What the entry points do with a store: each operation takes the store and its plain
//! arguments, keeps to the policy of the caller, and gives a result or an error.
use crate::codec::{id_of_text, models, uuid_text, Node, SpecNode, SpecValue, Uuid, Value};
use crate::convert::{kind_word, kind_word_of, opt_text, value_text, value_words};
use crate::idmap::IdSet;
use crate::model::{children_of, kids, pending, picked, Nodes};
use crate::text::{begins, decimal, decimal_text, is_aux_name, join2, join3, owned, same_text,
    split_at_char, split_char, text_views};
use crate::tree::{found, ref_models, Store};
use vstd::prelude::*;

verus! {

// ---------------------------------------------------------------------------
// Errors
// ---------------------------------------------------------------------------

/// What kind of error it is.
#[derive(Clone, Copy, Debug, PartialEq, Eq, Structural)]
pub enum ErrKind {
    InvalidArgument,
    NotFound,
    Guarded,
    PathDenied,
    Unsupported,
    Internal,
}

impl ErrKind {
    /// The name of the kind.
    pub open spec fn text(self) -> Seq<char> {
        match self {
            ErrKind::InvalidArgument => "invalid_argument"@,
            ErrKind::NotFound => "not_found"@,
            ErrKind::Guarded => "guarded"@,
            ErrKind::PathDenied => "path_denied"@,
            ErrKind::Unsupported => "unsupported"@,
            ErrKind::Internal => "internal"@,
        }
    }

    /// The name of the kind.
    pub fn as_str(self) -> (r: &'static str)
        ensures
            r@ == self.text(),
    {
        match self {
            ErrKind::InvalidArgument => "invalid_argument",
            ErrKind::NotFound => "not_found",
            ErrKind::Guarded => "guarded",
            ErrKind::PathDenied => "path_denied",
            ErrKind::Unsupported => "unsupported",
            ErrKind::Internal => "internal",
        }
    }
}

/// Why an operation was not done: the kind, what to say, and what to do about it.
#[derive(Debug)]
pub struct OpError {
    pub kind: ErrKind,
    pub message: String,
    pub hint: Option<String>,
}

/// What an error is: the model of [`OpError`].
pub struct SpecOpError {
    pub kind: ErrKind,
    pub message: Seq<char>,
    pub hint: Option<Seq<char>>,
}

impl View for OpError {
    type V = SpecOpError;

    open spec fn view(&self) -> SpecOpError {
        SpecOpError { kind: self.kind, message: self.message@, hint: opt_text(self.hint) }
    }
}

/// An error without a hint.
pub open spec fn plain_error(kind: ErrKind, message: Seq<char>) -> SpecOpError {
    SpecOpError { kind, message, hint: None }
}

/// An error that says how to go on all the same.
pub open spec fn guarded_error(message: Seq<char>, hint: Seq<char>) -> SpecOpError {
    SpecOpError { kind: ErrKind::Guarded, message, hint: Some(hint) }
}

impl OpError {
    /// An error without a hint.
    pub fn new(kind: ErrKind, message: &str) -> (r: Self)
        ensures
            r@ == plain_error(kind, message@),
    {
        OpError { kind, message: owned(message), hint: None }
    }

    /// The error with a hint.
    pub fn hint(self, hint: &str) -> (r: Self)
        ensures
            r@ == (SpecOpError { hint: Some(hint@), ..self@ }),
    {
        OpError { kind: self.kind, message: self.message, hint: Some(owned(hint)) }
    }

    /// An argument is wrong.
    pub fn invalid(message: &str) -> (r: Self)
        ensures
            r@ == plain_error(ErrKind::InvalidArgument, message@),
    {
        OpError::new(ErrKind::InvalidArgument, message)
    }

    /// Something is not there.
    pub fn not_found(message: &str) -> (r: Self)
        ensures
            r@ == plain_error(ErrKind::NotFound, message@),
    {
        OpError::new(ErrKind::NotFound, message)
    }

    /// It is only done where the caller insists.
    pub fn guarded(message: &str, hint: &str) -> (r: Self)
        ensures
            r@ == guarded_error(message@, hint@),
    {
        OpError::new(ErrKind::Guarded, message).hint(hint)
    }

    /// A path is out of bounds.
    pub fn path_denied(message: &str) -> (r: Self)
        ensures
            r@ == plain_error(ErrKind::PathDenied, message@),
    {
        OpError::new(ErrKind::PathDenied, message)
    }

    /// It cannot be done here.
    pub fn unsupported(message: &str) -> (r: Self)
        ensures
            r@ == plain_error(ErrKind::Unsupported, message@),
    {
        OpError::new(ErrKind::Unsupported, message)
    }

    /// Something went wrong below.
    pub fn internal(message: &str) -> (r: Self)
        ensures
            r@ == plain_error(ErrKind::Internal, message@),
    {
        OpError::new(ErrKind::Internal, message)
    }
}

/// What an operation comes to.
pub type OpResult<T> = Result<T, OpError>;

// ---------------------------------------------------------------------------
// Policy
// ---------------------------------------------------------------------------

/// What the caller allows: whether it insists, and the directories that it keeps to
/// (any, where there is none).
#[derive(Debug)]
pub struct Policy {
    pub force: bool,
    pub roots: Vec<String>,
}

impl Default for Policy {
    fn default() -> (r: Self)
        ensures
            !r.force,
            r.roots@.len() == 0,
    {
        Policy { force: false, roots: Vec::new() }
    }
}

/// The parts of a path that say something.
pub open spec fn path_parts(p: Seq<Seq<char>>) -> Seq<Seq<char>>
    decreases p.len(),
{
    if p.len() == 0 {
        p
    } else {
        let r = path_parts(p.drop_last());
        if p.last().len() == 0 || p.last() == "."@ {
            r
        } else {
            r.push(p.last())
        }
    }
}

/// Whether a path is the directory or below it.
pub open spec fn path_within(path: Seq<char>, dir: Seq<char>) -> bool {
    let a = path_parts(split_at_char(path, '/'));
    let b = path_parts(split_at_char(dir, '/'));
    &&& begins(path, '/') == begins(dir, '/')
    &&& b.len() <= a.len()
    &&& a.take(b.len() as int) == b
}

/// The parts of a path that say something.
fn parts_of(path: &str) -> (r: Vec<String>)
    ensures
        text_views(r@) == path_parts(split_at_char(path@, '/')),
{
    let parts = split_char(path, '/');
    let ghost all = text_views(parts@);
    let mut out: Vec<String> = Vec::new();
    let mut i: usize = 0;
    assert(all.take(0) =~= Seq::<Seq<char>>::empty());
    assert(text_views(out@) =~= path_parts(all.take(0)));
    while i < parts.len()
        invariant
            i <= parts@.len(),
            all == text_views(parts@),
            text_views(out@) == path_parts(all.take(i as int)),
        decreases parts@.len() - i,
    {
        proof {
            assert(all.take(i + 1).drop_last() =~= all.take(i as int));
            assert(all.take(i + 1).last() == parts@[i as int]@);
        }
        let p = parts[i].as_str();
        if !p.is_empty() && !same_text(p, ".") {
            let ghost o0 = out@;
            out.push(owned(p));
            assert(text_views(out@) =~= text_views(o0).push(p@));
        }
        i = i + 1;
    }
    assert(all.take(all.len() as int) =~= all);
    out
}

/// Whether a text starts with a slash.
fn is_absolute(path: &str) -> (r: bool)
    ensures
        r == begins(path@, '/'),
{
    !path.is_empty() && path.get_char(0) == '/'
}

/// Whether a path is the directory or below it.
pub fn is_within(path: &str, dir: &str) -> (r: bool)
    ensures
        r == path_within(path@, dir@),
{
    if is_absolute(path) != is_absolute(dir) {
        return false;
    }
    let a = parts_of(path);
    let b = parts_of(dir);
    let ghost av = text_views(a@);
    let ghost bv = text_views(b@);
    if b.len() > a.len() {
        return false;
    }
    let mut i: usize = 0;
    while i < b.len()
        invariant
            i <= b@.len() <= a@.len(),
            av == text_views(a@),
            bv == text_views(b@),
            path_within(path@, dir@) <==> av.take(bv.len() as int) == bv,
            forall|k: int| 0 <= k < i ==> av[k] == bv[k],
        decreases b@.len() - i,
    {
        assert(av[i as int] == a@[i as int]@ && bv[i as int] == b@[i as int]@);
        if !same_text(a[i].as_str(), b[i].as_str()) {
            assert(av.take(bv.len() as int)[i as int] != bv[i as int]);
            return false;
        }
        i = i + 1;
    }
    assert(av.take(bv.len() as int) =~= bv);
    true
}

/// A path behind the first directory that is allowed, where it is not absolute.
pub open spec fn path_taken(roots: Seq<Seq<char>>, raw: Seq<char>) -> Seq<char> {
    if begins(raw, '/') || roots.len() == 0 {
        raw
    } else {
        crate::paths::joined(roots[0], raw)
    }
}

/// Whether a path is within one of the directories.
pub open spec fn within_any(target: Seq<char>, roots: Seq<Seq<char>>) -> bool {
    exists|i: int| 0 <= i < roots.len() && path_within(target, #[trigger] roots[i])
}

impl Policy {
    /// The policy of the command line: any path.
    pub fn cli(force: bool) -> (r: Self)
        ensures
            r.force == force,
            r.roots@.len() == 0,
    {
        Policy { force, roots: Vec::new() }
    }

    /// The policy of the server: paths within the directories.
    pub fn mcp(force: bool, roots: Vec<String>) -> (r: Self)
        ensures
            r.force == force,
            r.roots == roots,
    {
        Policy { force, roots }
    }

    /// The path that is meant by what the caller wrote.
    pub fn joined(&self, raw: &str) -> (r: String)
        ensures
            r@ == path_taken(text_views(self.roots@), raw@),
    {
        if is_absolute(raw) || self.roots.len() == 0 {
            owned(raw)
        } else {
            assert(text_views(self.roots@)[0] == self.roots@[0]@);
            crate::paths::path_join(self.roots[0].as_str(), raw)
        }
    }

    /// The path that is meant by what the caller wrote, where that is allowed: `target`
    /// is where the path really is, and `dirs` are where the directories really are.
    pub fn resolve(&self, raw: &str, target: &str, dirs: &Vec<String>) -> (r: OpResult<String>)
        ensures
            if self.roots@.len() == 0 || within_any(target@, text_views(dirs@)) {
                r is Ok && r->Ok_0@ == path_taken(text_views(self.roots@), raw@)
            } else {
                r is Err && r->Err_0@ == (SpecOpError {
                    kind: ErrKind::PathDenied,
                    message: "路径不在允许目录内："@ + raw@,
                    hint: Some("只允许操作启动时用 --root / XIRANG_MCP_ROOTS 指定的目录"@),
                })
            },
    {
        if self.roots.len() == 0 {
            return Ok(self.joined(raw));
        }
        let ghost ds = text_views(dirs@);
        let mut i: usize = 0;
        while i < dirs.len()
            invariant
                i <= dirs@.len(),
                ds == text_views(dirs@),
                forall|k: int| 0 <= k < i ==> !path_within(target@, #[trigger] ds[k]),
            decreases dirs@.len() - i,
        {
            assert(ds[i as int] == dirs@[i as int]@);
            if is_within(target, dirs[i].as_str()) {
                assert(path_within(target@, ds[i as int]));
                return Ok(self.joined(raw));
            }
            i = i + 1;
        }
        Err(
            OpError::path_denied(join2("路径不在允许目录内：", raw).as_str()).hint(
                "只允许操作启动时用 --root / XIRANG_MCP_ROOTS 指定的目录",
            ),
        )
    }
}

/// A path with parts put behind it, the last of `tail` first: `..` takes a part away and
/// `.` says nothing.
pub open spec fn path_extended(base: Seq<Seq<char>>, tail: Seq<Seq<char>>) -> Seq<Seq<char>>
    decreases tail.len(),
{
    if tail.len() == 0 {
        base
    } else {
        let seg = tail.last();
        let b = if seg == ".."@ {
            if base.len() > 0 {
                base.drop_last()
            } else {
                base
            }
        } else if seg == "."@ {
            base
        } else {
            base.push(seg)
        };
        path_extended(b, tail.drop_last())
    }
}

/// Where a path that is not there would be: `base` are the parts of the nearest
/// directory above it that is, and `tail` the parts below that, from the end.
pub fn realish(base: Vec<String>, tail: &Vec<String>) -> (r: Vec<String>)
    ensures
        text_views(r@) == path_extended(text_views(base@), text_views(tail@)),
{
    let ghost ts = text_views(tail@);
    let ghost want = path_extended(text_views(base@), ts);
    let mut out = base;
    let mut i: usize = tail.len();
    assert(ts.take(i as int) =~= ts);
    while i > 0
        invariant
            i <= tail@.len(),
            ts == text_views(tail@),
            want == path_extended(text_views(out@), ts.take(i as int)),
        decreases i,
    {
        let ghost o0 = out@;
        proof {
            assert(ts.take(i as int).drop_last() =~= ts.take(i - 1));
            assert(ts.take(i as int).last() == tail@[i - 1]@);
        }
        i = i - 1;
        let seg = tail[i].as_str();
        if same_text(seg, "..") {
            out.pop();
            assert(text_views(out@) =~= if text_views(o0).len() > 0 {
                text_views(o0).drop_last()
            } else {
                text_views(o0)
            });
        } else if !same_text(seg, ".") {
            out.push(owned(seg));
            assert(text_views(out@) =~= text_views(o0).push(seg@));
        }
    }
    out
}

/// What is said where a file could not be loaded.
pub open spec fn load_fault(exists_there: bool, raw: Seq<char>, e: Seq<char>) -> SpecOpError {
    if exists_there {
        plain_error(ErrKind::Internal, e)
    } else {
        plain_error(ErrKind::NotFound, "文件不存在："@ + raw)
    }
}

/// What is said where a file could not be loaded.
pub fn load_error(exists_there: bool, raw: &str, e: &str) -> (r: OpError)
    ensures
        r@ == load_fault(exists_there, raw@, e@),
{
    if exists_there {
        OpError::internal(e)
    } else {
        OpError::not_found(join2("文件不存在：", raw).as_str())
    }
}

// ---------------------------------------------------------------------------
// Arguments
// ---------------------------------------------------------------------------

/// What an id is read as.
pub open spec fn id_argument(label: Seq<char>, raw: Seq<char>) -> Result<Uuid, SpecOpError> {
    match id_of_text(raw) {
        Some(u) => Ok(u),
        None => Err(plain_error(ErrKind::InvalidArgument, "无效"@ + label + "："@ + raw)),
    }
}

/// Whether a result is the one that is owed.
pub open spec fn comes_to<T>(r: OpResult<T>, want: Result<T, SpecOpError>) -> bool {
    match want {
        Ok(v) => r is Ok && r->Ok_0 == v,
        Err(e) => r is Err && r->Err_0@ == e,
    }
}

/// Reads an id.
pub fn parse_uuid(label: &str, raw: &str) -> (r: OpResult<Uuid>)
    ensures
        comes_to(r, id_argument(label@, raw@)),
{
    match Uuid::parse(raw) {
        Some(u) => Ok(u),
        None => {
            let mut m = join3("无效", label, "：");
            m.append(raw);
            Err(OpError::invalid(m.as_str()))
        },
    }
}

/// What a parent is read as: nothing, `nil` and `root` stand for none.
pub open spec fn parent_argument(raw: Option<Seq<char>>) -> Result<Option<Uuid>, SpecOpError> {
    match raw {
        None => Ok(None),
        Some(s) => if s.len() == 0 || s == "nil"@ || s == "root"@ {
            Ok(None)
        } else {
            match id_argument("父节点 ID"@, s) {
                Ok(u) => Ok(Some(u)),
                Err(e) => Err(e),
            }
        },
    }
}

/// Reads a parent.
pub fn parse_parent(raw: Option<&str>) -> (r: OpResult<Option<Uuid>>)
    ensures
        comes_to(r, parent_argument(crate::backend::opt_view(raw))),
{
    match raw {
        None => Ok(None),
        Some(s) => {
            if s.is_empty() || same_text(s, "nil") || same_text(s, "root") {
                return Ok(None);
            }
            match parse_uuid("父节点 ID", s) {
                Ok(u) => Ok(Some(u)),
                Err(e) => Err(e),
            }
        },
    }
}

/// What is said of a node that is part of a template.
pub open spec fn template_guard() -> SpecOpError {
    guarded_error(
        "该节点属于模板定义，不能直接编辑"@,
        "模板定义请用 template 操作修改；确需直接改请显式强制（CLI：--yes，MCP：force）"@,
    )
}

/// Whether a node may be edited under a policy: it is no part of a template, or the
/// caller insists.
pub open spec fn may_edit(force: bool, t: Nodes, id: Uuid) -> bool {
    force || match found(t, id) {
        Some(n) => crate::tree::editable(t, n, t.len()),
        None => true,
    }
}

/// Refuses to edit a node that is part of a template, unless the caller insists.
pub fn guard_editable(force: bool, store: &Store, id: Uuid) -> (r: OpResult<()>)
    requires
        store.wf(),
    ensures
        if may_edit(force, store@, id) {
            r is Ok
        } else {
            r is Err && r->Err_0@ == template_guard()
        },
{
    if force {
        return Ok(());
    }
    match store.get(id) {
        Some(n) => if store.is_editable(n) {
            Ok(())
        } else {
            Err(
                OpError::guarded(
                    "该节点属于模板定义，不能直接编辑",
                    "模板定义请用 template 操作修改；确需直接改请显式强制（CLI：--yes，MCP：force）",
                ),
            )
        },
        None => Ok(()),
    }
}

// ---------------------------------------------------------------------------
// Showing nodes
// ---------------------------------------------------------------------------

/// A value as it is shown where nothing else is at hand.
pub open spec fn plain_display(v: SpecValue, ft: Seq<(u64, String)>) -> Seq<char> {
    match v {
        SpecValue::Reference(u) => "→ "@ + uuid_text(u),
        SpecValue::Blob(b) => "[blob "@ + decimal(b.len()) + " 字节]"@,
        _ => value_words(v, ft),
    }
}

/// A value as it is shown where nothing else is at hand. `ft` gives the texts of
/// doubles.
pub fn display_of_value(v: &Value, ft: &Vec<(u64, String)>) -> (r: String)
    ensures
        r@ == plain_display(v@, ft@),
{
    match v {
        Value::Reference(u) => join2("→ ", u.to_string().as_str()),
        Value::Blob(b) => join3("[blob ", decimal_text(b.len() as u64).as_str(), " 字节]"),
        _ => value_text(v, ft),
    }
}

/// A value as it is shown in a store: a reference by the name of its target.
pub open spec fn display(t: Nodes, v: SpecValue, ft: Seq<(u64, String)>) -> Option<Seq<char>> {
    match v {
        SpecValue::Empty => None,
        SpecValue::Reference(u) => match found(t, u) {
            Some(n) => Some("→ "@ + n.name),
            None => Some("→ "@ + uuid_text(u)),
        },
        _ => Some(plain_display(v, ft)),
    }
}

/// A value as it is shown in a store. `ft` gives the texts of doubles.
pub fn display_value(store: &Store, v: &Value, ft: &Vec<(u64, String)>) -> (r: Option<String>)
    requires
        store.wf(),
    ensures
        opt_text(r) == display(store@, v@, ft@),
{
    match v {
        Value::Empty => None,
        Value::Reference(u) => match store.get(*u) {
            Some(n) => Some(join2("→ ", n.name.as_str())),
            None => Some(join2("→ ", u.to_string().as_str())),
        },
        _ => Some(display_of_value(v, ft)),
    }
}

/// A node on one line: name and value, one of them, or neither.
pub open spec fn label_of(t: Nodes, n: SpecNode, ft: Seq<(u64, String)>) -> Seq<char> {
    match display(t, n.value, ft) {
        None => if n.name.len() == 0 {
            "(空节点)"@
        } else {
            n.name
        },
        Some(v) => if n.name.len() == 0 {
            v
        } else {
            n.name + " = "@ + v
        },
    }
}

/// A node on one line. `ft` gives the texts of doubles.
pub fn label(store: &Store, node: &Node, ft: &Vec<(u64, String)>) -> (r: String)
    requires
        store.wf(),
    ensures
        r@ == label_of(store@, node@, ft@),
{
    match display_value(store, &node.value, ft) {
        None => if node.name.as_str().is_empty() {
            owned("(空节点)")
        } else {
            node.name.clone()
        },
        Some(v) => if node.name.as_str().is_empty() {
            v
        } else {
            join3(node.name.as_str(), " = ", v.as_str())
        },
    }
}

// ---------------------------------------------------------------------------
// Views
// ---------------------------------------------------------------------------

/// A node as it is shown, with what is shown below it.
#[derive(Debug)]
pub struct NodeView {
    pub id: Uuid,
    pub parent: Option<Uuid>,
    pub name: String,
    pub kind: &'static str,
    pub value: Option<String>,
    pub label: String,
    pub is_aux: bool,
    pub children: Vec<NodeView>,
}

/// What is shown of a node: the model of [`NodeView`].
pub struct SpecView {
    pub id: Uuid,
    pub parent: Option<Uuid>,
    pub name: Seq<char>,
    pub kind: Seq<char>,
    pub value: Option<Seq<char>>,
    pub label: Seq<char>,
    pub is_aux: bool,
    pub children: Seq<SpecView>,
}

/// What a view shows.
pub open spec fn view_model(v: NodeView) -> SpecView
    decreases v,
{
    SpecView {
        id: v.id,
        parent: v.parent,
        name: v.name@,
        kind: v.kind@,
        value: opt_text(v.value),
        label: v.label@,
        is_aux: v.is_aux,
        children: view_models(v.children@),
    }
}

/// What views show.
pub open spec fn view_models(s: Seq<NodeView>) -> Seq<SpecView>
    decreases s,
{
    if s.len() == 0 {
        Seq::empty()
    } else {
        view_models(s.drop_last()).push(view_model(s.last()))
    }
}

/// A node as it is shown, with nothing below it.
pub open spec fn leaf_view(t: Nodes, n: SpecNode, ft: Seq<(u64, String)>) -> SpecView {
    SpecView {
        id: n.id,
        parent: n.parent,
        name: n.name,
        kind: kind_word(n.value),
        value: display(t, n.value, ft),
        label: label_of(t, n, ft),
        is_aux: begins(n.name, '@'),
        children: Seq::empty(),
    }
}

impl NodeView {
    /// A node as it is shown, with nothing below it. `ft` gives the texts of doubles.
    pub fn new(store: &Store, node: &Node, ft: &Vec<(u64, String)>) -> (r: Self)
        requires
            store.wf(),
        ensures
            view_model(r) == leaf_view(store@, node@, ft@),
            r.children@.len() == 0,
    {
        let r = NodeView {
            id: node.id,
            parent: node.parent,
            name: node.name.clone(),
            kind: kind_word_of(&node.value),
            value: display_value(store, &node.value, ft),
            label: label(store, node, ft),
            is_aux: is_aux_name(node.name.as_str()),
            children: Vec::new(),
        };
        assert(view_models(r.children@) =~= Seq::<SpecView>::empty());
        r
    }
}

/// How nodes are laid out.
#[derive(Clone, Copy, Debug, PartialEq, Eq, Structural)]
pub enum Layout {
    Tree,
    Flat,
}

/// What is to be shown.
#[derive(Clone, Copy, Debug, PartialEq, Eq, Structural)]
pub struct ViewOpts {
    pub skip_aux: bool,
    pub include_ids: bool,
    pub max_depth: Option<usize>,
    pub limit: Option<usize>,
}

impl Default for ViewOpts {
    fn default() -> (r: Self)
        ensures
            r == everything(),
    {
        ViewOpts { skip_aux: false, include_ids: false, max_depth: None, limit: None }
    }
}

/// All nodes, all the way down.
pub open spec fn everything() -> ViewOpts {
    ViewOpts { skip_aux: false, include_ids: false, max_depth: None, limit: None }
}

/// The most nodes that may be shown.
pub open spec fn most(opts: ViewOpts) -> nat {
    match opts.limit {
        Some(n) => n as nat,
        None => usize::MAX as nat,
    }
}

/// What is left to show, and the nodes that have been shown with what is below them.
pub struct Pen {
    pub left: nat,
    pub seen: Set<Uuid>,
}

/// The children that are shown below a node.
pub open spec fn shown_below(t: Nodes, id: Uuid, skip_aux: bool) -> Nodes {
    children_of(t, id).filter(|n: SpecNode| !skip_aux || !begins(n.name, '@'))
}

/// What is drawn of a node at a depth: the node and, the first time that it is met and
/// where the depth allows, its children in turn for as long as something may be shown.
/// No more than `levels` levels are drawn.
pub open spec fn drawn(
    t: Nodes,
    n: SpecNode,
    opts: ViewOpts,
    depth: nat,
    pen: Pen,
    ft: Seq<(u64, String)>,
    levels: nat,
) -> (SpecView, Pen)
    decreases levels, 0nat,
{
    let leaf = leaf_view(t, n, ft);
    let left = (pen.left - 1) as nat;
    let seen = pen.seen.insert(n.id);
    if pen.seen.contains(n.id) || levels == 0 || (opts.max_depth is Some && depth
        >= opts.max_depth->Some_0) {
        (leaf, Pen { left, seen })
    } else {
        let (below, after) = drawn_all(
            t,
            shown_below(t, n.id, opts.skip_aux),
            opts,
            depth + 1,
            Pen { left, seen },
            ft,
            (levels - 1) as nat,
        );
        (SpecView { children: below, ..leaf }, after)
    }
}

/// What is drawn of nodes in turn, for as long as something may be shown.
pub open spec fn drawn_all(
    t: Nodes,
    nodes: Nodes,
    opts: ViewOpts,
    depth: nat,
    pen: Pen,
    ft: Seq<(u64, String)>,
    levels: nat,
) -> (Seq<SpecView>, Pen)
    decreases levels, nodes.len() + 1,
{
    if nodes.len() == 0 || pen.left == 0 {
        (Seq::empty(), pen)
    } else {
        let (first, mid) = drawn(t, nodes[0], opts, depth, pen, ft, levels);
        let (rest, after) = drawn_all(t, nodes.skip(1), opts, depth, mid, ft, levels);
        (seq![first] + rest, after)
    }
}

proof fn lemma_pending_shrinks(t: Nodes, a: Set<Uuid>, b: Set<Uuid>)
    requires
        a.subset_of(b),
    ensures
        pending(t, b) <= pending(t, a) <= t.len(),
    decreases t.len(),
{
    if t.len() > 0 {
        lemma_pending_shrinks(t.drop_last(), a, b);
    }
}

proof fn lemma_drawn_seen(
    t: Nodes,
    n: SpecNode,
    opts: ViewOpts,
    depth: nat,
    pen: Pen,
    ft: Seq<(u64, String)>,
    levels: nat,
)
    requires
        pen.left > 0,
    ensures
        pen.seen.subset_of(drawn(t, n, opts, depth, pen, ft, levels).1.seen),
        drawn(t, n, opts, depth, pen, ft, levels).1.left < pen.left,
    decreases levels, 0nat,
{
    let left = (pen.left - 1) as nat;
    let seen = pen.seen.insert(n.id);
    if !(pen.seen.contains(n.id) || levels == 0 || (opts.max_depth is Some && depth
        >= opts.max_depth->Some_0)) {
        lemma_drawn_all_seen(
            t,
            shown_below(t, n.id, opts.skip_aux),
            opts,
            depth + 1,
            Pen { left, seen },
            ft,
            (levels - 1) as nat,
        );
    }
}

proof fn lemma_drawn_all_seen(
    t: Nodes,
    nodes: Nodes,
    opts: ViewOpts,
    depth: nat,
    pen: Pen,
    ft: Seq<(u64, String)>,
    levels: nat,
)
    ensures
        pen.seen.subset_of(drawn_all(t, nodes, opts, depth, pen, ft, levels).1.seen),
        drawn_all(t, nodes, opts, depth, pen, ft, levels).1.left <= pen.left,
    decreases levels, nodes.len() + 1,
{
    if nodes.len() > 0 && pen.left > 0 {
        lemma_drawn_seen(t, nodes[0], opts, depth, pen, ft, levels);
        let mid = drawn(t, nodes[0], opts, depth, pen, ft, levels).1;
        lemma_drawn_all_seen(t, nodes.skip(1), opts, depth, mid, ft, levels);
    }
}

proof fn lemma_shown_len(t: Nodes, id: Uuid, skip_aux: bool)
    ensures
        shown_below(t, id, skip_aux).len() <= kids(t, id).len(),
{
    children_of(t, id).lemma_filter_len(|n: SpecNode| !skip_aux || !begins(n.name, '@'));
}

/// Draws a node and what is below it. There is something left to show.
fn build_view(
    store: &Store,
    node: &Node,
    opts: ViewOpts,
    depth: usize,
    budget: &mut usize,
    seen: &mut IdSet,
    ft: &Vec<(u64, String)>,
    Ghost(levels): Ghost<nat>,
) -> (r: NodeView)
    requires
        store.wf(),
        *old(budget) > 0,
        depth + *old(budget) <= usize::MAX + 1,
        levels > pending(store@, old(seen)@),
    ensures
        (view_model(r), (Pen { left: *final(budget) as nat, seen: final(seen)@ })) == drawn(
            store@,
            node@,
            opts,
            depth as nat,
            Pen { left: *old(budget) as nat, seen: old(seen)@ },
            ft@,
            levels,
        ),
    decreases levels, 0nat,
{
    *budget = *budget - 1;
    let mut v = NodeView::new(store, node, ft);
    let ghost met = seen@;
    if !seen.insert(node.id) {
        assert(seen@ =~= met);
        return v;
    }
    if let Some(m) = opts.max_depth {
        if depth >= m {
            return v;
        }
    }
    let below = store.children_opt(node, opts.skip_aux);
    proof {
        crate::model::lemma_pending_insert(store@, met, node.id);
        lemma_shown_len(store@, node.id, opts.skip_aux);
        assert(ref_models(below@) == shown_below(store@, node.id, opts.skip_aux));
        assert(ref_models(below@).len() == below@.len());
        assert(below@.skip(0) =~= below@);
    }
    if below.len() == 0 || *budget == 0 {
        return v;
    }
    let ghost leaf = view_model(v);
    v.children = build_all(
        store,
        &below,
        opts,
        depth + 1,
        budget,
        seen,
        ft,
        Ghost((levels - 1) as nat),
    );
    v
}

/// Draws nodes in turn, for as long as something may be shown.
fn build_all(
    store: &Store,
    nodes: &Vec<&Node>,
    opts: ViewOpts,
    depth: usize,
    budget: &mut usize,
    seen: &mut IdSet,
    ft: &Vec<(u64, String)>,
    Ghost(levels): Ghost<nat>,
) -> (r: Vec<NodeView>)
    requires
        store.wf(),
        depth + *old(budget) <= usize::MAX + 1,
        levels > pending(store@, old(seen)@),
    ensures
        (view_models(r@), (Pen { left: *final(budget) as nat, seen: final(seen)@ })) == drawn_all(
            store@,
            ref_models(nodes@),
            opts,
            depth as nat,
            Pen { left: *old(budget) as nat, seen: old(seen)@ },
            ft@,
            levels,
        ),
    decreases levels, nodes@.len() + 1,
{
    let ghost all = ref_models(nodes@);
    let ghost start = Pen { left: *budget as nat, seen: seen@ };
    let ghost want = drawn_all(store@, all, opts, depth as nat, start, ft@, levels);
    let mut out: Vec<NodeView> = Vec::new();
    let mut i: usize = 0;
    assert(all.skip(0) =~= all);
    assert(view_models(out@) + want.0 =~= want.0);
    while i < nodes.len() && *budget > 0
        invariant
            i <= nodes@.len(),
            store.wf(),
            all == ref_models(nodes@),
            depth + *budget <= usize::MAX + 1,
            levels > pending(store@, seen@),
            ({
                let rest = drawn_all(
                    store@,
                    all.skip(i as int),
                    opts,
                    depth as nat,
                    Pen { left: *budget as nat, seen: seen@ },
                    ft@,
                    levels,
                );
                want == (view_models(out@) + rest.0, rest.1)
            }),
        decreases nodes@.len() - i,
    {
        let ghost o0 = out@;
        let ghost pen = Pen { left: *budget as nat, seen: seen@ };
        proof {
            assert(all.skip(i as int)[0] == nodes@[i as int]@);
            assert(all.skip(i as int).skip(1) =~= all.skip(i + 1));
            lemma_drawn_seen(store@, nodes@[i as int]@, opts, depth as nat, pen, ft@, levels);
        }
        let v = build_view(store, nodes[i], opts, depth, budget, seen, ft, Ghost(levels));
        proof {
            lemma_pending_shrinks(store@, pen.seen, seen@);
        }
        let ghost vm = view_model(v);
        out.push(v);
        proof {
            assert(out@.drop_last() =~= o0);
            assert(view_models(out@) =~= view_models(o0).push(vm));
            let rest = drawn_all(
                store@,
                all.skip(i + 1),
                opts,
                depth as nat,
                Pen { left: *budget as nat, seen: seen@ },
                ft@,
                levels,
            );
            assert(view_models(o0) + (seq![vm] + rest.0) =~= view_models(out@) + rest.0);
        }
        i = i + 1;
    }
    proof {
        let rest = drawn_all(
            store@,
            all.skip(i as int),
            opts,
            depth as nat,
            Pen { left: *budget as nat, seen: seen@ },
            ft@,
            levels,
        );
        assert(rest.0 =~= Seq::<SpecView>::empty());
        assert(view_models(out@) + rest.0 =~= view_models(out@));
    }
    out
}

/// How many nodes a view shows.
pub open spec fn view_size(v: SpecView) -> nat
    decreases v,
{
    1 + view_sizes(v.children)
}

/// How many nodes views show.
pub open spec fn view_sizes(s: Seq<SpecView>) -> nat
    decreases s,
{
    if s.len() == 0 {
        0
    } else {
        view_size(s[0]) + view_sizes(s.subrange(1, s.len() as int))
    }
}

/// What is drawn of a node shows as many nodes as it takes from what is left to show.
pub proof fn drawn_takes_its_size(
    t: Nodes,
    n: SpecNode,
    opts: ViewOpts,
    depth: nat,
    pen: Pen,
    ft: Seq<(u64, String)>,
    levels: nat,
)
    requires
        pen.left > 0,
    ensures
        ({
            let (v, after) = drawn(t, n, opts, depth, pen, ft, levels);
            view_size(v) + after.left == pen.left
        }),
    decreases levels, 0nat,
{
    let left = (pen.left - 1) as nat;
    let seen = pen.seen.insert(n.id);
    let (v, after) = drawn(t, n, opts, depth, pen, ft, levels);
    if pen.seen.contains(n.id) || levels == 0 || (opts.max_depth is Some && depth
        >= opts.max_depth->Some_0) {
        assert(v.children =~= Seq::<SpecView>::empty());
        assert(view_sizes(v.children) == 0);
    } else {
        drawn_all_take_their_size(
            t,
            shown_below(t, n.id, opts.skip_aux),
            opts,
            depth + 1,
            Pen { left, seen },
            ft,
            (levels - 1) as nat,
        );
    }
}

/// What is drawn of nodes shows as many nodes as it takes from what is left to show.
pub proof fn drawn_all_take_their_size(
    t: Nodes,
    nodes: Nodes,
    opts: ViewOpts,
    depth: nat,
    pen: Pen,
    ft: Seq<(u64, String)>,
    levels: nat,
)
    ensures
        ({
            let (vs, after) = drawn_all(t, nodes, opts, depth, pen, ft, levels);
            view_sizes(vs) + after.left == pen.left
        }),
    decreases levels, nodes.len() + 1,
{
    if nodes.len() > 0 && pen.left > 0 {
        drawn_takes_its_size(t, nodes[0], opts, depth, pen, ft, levels);
        let (first, mid) = drawn(t, nodes[0], opts, depth, pen, ft, levels);
        drawn_all_take_their_size(t, nodes.skip(1), opts, depth, mid, ft, levels);
        let (rest, after) = drawn_all(t, nodes.skip(1), opts, depth, mid, ft, levels);
        let all = seq![first] + rest;
        assert(all.subrange(1, all.len() as int) =~= rest);
    }
}

/// Nodes of a file as they are shown.
#[derive(Debug)]
pub struct ViewOutcome {
    pub total: usize,
    pub printed: usize,
    pub roots: Vec<NodeView>,
    pub items: Vec<NodeView>,
    pub layout: Layout,
}

/// What is shown of a file: the model of [`ViewOutcome`].
pub struct SpecViewed {
    pub total: nat,
    pub printed: nat,
    pub roots: Seq<SpecView>,
    pub items: Seq<SpecView>,
    pub layout: Layout,
}

impl View for ViewOutcome {
    type V = SpecViewed;

    open spec fn view(&self) -> SpecViewed {
        SpecViewed {
            total: self.total as nat,
            printed: self.printed as nat,
            roots: view_models(self.roots@),
            items: view_models(self.items@),
            layout: self.layout,
        }
    }
}

impl ViewOutcome {
    /// Whether not all nodes are shown.
    pub fn truncated(&self) -> (r: bool)
        ensures
            r == (self.printed < self.total),
    {
        self.printed < self.total
    }
}

/// The nodes that a flat view shows.
pub open spec fn flat_shown(t: Nodes, opts: ViewOpts) -> Nodes {
    let p = picked(t, |n: SpecNode| !opts.skip_aux || !begins(n.name, '@'));
    if p.len() <= most(opts) {
        p
    } else {
        p.take(most(opts) as int)
    }
}

/// Nodes as they are shown, with nothing below them.
pub open spec fn leaf_views(t: Nodes, s: Nodes, ft: Seq<(u64, String)>) -> Seq<SpecView> {
    Seq::new(s.len(), |i: int| leaf_view(t, s[i], ft))
}

/// The nodes that a tree view starts from.
pub open spec fn view_starts(t: Nodes, node: Option<Seq<char>>) -> Result<Nodes, SpecOpError> {
    match node {
        None => Ok(picked(t, |n: SpecNode| n.parent is None)),
        Some(raw) => match id_argument("节点 ID"@, raw) {
            Err(e) => Err(e),
            Ok(id) => match found(t, id) {
                Some(n) => Ok(seq![n]),
                None => Err(missing_node(raw)),
            },
        },
    }
}

/// What is said of a node that is not there.
pub open spec fn missing_node(raw: Seq<char>) -> SpecOpError {
    plain_error(ErrKind::NotFound, "节点不存在："@ + raw)
}

/// What is shown of a file, or what is said where that is not done: too many nodes
/// without a limit are guarded against.
pub open spec fn viewed(
    t: Nodes,
    file: Seq<char>,
    node: Option<Seq<char>>,
    opts: ViewOpts,
    layout: Layout,
    guard: Option<usize>,
    ft: Seq<(u64, String)>,
) -> Result<SpecViewed, SpecOpError> {
    if guard is Some && opts.limit is None && t.len() > guard->Some_0 {
        Err(
            guarded_error(
                "这个文件有 "@ + decimal(t.len()) + " 个节点，全量打印会刷屏（可能上百 MB）"@,
                "改用 limit（CLI：xr cat "@ + file + " --head 200），或确实要全打时加 --force"@,
            ),
        )
    } else if layout == Layout::Flat {
        let items = leaf_views(t, flat_shown(t, opts), ft);
        Ok(
            SpecViewed {
                total: t.len(),
                printed: items.len(),
                roots: Seq::empty(),
                items,
                layout,
            },
        )
    } else {
        match view_starts(t, node) {
            Err(e) => Err(e),
            Ok(starts) => {
                let (roots, after) = drawn_all(
                    t,
                    starts,
                    opts,
                    1,
                    Pen { left: most(opts), seen: Set::empty() },
                    ft,
                    t.len() + 1,
                );
                Ok(
                    SpecViewed {
                        total: t.len(),
                        printed: (most(opts) - after.left) as nat,
                        roots,
                        items: Seq::empty(),
                        layout,
                    },
                )
            },
        }
    }
}

/// Whether a result with a model is the one that is owed.
pub open spec fn amounts_to<T: View>(r: OpResult<T>, want: Result<T::V, SpecOpError>) -> bool {
    match want {
        Ok(v) => r is Ok && r->Ok_0@ == v,
        Err(e) => r is Err && r->Err_0@ == e,
    }
}

/// The error for a node that is not there.
pub(crate) fn no_node(raw: &str) -> (r: OpError)
    ensures
        r@ == missing_node(raw@),
{
    OpError::not_found(join2("节点不存在：", raw).as_str())
}

/// The nodes of a store without those below them.
fn flat_items(store: &Store, opts: ViewOpts, ft: &Vec<(u64, String)>) -> (r: Vec<NodeView>)
    requires
        store.wf(),
    ensures
        view_models(r@) == leaf_views(store@, flat_shown(store@, opts), ft@),
        r@.len() == view_models(r@).len(),
{
    let nodes = store.nodes();
    let ghost t = store@;
    let ghost p = |n: SpecNode| !opts.skip_aux || !begins(n.name, '@');
    let mut budget: usize = match opts.limit {
        Some(n) => n,
        None => usize::MAX,
    };
    let mut items: Vec<NodeView> = Vec::new();
    let mut i: usize = 0;
    assert(t.take(0) =~= Seq::<SpecNode>::empty());
    assert(view_models(items@) =~= leaf_views(t, picked(t.take(0), p), ft@));
    while i < nodes.len() && budget > 0
        invariant
            i <= nodes@.len(),
            store.wf(),
            t == store@,
            models(nodes@) == t,
            p == (|n: SpecNode| !opts.skip_aux || !begins(n.name, '@')),
            view_models(items@) == leaf_views(t, picked(t.take(i as int), p), ft@),
            items@.len() + budget == most(opts),
            items@.len() == view_models(items@).len(),
        decreases nodes@.len() - i,
    {
        proof {
            crate::tree::lemma_picked_step(t, p, i as int);
            assert(t[i as int] == nodes@[i as int]@);
        }
        if !opts.skip_aux || !is_aux_name(nodes[i].name.as_str()) {
            let v = NodeView::new(store, &nodes[i], ft);
            let ghost o0 = items@;
            let ghost vm = view_model(v);
            items.push(v);
            budget = budget - 1;
            proof {
                assert(items@.drop_last() =~= o0);
                assert(view_models(items@) =~= view_models(o0).push(vm));
                assert(view_models(items@) =~= leaf_views(t, picked(t.take(i + 1), p), ft@));
            }
        }
        i = i + 1;
    }
    proof {
        lemma_picked_prefix(t, p, i as int);
        let all = picked(t, p);
        let part = picked(t.take(i as int), p);
        assert(leaf_views(t, part, ft@).len() == part.len());
        if i == nodes@.len() {
            assert(t.take(i as int) =~= t);
        } else {
            assert(all.take(part.len() as int) =~= part);
        }
        if all.len() <= most(opts) {
            assert(part.len() == all.len());
            assert(all.take(part.len() as int) =~= all);
        }
        assert(part =~= flat_shown(t, opts));
    }
    items
}

proof fn lemma_picked_prefix(t: Nodes, p: spec_fn(SpecNode) -> bool, i: int)
    requires
        0 <= i <= t.len(),
    ensures
        picked(t.take(i), p).len() <= picked(t, p).len(),
        picked(t, p).take(picked(t.take(i), p).len() as int) == picked(t.take(i), p),
    decreases t.len() - i,
{
    let a = picked(t.take(i), p);
    if i == t.len() {
        assert(t.take(i) =~= t);
        assert(a.take(a.len() as int) =~= a);
    } else {
        lemma_picked_prefix(t, p, i + 1);
        crate::tree::lemma_picked_step(t, p, i);
        let b = picked(t.take(i + 1), p);
        let all = picked(t, p);
        assert(all.take(b.len() as int) == b);
        assert(b.take(a.len() as int) =~= a);
        assert(all.take(a.len() as int) =~= all.take(b.len() as int).take(a.len() as int));
    }
}

/// Shows the nodes of a store, as a tree or one by one. Without a limit no more than
/// `unbounded_guard` nodes are shown. `ft` gives the texts of doubles.
pub fn view(
    store: &Store,
    file: &str,
    node: Option<&str>,
    opts: ViewOpts,
    layout: Layout,
    unbounded_guard: Option<usize>,
    ft: &Vec<(u64, String)>,
) -> (r: OpResult<ViewOutcome>)
    requires
        store.wf(),
    ensures
        amounts_to(
            r,
            viewed(
                store@,
                file@,
                crate::backend::opt_view(node),
                opts,
                layout,
                unbounded_guard,
                ft@,
            ),
        ),
{
    let total: usize = store.len();
    if let Some(g) = unbounded_guard {
        if opts.limit.is_none() && total > g {
            let m = join3(
                "这个文件有 ",
                decimal_text(total as u64).as_str(),
                " 个节点，全量打印会刷屏（可能上百 MB）",
            );
            let h = join3("改用 limit（CLI：xr cat ", file, " --head 200），或确实要全打时加 --force");
            return Err(OpError::guarded(m.as_str(), h.as_str()));
        }
    }
    if let Layout::Flat = layout {
        let items = flat_items(store, opts, ft);
        let printed = items.len();
        assert(view_models(Seq::<NodeView>::empty()) =~= Seq::<SpecView>::empty());
        return Ok(ViewOutcome { total, printed, roots: Vec::new(), items, layout });
    }
    let starts: Vec<&Node> = match node {
        None => store.roots(),
        Some(raw) => {
            let id = match parse_uuid("节点 ID", raw) {
                Ok(id) => id,
                Err(e) => {
                    return Err(e);
                },
            };
            match store.get(id) {
                None => {
                    return Err(no_node(raw));
                },
                Some(n) => {
                    let mut v: Vec<&Node> = Vec::new();
                    v.push(n);
                    assert(ref_models(v@) =~= seq![n@]);
                    v
                },
            }
        },
    };
    let limit: usize = match opts.limit {
        Some(n) => n,
        None => usize::MAX,
    };
    let mut budget: usize = limit;
    let mut seen = IdSet::new();
    proof {
        lemma_pending_shrinks(store@, seen@, seen@);
        lemma_drawn_all_seen(
            store@,
            ref_models(starts@),
            opts,
            1,
            Pen { left: most(opts), seen: seen@ },
            ft@,
            store@.len() + 1,
        );
    }
    let roots = build_all(
        store,
        &starts,
        opts,
        1,
        &mut budget,
        &mut seen,
        ft,
        Ghost(store@.len() + 1),
    );
    assert(view_models(Seq::<NodeView>::empty()) =~= Seq::<SpecView>::empty());
    Ok(ViewOutcome { total, printed: limit - budget, roots, items: Vec::new(), layout })
}

/// What is printed of a file is as many nodes as it says, and no more than the limit.
pub proof fn view_prints_what_it_says(
    t: Nodes,
    file: Seq<char>,
    node: Option<Seq<char>>,
    opts: ViewOpts,
    layout: Layout,
    guard: Option<usize>,
    ft: Seq<(u64, String)>,
)
    requires
        viewed(t, file, node, opts, layout, guard, ft) is Ok,
    ensures
        ({
            let v = viewed(t, file, node, opts, layout, guard, ft)->Ok_0;
            &&& v.printed == view_sizes(v.roots) + v.items.len()
            &&& v.printed <= most(opts)
        }),
{
    assert(view_sizes(Seq::<SpecView>::empty()) == 0);
    if layout != Layout::Flat {
        drawn_all_take_their_size(
            t,
            view_starts(t, node)->Ok_0,
            opts,
            1,
            Pen { left: most(opts), seen: Set::empty() },
            ft,
            t.len() + 1,
        );
    }
}

/// A node with all that is below it, as it is shown.
pub open spec fn whole_view(t: Nodes, n: SpecNode, ft: Seq<(u64, String)>) -> SpecView {
    drawn(
        t,
        n,
        everything(),
        1,
        Pen { left: usize::MAX as nat, seen: Set::empty() },
        ft,
        t.len() + 1,
    ).0
}

/// A node with all that is below it, as it is shown. `ft` gives the texts of doubles.
pub fn tree_view(store: &Store, node: &Node, ft: &Vec<(u64, String)>) -> (r: NodeView)
    requires
        store.wf(),
    ensures
        view_model(r) == whole_view(store@, node@, ft@),
{
    let mut budget: usize = usize::MAX;
    let mut seen = IdSet::new();
    proof {
        lemma_pending_shrinks(store@, seen@, seen@);
    }
    build_view(
        store,
        node,
        ViewOpts::default(),
        1,
        &mut budget,
        &mut seen,
        ft,
        Ghost(store@.len() + 1),
    )
}

// ---------------------------------------------------------------------------
// Laws of what is shown
// ---------------------------------------------------------------------------

proof fn lemma_shown_picked(t: Nodes, id: Uuid, skip_aux: bool)
    ensures
        shown_below(t, id, skip_aux) == crate::model::picked(
            t,
            |n: SpecNode| n.parent == Some(id) && (!skip_aux || !begins(n.name, '@')),
        ),
    decreases t.len(),
{
    reveal(Seq::filter);
    let p = |n: SpecNode| n.parent == Some(id);
    let q = |n: SpecNode| !skip_aux || !begins(n.name, '@');
    let pq = |n: SpecNode| n.parent == Some(id) && (!skip_aux || !begins(n.name, '@'));
    if t.len() == 0 {
        assert(children_of(t, id).filter(q) =~= crate::model::picked(t, pq));
    } else {
        let i = t.len() - 1;
        let d = t.drop_last();
        lemma_shown_picked(d, id, skip_aux);
        crate::tree::lemma_picked_step(t, p, i);
        crate::tree::lemma_picked_step(t, pq, i);
        assert(t.take(i + 1) =~= t);
        assert(t.take(i) =~= d);
        assert(children_of(t, id) == crate::model::picked(t, p));
        assert(children_of(d, id) == crate::model::picked(d, p));
        if p(t[i]) {
            let c = children_of(d, id);
            assert(c.push(t[i]).drop_last() =~= c);
        }
    }
}

/// The children that are shown are the nodes that have the parent, without the `@` nodes
/// where these are left out; all of them, in the order in which they stand.
pub proof fn shown_children(t: Nodes, id: Uuid, skip_aux: bool) -> (pos: Seq<int>)
    ensures
        ({
            let s = shown_below(t, id, skip_aux);
            &&& pos.len() == s.len()
            &&& forall|k: int|
                0 <= k < pos.len() ==> 0 <= #[trigger] pos[k] < t.len() && s[k] == t[pos[k]]
                    && s[k].parent == Some(id) && (skip_aux ==> !(s[k].name.len() > 0 && s[k].name[0]
                    == '@'))
            &&& forall|k: int, l: int| 0 <= k < l < pos.len() ==> #[trigger] pos[k] < #[trigger] pos[l]
            &&& forall|j: int|
                0 <= j < t.len() && (#[trigger] t[j]).parent == Some(id) && (!skip_aux || !(
                t[j].name.len() > 0 && t[j].name[0] == '@')) ==> pos.contains(j)
        }),
{
    let pq = |n: SpecNode| n.parent == Some(id) && (!skip_aux || !begins(n.name, '@'));
    lemma_shown_picked(t, id, skip_aux);
    crate::model::lemma_picks(t, pq);
    let pos = crate::model::picks(t, pq);
    assert forall|k: int| 0 <= k < pos.len() implies 0 <= #[trigger] pos[k] < t.len() && pq(
        t[pos[k]],
    ) by {}
    assert forall|j: int|
        0 <= j < t.len() && (#[trigger] t[j]).parent == Some(id) && (!skip_aux || !(t[j].name.len()
            > 0 && t[j].name[0] == '@')) implies pos.contains(j) by {
        assert(pq(t[j]));
    }
    pos
}

/// A value is shown by its text: a text as it is, a number by its digits, a truth value by its
/// word, a reference by an arrow and the name of its target, or its id where that is not
/// there; the empty value is not shown.
pub proof fn values_are_shown(t: Nodes, v: SpecValue, ft: Seq<(u64, String)>)
    ensures
        display(t, v, ft) is None <==> v == SpecValue::Empty,
        v is Text ==> display(t, v, ft) == Some(v->Text_0),
        v is Int ==> display(t, v, ft) == Some(crate::text::signed_decimal(v->Int_0 as int)),
        v == SpecValue::Bool(true) ==> display(t, v, ft) == Some("true"@),
        v == SpecValue::Bool(false) ==> display(t, v, ft) == Some("false"@),
        v is Reference ==> ({
            let to = v->Reference_0;
            &&& forall|i: int|
                crate::model::counts(t, i) && (#[trigger] t[i]).id == to ==> display(t, v, ft)
                    == Some("→ "@ + t[i].name)
            &&& (forall|i: int| 0 <= i < t.len() ==> (#[trigger] t[i]).id != to) ==> display(
                t,
                v,
                ft,
            ) == Some("→ "@ + uuid_text(to))
        }),
        v is Blob ==> display(t, v, ft) == Some(
            "[blob "@ + decimal(v->Blob_0.len()) + " 字节]"@,
        ),
{
    if let SpecValue::Reference(u) = v {
        crate::model::lookup_finds_what_counts(t, u);
        if let Some(i) = crate::model::find_id(t, u) {
            assert(t[i].id == u);
        }
    }
}

/// A label has the name of a node and its value, or the one that there is.
pub proof fn labels_tell_name_and_value(t: Nodes, n: SpecNode, ft: Seq<(u64, String)>)
    ensures
        n.value == SpecValue::Empty && n.name.len() > 0 ==> label_of(t, n, ft) == n.name,
        n.value != SpecValue::Empty && n.name.len() == 0 ==> Some(label_of(t, n, ft)) == display(
            t,
            n.value,
            ft,
        ),
        n.value != SpecValue::Empty && n.name.len() > 0 ==> label_of(t, n, ft) == n.name + " = "@
            + display(t, n.value, ft)->Some_0,
        leaf_view(t, n, ft).id == n.id && leaf_view(t, n, ft).parent == n.parent && leaf_view(
            t,
            n,
            ft,
        ).name == n.name && leaf_view(t, n, ft).value == display(t, n.value, ft),
        leaf_view(t, n, ft).is_aux <==> n.name.len() > 0 && n.name[0] == '@',
{
}

/// What is drawn of a node is the node itself; below it come its children in order, as many
/// as the limit lets through, each drawn in turn, unless the node was met before or the depth
/// is reached.
pub proof fn drawings_go_down(
    t: Nodes,
    n: SpecNode,
    opts: ViewOpts,
    depth: nat,
    pen: Pen,
    ft: Seq<(u64, String)>,
    levels: nat,
)
    ensures
        ({
            let (v, after) = drawn(t, n, opts, depth, pen, ft, levels);
            let kids = shown_below(t, n.id, opts.skip_aux);
            &&& v.id == n.id && v.name == n.name && v.parent == n.parent
            &&& v.value == display(t, n.value, ft) && v.label == label_of(t, n, ft) && v.kind
                == kind_word(n.value)
            &&& v.children.len() <= kids.len()
            &&& forall|i: int|
                0 <= i < v.children.len() ==> (#[trigger] v.children[i]).id == kids[i].id
                    && v.children[i].name == kids[i].name && v.children[i].value == display(
                    t,
                    kids[i].value,
                    ft,
                )
            &&& pen.seen.contains(n.id) ==> v.children.len() == 0
            &&& opts.max_depth is Some && depth >= opts.max_depth->Some_0 ==> v.children.len() == 0
            &&& after.seen.contains(n.id)
            &&& !pen.seen.contains(n.id) && levels > 0 && (opts.max_depth is None || depth
                < opts.max_depth->Some_0) && v.children.len() < kids.len() ==> after.left == 0
        }),
{
    let left = (pen.left - 1) as nat;
    let seen = pen.seen.insert(n.id);
    if !(pen.seen.contains(n.id) || levels == 0 || (opts.max_depth is Some && depth
        >= opts.max_depth->Some_0)) {
        lemma_drawn_run(
            t,
            shown_below(t, n.id, opts.skip_aux),
            opts,
            depth + 1,
            Pen { left, seen },
            ft,
            (levels - 1) as nat,
        );
    }
}

proof fn lemma_drawn_run(
    t: Nodes,
    nodes: Nodes,
    opts: ViewOpts,
    depth: nat,
    pen: Pen,
    ft: Seq<(u64, String)>,
    levels: nat,
)
    ensures
        ({
            let (vs, after) = drawn_all(t, nodes, opts, depth, pen, ft, levels);
            &&& vs.len() <= nodes.len()
            &&& forall|i: int|
                0 <= i < vs.len() ==> (#[trigger] vs[i]).id == nodes[i].id && vs[i].name
                    == nodes[i].name && vs[i].value == display(t, nodes[i].value, ft)
            &&& vs.len() < nodes.len() ==> after.left == 0
            &&& pen.seen.subset_of(after.seen)
        }),
    decreases levels, nodes.len() + 1,
{
    if nodes.len() > 0 && pen.left > 0 {
        let (first, mid) = drawn(t, nodes[0], opts, depth, pen, ft, levels);
        let (rest, after) = drawn_all(t, nodes.skip(1), opts, depth, mid, ft, levels);
        let left = (pen.left - 1) as nat;
        let seen = pen.seen.insert(nodes[0].id);
        if levels > 0 {
            lemma_drawn_run(
                t,
                shown_below(t, nodes[0].id, opts.skip_aux),
                opts,
                depth + 1,
                Pen { left, seen },
                ft,
                (levels - 1) as nat,
            );
        }
        assert(pen.seen.subset_of(mid.seen));
        lemma_drawn_run(t, nodes.skip(1), opts, depth, mid, ft, levels);
        let vs = seq![first] + rest;
        assert forall|i: int| 0 <= i < vs.len() implies (#[trigger] vs[i]).id == nodes[i].id
            && vs[i].name == nodes[i].name && vs[i].value == display(t, nodes[i].value, ft) by {
            if i > 0 {
                assert(vs[i] == rest[i - 1]);
                assert(nodes.skip(1)[i - 1] == nodes[i]);
            }
        }
    }
}

/// A view starts from the nodes without a parent, all of them in order, or from the node that
/// is asked for; a flat one lists all nodes, without the `@` nodes where these are left out,
/// up to the limit.
pub proof fn views_start_at_the_top(t: Nodes, opts: ViewOpts, i: int)
    requires
        0 <= i < t.len(),
    ensures
        view_starts(t, None) is Ok,
        view_starts(t, None)->Ok_0.contains(t[i]) <==> t[i].parent is None,
        forall|k: int|
            0 <= k < view_starts(t, None)->Ok_0.len() ==> (
            #[trigger] view_starts(t, None)->Ok_0[k]).parent is None,
        flat_shown(t, opts).len() <= most(opts),
        opts.limit is None && t.len() <= usize::MAX && (!opts.skip_aux || !(t[i].name.len() > 0
            && t[i].name[0] == '@')) ==> flat_shown(t, opts).contains(t[i]),
        forall|k: int|
            0 <= k < flat_shown(t, opts).len() && opts.skip_aux ==> !((
            #[trigger] flat_shown(t, opts)[k]).name.len() > 0 && flat_shown(t, opts)[k].name[0]
                == '@'),
{
    let p = |n: SpecNode| n.parent is None;
    crate::model::lemma_picks(t, p);
    let s = crate::model::picks(t, p);
    let starts = view_starts(t, None)->Ok_0;
    assert forall|k: int| 0 <= k < starts.len() implies (#[trigger] starts[k]).parent is None by {
        assert(p(t[s[k]]));
    }
    if p(t[i]) {
        let k = choose|k: int| 0 <= k < s.len() && s[k] == i;
        assert(starts[k] == t[i]);
    }
    let q = |n: SpecNode| !opts.skip_aux || !begins(n.name, '@');
    crate::model::lemma_picks(t, q);
    let f = crate::model::picks(t, q);
    assert forall|k: int| 0 <= k < flat_shown(t, opts).len() && opts.skip_aux implies !((
    #[trigger] flat_shown(t, opts)[k]).name.len() > 0 && flat_shown(t, opts)[k].name[0] == '@') by {
        assert(q(t[f[k]]));
    }
    if opts.limit is None && t.len() <= usize::MAX && q(t[i]) {
        let k = choose|k: int| 0 <= k < f.len() && f[k] == i;
        assert(flat_shown(t, opts)[k] == t[i]);
    }
}

/// A parent that is left out, empty, `nil` or `root` stands for none; any other text must be
/// an id, and stands for it.
pub proof fn parents_are_read(s: Seq<char>)
    ensures
        parent_argument(None) == Ok::<Option<Uuid>, SpecOpError>(None),
        parent_argument(Some(s)) == Ok::<Option<Uuid>, SpecOpError>(None) <==> s.len() == 0 || s
            == "nil"@ || s == "root"@,
        s.len() > 0 && s != "nil"@ && s != "root"@ && id_of_text(s) is Some ==> parent_argument(
            Some(s),
        ) == Ok::<Option<Uuid>, SpecOpError>(Some(id_of_text(s)->Some_0)),
        parent_argument(Some(s)) is Err <==> s.len() > 0 && s != "nil"@ && s != "root"@
            && id_of_text(s) is None,
        parent_argument(Some(s)) is Err ==> parent_argument(Some(s))->Err_0.kind
            == ErrKind::InvalidArgument,
{
}

/// The parts of a path are those between its slashes that are neither empty nor `.`, all of
/// them in order.
pub proof fn parts_that_say_nothing_are_dropped(p: Seq<Seq<char>>) -> (at: Seq<int>)
    ensures
        at.len() == path_parts(p).len(),
        forall|x: int|
            0 <= x < at.len() ==> 0 <= #[trigger] at[x] < p.len() && path_parts(p)[x] == p[at[x]]
                && p[at[x]].len() > 0 && p[at[x]] != "."@,
        forall|x: int, y: int| 0 <= x < y < at.len() ==> #[trigger] at[x] < #[trigger] at[y],
        forall|i: int| 0 <= i < p.len() && (#[trigger] p[i]).len() > 0 && p[i] != "."@ ==> at.contains(
            i,
        ),
    decreases p.len(),
{
    if p.len() == 0 {
        Seq::empty()
    } else {
        let d = p.drop_last();
        let rest = parts_that_say_nothing_are_dropped(d);
        let at = if p.last().len() == 0 || p.last() == "."@ {
            rest
        } else {
            rest.push(p.len() - 1)
        };
        assert forall|i: int| 0 <= i < p.len() && (#[trigger] p[i]).len() > 0 && p[i] != "."@ implies at.contains(
            i,
        ) by {
            if i < d.len() {
                assert(d[i] == p[i]);
                let x = choose|x: int| 0 <= x < rest.len() && rest[x] == i;
                assert(at[x] == i);
            } else {
                assert(at[rest.len() as int] == i);
            }
        }
        assert forall|x: int| 0 <= x < at.len() implies 0 <= #[trigger] at[x] < p.len()
            && path_parts(p)[x] == p[at[x]] && p[at[x]].len() > 0 && p[at[x]] != "."@ by {
            if x < rest.len() {
                assert(at[x] == rest[x]);
                assert(d[rest[x]] == p[rest[x]]);
            }
        }
        at
    }
}

/// A path is within a directory exactly if both are absolute or neither is, and the parts of
/// the directory are the first ones of the path. So it is within itself, and within whatever
/// that directory is within; a path without one of these parts is not.
pub proof fn paths_are_within_what_they_begin_with(a: Seq<char>, b: Seq<char>, c: Seq<char>, i: int)
    ensures
        path_within(a, a),
        path_within(a, b) && path_within(b, c) ==> path_within(a, c),
        path_within(a, b) && 0 <= i < path_parts(split_at_char(b, '/')).len() ==> i < path_parts(
            split_at_char(a, '/'),
        ).len() && path_parts(split_at_char(a, '/'))[i] == path_parts(split_at_char(b, '/'))[i],
        path_within(a, b) ==> (a.len() > 0 && a[0] == '/' <==> b.len() > 0 && b[0] == '/'),
{
    let pa = path_parts(split_at_char(a, '/'));
    let pb = path_parts(split_at_char(b, '/'));
    let pc = path_parts(split_at_char(c, '/'));
    assert(pa.take(pa.len() as int) =~= pa);
    if path_within(a, b) && path_within(b, c) {
        assert(pa.take(pc.len() as int) =~= pa.take(pb.len() as int).take(pc.len() as int));
    }
    if path_within(a, b) && 0 <= i < pb.len() {
        assert(pa.take(pb.len() as int)[i] == pa[i]);
    }
}

/// Parts put behind a path: of a plain one more the path has it at its end, `.` leaves it as
/// it is, and `..` takes away the part before, where there is one.
pub proof fn dots_lead_up(base: Seq<Seq<char>>, tail: Seq<Seq<char>>, part: Seq<char>)
    ensures
        path_extended(base, Seq::empty()) == base,
        ({
            let r = path_extended(base, tail);
            let more = path_extended(base, seq![part] + tail);
            &&& part == "."@ ==> more == r
            &&& part == ".."@ ==> more == (if r.len() > 0 {
                r.drop_last()
            } else {
                r
            })
            &&& part != "."@ && part != ".."@ ==> more == r.push(part)
        }),
    decreases tail.len(),
{
    reveal_strlit(".");
    reveal_strlit("..");
    assert("."@.len() != ".."@.len());
    let s = seq![part] + tail;
    if tail.len() == 0 {
        assert(s.last() == part);
        assert(s.drop_last() =~= Seq::<Seq<char>>::empty());
        let b = if part == ".."@ {
            if base.len() > 0 {
                base.drop_last()
            } else {
                base
            }
        } else if part == "."@ {
            base
        } else {
            base.push(part)
        };
        assert(path_extended(b, s.drop_last()) == b);
    } else {
        let seg = tail.last();
        let b = if seg == ".."@ {
            if base.len() > 0 {
                base.drop_last()
            } else {
                base
            }
        } else if seg == "."@ {
            base
        } else {
            base.push(seg)
        };
        assert(s.last() == seg);
        assert(s.drop_last() =~= seq![part] + tail.drop_last());
        dots_lead_up(b, tail.drop_last(), part);
    }
}

/// A path that is not absolute is taken from the first directory that is allowed, where there
/// is one; any other stays. It is allowed exactly if it is within one of them.
pub proof fn paths_are_taken_from_the_first_root(roots: Seq<Seq<char>>, raw: Seq<char>, i: int)
    ensures
        raw.len() > 0 && raw[0] == '/' ==> path_taken(roots, raw) == raw,
        roots.len() == 0 ==> path_taken(roots, raw) == raw,
        roots.len() > 0 && !(raw.len() > 0 && raw[0] == '/') ==> path_taken(roots, raw)
            == crate::paths::joined(roots[0], raw),
        0 <= i < roots.len() && path_within(raw, roots[i]) ==> within_any(raw, roots),
        within_any(raw, roots) ==> roots.len() > 0,
{
}

/// What is said of a file that could not be loaded: that it is not there, or what was wrong.
pub proof fn missing_files_are_told_apart(exists_there: bool, raw: Seq<char>, e: Seq<char>)
    ensures
        load_fault(exists_there, raw, e).kind == ErrKind::NotFound <==> !exists_there,
        exists_there ==> load_fault(exists_there, raw, e).message == e,
{
}

} // verus!
