//! What the server replies with: results and errors as JSON values.
use crate::batch::BatchOutcome;
use crate::change::{BlobExportOutcome, CopyOutcome, CreateOutcome, PruneHistoryOutcome,
    RevertOutcome};
use crate::codec::Uuid;
use crate::convert::opt_text;
use crate::json::{field_of, fields_map, json_bool, json_list, json_null, json_object, json_text, json_tree,
    json_trees, json_whole, Json, SpecJson};
use crate::lookup::{all_views, BlobInfoOutcome, DiffChange, DiffItem, DiffOutcome, HistoryOutcome,
    Hit, InfoOutcome, InstancesOutcome, MatchItem, RefTarget, RefsOutcome, Snapshot, SpecBlobInfo,
    SpecDiffChange, SpecDiffItem, SpecHistory, SpecHit, SpecInfo, SpecInstances, SpecMatch,
    SpecRefs, SpecSnapshot, SpecTarget};
use crate::ops::{view_model, view_models, Layout, NodeView, OpError, SpecOpError, SpecView,
    SpecViewed, ViewOutcome};
use crate::scan::Issue;
use crate::template::{ImportInstancesOutcome, SpecTemplate, TemplateItem, TemplateRemoveOutcome};
use crate::text::{owned, text_views};
use crate::transfer::{ExportOutcome, ImportOutcome};
use crate::validator::SpecFault;
use vstd::prelude::*;

verus! {

// ---------------------------------------------------------------------------
// Building values
// ---------------------------------------------------------------------------

/// An object with fields: a later one takes the place of an earlier one with the same
/// name.
pub open spec fn object(fields: Seq<(Seq<char>, SpecJson)>) -> SpecJson {
    SpecJson::Object(pairs_map(fields))
}

/// The map of fields.
pub open spec fn pairs_map(fields: Seq<(Seq<char>, SpecJson)>) -> Map<Seq<char>, SpecJson>
    decreases fields.len(),
{
    if fields.len() == 0 {
        Map::<Seq<char>, SpecJson>::empty()
    } else {
        pairs_map(fields.drop_last()).insert(fields.last().0, fields.last().1)
    }
}

/// The fields that values stand for.
pub open spec fn pairs(fields: Seq<(String, Json)>) -> Seq<(Seq<char>, SpecJson)> {
    Seq::new(fields.len(), |i: int| (fields[i].0@, json_tree(fields[i].1)))
}

proof fn lemma_pairs_map(fields: Seq<(String, Json)>)
    ensures
        fields_map(fields) == pairs_map(pairs(fields)),
    decreases fields.len(),
{
    if fields.len() > 0 {
        lemma_pairs_map(fields.drop_last());
        assert(pairs(fields).drop_last() =~= pairs(fields.drop_last()));
    }
}

/// No fields.
pub(crate) fn start() -> (r: Vec<(String, Json)>)
    ensures
        pairs(r@) == Seq::<(Seq<char>, SpecJson)>::empty(),
{
    let r: Vec<(String, Json)> = Vec::new();
    assert(pairs(r@) =~= Seq::<(Seq<char>, SpecJson)>::empty());
    r
}

/// Puts a field behind the others.
pub(crate) fn field(fields: &mut Vec<(String, Json)>, key: &str, v: Json)
    ensures
        pairs(final(fields)@) == pairs(old(fields)@).push((key@, json_tree(v))),
{
    let ghost f0 = fields@;
    let ghost t = json_tree(v);
    fields.push((owned(key), v));
    assert(pairs(fields@) =~= pairs(f0).push((key@, t)));
}

/// An object with fields.
pub(crate) fn build(fields: Vec<(String, Json)>) -> (r: Json)
    ensures
        json_tree(r) == object(pairs(fields@)),
{
    proof {
        lemma_pairs_map(fields@);
    }
    json_object(fields)
}

/// A text.
pub(crate) fn text(s: &str) -> (r: Json)
    ensures
        json_tree(r) == SpecJson::Text(s@),
{
    json_text(owned(s))
}

/// The text of an id.
fn id_text(u: Uuid) -> (r: Json)
    ensures
        json_tree(r) == id_json(u),
{
    json_text(u.to_string())
}

/// The text of an id.
pub open spec fn id_json(u: Uuid) -> SpecJson {
    SpecJson::Text(crate::codec::uuid_text(u))
}

/// A text, or nothing.
pub open spec fn text_or_null(s: Option<Seq<char>>) -> SpecJson {
    match s {
        Some(x) => SpecJson::Text(x),
        None => SpecJson::Null,
    }
}

/// A text, or nothing.
fn maybe_text(s: &Option<String>) -> (r: Json)
    ensures
        json_tree(r) == text_or_null(opt_text(*s)),
{
    match s {
        Some(x) => text(x.as_str()),
        None => json_null(),
    }
}

/// The texts of a list.
pub open spec fn texts_json(s: Seq<Seq<char>>) -> SpecJson {
    SpecJson::List(Seq::new(s.len(), |i: int| SpecJson::Text(s[i])))
}

/// The texts of a list.
pub(crate) fn text_list(s: &Vec<String>) -> (r: Json)
    ensures
        json_tree(r) == texts_json(text_views(s@)),
{
    let ghost want = texts_json(text_views(s@))->List_0;
    let mut out: Vec<Json> = Vec::new();
    let mut i: usize = 0;
    assert(json_trees(out@) =~= want.take(0));
    while i < s.len()
        invariant
            i <= s@.len(),
            want == texts_json(text_views(s@))->List_0,
            json_trees(out@) == want.take(i as int),
        decreases s@.len() - i,
    {
        let ghost o0 = out@;
        let j = text(s[i].as_str());
        let ghost t = json_tree(j);
        out.push(j);
        proof {
            assert(json_trees(out@) =~= json_trees(o0).push(t));
            assert(want.take(i + 1) =~= want.take(i as int).push(t));
        }
        i = i + 1;
    }
    assert(want.take(want.len() as int) =~= want);
    json_list(out)
}

// ---------------------------------------------------------------------------
// Errors
// ---------------------------------------------------------------------------

/// An error as it is replied.
pub open spec fn error_json(e: SpecOpError) -> SpecJson {
    match e.hint {
        Some(h) => object(
            seq![
                ("kind"@, SpecJson::Text(e.kind.text())),
                ("message"@, SpecJson::Text(e.message)),
                ("hint"@, SpecJson::Text(h)),
            ],
        ),
        None => object(
            seq![
                ("kind"@, SpecJson::Text(e.kind.text())),
                ("message"@, SpecJson::Text(e.message)),
            ],
        ),
    }
}

impl OpError {
    /// The error as it is replied.
    pub fn to_json(&self) -> (r: Json)
        ensures
            json_tree(r) == error_json(self@),
    {
        let mut f = start();
        field(&mut f, "kind", text(self.kind.as_str()));
        field(&mut f, "message", text(self.message.as_str()));
        if let Some(h) = &self.hint {
            field(&mut f, "hint", text(h.as_str()));
            assert(pairs(f@) =~= seq![
                ("kind"@, SpecJson::Text(self@.kind.text())),
                ("message"@, SpecJson::Text(self@.message)),
                ("hint"@, SpecJson::Text(h@)),
            ]);
        } else {
            assert(pairs(f@) =~= seq![
                ("kind"@, SpecJson::Text(self@.kind.text())),
                ("message"@, SpecJson::Text(self@.message)),
            ]);
        }
        build(f)
    }
}

// ---------------------------------------------------------------------------
// Views
// ---------------------------------------------------------------------------

/// A node with what is shown below it, as it is replied.
pub open spec fn view_json(v: SpecView) -> SpecJson
    decreases v,
{
    object(
        seq![
            ("id"@, id_json(v.id)),
            ("name"@, SpecJson::Text(v.name)),
            ("type"@, SpecJson::Text(v.kind)),
            ("value"@, text_or_null(v.value)),
            ("isAux"@, SpecJson::Bool(v.is_aux)),
            ("children"@, SpecJson::List(views_json(v.children))),
        ],
    )
}

/// Nodes with what is shown below them, as they are replied.
pub open spec fn views_json(s: Seq<SpecView>) -> Seq<SpecJson>
    decreases s,
{
    if s.len() == 0 {
        Seq::empty()
    } else {
        views_json(s.drop_last()).push(view_json(s.last()))
    }
}

/// A node alone, as it is replied.
pub open spec fn flat_json(v: SpecView) -> SpecJson {
    object(
        seq![
            ("id"@, id_json(v.id)),
            (
                "parent"@,
                match v.parent {
                    Some(p) => id_json(p),
                    None => SpecJson::Null,
                },
            ),
            ("name"@, SpecJson::Text(v.name)),
            ("type"@, SpecJson::Text(v.kind)),
            ("value"@, text_or_null(v.value)),
            ("isAux"@, SpecJson::Bool(v.is_aux)),
        ],
    )
}

/// Nodes alone, as they are replied.
pub open spec fn flats_json(s: Seq<SpecView>) -> Seq<SpecJson> {
    Seq::new(s.len(), |i: int| flat_json(s[i]))
}

/// Nodes with what is shown below them, as they are replied.
fn views_list(vs: &Vec<NodeView>) -> (r: Vec<Json>)
    ensures
        json_trees(r@) == views_json(view_models(vs@)),
    decreases vs@,
{
    let mut out: Vec<Json> = Vec::new();
    let mut i: usize = 0;
    proof {
        assert(vs@.take(0) =~= Seq::<NodeView>::empty());
        assert(json_trees(out@) =~= views_json(view_models(vs@.take(0))));
    }
    while i < vs.len()
        invariant
            i <= vs@.len(),
            json_trees(out@) == views_json(view_models(vs@.take(i as int))),
        decreases vs@.len() - i,
    {
        proof {
            assert(vs@.take(i + 1).drop_last() =~= vs@.take(i as int));
            assert(vs@.take(i + 1).last() == vs@[i as int]);
            let ms = view_models(vs@.take(i + 1));
            assert(ms.drop_last() =~= view_models(vs@.take(i as int)));
            assert(decreases_to!(vs@ => vs@[i as int]));
        }
        let ghost o0 = out@;
        let j = vs[i].to_json();
        let ghost t = json_tree(j);
        out.push(j);
        assert(json_trees(out@) =~= json_trees(o0).push(t));
        i = i + 1;
    }
    assert(vs@.take(vs@.len() as int) =~= vs@);
    out
}

impl NodeView {
    /// The node with what is shown below it, as it is replied.
    pub fn to_json(&self) -> (r: Json)
        ensures
            json_tree(r) == view_json(view_model(*self)),
        decreases self,
    {
        let ghost m = view_model(*self);
        let mut f = start();
        field(&mut f, "id", id_text(self.id));
        field(&mut f, "name", text(self.name.as_str()));
        field(&mut f, "type", text(self.kind));
        field(&mut f, "value", maybe_text(&self.value));
        field(&mut f, "isAux", json_bool(self.is_aux));
        field(&mut f, "children", json_list(views_list(&self.children)));
        assert(pairs(f@) =~= seq![
            ("id"@, id_json(m.id)),
            ("name"@, SpecJson::Text(m.name)),
            ("type"@, SpecJson::Text(m.kind)),
            ("value"@, text_or_null(m.value)),
            ("isAux"@, SpecJson::Bool(m.is_aux)),
            ("children"@, SpecJson::List(views_json(m.children))),
        ]);
        build(f)
    }

    /// The node alone, as it is replied.
    pub fn to_flat_json(&self) -> (r: Json)
        ensures
            json_tree(r) == flat_json(view_model(*self)),
    {
        let ghost m = view_model(*self);
        let mut f = start();
        field(&mut f, "id", id_text(self.id));
        let parent = match self.parent {
            Some(p) => id_text(p),
            None => json_null(),
        };
        field(&mut f, "parent", parent);
        field(&mut f, "name", text(self.name.as_str()));
        field(&mut f, "type", text(self.kind));
        field(&mut f, "value", maybe_text(&self.value));
        field(&mut f, "isAux", json_bool(self.is_aux));
        assert(pairs(f@) =~= seq![
            ("id"@, id_json(m.id)),
            (
                "parent"@,
                match m.parent {
                    Some(p) => id_json(p),
                    None => SpecJson::Null,
                },
            ),
            ("name"@, SpecJson::Text(m.name)),
            ("type"@, SpecJson::Text(m.kind)),
            ("value"@, text_or_null(m.value)),
            ("isAux"@, SpecJson::Bool(m.is_aux)),
        ]);
        build(f)
    }
}

/// What is shown of a file, as it is replied.
pub open spec fn viewed_json(v: SpecViewed) -> SpecJson {
    object(
        seq![
            (
                "nodes"@,
                SpecJson::List(
                    if v.layout == Layout::Tree {
                        views_json(v.roots)
                    } else {
                        flats_json(v.items)
                    },
                ),
            ),
            ("total"@, SpecJson::Int(v.total as int)),
            ("printed"@, SpecJson::Int(v.printed as int)),
            ("truncated"@, SpecJson::Bool(v.printed < v.total)),
        ],
    )
}

proof fn lemma_views_len(s: Seq<NodeView>)
    ensures
        view_models(s).len() == s.len(),
        forall|i: int| 0 <= i < s.len() ==> #[trigger] view_models(s)[i] == view_model(s[i]),
    decreases s.len(),
{
    if s.len() > 0 {
        lemma_views_len(s.drop_last());
        assert forall|i: int| 0 <= i < s.len() implies #[trigger] view_models(s)[i] == view_model(
            s[i],
        ) by {
            if i < s.len() - 1 {
                assert(view_models(s)[i] == view_models(s.drop_last())[i]);
                assert(s.drop_last()[i] == s[i]);
            }
        }
    }
}

impl ViewOutcome {
    /// What is shown of a file, as it is replied.
    pub fn to_json(&self) -> (r: Json)
        ensures
            json_tree(r) == viewed_json(self@),
    {
        let ghost m = self@;
        let nodes = match self.layout {
            Layout::Tree => views_list(&self.roots),
            Layout::Flat => {
                let ghost want = flats_json(m.items);
                proof {
                    lemma_views_len(self.items@);
                }
                let mut out: Vec<Json> = Vec::new();
                let mut i: usize = 0;
                assert(json_trees(out@) =~= want.take(0));
                while i < self.items.len()
                    invariant
                        i <= self.items@.len(),
                        want == flats_json(view_models(self.items@)),
                        want.len() == self.items@.len(),
                        forall|k: int|
                            0 <= k < self.items@.len() ==> #[trigger] view_models(self.items@)[k]
                                == view_model(self.items@[k]),
                        json_trees(out@) == want.take(i as int),
                    decreases self.items@.len() - i,
                {
                    let ghost o0 = out@;
                    let j = self.items[i].to_flat_json();
                    let ghost t = json_tree(j);
                    out.push(j);
                    proof {
                        assert(view_models(self.items@)[i as int] == view_model(
                            self.items@[i as int],
                        ));
                        assert(json_trees(out@) =~= json_trees(o0).push(t));
                        assert(want.take(i + 1) =~= want.take(i as int).push(t));
                    }
                    i = i + 1;
                }
                assert(want.take(want.len() as int) =~= want);
                out
            },
        };
        let mut f = start();
        field(&mut f, "nodes", json_list(nodes));
        field(&mut f, "total", json_whole(self.total as u64));
        field(&mut f, "printed", json_whole(self.printed as u64));
        field(&mut f, "truncated", json_bool(self.truncated()));
        assert(pairs(f@) =~= seq![
            (
                "nodes"@,
                SpecJson::List(
                    if m.layout == Layout::Tree {
                        views_json(m.roots)
                    } else {
                        flats_json(m.items)
                    },
                ),
            ),
            ("total"@, SpecJson::Int(m.total as int)),
            ("printed"@, SpecJson::Int(m.printed as int)),
            ("truncated"@, SpecJson::Bool(m.printed < m.total)),
        ]);
        build(f)
    }
}

// ---------------------------------------------------------------------------
// What was found
// ---------------------------------------------------------------------------

/// What is known of a file, as it is replied.
pub open spec fn info_json(v: SpecInfo) -> SpecJson {
    object(
        seq![
            ("file"@, SpecJson::Text(v.file)),
            ("version"@, SpecJson::Int(v.version as int)),
            ("headerBytes"@, SpecJson::Int(v.header_bytes as int)),
            ("headerFirstLine"@, SpecJson::Text(v.header_first_line)),
            ("nodeCount"@, SpecJson::Int(v.nodes as int)),
            ("rootCount"@, SpecJson::Int(v.roots as int)),
        ],
    )
}

/// What is known of a file, as it is replied.
pub fn info_reply(v: &InfoOutcome) -> (r: Json)
    ensures
        json_tree(r) == info_json(v@),
{
    let mut f = start();
    field(&mut f, "file", text(v.file.as_str()));
    field(&mut f, "version", json_whole(v.version as u64));
    field(&mut f, "headerBytes", json_whole(v.header_bytes as u64));
    field(&mut f, "headerFirstLine", text(v.header_first_line.as_str()));
    field(&mut f, "nodeCount", json_whole(v.nodes as u64));
    field(&mut f, "rootCount", json_whole(v.roots as u64));
    assert(pairs(f@) =~= seq![
        ("file"@, SpecJson::Text(v@.file)),
        ("version"@, SpecJson::Int(v@.version as int)),
        ("headerBytes"@, SpecJson::Int(v@.header_bytes as int)),
        ("headerFirstLine"@, SpecJson::Text(v@.header_first_line)),
        ("nodeCount"@, SpecJson::Int(v@.nodes as int)),
        ("rootCount"@, SpecJson::Int(v@.roots as int)),
    ]);
    build(f)
}

/// A fault, as it is replied.
pub open spec fn fault_json(v: SpecFault) -> SpecJson {
    object(
        seq![
            ("code"@, SpecJson::Text(v.code)),
            ("node"@, id_json(v.node)),
            ("message"@, SpecJson::Text(v.message)),
        ],
    )
}

/// A fault, as it is replied.
fn fault_item(v: &Issue) -> (r: Json)
    ensures
        json_tree(r) == fault_json(v@),
{
    let mut f = start();
    field(&mut f, "code", text(v.code));
    field(&mut f, "node", id_text(v.node_id));
    field(&mut f, "message", text(v.message.as_str()));
    assert(pairs(f@) =~= seq![
        ("code"@, SpecJson::Text(v@.code)),
        ("node"@, id_json(v@.node)),
        ("message"@, SpecJson::Text(v@.message)),
    ]);
    build(f)
}

/// Faults, as they are replied.
pub open spec fn faults_json(s: Seq<SpecFault>) -> Seq<SpecJson> {
    Seq::new(s.len(), |i: int| fault_json(s[i]))
}

/// Faults, as they are replied.
fn fault_items(s: &Vec<Issue>) -> (r: Vec<Json>)
    ensures
        json_trees(r@) == faults_json(all_views(s@)),
{
    let ghost want = faults_json(all_views(s@));
    let mut out: Vec<Json> = Vec::new();
    let mut i: usize = 0;
    assert(json_trees(out@) =~= want.take(0));
    while i < s.len()
        invariant
            i <= s@.len(),
            want == faults_json(all_views(s@)),
            json_trees(out@) == want.take(i as int),
        decreases s@.len() - i,
    {
        let ghost o0 = out@;
        let j = fault_item(&s[i]);
        let ghost t = json_tree(j);
        out.push(j);
        proof {
            assert(all_views(s@)[i as int] == s@[i as int]@);
            assert(json_trees(out@) =~= json_trees(o0).push(t));
            assert(want.take(i + 1) =~= want.take(i as int).push(t));
        }
        i = i + 1;
    }
    assert(want.take(want.len() as int) =~= want);
    out
}

/// The faults of a file, as they are replied.
pub open spec fn check_json(s: Seq<SpecFault>) -> SpecJson {
    object(
        seq![
            ("count"@, SpecJson::Int(s.len() as int)),
            ("errors"@, SpecJson::List(faults_json(s))),
        ],
    )
}

/// The faults of a file, as they are replied.
pub fn check_reply(s: &Vec<Issue>) -> (r: Json)
    ensures
        json_tree(r) == check_json(all_views(s@)),
{
    let mut f = start();
    field(&mut f, "count", json_whole(s.len() as u64));
    field(&mut f, "errors", json_list(fault_items(s)));
    assert(pairs(f@) =~= seq![
        ("count"@, SpecJson::Int(all_views(s@).len() as int)),
        ("errors"@, SpecJson::List(faults_json(all_views(s@)))),
    ]);
    build(f)
}

/// A node by its id and its name, as it is replied.
pub open spec fn item_json(v: SpecDiffItem) -> SpecJson {
    object(
        seq![
            ("id"@, id_json(v.id)),
            ("name"@, SpecJson::Text(v.name)),
        ],
    )
}

/// A node by its id and its name, as it is replied.
fn diff_entry(v: &DiffItem) -> (r: Json)
    ensures
        json_tree(r) == item_json(v@),
{
    let mut f = start();
    field(&mut f, "id", id_text(v.id));
    field(&mut f, "name", text(v.name.as_str()));
    assert(pairs(f@) =~= seq![
        ("id"@, id_json(v@.id)),
        ("name"@, SpecJson::Text(v@.name)),
    ]);
    build(f)
}

/// Nodes by their ids and their names, as they are replied.
pub open spec fn items_json(s: Seq<SpecDiffItem>) -> Seq<SpecJson> {
    Seq::new(s.len(), |i: int| item_json(s[i]))
}

/// Nodes by their ids and their names, as they are replied.
fn diff_entries(s: &Vec<DiffItem>) -> (r: Vec<Json>)
    ensures
        json_trees(r@) == items_json(all_views(s@)),
{
    let ghost want = items_json(all_views(s@));
    let mut out: Vec<Json> = Vec::new();
    let mut i: usize = 0;
    assert(json_trees(out@) =~= want.take(0));
    while i < s.len()
        invariant
            i <= s@.len(),
            want == items_json(all_views(s@)),
            json_trees(out@) == want.take(i as int),
        decreases s@.len() - i,
    {
        let ghost o0 = out@;
        let j = diff_entry(&s[i]);
        let ghost t = json_tree(j);
        out.push(j);
        proof {
            assert(all_views(s@)[i as int] == s@[i as int]@);
            assert(json_trees(out@) =~= json_trees(o0).push(t));
            assert(want.take(i + 1) =~= want.take(i as int).push(t));
        }
        i = i + 1;
    }
    assert(want.take(want.len() as int) =~= want);
    out
}

/// A name and a value, as they are replied.
pub open spec fn side_json(name: Seq<char>, value: Seq<char>) -> SpecJson {
    object(
        seq![
            ("name"@, SpecJson::Text(name)),
            ("value"@, SpecJson::Text(value)),
        ],
    )
}

/// A name and a value, as they are replied.
fn side(name: &str, value: &str) -> (r: Json)
    ensures
        json_tree(r) == side_json(name@, value@),
{
    let mut f = start();
    field(&mut f, "name", text(name));
    field(&mut f, "value", text(value));
    assert(pairs(f@) =~= seq![
        ("name"@, SpecJson::Text(name@)),
        ("value"@, SpecJson::Text(value@)),
    ]);
    build(f)
}

/// A changed node, as it is replied.
pub open spec fn change_json(v: SpecDiffChange) -> SpecJson {
    object(
        seq![
            ("id"@, id_json(v.id)),
            ("from"@, side_json(v.from_name, v.from_value)),
            ("to"@, side_json(v.to_name, v.to_value)),
        ],
    )
}

/// A changed node, as it is replied.
fn change_entry(v: &DiffChange) -> (r: Json)
    ensures
        json_tree(r) == change_json(v@),
{
    let mut f = start();
    field(&mut f, "id", id_text(v.id));
    field(&mut f, "from", side(v.from_name.as_str(), v.from_value.as_str()));
    field(&mut f, "to", side(v.to_name.as_str(), v.to_value.as_str()));
    assert(pairs(f@) =~= seq![
        ("id"@, id_json(v@.id)),
        ("from"@, side_json(v@.from_name, v@.from_value)),
        ("to"@, side_json(v@.to_name, v@.to_value)),
    ]);
    build(f)
}

/// Changed nodes, as they are replied.
pub open spec fn changes_json(s: Seq<SpecDiffChange>) -> Seq<SpecJson> {
    Seq::new(s.len(), |i: int| change_json(s[i]))
}

/// Changed nodes, as they are replied.
fn change_entries(s: &Vec<DiffChange>) -> (r: Vec<Json>)
    ensures
        json_trees(r@) == changes_json(all_views(s@)),
{
    let ghost want = changes_json(all_views(s@));
    let mut out: Vec<Json> = Vec::new();
    let mut i: usize = 0;
    assert(json_trees(out@) =~= want.take(0));
    while i < s.len()
        invariant
            i <= s@.len(),
            want == changes_json(all_views(s@)),
            json_trees(out@) == want.take(i as int),
        decreases s@.len() - i,
    {
        let ghost o0 = out@;
        let j = change_entry(&s[i]);
        let ghost t = json_tree(j);
        out.push(j);
        proof {
            assert(all_views(s@)[i as int] == s@[i as int]@);
            assert(json_trees(out@) =~= json_trees(o0).push(t));
            assert(want.take(i + 1) =~= want.take(i as int).push(t));
        }
        i = i + 1;
    }
    assert(want.take(want.len() as int) =~= want);
    out
}

/// What differs between two files, as it is replied.
pub open spec fn diff_json(added: Seq<SpecDiffItem>, removed: Seq<SpecDiffItem>, changed: Seq<SpecDiffChange>) -> SpecJson {
    object(
        seq![
            ("added"@, SpecJson::List(items_json(added))),
            ("removed"@, SpecJson::List(items_json(removed))),
            ("changed"@, SpecJson::List(changes_json(changed))),
        ],
    )
}

/// What differs between two files, as it is replied.
pub fn diff_reply(v: &DiffOutcome) -> (r: Json)
    ensures
        json_tree(r) == diff_json(all_views(v.added@), all_views(v.removed@), all_views(v.changed@)),
{
    let mut f = start();
    field(&mut f, "added", json_list(diff_entries(&v.added)));
    field(&mut f, "removed", json_list(diff_entries(&v.removed)));
    field(&mut f, "changed", json_list(change_entries(&v.changed)));
    assert(pairs(f@) =~= seq![
        ("added"@, SpecJson::List(items_json(all_views(v.added@)))),
        ("removed"@, SpecJson::List(items_json(all_views(v.removed@)))),
        ("changed"@, SpecJson::List(changes_json(all_views(v.changed@)))),
    ]);
    build(f)
}

/// A node that was found, as it is replied.
pub open spec fn hit_json(v: SpecHit) -> SpecJson {
    object(
        seq![
            ("id"@, id_json(v.id)),
            ("name"@, SpecJson::Text(v.name)),
            ("type"@, SpecJson::Text(v.kind)),
            ("value"@, text_or_null(v.value)),
        ],
    )
}

/// A node that was found, as it is replied.
fn hit_item(v: &Hit) -> (r: Json)
    ensures
        json_tree(r) == hit_json(v@),
{
    let mut f = start();
    field(&mut f, "id", id_text(v.id));
    field(&mut f, "name", text(v.name.as_str()));
    field(&mut f, "type", text(v.kind));
    field(&mut f, "value", maybe_text(&v.value));
    assert(pairs(f@) =~= seq![
        ("id"@, id_json(v@.id)),
        ("name"@, SpecJson::Text(v@.name)),
        ("type"@, SpecJson::Text(v@.kind)),
        ("value"@, text_or_null(v@.value)),
    ]);
    build(f)
}

/// Nodes that were found, as they are replied.
pub open spec fn hits_json(s: Seq<SpecHit>) -> Seq<SpecJson> {
    Seq::new(s.len(), |i: int| hit_json(s[i]))
}

/// Nodes that were found, as they are replied.
fn hit_items(s: &Vec<Hit>) -> (r: Vec<Json>)
    ensures
        json_trees(r@) == hits_json(all_views(s@)),
{
    let ghost want = hits_json(all_views(s@));
    let mut out: Vec<Json> = Vec::new();
    let mut i: usize = 0;
    assert(json_trees(out@) =~= want.take(0));
    while i < s.len()
        invariant
            i <= s@.len(),
            want == hits_json(all_views(s@)),
            json_trees(out@) == want.take(i as int),
        decreases s@.len() - i,
    {
        let ghost o0 = out@;
        let j = hit_item(&s[i]);
        let ghost t = json_tree(j);
        out.push(j);
        proof {
            assert(all_views(s@)[i as int] == s@[i as int]@);
            assert(json_trees(out@) =~= json_trees(o0).push(t));
            assert(want.take(i + 1) =~= want.take(i as int).push(t));
        }
        i = i + 1;
    }
    assert(want.take(want.len() as int) =~= want);
    out
}

/// Nodes that were found, as they are replied.
pub fn hits_reply(s: &Vec<Hit>) -> (r: Json)
    ensures
        json_tree(r) == SpecJson::List(hits_json(all_views(s@))),
{
    json_list(hit_items(s))
}

/// A node that matches, as it is replied: with what is below it where that is at hand.
pub open spec fn match_json(v: SpecMatch) -> SpecJson {
    match v.tree {
        Some(t) => view_json(t),
        None => hit_json(SpecHit { id: v.id, name: v.name, kind: v.kind, value: v.value }),
    }
}

/// A node that matches, as it is replied.
fn match_item(v: &MatchItem) -> (r: Json)
    ensures
        json_tree(r) == match_json(v@),
{
    match &v.tree {
        Some(t) => t.to_json(),
        None => {
            let mut f = start();
            field(&mut f, "id", id_text(v.id));
            field(&mut f, "name", text(v.name.as_str()));
            field(&mut f, "type", text(v.kind));
            field(&mut f, "value", maybe_text(&v.value));
            assert(pairs(f@) =~= seq![
                ("id"@, id_json(v@.id)),
                ("name"@, SpecJson::Text(v@.name)),
                ("type"@, SpecJson::Text(v@.kind)),
                ("value"@, text_or_null(v@.value)),
            ]);
            build(f)
        },
    }
}

/// Nodes that match, as they are replied.
pub open spec fn matches_json(s: Seq<SpecMatch>) -> Seq<SpecJson> {
    Seq::new(s.len(), |i: int| match_json(s[i]))
}

/// Nodes that match, as they are replied.
fn match_items(s: &Vec<MatchItem>) -> (r: Vec<Json>)
    ensures
        json_trees(r@) == matches_json(all_views(s@)),
{
    let ghost want = matches_json(all_views(s@));
    let mut out: Vec<Json> = Vec::new();
    let mut i: usize = 0;
    assert(json_trees(out@) =~= want.take(0));
    while i < s.len()
        invariant
            i <= s@.len(),
            want == matches_json(all_views(s@)),
            json_trees(out@) == want.take(i as int),
        decreases s@.len() - i,
    {
        let ghost o0 = out@;
        let j = match_item(&s[i]);
        let ghost t = json_tree(j);
        out.push(j);
        proof {
            assert(all_views(s@)[i as int] == s@[i as int]@);
            assert(json_trees(out@) =~= json_trees(o0).push(t));
            assert(want.take(i + 1) =~= want.take(i as int).push(t));
        }
        i = i + 1;
    }
    assert(want.take(want.len() as int) =~= want);
    out
}

/// Nodes that match, as they are replied.
pub fn matches_reply(s: &Vec<MatchItem>) -> (r: Json)
    ensures
        json_tree(r) == SpecJson::List(matches_json(all_views(s@))),
{
    json_list(match_items(s))
}

/// A node by its id and its name, as it is replied.
pub open spec fn named_json(id: Uuid, name: Seq<char>) -> SpecJson {
    object(
        seq![
            ("id"@, id_json(id)),
            ("name"@, SpecJson::Text(name)),
        ],
    )
}

/// A node by its id and its name, as it is replied.
fn named(id: Uuid, name: &str) -> (r: Json)
    ensures
        json_tree(r) == named_json(id, name@),
{
    let mut f = start();
    field(&mut f, "id", id_text(id));
    field(&mut f, "name", text(name));
    assert(pairs(f@) =~= seq![
        ("id"@, id_json(id)),
        ("name"@, SpecJson::Text(name@)),
    ]);
    build(f)
}

/// The instances of a template, as they are replied.
pub open spec fn instances_json(v: SpecInstances) -> SpecJson {
    object(
        seq![
            ("template"@, named_json(v.template_id, v.template_name)),
            ("count"@, SpecJson::Int(v.instances.len() as int)),
            ("instances"@, SpecJson::List(views_json(v.instances))),
        ],
    )
}

/// The instances of a template, as they are replied.
pub fn instances_reply(v: &InstancesOutcome) -> (r: Json)
    ensures
        json_tree(r) == instances_json(v@),
{
    proof {
        lemma_views_len(v.instances@);
    }
    let mut f = start();
    field(&mut f, "template", named(v.template_id, v.template_name.as_str()));
    field(&mut f, "count", json_whole(v.instances.len() as u64));
    field(&mut f, "instances", json_list(views_list(&v.instances)));
    assert(pairs(f@) =~= seq![
        ("template"@, named_json(v@.template_id, v@.template_name)),
        ("count"@, SpecJson::Int(v@.instances.len() as int)),
        ("instances"@, SpecJson::List(views_json(v@.instances))),
    ]);
    build(f)
}

/// One end of a reference, as it is replied.
pub open spec fn target_json(v: SpecTarget) -> SpecJson {
    object(
        seq![
            ("id"@, id_json(v.id)),
            ("name"@, SpecJson::Text(v.name)),
            ("exists"@, SpecJson::Bool(v.exists)),
        ],
    )
}

/// One end of a reference, as it is replied.
fn target_item(v: &RefTarget) -> (r: Json)
    ensures
        json_tree(r) == target_json(v@),
{
    let mut f = start();
    field(&mut f, "id", id_text(v.id));
    field(&mut f, "name", text(v.name.as_str()));
    field(&mut f, "exists", json_bool(v.exists));
    assert(pairs(f@) =~= seq![
        ("id"@, id_json(v@.id)),
        ("name"@, SpecJson::Text(v@.name)),
        ("exists"@, SpecJson::Bool(v@.exists)),
    ]);
    build(f)
}

/// Ends of references, as they are replied.
pub open spec fn targets_json(s: Seq<SpecTarget>) -> Seq<SpecJson> {
    Seq::new(s.len(), |i: int| target_json(s[i]))
}

/// Ends of references, as they are replied.
fn target_items(s: &Vec<RefTarget>) -> (r: Vec<Json>)
    ensures
        json_trees(r@) == targets_json(all_views(s@)),
{
    let ghost want = targets_json(all_views(s@));
    let mut out: Vec<Json> = Vec::new();
    let mut i: usize = 0;
    assert(json_trees(out@) =~= want.take(0));
    while i < s.len()
        invariant
            i <= s@.len(),
            want == targets_json(all_views(s@)),
            json_trees(out@) == want.take(i as int),
        decreases s@.len() - i,
    {
        let ghost o0 = out@;
        let j = target_item(&s[i]);
        let ghost t = json_tree(j);
        out.push(j);
        proof {
            assert(all_views(s@)[i as int] == s@[i as int]@);
            assert(json_trees(out@) =~= json_trees(o0).push(t));
            assert(want.take(i + 1) =~= want.take(i as int).push(t));
        }
        i = i + 1;
    }
    assert(want.take(want.len() as int) =~= want);
    out
}

/// The target of a reference, or nothing.
pub open spec fn target_or_null(v: Option<SpecTarget>) -> SpecJson {
    match v {
        Some(t) => target_json(t),
        None => SpecJson::Null,
    }
}

/// The target of a reference, or nothing.
fn maybe_target(v: &Option<RefTarget>) -> (r: Json)
    ensures
        json_tree(r) == target_or_null(
            match *v {
                Some(t) => Some(t@),
                None => None,
            },
        ),
{
    match v {
        Some(t) => target_item(t),
        None => json_null(),
    }
}

/// What a node refers to and what refers to it, as it is replied.
pub open spec fn refs_json(v: SpecRefs) -> SpecJson {
    object(
        seq![
            ("node"@, named_json(v.id, v.name)),
            ("reference"@, target_or_null(v.reference)),
            ("incoming"@, SpecJson::List(targets_json(v.incoming))),
        ],
    )
}

/// What a node refers to and what refers to it, as it is replied.
pub fn refs_reply(v: &RefsOutcome) -> (r: Json)
    ensures
        json_tree(r) == refs_json(v@),
{
    let mut f = start();
    field(&mut f, "node", named(v.id, v.name.as_str()));
    field(&mut f, "reference", maybe_target(&v.reference));
    field(&mut f, "incoming", json_list(target_items(&v.incoming)));
    assert(pairs(f@) =~= seq![
        ("node"@, named_json(v@.id, v@.name)),
        ("reference"@, target_or_null(v@.reference)),
        ("incoming"@, SpecJson::List(targets_json(v@.incoming))),
    ]);
    build(f)
}

/// What a node once was, as it is replied.
pub open spec fn snapshot_json(v: SpecSnapshot) -> SpecJson {
    object(
        seq![
            ("name"@, SpecJson::Text(v.name)),
            ("value"@, text_or_null(v.value)),
            ("replaced"@, text_or_null(v.replaced)),
        ],
    )
}

/// What a node once was, as it is replied.
fn snapshot_item(v: &Snapshot) -> (r: Json)
    ensures
        json_tree(r) == snapshot_json(v@),
{
    let mut f = start();
    field(&mut f, "name", text(v.name.as_str()));
    field(&mut f, "value", maybe_text(&v.value));
    field(&mut f, "replaced", maybe_text(&v.replaced));
    assert(pairs(f@) =~= seq![
        ("name"@, SpecJson::Text(v@.name)),
        ("value"@, text_or_null(v@.value)),
        ("replaced"@, text_or_null(v@.replaced)),
    ]);
    build(f)
}

/// What a node once was, as it is replied.
pub open spec fn snapshots_json(s: Seq<SpecSnapshot>) -> Seq<SpecJson> {
    Seq::new(s.len(), |i: int| snapshot_json(s[i]))
}

/// What a node once was, as it is replied.
fn snapshot_items(s: &Vec<Snapshot>) -> (r: Vec<Json>)
    ensures
        json_trees(r@) == snapshots_json(all_views(s@)),
{
    let ghost want = snapshots_json(all_views(s@));
    let mut out: Vec<Json> = Vec::new();
    let mut i: usize = 0;
    assert(json_trees(out@) =~= want.take(0));
    while i < s.len()
        invariant
            i <= s@.len(),
            want == snapshots_json(all_views(s@)),
            json_trees(out@) == want.take(i as int),
        decreases s@.len() - i,
    {
        let ghost o0 = out@;
        let j = snapshot_item(&s[i]);
        let ghost t = json_tree(j);
        out.push(j);
        proof {
            assert(all_views(s@)[i as int] == s@[i as int]@);
            assert(json_trees(out@) =~= json_trees(o0).push(t));
            assert(want.take(i + 1) =~= want.take(i as int).push(t));
        }
        i = i + 1;
    }
    assert(want.take(want.len() as int) =~= want);
    out
}

/// The history of a node, as it is replied.
pub open spec fn history_json(v: SpecHistory) -> SpecJson {
    object(
        seq![
            ("node"@, named_json(v.id, v.name)),
            ("hasHistory"@, SpecJson::Bool(v.has_history)),
            ("snapshots"@, SpecJson::List(snapshots_json(v.snapshots))),
        ],
    )
}

/// The history of a node, as it is replied.
pub fn history_reply(v: &HistoryOutcome) -> (r: Json)
    ensures
        json_tree(r) == history_json(v@),
{
    let mut f = start();
    field(&mut f, "node", named(v.id, v.name.as_str()));
    field(&mut f, "hasHistory", json_bool(v.has_history));
    field(&mut f, "snapshots", json_list(snapshot_items(&v.snapshots)));
    assert(pairs(f@) =~= seq![
        ("node"@, named_json(v@.id, v@.name)),
        ("hasHistory"@, SpecJson::Bool(v@.has_history)),
        ("snapshots"@, SpecJson::List(snapshots_json(v@.snapshots))),
    ]);
    build(f)
}

/// What is known of a blob, as it is replied.
pub open spec fn blob_json(v: SpecBlobInfo) -> SpecJson {
    object(
        seq![
            ("bytes"@, SpecJson::Int(v.bytes as int)),
            ("format"@, text_or_null(v.format)),
            ("textPreview"@, text_or_null(v.preview)),
        ],
    )
}

/// What is known of a blob, as it is replied.
pub fn blob_reply(v: &BlobInfoOutcome) -> (r: Json)
    ensures
        json_tree(r) == blob_json(v@),
{
    let mut f = start();
    field(&mut f, "bytes", json_whole(v.bytes as u64));
    field(&mut f, "format", maybe_text(&v.format));
    field(&mut f, "textPreview", maybe_text(&v.preview));
    assert(pairs(f@) =~= seq![
        ("bytes"@, SpecJson::Int(v@.bytes as int)),
        ("format"@, text_or_null(v@.format)),
        ("textPreview"@, text_or_null(v@.preview)),
    ]);
    build(f)
}

// ---------------------------------------------------------------------------
// What was done
// ---------------------------------------------------------------------------

/// A new node, as it is replied.
pub open spec fn created_json(v: CreateOutcome) -> SpecJson {
    object(
        seq![
            ("created"@, id_json(v.id)),
            ("name"@, SpecJson::Text(v.name@)),
            ("newShard"@, SpecJson::Bool(v.new_shard)),
            ("warnings"@, texts_json(text_views(v.warnings@))),
        ],
    )
}

/// A new node, as it is replied.
pub fn created_reply(v: &CreateOutcome) -> (r: Json)
    ensures
        json_tree(r) == created_json(*v),
{
    let mut f = start();
    field(&mut f, "created", id_text(v.id));
    field(&mut f, "name", text(v.name.as_str()));
    field(&mut f, "newShard", json_bool(v.new_shard));
    field(&mut f, "warnings", text_list(&v.warnings));
    assert(pairs(f@) =~= seq![
        ("created"@, id_json(v.id)),
        ("name"@, SpecJson::Text(v.name@)),
        ("newShard"@, SpecJson::Bool(v.new_shard)),
        ("warnings"@, texts_json(text_views(v.warnings@))),
    ]);
    build(f)
}

/// A new value, as it is replied.
pub open spec fn updated_json(id: Uuid) -> SpecJson {
    object(
        seq![
            ("updated"@, id_json(id)),
        ],
    )
}

/// A new value, as it is replied.
pub fn updated_reply(id: Uuid) -> (r: Json)
    ensures
        json_tree(r) == updated_json(id),
{
    let mut f = start();
    field(&mut f, "updated", id_text(id));
    assert(pairs(f@) =~= seq![
        ("updated"@, id_json(id)),
    ]);
    build(f)
}

/// A new name, as it is replied.
pub open spec fn renamed_json(id: Uuid, name: Seq<char>) -> SpecJson {
    object(
        seq![
            ("renamed"@, id_json(id)),
            ("name"@, SpecJson::Text(name)),
        ],
    )
}

/// A new name, as it is replied.
pub fn renamed_reply(id: Uuid, name: &str) -> (r: Json)
    ensures
        json_tree(r) == renamed_json(id, name@),
{
    let mut f = start();
    field(&mut f, "renamed", id_text(id));
    field(&mut f, "name", text(name));
    assert(pairs(f@) =~= seq![
        ("renamed"@, id_json(id)),
        ("name"@, SpecJson::Text(name@)),
    ]);
    build(f)
}

/// An emptied node, as it is replied.
pub open spec fn removed_json(id: Uuid) -> SpecJson {
    object(
        seq![
            ("removed"@, id_json(id)),
            ("emptied"@, SpecJson::Bool(true)),
        ],
    )
}

/// An emptied node, as it is replied.
pub fn removed_reply(id: Uuid) -> (r: Json)
    ensures
        json_tree(r) == removed_json(id),
{
    let mut f = start();
    field(&mut f, "removed", id_text(id));
    field(&mut f, "emptied", json_bool(true));
    assert(pairs(f@) =~= seq![
        ("removed"@, id_json(id)),
        ("emptied"@, SpecJson::Bool(true)),
    ]);
    build(f)
}

/// The ends of a new reference, as they are replied.
pub open spec fn ends_json(from: Uuid, to: Uuid) -> SpecJson {
    object(
        seq![
            ("from"@, id_json(from)),
            ("to"@, id_json(to)),
        ],
    )
}

/// The ends of a new reference, as they are replied.
fn ends(from: Uuid, to: Uuid) -> (r: Json)
    ensures
        json_tree(r) == ends_json(from, to),
{
    let mut f = start();
    field(&mut f, "from", id_text(from));
    field(&mut f, "to", id_text(to));
    assert(pairs(f@) =~= seq![
        ("from"@, id_json(from)),
        ("to"@, id_json(to)),
    ]);
    build(f)
}

/// A new reference, as it is replied.
pub open spec fn linked_json(from: Uuid, to: Uuid) -> SpecJson {
    object(
        seq![
            ("linked"@, ends_json(from, to)),
        ],
    )
}

/// A new reference, as it is replied.
pub fn linked_reply(from: Uuid, to: Uuid) -> (r: Json)
    ensures
        json_tree(r) == linked_json(from, to),
{
    let mut f = start();
    field(&mut f, "linked", ends(from, to));
    assert(pairs(f@) =~= seq![
        ("linked"@, ends_json(from, to)),
    ]);
    build(f)
}

/// A copy, as it is replied.
pub open spec fn copied_json(v: CopyOutcome) -> SpecJson {
    object(
        seq![
            ("copied"@, id_json(v.src_id)),
            ("sourceName"@, SpecJson::Text(v.src_name@)),
            ("newRoot"@, id_json(v.new_id)),
            ("warnings"@, texts_json(text_views(v.warnings@))),
        ],
    )
}

/// A copy, as it is replied.
pub fn copied_reply(v: &CopyOutcome) -> (r: Json)
    ensures
        json_tree(r) == copied_json(*v),
{
    let mut f = start();
    field(&mut f, "copied", id_text(v.src_id));
    field(&mut f, "sourceName", text(v.src_name.as_str()));
    field(&mut f, "newRoot", id_text(v.new_id));
    field(&mut f, "warnings", text_list(&v.warnings));
    assert(pairs(f@) =~= seq![
        ("copied"@, id_json(v.src_id)),
        ("sourceName"@, SpecJson::Text(v.src_name@)),
        ("newRoot"@, id_json(v.new_id)),
        ("warnings"@, texts_json(text_views(v.warnings@))),
    ]);
    build(f)
}

/// How many values were filled in, as it is replied.
pub open spec fn filled_json(n: usize) -> SpecJson {
    object(
        seq![
            ("assigned"@, SpecJson::Int(n as int)),
        ],
    )
}

/// How many values were filled in, as it is replied.
pub fn filled_reply(n: usize) -> (r: Json)
    ensures
        json_tree(r) == filled_json(n),
{
    let mut f = start();
    field(&mut f, "assigned", json_whole(n as u64));
    assert(pairs(f@) =~= seq![
        ("assigned"@, SpecJson::Int(n as int)),
    ]);
    build(f)
}

/// A node that was taken back, as it is replied.
pub open spec fn reverted_json(v: RevertOutcome) -> SpecJson {
    object(
        seq![
            ("reverted"@, id_json(v.id)),
            ("name"@, SpecJson::Text(v.name@)),
            ("reason"@, text_or_null(opt_text(v.no_snapshot))),
        ],
    )
}

/// A node that was taken back, as it is replied.
pub fn reverted_reply(v: &RevertOutcome) -> (r: Json)
    ensures
        json_tree(r) == reverted_json(*v),
{
    let mut f = start();
    field(&mut f, "reverted", id_text(v.id));
    field(&mut f, "name", text(v.name.as_str()));
    field(&mut f, "reason", maybe_text(&v.no_snapshot));
    assert(pairs(f@) =~= seq![
        ("reverted"@, id_json(v.id)),
        ("name"@, SpecJson::Text(v.name@)),
        ("reason"@, text_or_null(opt_text(v.no_snapshot))),
    ]);
    build(f)
}

/// A history that was cut, as it is replied.
pub open spec fn pruned_json(v: PruneHistoryOutcome) -> SpecJson {
    object(
        seq![
            ("removed"@, SpecJson::Int(v.removed as int)),
            ("kept"@, SpecJson::Int(v.kept as int)),
            ("nodesBefore"@, SpecJson::Int(v.nodes_before as int)),
            ("nodesAfter"@, SpecJson::Int(v.nodes_after as int)),
            ("bytesBefore"@, SpecJson::Int(v.bytes_before as int)),
            ("bytesAfter"@, SpecJson::Int(v.bytes_after as int)),
        ],
    )
}

/// A history that was cut, as it is replied.
pub fn pruned_reply(v: &PruneHistoryOutcome) -> (r: Json)
    ensures
        json_tree(r) == pruned_json(*v),
{
    let mut f = start();
    field(&mut f, "removed", json_whole(v.removed as u64));
    field(&mut f, "kept", json_whole(v.kept as u64));
    field(&mut f, "nodesBefore", json_whole(v.nodes_before as u64));
    field(&mut f, "nodesAfter", json_whole(v.nodes_after as u64));
    field(&mut f, "bytesBefore", json_whole(v.bytes_before as u64));
    field(&mut f, "bytesAfter", json_whole(v.bytes_after as u64));
    assert(pairs(f@) =~= seq![
        ("removed"@, SpecJson::Int(v.removed as int)),
        ("kept"@, SpecJson::Int(v.kept as int)),
        ("nodesBefore"@, SpecJson::Int(v.nodes_before as int)),
        ("nodesAfter"@, SpecJson::Int(v.nodes_after as int)),
        ("bytesBefore"@, SpecJson::Int(v.bytes_before as int)),
        ("bytesAfter"@, SpecJson::Int(v.bytes_after as int)),
    ]);
    build(f)
}

/// A batch of changes, as it is replied: the nodes that it is about, whether it was only
/// tried, and the records that were appended.
pub open spec fn batch_json(v: BatchOutcome, dry_run: bool, appended: usize) -> SpecJson {
    object(
        seq![
            ("changed"@, SpecJson::Int(v.changed as int)),
            ("dryRun"@, SpecJson::Bool(dry_run)),
            ("appended"@, SpecJson::Int(appended as int)),
        ],
    )
}

/// A batch of changes, as it is replied.
pub fn batch_reply(v: &BatchOutcome, dry_run: bool, appended: usize) -> (r: Json)
    ensures
        json_tree(r) == batch_json(*v, dry_run, appended),
{
    let mut f = start();
    field(&mut f, "changed", json_whole(v.changed as u64));
    field(&mut f, "dryRun", json_bool(dry_run));
    field(&mut f, "appended", json_whole(appended as u64));
    assert(pairs(f@) =~= seq![
        ("changed"@, SpecJson::Int(v.changed as int)),
        ("dryRun"@, SpecJson::Bool(dry_run)),
        ("appended"@, SpecJson::Int(appended as int)),
    ]);
    build(f)
}

/// A new template, as it is replied.
pub open spec fn defined_json(id: Uuid, name: Seq<char>) -> SpecJson {
    object(
        seq![
            ("template"@, named_json(id, name)),
        ],
    )
}

/// A new template, as it is replied.
pub fn defined_reply(id: Uuid, name: &str) -> (r: Json)
    ensures
        json_tree(r) == defined_json(id, name@),
{
    let mut f = start();
    field(&mut f, "template", named(id, name));
    assert(pairs(f@) =~= seq![
        ("template"@, named_json(id, name@)),
    ]);
    build(f)
}

/// A template, as it is replied.
pub open spec fn template_json(v: SpecTemplate) -> SpecJson {
    object(
        seq![
            ("id"@, id_json(v.id)),
            ("name"@, SpecJson::Text(v.name)),
            ("instances"@, SpecJson::Int(v.instances as int)),
        ],
    )
}

/// A template, as it is replied.
fn template_entry(v: &TemplateItem) -> (r: Json)
    ensures
        json_tree(r) == template_json(v@),
{
    let mut f = start();
    field(&mut f, "id", id_text(v.id));
    field(&mut f, "name", text(v.name.as_str()));
    field(&mut f, "instances", json_whole(v.instances as u64));
    assert(pairs(f@) =~= seq![
        ("id"@, id_json(v@.id)),
        ("name"@, SpecJson::Text(v@.name)),
        ("instances"@, SpecJson::Int(v@.instances as int)),
    ]);
    build(f)
}

/// Templates, as they are replied.
pub open spec fn templates_json(s: Seq<SpecTemplate>) -> Seq<SpecJson> {
    Seq::new(s.len(), |i: int| template_json(s[i]))
}

/// Templates, as they are replied.
fn template_entries(s: &Vec<TemplateItem>) -> (r: Vec<Json>)
    ensures
        json_trees(r@) == templates_json(all_views(s@)),
{
    let ghost want = templates_json(all_views(s@));
    let mut out: Vec<Json> = Vec::new();
    let mut i: usize = 0;
    assert(json_trees(out@) =~= want.take(0));
    while i < s.len()
        invariant
            i <= s@.len(),
            want == templates_json(all_views(s@)),
            json_trees(out@) == want.take(i as int),
        decreases s@.len() - i,
    {
        let ghost o0 = out@;
        let j = template_entry(&s[i]);
        let ghost t = json_tree(j);
        out.push(j);
        proof {
            assert(all_views(s@)[i as int] == s@[i as int]@);
            assert(json_trees(out@) =~= json_trees(o0).push(t));
            assert(want.take(i + 1) =~= want.take(i as int).push(t));
        }
        i = i + 1;
    }
    assert(want.take(want.len() as int) =~= want);
    out
}

/// The templates of a file, as they are replied.
pub open spec fn template_list_json(s: Seq<SpecTemplate>) -> SpecJson {
    object(
        seq![
            ("templates"@, SpecJson::List(templates_json(s))),
        ],
    )
}

/// The templates of a file, as they are replied.
pub fn templates_reply(s: &Vec<TemplateItem>) -> (r: Json)
    ensures
        json_tree(r) == template_list_json(all_views(s@)),
{
    let mut f = start();
    field(&mut f, "templates", json_list(template_entries(s)));
    assert(pairs(f@) =~= seq![
        ("templates"@, SpecJson::List(templates_json(all_views(s@)))),
    ]);
    build(f)
}

/// New instances, as they are replied.
pub open spec fn made_json(v: ImportInstancesOutcome) -> SpecJson {
    object(
        seq![
            ("imported"@, SpecJson::Int(v.count as int)),
            ("template"@, named_json(v.template_id, v.template_name@)),
        ],
    )
}

/// New instances, as they are replied.
pub fn made_reply(v: &ImportInstancesOutcome) -> (r: Json)
    ensures
        json_tree(r) == made_json(*v),
{
    let mut f = start();
    field(&mut f, "imported", json_whole(v.count as u64));
    field(&mut f, "template", named(v.template_id, v.template_name.as_str()));
    assert(pairs(f@) =~= seq![
        ("imported"@, SpecJson::Int(v.count as int)),
        ("template"@, named_json(v.template_id, v.template_name@)),
    ]);
    build(f)
}

/// A template that was removed, as it is replied.
pub open spec fn gone_json(v: TemplateRemoveOutcome) -> SpecJson {
    object(
        seq![
            ("removed"@, SpecJson::Text(v.name@)),
            ("id"@, id_json(v.id)),
            ("removedInstances"@, SpecJson::Int(v.removed_instances as int)),
        ],
    )
}

/// A template that was removed, as it is replied.
pub fn gone_reply(v: &TemplateRemoveOutcome) -> (r: Json)
    ensures
        json_tree(r) == gone_json(*v),
{
    let mut f = start();
    field(&mut f, "removed", text(v.name.as_str()));
    field(&mut f, "id", id_text(v.id));
    field(&mut f, "removedInstances", json_whole(v.removed_instances as u64));
    assert(pairs(f@) =~= seq![
        ("removed"@, SpecJson::Text(v.name@)),
        ("id"@, id_json(v.id)),
        ("removedInstances"@, SpecJson::Int(v.removed_instances as int)),
    ]);
    build(f)
}

/// A file as a text, as it is replied.
pub open spec fn export_json(v: ExportOutcome) -> SpecJson {
    object(
        seq![
            ("format"@, SpecJson::Text(v.format@)),
            ("text"@, SpecJson::Text(v.text@)),
        ],
    )
}

/// A file as a text, as it is replied.
pub fn export_reply(v: &ExportOutcome) -> (r: Json)
    ensures
        json_tree(r) == export_json(*v),
{
    let mut f = start();
    field(&mut f, "format", text(v.format.as_str()));
    field(&mut f, "text", text(v.text.as_str()));
    assert(pairs(f@) =~= seq![
        ("format"@, SpecJson::Text(v.format@)),
        ("text"@, SpecJson::Text(v.text@)),
    ]);
    build(f)
}

/// A number, or nothing.
pub open spec fn number_or_null(n: Option<usize>) -> SpecJson {
    match n {
        Some(x) => SpecJson::Int(x as int),
        None => SpecJson::Null,
    }
}

/// A number, or nothing.
fn maybe_number(n: Option<usize>) -> (r: Json)
    ensures
        json_tree(r) == number_or_null(n),
{
    match n {
        Some(x) => json_whole(x as u64),
        None => json_null(),
    }
}

/// A file that was replaced, as it is replied.
pub open spec fn imported_json(v: ImportOutcome) -> SpecJson {
    object(
        seq![
            ("nodes"@, SpecJson::Int(v.nodes as int)),
            ("previousNodes"@, number_or_null(v.previous_nodes)),
            ("replaced"@, SpecJson::Bool(v.previous_nodes is Some)),
        ],
    )
}

/// A file that was replaced, as it is replied.
pub fn imported_reply(v: &ImportOutcome) -> (r: Json)
    ensures
        json_tree(r) == imported_json(*v),
{
    let mut f = start();
    field(&mut f, "nodes", json_whole(v.nodes as u64));
    field(&mut f, "previousNodes", maybe_number(v.previous_nodes));
    field(&mut f, "replaced", json_bool(v.previous_nodes.is_some()));
    assert(pairs(f@) =~= seq![
        ("nodes"@, SpecJson::Int(v.nodes as int)),
        ("previousNodes"@, number_or_null(v.previous_nodes)),
        ("replaced"@, SpecJson::Bool(v.previous_nodes is Some)),
    ]);
    build(f)
}

/// Nodes that were put behind others, as they are replied.
pub open spec fn appended_json(n: usize) -> SpecJson {
    object(
        seq![
            ("appended"@, SpecJson::Bool(true)),
            ("nodeCount"@, SpecJson::Int(n as int)),
        ],
    )
}

/// Nodes that were put behind others, as they are replied.
pub fn appended_reply(n: usize) -> (r: Json)
    ensures
        json_tree(r) == appended_json(n),
{
    let mut f = start();
    field(&mut f, "appended", json_bool(true));
    field(&mut f, "nodeCount", json_whole(n as u64));
    assert(pairs(f@) =~= seq![
        ("appended"@, SpecJson::Bool(true)),
        ("nodeCount"@, SpecJson::Int(n as int)),
    ]);
    build(f)
}

/// A blob that was taken in, as it is replied.
pub open spec fn blob_in_json(id: Uuid, name: Seq<char>) -> SpecJson {
    object(
        seq![
            ("imported"@, id_json(id)),
            ("name"@, SpecJson::Text(name)),
        ],
    )
}

/// A blob that was taken in, as it is replied.
pub fn blob_in_reply(id: Uuid, name: &str) -> (r: Json)
    ensures
        json_tree(r) == blob_in_json(id, name@),
{
    let mut f = start();
    field(&mut f, "imported", id_text(id));
    field(&mut f, "name", text(name));
    assert(pairs(f@) =~= seq![
        ("imported"@, id_json(id)),
        ("name"@, SpecJson::Text(name@)),
    ]);
    build(f)
}

/// A blob that was written out, as it is replied.
pub open spec fn blob_out_json(v: BlobExportOutcome) -> SpecJson {
    object(
        seq![
            ("bytes"@, SpecJson::Int(v.bytes as int)),
            ("dest"@, SpecJson::Text(v.dest@)),
        ],
    )
}

/// A blob that was written out, as it is replied.
pub fn blob_out_reply(v: &BlobExportOutcome) -> (r: Json)
    ensures
        json_tree(r) == blob_out_json(*v),
{
    let mut f = start();
    field(&mut f, "bytes", json_whole(v.bytes as u64));
    field(&mut f, "dest", text(v.dest.as_str()));
    assert(pairs(f@) =~= seq![
        ("bytes"@, SpecJson::Int(v.bytes as int)),
        ("dest"@, SpecJson::Text(v.dest@)),
    ]);
    build(f)
}

/// A field of an object is the last one that was given with its name; an object has no others.
pub proof fn the_last_field_counts(fields: Seq<(Seq<char>, SpecJson)>, key: Seq<char>)
    ensures
        forall|i: int|
            0 <= i < fields.len() && (#[trigger] fields[i]).0 == key && (forall|j: int|
                i < j < fields.len() ==> (#[trigger] fields[j]).0 != key) ==> field_of(
                object(fields),
                key,
            ) == Some(fields[i].1),
        (forall|i: int| 0 <= i < fields.len() ==> (#[trigger] fields[i]).0 != key) ==> field_of(
            object(fields),
            key,
        ) is None,
    decreases fields.len(),
{
    if fields.len() > 0 {
        let d = fields.drop_last();
        the_last_field_counts(d, key);
        let m = pairs_map(d);
        assert(pairs_map(fields) == m.insert(fields.last().0, fields.last().1));
        assert forall|i: int|
            0 <= i < fields.len() && (#[trigger] fields[i]).0 == key && (forall|j: int|
                i < j < fields.len() ==> (#[trigger] fields[j]).0 != key) implies field_of(
            object(fields),
            key,
        ) == Some(fields[i].1) by {
            if i < d.len() {
                assert(d[i] == fields[i]);
                assert(fields[fields.len() - 1].0 != key);
                assert forall|j: int| i < j < d.len() implies (#[trigger] d[j]).0 != key by {
                    assert(d[j] == fields[j]);
                }
                assert(field_of(object(d), key) == Some(d[i].1));
            }
        }
        if forall|i: int| 0 <= i < fields.len() ==> (#[trigger] fields[i]).0 != key {
            assert(fields[fields.len() - 1].0 != key);
            assert forall|i: int| 0 <= i < d.len() implies (#[trigger] d[i]).0 != key by {
                assert(d[i] == fields[i]);
            }
        }
    }
}

// ---------------------------------------------------------------------------
// Laws of replies
// ---------------------------------------------------------------------------

/// A change has its id and its two sides, the old one first.
pub proof fn change_replies_have_their_fields(v: SpecDiffChange)
    ensures
        field_of(change_json(v), "id"@) == Some(id_json(v.id)),
        field_of(change_json(v), "from"@) == Some(side_json(v.from_name, v.from_value)),
        field_of(change_json(v), "to"@) == Some(side_json(v.to_name, v.to_value)),
{
    reveal_strlit("id");
    reveal_strlit("from");
    reveal_strlit("to");
    assert("id"@.len() != "from"@.len());
    assert("id"@[0] != "to"@[0]);
    assert("from"@.len() != "to"@.len());
    let f = seq![
        ("id"@, id_json(v.id)),
        ("from"@, side_json(v.from_name, v.from_value)),
        ("to"@, side_json(v.to_name, v.to_value)),
    ];
    assert(change_json(v) == object(f));
    the_last_field_counts(f, "id"@);
    assert(f[0].0 == "id"@);
    the_last_field_counts(f, "from"@);
    assert(f[1].0 == "from"@);
    the_last_field_counts(f, "to"@);
    assert(f[2].0 == "to"@);
}

/// A diff has what was added, what was removed and what was changed, each in its field.
pub proof fn diff_replies_have_their_fields(added: Seq<SpecDiffItem>, removed: Seq<SpecDiffItem>, changed: Seq<SpecDiffChange>)
    ensures
        field_of(diff_json(added, removed, changed), "added"@) == Some(SpecJson::List(items_json(added))),
        field_of(diff_json(added, removed, changed), "removed"@) == Some(SpecJson::List(items_json(removed))),
        field_of(diff_json(added, removed, changed), "changed"@) == Some(SpecJson::List(changes_json(changed))),
{
    reveal_strlit("added");
    reveal_strlit("removed");
    reveal_strlit("changed");
    assert("added"@.len() != "removed"@.len());
    assert("added"@.len() != "changed"@.len());
    assert("removed"@[0] != "changed"@[0]);
    let f = seq![
        ("added"@, SpecJson::List(items_json(added))),
        ("removed"@, SpecJson::List(items_json(removed))),
        ("changed"@, SpecJson::List(changes_json(changed))),
    ];
    assert(diff_json(added, removed, changed) == object(f));
    the_last_field_counts(f, "added"@);
    assert(f[0].0 == "added"@);
    the_last_field_counts(f, "removed"@);
    assert(f[1].0 == "removed"@);
    the_last_field_counts(f, "changed"@);
    assert(f[2].0 == "changed"@);
}

/// A target has its id and its name, and says whether it is there.
pub proof fn target_replies_have_their_fields(v: SpecTarget)
    ensures
        field_of(target_json(v), "id"@) == Some(id_json(v.id)),
        field_of(target_json(v), "name"@) == Some(SpecJson::Text(v.name)),
        field_of(target_json(v), "exists"@) == Some(SpecJson::Bool(v.exists)),
{
    reveal_strlit("id");
    reveal_strlit("name");
    reveal_strlit("exists");
    assert("id"@.len() != "name"@.len());
    assert("id"@.len() != "exists"@.len());
    assert("name"@.len() != "exists"@.len());
    let f = seq![
        ("id"@, id_json(v.id)),
        ("name"@, SpecJson::Text(v.name)),
        ("exists"@, SpecJson::Bool(v.exists)),
    ];
    assert(target_json(v) == object(f));
    the_last_field_counts(f, "id"@);
    assert(f[0].0 == "id"@);
    the_last_field_counts(f, "name"@);
    assert(f[1].0 == "name"@);
    the_last_field_counts(f, "exists"@);
    assert(f[2].0 == "exists"@);
}

/// A snapshot has its name, its value and its time.
pub proof fn snapshot_replies_have_their_fields(v: SpecSnapshot)
    ensures
        field_of(snapshot_json(v), "name"@) == Some(SpecJson::Text(v.name)),
        field_of(snapshot_json(v), "value"@) == Some(text_or_null(v.value)),
        field_of(snapshot_json(v), "replaced"@) == Some(text_or_null(v.replaced)),
{
    reveal_strlit("name");
    reveal_strlit("value");
    reveal_strlit("replaced");
    assert("name"@.len() != "value"@.len());
    assert("name"@.len() != "replaced"@.len());
    assert("value"@.len() != "replaced"@.len());
    let f = seq![
        ("name"@, SpecJson::Text(v.name)),
        ("value"@, text_or_null(v.value)),
        ("replaced"@, text_or_null(v.replaced)),
    ];
    assert(snapshot_json(v) == object(f));
    the_last_field_counts(f, "name"@);
    assert(f[0].0 == "name"@);
    the_last_field_counts(f, "value"@);
    assert(f[1].0 == "value"@);
    the_last_field_counts(f, "replaced"@);
    assert(f[2].0 == "replaced"@);
}

/// What was copied is told with where it came from and where it went.
pub proof fn copied_replies_have_their_fields(v: CopyOutcome)
    ensures
        field_of(copied_json(v), "copied"@) == Some(id_json(v.src_id)),
        field_of(copied_json(v), "sourceName"@) == Some(SpecJson::Text(v.src_name@)),
        field_of(copied_json(v), "newRoot"@) == Some(id_json(v.new_id)),
        field_of(copied_json(v), "warnings"@) == Some(texts_json(text_views(v.warnings@))),
{
    reveal_strlit("copied");
    reveal_strlit("sourceName");
    reveal_strlit("newRoot");
    reveal_strlit("warnings");
    assert("copied"@.len() != "sourceName"@.len());
    assert("copied"@.len() != "newRoot"@.len());
    assert("copied"@.len() != "warnings"@.len());
    assert("sourceName"@.len() != "newRoot"@.len());
    assert("sourceName"@.len() != "warnings"@.len());
    assert("newRoot"@.len() != "warnings"@.len());
    let f = seq![
        ("copied"@, id_json(v.src_id)),
        ("sourceName"@, SpecJson::Text(v.src_name@)),
        ("newRoot"@, id_json(v.new_id)),
        ("warnings"@, texts_json(text_views(v.warnings@))),
    ];
    assert(copied_json(v) == object(f));
    the_last_field_counts(f, "copied"@);
    assert(f[0].0 == "copied"@);
    the_last_field_counts(f, "sourceName"@);
    assert(f[1].0 == "sourceName"@);
    the_last_field_counts(f, "newRoot"@);
    assert(f[2].0 == "newRoot"@);
    the_last_field_counts(f, "warnings"@);
    assert(f[3].0 == "warnings"@);
}

/// What was pruned is counted.
pub proof fn pruned_replies_have_their_fields(v: PruneHistoryOutcome)
    ensures
        field_of(pruned_json(v), "removed"@) == Some(SpecJson::Int(v.removed as int)),
        field_of(pruned_json(v), "kept"@) == Some(SpecJson::Int(v.kept as int)),
        field_of(pruned_json(v), "nodesBefore"@) == Some(SpecJson::Int(v.nodes_before as int)),
        field_of(pruned_json(v), "nodesAfter"@) == Some(SpecJson::Int(v.nodes_after as int)),
        field_of(pruned_json(v), "bytesBefore"@) == Some(SpecJson::Int(v.bytes_before as int)),
        field_of(pruned_json(v), "bytesAfter"@) == Some(SpecJson::Int(v.bytes_after as int)),
{
    reveal_strlit("removed");
    reveal_strlit("kept");
    reveal_strlit("nodesBefore");
    reveal_strlit("nodesAfter");
    reveal_strlit("bytesBefore");
    reveal_strlit("bytesAfter");
    assert("removed"@.len() != "kept"@.len());
    assert("removed"@.len() != "nodesBefore"@.len());
    assert("removed"@.len() != "nodesAfter"@.len());
    assert("removed"@.len() != "bytesBefore"@.len());
    assert("removed"@.len() != "bytesAfter"@.len());
    assert("kept"@.len() != "nodesBefore"@.len());
    assert("kept"@.len() != "nodesAfter"@.len());
    assert("kept"@.len() != "bytesBefore"@.len());
    assert("kept"@.len() != "bytesAfter"@.len());
    assert("nodesBefore"@.len() != "nodesAfter"@.len());
    assert("nodesBefore"@[0] != "bytesBefore"@[0]);
    assert("nodesBefore"@.len() != "bytesAfter"@.len());
    assert("nodesAfter"@.len() != "bytesBefore"@.len());
    assert("nodesAfter"@[0] != "bytesAfter"@[0]);
    assert("bytesBefore"@.len() != "bytesAfter"@.len());
    let f = seq![
        ("removed"@, SpecJson::Int(v.removed as int)),
        ("kept"@, SpecJson::Int(v.kept as int)),
        ("nodesBefore"@, SpecJson::Int(v.nodes_before as int)),
        ("nodesAfter"@, SpecJson::Int(v.nodes_after as int)),
        ("bytesBefore"@, SpecJson::Int(v.bytes_before as int)),
        ("bytesAfter"@, SpecJson::Int(v.bytes_after as int)),
    ];
    assert(pruned_json(v) == object(f));
    the_last_field_counts(f, "removed"@);
    assert(f[0].0 == "removed"@);
    the_last_field_counts(f, "kept"@);
    assert(f[1].0 == "kept"@);
    the_last_field_counts(f, "nodesBefore"@);
    assert(f[2].0 == "nodesBefore"@);
    the_last_field_counts(f, "nodesAfter"@);
    assert(f[3].0 == "nodesAfter"@);
    the_last_field_counts(f, "bytesBefore"@);
    assert(f[4].0 == "bytesBefore"@);
    the_last_field_counts(f, "bytesAfter"@);
    assert(f[5].0 == "bytesAfter"@);
}

/// A node of a tree is shown with its fields and what is below it.
pub proof fn view_replies_have_their_fields(v: SpecView) -> SpecJson
    decreases v,
{
    object(
        seq![
            ("id"@, id_json(v.id)),
            ("name"@, SpecJson::Text(v.name)),
            ("type"@, SpecJson::Text(v.kind)),
            ("value"@, text_or_null(v.value)),
            ("isAux"@, SpecJson::Bool(v.is_aux)),
            ("children"@, SpecJson::List(views_json(v.children))),
        ],
    )
}

/// A view says how many nodes there are and how many it shows.
pub proof fn viewed_replies_have_their_fields(v: SpecViewed)
    ensures
        field_of(viewed_json(v), "nodes"@) == Some(SpecJson::List(
                    if v.layout == Layout::Tree {
                        views_json(v.roots)
                    } else {
                        flats_json(v.items)
                    },
                )),
        field_of(viewed_json(v), "total"@) == Some(SpecJson::Int(v.total as int)),
        field_of(viewed_json(v), "printed"@) == Some(SpecJson::Int(v.printed as int)),
        field_of(viewed_json(v), "truncated"@) == Some(SpecJson::Bool(v.printed < v.total)),
{
    reveal_strlit("nodes");
    reveal_strlit("total");
    reveal_strlit("printed");
    reveal_strlit("truncated");
    assert("nodes"@[0] != "total"@[0]);
    assert("nodes"@.len() != "printed"@.len());
    assert("nodes"@.len() != "truncated"@.len());
    assert("total"@.len() != "printed"@.len());
    assert("total"@.len() != "truncated"@.len());
    assert("printed"@.len() != "truncated"@.len());
    let f = seq![
        ("nodes"@, SpecJson::List(
                    if v.layout == Layout::Tree {
                        views_json(v.roots)
                    } else {
                        flats_json(v.items)
                    },
                )),
        ("total"@, SpecJson::Int(v.total as int)),
        ("printed"@, SpecJson::Int(v.printed as int)),
        ("truncated"@, SpecJson::Bool(v.printed < v.total)),
    ];
    assert(viewed_json(v) == object(f));
    the_last_field_counts(f, "nodes"@);
    assert(f[0].0 == "nodes"@);
    the_last_field_counts(f, "total"@);
    assert(f[1].0 == "total"@);
    the_last_field_counts(f, "printed"@);
    assert(f[2].0 == "printed"@);
    the_last_field_counts(f, "truncated"@);
    assert(f[3].0 == "truncated"@);
}

/// A hit has its id, its name, the word for its kind and its value.
pub proof fn hit_replies_have_their_fields(v: SpecHit)
    ensures
        field_of(hit_json(v), "id"@) == Some(id_json(v.id)),
        field_of(hit_json(v), "name"@) == Some(SpecJson::Text(v.name)),
        field_of(hit_json(v), "type"@) == Some(SpecJson::Text(v.kind)),
        field_of(hit_json(v), "value"@) == Some(text_or_null(v.value)),
{
    reveal_strlit("id");
    reveal_strlit("name");
    reveal_strlit("type");
    reveal_strlit("value");
    assert("id"@.len() != "name"@.len());
    assert("id"@.len() != "type"@.len());
    assert("id"@.len() != "value"@.len());
    assert("name"@[0] != "type"@[0]);
    assert("name"@.len() != "value"@.len());
    assert("type"@.len() != "value"@.len());
    let f = seq![
        ("id"@, id_json(v.id)),
        ("name"@, SpecJson::Text(v.name)),
        ("type"@, SpecJson::Text(v.kind)),
        ("value"@, text_or_null(v.value)),
    ];
    assert(hit_json(v) == object(f));
    the_last_field_counts(f, "id"@);
    assert(f[0].0 == "id"@);
    the_last_field_counts(f, "name"@);
    assert(f[1].0 == "name"@);
    the_last_field_counts(f, "type"@);
    assert(f[2].0 == "type"@);
    the_last_field_counts(f, "value"@);
    assert(f[3].0 == "value"@);
}

/// A fault has its code, the id of its node and its message.
pub proof fn fault_replies_have_their_fields(v: SpecFault)
    ensures
        field_of(fault_json(v), "code"@) == Some(SpecJson::Text(v.code)),
        field_of(fault_json(v), "node"@) == Some(id_json(v.node)),
        field_of(fault_json(v), "message"@) == Some(SpecJson::Text(v.message)),
{
    reveal_strlit("code");
    reveal_strlit("node");
    reveal_strlit("message");
    assert("code"@[0] != "node"@[0]);
    assert("code"@.len() != "message"@.len());
    assert("node"@.len() != "message"@.len());
    let f = seq![
        ("code"@, SpecJson::Text(v.code)),
        ("node"@, id_json(v.node)),
        ("message"@, SpecJson::Text(v.message)),
    ];
    assert(fault_json(v) == object(f));
    the_last_field_counts(f, "code"@);
    assert(f[0].0 == "code"@);
    the_last_field_counts(f, "node"@);
    assert(f[1].0 == "node"@);
    the_last_field_counts(f, "message"@);
    assert(f[2].0 == "message"@);
}

/// A check has the number of the faults and the faults.
pub proof fn check_replies_have_their_fields(s: Seq<SpecFault>)
    ensures
        field_of(check_json(s), "count"@) == Some(SpecJson::Int(s.len() as int)),
        field_of(check_json(s), "errors"@) == Some(SpecJson::List(faults_json(s))),
{
    reveal_strlit("count");
    reveal_strlit("errors");
    assert("count"@.len() != "errors"@.len());
    let f = seq![
        ("count"@, SpecJson::Int(s.len() as int)),
        ("errors"@, SpecJson::List(faults_json(s))),
    ];
    assert(check_json(s) == object(f));
    the_last_field_counts(f, "count"@);
    assert(f[0].0 == "count"@);
    the_last_field_counts(f, "errors"@);
    assert(f[1].0 == "errors"@);
}

/// An item of a diff has its id and its name.
pub proof fn item_replies_have_their_fields(v: SpecDiffItem)
    ensures
        field_of(item_json(v), "id"@) == Some(id_json(v.id)),
        field_of(item_json(v), "name"@) == Some(SpecJson::Text(v.name)),
{
    reveal_strlit("id");
    reveal_strlit("name");
    assert("id"@.len() != "name"@.len());
    let f = seq![
        ("id"@, id_json(v.id)),
        ("name"@, SpecJson::Text(v.name)),
    ];
    assert(item_json(v) == object(f));
    the_last_field_counts(f, "id"@);
    assert(f[0].0 == "id"@);
    the_last_field_counts(f, "name"@);
    assert(f[1].0 == "name"@);
}

/// What is told of a file, each in its field.
pub proof fn info_replies_have_their_fields(v: SpecInfo)
    ensures
        field_of(info_json(v), "file"@) == Some(SpecJson::Text(v.file)),
        field_of(info_json(v), "version"@) == Some(SpecJson::Int(v.version as int)),
        field_of(info_json(v), "headerBytes"@) == Some(SpecJson::Int(v.header_bytes as int)),
        field_of(info_json(v), "headerFirstLine"@) == Some(SpecJson::Text(v.header_first_line)),
        field_of(info_json(v), "nodeCount"@) == Some(SpecJson::Int(v.nodes as int)),
        field_of(info_json(v), "rootCount"@) == Some(SpecJson::Int(v.roots as int)),
{
    reveal_strlit("file");
    reveal_strlit("version");
    reveal_strlit("headerBytes");
    reveal_strlit("headerFirstLine");
    reveal_strlit("nodeCount");
    reveal_strlit("rootCount");
    assert("file"@.len() != "version"@.len());
    assert("file"@.len() != "headerBytes"@.len());
    assert("file"@.len() != "headerFirstLine"@.len());
    assert("file"@.len() != "nodeCount"@.len());
    assert("file"@.len() != "rootCount"@.len());
    assert("version"@.len() != "headerBytes"@.len());
    assert("version"@.len() != "headerFirstLine"@.len());
    assert("version"@.len() != "nodeCount"@.len());
    assert("version"@.len() != "rootCount"@.len());
    assert("headerBytes"@.len() != "headerFirstLine"@.len());
    assert("headerBytes"@.len() != "nodeCount"@.len());
    assert("headerBytes"@.len() != "rootCount"@.len());
    assert("headerFirstLine"@.len() != "nodeCount"@.len());
    assert("headerFirstLine"@.len() != "rootCount"@.len());
    assert("nodeCount"@[0] != "rootCount"@[0]);
    let f = seq![
        ("file"@, SpecJson::Text(v.file)),
        ("version"@, SpecJson::Int(v.version as int)),
        ("headerBytes"@, SpecJson::Int(v.header_bytes as int)),
        ("headerFirstLine"@, SpecJson::Text(v.header_first_line)),
        ("nodeCount"@, SpecJson::Int(v.nodes as int)),
        ("rootCount"@, SpecJson::Int(v.roots as int)),
    ];
    assert(info_json(v) == object(f));
    the_last_field_counts(f, "file"@);
    assert(f[0].0 == "file"@);
    the_last_field_counts(f, "version"@);
    assert(f[1].0 == "version"@);
    the_last_field_counts(f, "headerBytes"@);
    assert(f[2].0 == "headerBytes"@);
    the_last_field_counts(f, "headerFirstLine"@);
    assert(f[3].0 == "headerFirstLine"@);
    the_last_field_counts(f, "nodeCount"@);
    assert(f[4].0 == "nodeCount"@);
    the_last_field_counts(f, "rootCount"@);
    assert(f[5].0 == "rootCount"@);
}

/// A row has the id of the node and of its parent, its name, kind and value, and says whether
/// it is auxiliary.
pub proof fn row_replies_have_their_fields(v: SpecView)
    ensures
        field_of(flat_json(v), "id"@) == Some(id_json(v.id)),
        field_of(flat_json(v), "parent"@) == Some(match v.parent {
                    Some(p) => id_json(p),
                    None => SpecJson::Null,
                }),
        field_of(flat_json(v), "name"@) == Some(SpecJson::Text(v.name)),
        field_of(flat_json(v), "type"@) == Some(SpecJson::Text(v.kind)),
        field_of(flat_json(v), "value"@) == Some(text_or_null(v.value)),
        field_of(flat_json(v), "isAux"@) == Some(SpecJson::Bool(v.is_aux)),
{
    reveal_strlit("id");
    reveal_strlit("parent");
    reveal_strlit("name");
    reveal_strlit("type");
    reveal_strlit("value");
    reveal_strlit("isAux");
    assert("id"@.len() != "parent"@.len());
    assert("id"@.len() != "name"@.len());
    assert("id"@.len() != "type"@.len());
    assert("id"@.len() != "value"@.len());
    assert("id"@.len() != "isAux"@.len());
    assert("parent"@.len() != "name"@.len());
    assert("parent"@.len() != "type"@.len());
    assert("parent"@.len() != "value"@.len());
    assert("parent"@.len() != "isAux"@.len());
    assert("name"@[0] != "type"@[0]);
    assert("name"@.len() != "value"@.len());
    assert("name"@.len() != "isAux"@.len());
    assert("type"@.len() != "value"@.len());
    assert("type"@.len() != "isAux"@.len());
    assert("value"@[0] != "isAux"@[0]);
    let f = seq![
        ("id"@, id_json(v.id)),
        ("parent"@, match v.parent {
                    Some(p) => id_json(p),
                    None => SpecJson::Null,
                }),
        ("name"@, SpecJson::Text(v.name)),
        ("type"@, SpecJson::Text(v.kind)),
        ("value"@, text_or_null(v.value)),
        ("isAux"@, SpecJson::Bool(v.is_aux)),
    ];
    assert(flat_json(v) == object(f));
    the_last_field_counts(f, "id"@);
    assert(f[0].0 == "id"@);
    the_last_field_counts(f, "parent"@);
    assert(f[1].0 == "parent"@);
    the_last_field_counts(f, "name"@);
    assert(f[2].0 == "name"@);
    the_last_field_counts(f, "type"@);
    assert(f[3].0 == "type"@);
    the_last_field_counts(f, "value"@);
    assert(f[4].0 == "value"@);
    the_last_field_counts(f, "isAux"@);
    assert(f[5].0 == "isAux"@);
}

/// The references of a node: where it refers to, and what refers to it.
pub proof fn reference_replies_have_their_fields(v: SpecRefs)
    ensures
        field_of(refs_json(v), "node"@) == Some(named_json(v.id, v.name)),
        field_of(refs_json(v), "reference"@) == Some(target_or_null(v.reference)),
        field_of(refs_json(v), "incoming"@) == Some(SpecJson::List(targets_json(v.incoming))),
{
    reveal_strlit("node");
    reveal_strlit("reference");
    reveal_strlit("incoming");
    assert("node"@.len() != "reference"@.len());
    assert("node"@.len() != "incoming"@.len());
    assert("reference"@.len() != "incoming"@.len());
    let f = seq![
        ("node"@, named_json(v.id, v.name)),
        ("reference"@, target_or_null(v.reference)),
        ("incoming"@, SpecJson::List(targets_json(v.incoming))),
    ];
    assert(refs_json(v) == object(f));
    the_last_field_counts(f, "node"@);
    assert(f[0].0 == "node"@);
    the_last_field_counts(f, "reference"@);
    assert(f[1].0 == "reference"@);
    the_last_field_counts(f, "incoming"@);
    assert(f[2].0 == "incoming"@);
}

/// A history has its node, says whether there is one, and has the snapshots.
pub proof fn history_replies_have_their_fields(v: SpecHistory)
    ensures
        field_of(history_json(v), "node"@) == Some(named_json(v.id, v.name)),
        field_of(history_json(v), "hasHistory"@) == Some(SpecJson::Bool(v.has_history)),
        field_of(history_json(v), "snapshots"@) == Some(SpecJson::List(snapshots_json(v.snapshots))),
{
    reveal_strlit("node");
    reveal_strlit("hasHistory");
    reveal_strlit("snapshots");
    assert("node"@.len() != "hasHistory"@.len());
    assert("node"@.len() != "snapshots"@.len());
    assert("hasHistory"@.len() != "snapshots"@.len());
    let f = seq![
        ("node"@, named_json(v.id, v.name)),
        ("hasHistory"@, SpecJson::Bool(v.has_history)),
        ("snapshots"@, SpecJson::List(snapshots_json(v.snapshots))),
    ];
    assert(history_json(v) == object(f));
    the_last_field_counts(f, "node"@);
    assert(f[0].0 == "node"@);
    the_last_field_counts(f, "hasHistory"@);
    assert(f[1].0 == "hasHistory"@);
    the_last_field_counts(f, "snapshots"@);
    assert(f[2].0 == "snapshots"@);
}

/// Of a blob its size, its format and the start of its text are told.
pub proof fn blob_replies_have_their_fields(v: SpecBlobInfo)
    ensures
        field_of(blob_json(v), "bytes"@) == Some(SpecJson::Int(v.bytes as int)),
        field_of(blob_json(v), "format"@) == Some(text_or_null(v.format)),
        field_of(blob_json(v), "textPreview"@) == Some(text_or_null(v.preview)),
{
    reveal_strlit("bytes");
    reveal_strlit("format");
    reveal_strlit("textPreview");
    assert("bytes"@.len() != "format"@.len());
    assert("bytes"@.len() != "textPreview"@.len());
    assert("format"@.len() != "textPreview"@.len());
    let f = seq![
        ("bytes"@, SpecJson::Int(v.bytes as int)),
        ("format"@, text_or_null(v.format)),
        ("textPreview"@, text_or_null(v.preview)),
    ];
    assert(blob_json(v) == object(f));
    the_last_field_counts(f, "bytes"@);
    assert(f[0].0 == "bytes"@);
    the_last_field_counts(f, "format"@);
    assert(f[1].0 == "format"@);
    the_last_field_counts(f, "textPreview"@);
    assert(f[2].0 == "textPreview"@);
}

/// What was created is told with its id, its name, whether it is a new shard, and the warnings.
pub proof fn creation_replies_have_their_fields(v: CreateOutcome)
    ensures
        field_of(created_json(v), "created"@) == Some(id_json(v.id)),
        field_of(created_json(v), "name"@) == Some(SpecJson::Text(v.name@)),
        field_of(created_json(v), "newShard"@) == Some(SpecJson::Bool(v.new_shard)),
        field_of(created_json(v), "warnings"@) == Some(texts_json(text_views(v.warnings@))),
{
    reveal_strlit("created");
    reveal_strlit("name");
    reveal_strlit("newShard");
    reveal_strlit("warnings");
    assert("created"@.len() != "name"@.len());
    assert("created"@.len() != "newShard"@.len());
    assert("created"@.len() != "warnings"@.len());
    assert("name"@.len() != "newShard"@.len());
    assert("name"@.len() != "warnings"@.len());
    assert("newShard"@[0] != "warnings"@[0]);
    let f = seq![
        ("created"@, id_json(v.id)),
        ("name"@, SpecJson::Text(v.name@)),
        ("newShard"@, SpecJson::Bool(v.new_shard)),
        ("warnings"@, texts_json(text_views(v.warnings@))),
    ];
    assert(created_json(v) == object(f));
    the_last_field_counts(f, "created"@);
    assert(f[0].0 == "created"@);
    the_last_field_counts(f, "name"@);
    assert(f[1].0 == "name"@);
    the_last_field_counts(f, "newShard"@);
    assert(f[2].0 == "newShard"@);
    the_last_field_counts(f, "warnings"@);
    assert(f[3].0 == "warnings"@);
}

/// What was renamed is told with its id and its new name.
pub proof fn rename_replies_have_their_fields(id: Uuid, name: Seq<char>)
    ensures
        field_of(renamed_json(id, name), "renamed"@) == Some(id_json(id)),
        field_of(renamed_json(id, name), "name"@) == Some(SpecJson::Text(name)),
{
    reveal_strlit("renamed");
    reveal_strlit("name");
    assert("renamed"@.len() != "name"@.len());
    let f = seq![
        ("renamed"@, id_json(id)),
        ("name"@, SpecJson::Text(name)),
    ];
    assert(renamed_json(id, name) == object(f));
    the_last_field_counts(f, "renamed"@);
    assert(f[0].0 == "renamed"@);
    the_last_field_counts(f, "name"@);
    assert(f[1].0 == "name"@);
}

/// What was removed is told with its id, and that it was emptied.
pub proof fn removal_replies_have_their_fields(id: Uuid)
    ensures
        field_of(removed_json(id), "removed"@) == Some(id_json(id)),
        field_of(removed_json(id), "emptied"@) == Some(SpecJson::Bool(true)),
{
    reveal_strlit("removed");
    reveal_strlit("emptied");
    assert("removed"@[0] != "emptied"@[0]);
    let f = seq![
        ("removed"@, id_json(id)),
        ("emptied"@, SpecJson::Bool(true)),
    ];
    assert(removed_json(id) == object(f));
    the_last_field_counts(f, "removed"@);
    assert(f[0].0 == "removed"@);
    the_last_field_counts(f, "emptied"@);
    assert(f[1].0 == "emptied"@);
}

/// A link has the two ends, the one that refers first.
pub proof fn link_replies_have_their_fields(from: Uuid, to: Uuid)
    ensures
        field_of(ends_json(from, to), "from"@) == Some(id_json(from)),
        field_of(ends_json(from, to), "to"@) == Some(id_json(to)),
{
    reveal_strlit("from");
    reveal_strlit("to");
    assert("from"@.len() != "to"@.len());
    let f = seq![
        ("from"@, id_json(from)),
        ("to"@, id_json(to)),
    ];
    assert(ends_json(from, to) == object(f));
    the_last_field_counts(f, "from"@);
    assert(f[0].0 == "from"@);
    the_last_field_counts(f, "to"@);
    assert(f[1].0 == "to"@);
}

/// What was reverted is told with its id, its name, and why it was not where it was not.
pub proof fn revert_replies_have_their_fields(v: RevertOutcome)
    ensures
        field_of(reverted_json(v), "reverted"@) == Some(id_json(v.id)),
        field_of(reverted_json(v), "name"@) == Some(SpecJson::Text(v.name@)),
        field_of(reverted_json(v), "reason"@) == Some(text_or_null(opt_text(v.no_snapshot))),
{
    reveal_strlit("reverted");
    reveal_strlit("name");
    reveal_strlit("reason");
    assert("reverted"@.len() != "name"@.len());
    assert("reverted"@.len() != "reason"@.len());
    assert("name"@.len() != "reason"@.len());
    let f = seq![
        ("reverted"@, id_json(v.id)),
        ("name"@, SpecJson::Text(v.name@)),
        ("reason"@, text_or_null(opt_text(v.no_snapshot))),
    ];
    assert(reverted_json(v) == object(f));
    the_last_field_counts(f, "reverted"@);
    assert(f[0].0 == "reverted"@);
    the_last_field_counts(f, "name"@);
    assert(f[1].0 == "name"@);
    the_last_field_counts(f, "reason"@);
    assert(f[2].0 == "reason"@);
}

/// A batch tells how much it changed, whether it was tried out only, and how much was appended.
pub proof fn batch_replies_have_their_fields(v: BatchOutcome, dry_run: bool, appended: usize)
    ensures
        field_of(batch_json(v, dry_run, appended), "changed"@) == Some(SpecJson::Int(v.changed as int)),
        field_of(batch_json(v, dry_run, appended), "dryRun"@) == Some(SpecJson::Bool(dry_run)),
        field_of(batch_json(v, dry_run, appended), "appended"@) == Some(SpecJson::Int(appended as int)),
{
    reveal_strlit("changed");
    reveal_strlit("dryRun");
    reveal_strlit("appended");
    assert("changed"@.len() != "dryRun"@.len());
    assert("changed"@.len() != "appended"@.len());
    assert("dryRun"@.len() != "appended"@.len());
    let f = seq![
        ("changed"@, SpecJson::Int(v.changed as int)),
        ("dryRun"@, SpecJson::Bool(dry_run)),
        ("appended"@, SpecJson::Int(appended as int)),
    ];
    assert(batch_json(v, dry_run, appended) == object(f));
    the_last_field_counts(f, "changed"@);
    assert(f[0].0 == "changed"@);
    the_last_field_counts(f, "dryRun"@);
    assert(f[1].0 == "dryRun"@);
    the_last_field_counts(f, "appended"@);
    assert(f[2].0 == "appended"@);
}

/// A template has its id, its name and the number of its instances.
pub proof fn template_replies_have_their_fields(v: SpecTemplate)
    ensures
        field_of(template_json(v), "id"@) == Some(id_json(v.id)),
        field_of(template_json(v), "name"@) == Some(SpecJson::Text(v.name)),
        field_of(template_json(v), "instances"@) == Some(SpecJson::Int(v.instances as int)),
{
    reveal_strlit("id");
    reveal_strlit("name");
    reveal_strlit("instances");
    assert("id"@.len() != "name"@.len());
    assert("id"@.len() != "instances"@.len());
    assert("name"@.len() != "instances"@.len());
    let f = seq![
        ("id"@, id_json(v.id)),
        ("name"@, SpecJson::Text(v.name)),
        ("instances"@, SpecJson::Int(v.instances as int)),
    ];
    assert(template_json(v) == object(f));
    the_last_field_counts(f, "id"@);
    assert(f[0].0 == "id"@);
    the_last_field_counts(f, "name"@);
    assert(f[1].0 == "name"@);
    the_last_field_counts(f, "instances"@);
    assert(f[2].0 == "instances"@);
}

/// What was made of records is counted, and its template is told.
pub proof fn instance_replies_have_their_fields(v: ImportInstancesOutcome)
    ensures
        field_of(made_json(v), "imported"@) == Some(SpecJson::Int(v.count as int)),
        field_of(made_json(v), "template"@) == Some(named_json(v.template_id, v.template_name@)),
{
    reveal_strlit("imported");
    reveal_strlit("template");
    assert("imported"@[0] != "template"@[0]);
    let f = seq![
        ("imported"@, SpecJson::Int(v.count as int)),
        ("template"@, named_json(v.template_id, v.template_name@)),
    ];
    assert(made_json(v) == object(f));
    the_last_field_counts(f, "imported"@);
    assert(f[0].0 == "imported"@);
    the_last_field_counts(f, "template"@);
    assert(f[1].0 == "template"@);
}

/// A template that was removed is told with its name and id, and the instances that went with
/// it are counted.
pub proof fn template_removal_replies_have_their_fields(v: TemplateRemoveOutcome)
    ensures
        field_of(gone_json(v), "removed"@) == Some(SpecJson::Text(v.name@)),
        field_of(gone_json(v), "id"@) == Some(id_json(v.id)),
        field_of(gone_json(v), "removedInstances"@) == Some(SpecJson::Int(v.removed_instances as int)),
{
    reveal_strlit("removed");
    reveal_strlit("id");
    reveal_strlit("removedInstances");
    assert("removed"@.len() != "id"@.len());
    assert("removed"@.len() != "removedInstances"@.len());
    assert("id"@.len() != "removedInstances"@.len());
    let f = seq![
        ("removed"@, SpecJson::Text(v.name@)),
        ("id"@, id_json(v.id)),
        ("removedInstances"@, SpecJson::Int(v.removed_instances as int)),
    ];
    assert(gone_json(v) == object(f));
    the_last_field_counts(f, "removed"@);
    assert(f[0].0 == "removed"@);
    the_last_field_counts(f, "id"@);
    assert(f[1].0 == "id"@);
    the_last_field_counts(f, "removedInstances"@);
    assert(f[2].0 == "removedInstances"@);
}

/// An export has its format and its text.
pub proof fn export_replies_have_their_fields(v: ExportOutcome)
    ensures
        field_of(export_json(v), "format"@) == Some(SpecJson::Text(v.format@)),
        field_of(export_json(v), "text"@) == Some(SpecJson::Text(v.text@)),
{
    reveal_strlit("format");
    reveal_strlit("text");
    assert("format"@.len() != "text"@.len());
    let f = seq![
        ("format"@, SpecJson::Text(v.format@)),
        ("text"@, SpecJson::Text(v.text@)),
    ];
    assert(export_json(v) == object(f));
    the_last_field_counts(f, "format"@);
    assert(f[0].0 == "format"@);
    the_last_field_counts(f, "text"@);
    assert(f[1].0 == "text"@);
}

/// An import counts the nodes and those that were there, and says whether it replaced them.
pub proof fn import_replies_have_their_fields(v: ImportOutcome)
    ensures
        field_of(imported_json(v), "nodes"@) == Some(SpecJson::Int(v.nodes as int)),
        field_of(imported_json(v), "previousNodes"@) == Some(number_or_null(v.previous_nodes)),
        field_of(imported_json(v), "replaced"@) == Some(SpecJson::Bool(v.previous_nodes is Some)),
{
    reveal_strlit("nodes");
    reveal_strlit("previousNodes");
    reveal_strlit("replaced");
    assert("nodes"@.len() != "previousNodes"@.len());
    assert("nodes"@.len() != "replaced"@.len());
    assert("previousNodes"@.len() != "replaced"@.len());
    let f = seq![
        ("nodes"@, SpecJson::Int(v.nodes as int)),
        ("previousNodes"@, number_or_null(v.previous_nodes)),
        ("replaced"@, SpecJson::Bool(v.previous_nodes is Some)),
    ];
    assert(imported_json(v) == object(f));
    the_last_field_counts(f, "nodes"@);
    assert(f[0].0 == "nodes"@);
    the_last_field_counts(f, "previousNodes"@);
    assert(f[1].0 == "previousNodes"@);
    the_last_field_counts(f, "replaced"@);
    assert(f[2].0 == "replaced"@);
}

/// What was appended is told with the number of nodes.
pub proof fn append_replies_have_their_fields(n: usize)
    ensures
        field_of(appended_json(n), "appended"@) == Some(SpecJson::Bool(true)),
        field_of(appended_json(n), "nodeCount"@) == Some(SpecJson::Int(n as int)),
{
    reveal_strlit("appended");
    reveal_strlit("nodeCount");
    assert("appended"@.len() != "nodeCount"@.len());
    let f = seq![
        ("appended"@, SpecJson::Bool(true)),
        ("nodeCount"@, SpecJson::Int(n as int)),
    ];
    assert(appended_json(n) == object(f));
    the_last_field_counts(f, "appended"@);
    assert(f[0].0 == "appended"@);
    the_last_field_counts(f, "nodeCount"@);
    assert(f[1].0 == "nodeCount"@);
}

/// A blob that was imported is told with its id and its name.
pub proof fn blob_import_replies_have_their_fields(id: Uuid, name: Seq<char>)
    ensures
        field_of(blob_in_json(id, name), "imported"@) == Some(id_json(id)),
        field_of(blob_in_json(id, name), "name"@) == Some(SpecJson::Text(name)),
{
    reveal_strlit("imported");
    reveal_strlit("name");
    assert("imported"@.len() != "name"@.len());
    let f = seq![
        ("imported"@, id_json(id)),
        ("name"@, SpecJson::Text(name)),
    ];
    assert(blob_in_json(id, name) == object(f));
    the_last_field_counts(f, "imported"@);
    assert(f[0].0 == "imported"@);
    the_last_field_counts(f, "name"@);
    assert(f[1].0 == "name"@);
}

/// A blob that was exported is told with its size and where it went.
pub proof fn blob_export_replies_have_their_fields(v: BlobExportOutcome)
    ensures
        field_of(blob_out_json(v), "bytes"@) == Some(SpecJson::Int(v.bytes as int)),
        field_of(blob_out_json(v), "dest"@) == Some(SpecJson::Text(v.dest@)),
{
    reveal_strlit("bytes");
    reveal_strlit("dest");
    assert("bytes"@.len() != "dest"@.len());
    let f = seq![
        ("bytes"@, SpecJson::Int(v.bytes as int)),
        ("dest"@, SpecJson::Text(v.dest@)),
    ];
    assert(blob_out_json(v) == object(f));
    the_last_field_counts(f, "bytes"@);
    assert(f[0].0 == "bytes"@);
    the_last_field_counts(f, "dest"@);
    assert(f[1].0 == "dest"@);
}

/// Values in replies: an id is its text, what is not there is null, and a list has one entry
/// for each part, in order.
pub proof fn values_are_told(u: Uuid, t: Option<Seq<char>>, n: Option<usize>, s: Seq<Seq<char>>)
    ensures
        id_json(u) == SpecJson::Text(crate::codec::uuid_text(u)),
        t is None ==> text_or_null(t) is Null,
        t is Some ==> text_or_null(t) == SpecJson::Text(t->Some_0),
        n is None ==> number_or_null(n) is Null,
        n is Some ==> number_or_null(n) == SpecJson::Int(n->Some_0 as int),
        texts_json(s) is List && texts_json(s)->List_0.len() == s.len(),
        forall|i: int|
            0 <= i < s.len() ==> #[trigger] texts_json(s)->List_0[i] == SpecJson::Text(s[i]),
{
}

/// A link names its two ends, and a template that was made its id and name.
pub proof fn links_and_templates_are_named(from: Uuid, to: Uuid, name: Seq<char>)
    ensures
        field_of(linked_json(from, to), "linked"@) == Some(ends_json(from, to)),
        field_of(updated_json(from), "updated"@) == Some(id_json(from)),
        field_of(defined_json(from, name), "template"@) == Some(named_json(from, name)),
{
    let f = seq![("linked"@, ends_json(from, to))];
    assert(linked_json(from, to) == object(f));
    the_last_field_counts(f, "linked"@);
    assert(f[0].0 == "linked"@);
    let g = seq![("updated"@, id_json(from))];
    assert(updated_json(from) == object(g));
    the_last_field_counts(g, "updated"@);
    assert(g[0].0 == "updated"@);
    let h = seq![("template"@, named_json(from, name))];
    assert(defined_json(from, name) == object(h));
    the_last_field_counts(h, "template"@);
    assert(h[0].0 == "template"@);
}

} // verus!
