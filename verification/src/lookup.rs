//! What can be asked of a file: what it is, what differs from another one, what is found
//! in it, and what is known of a node.
use crate::catalog::{id_keys, sort_ids};
use crate::codec::{models, same_value, Node, SpecNode, SpecValue, Uuid, Value};
use crate::convert::{kind_word, kind_word_of, opt_text};
use crate::model::{children_of, counts, find_id, first_pick, folded, ints, lookup_finds_what_counts,
    named_child, picked, picks,
    Nodes};
use crate::ops::{amounts_to, display, display_of_value, display_value, id_argument, missing_node,
    no_node, parse_uuid, plain_display, plain_error, tree_view, view_model, view_models, whole_view,
    ErrKind, NodeView, OpError, OpResult, SpecOpError, SpecView};
use crate::query::{by_shape, matches_where, meets, name_index, positions_with, shape_numbers,
    ShapeIndex};
use crate::sort::sorted;
use crate::template::{find_instances_of, instances_of, resolve_template, template_meant};
use crate::text::{join2, owned, same_text, text_of_bytes};
use crate::tree::{fold, found, id_list, ref_models, Store};
use vstd::prelude::*;
use vstd::utf8::{decode_utf8, valid_utf8};

verus! {

// ---------------------------------------------------------------------------
// Differences
// ---------------------------------------------------------------------------

/// A node that is in one file only.
#[derive(Debug)]
pub struct DiffItem {
    pub id: Uuid,
    pub name: String,
}

/// A node with another name or value.
#[derive(Debug)]
pub struct DiffChange {
    pub id: Uuid,
    pub from_name: String,
    pub from_value: String,
    pub to_name: String,
    pub to_value: String,
}

/// What differs between two files.
#[derive(Debug)]
pub struct DiffOutcome {
    pub added: Vec<DiffItem>,
    pub removed: Vec<DiffItem>,
    pub changed: Vec<DiffChange>,
}

/// The model of [`DiffItem`].
pub struct SpecDiffItem {
    pub id: Uuid,
    pub name: Seq<char>,
}

/// The model of [`DiffChange`].
pub struct SpecDiffChange {
    pub id: Uuid,
    pub from_name: Seq<char>,
    pub from_value: Seq<char>,
    pub to_name: Seq<char>,
    pub to_value: Seq<char>,
}

impl View for DiffItem {
    type V = SpecDiffItem;

    open spec fn view(&self) -> SpecDiffItem {
        SpecDiffItem { id: self.id, name: self.name@ }
    }
}

impl View for DiffChange {
    type V = SpecDiffChange;

    open spec fn view(&self) -> SpecDiffChange {
        SpecDiffChange {
            id: self.id,
            from_name: self.from_name@,
            from_value: self.from_value@,
            to_name: self.to_name@,
            to_value: self.to_value@,
        }
    }
}

/// The models of items.
pub open spec fn all_views<T: View>(s: Seq<T>) -> Seq<T::V> {
    Seq::new(s.len(), |i: int| s[i]@)
}

/// The ids that are in the first run of nodes only.
pub open spec fn only_in(a: Nodes, b: Nodes) -> Seq<Uuid> {
    id_list(picked(folded(a), |n: SpecNode| find_id(b, n.id) is None))
}

/// Whether a node has another name or value in `b`.
pub open spec fn differs_in(n: SpecNode, b: Nodes) -> bool {
    match found(b, n.id) {
        Some(m) => m.name != n.name || !same_value(m.value, n.value),
        None => false,
    }
}

/// The ids that are in both runs, with another name or value.
pub open spec fn differing(a: Nodes, b: Nodes) -> Seq<Uuid> {
    id_list(picked(folded(a), |n: SpecNode| differs_in(n, b)))
}

/// Ids in the order of their bytes.
pub open spec fn in_id_order(ids: Seq<Uuid>) -> Seq<Uuid> {
    sorted(ids, id_keys(ids))
}

/// A node by its id and its name.
pub open spec fn diff_item(t: Nodes, id: Uuid) -> SpecDiffItem {
    SpecDiffItem { id, name: t[find_id(t, id)->Some_0].name }
}

/// Nodes by their ids and their names.
pub open spec fn diff_items(t: Nodes, ids: Seq<Uuid>) -> Seq<SpecDiffItem> {
    Seq::new(ids.len(), |i: int| diff_item(t, ids[i]))
}

/// The text of a value as it is shown, or the empty text.
pub open spec fn shown_text(t: Nodes, v: SpecValue, ft: Seq<(u64, String)>) -> Seq<char> {
    match display(t, v, ft) {
        Some(s) => s,
        None => Seq::empty(),
    }
}

/// What a node was, and what it is.
pub open spec fn diff_change(a: Nodes, b: Nodes, id: Uuid, ft: Seq<(u64, String)>) -> SpecDiffChange {
    let n = a[find_id(a, id)->Some_0];
    let m = b[find_id(b, id)->Some_0];
    SpecDiffChange {
        id,
        from_name: n.name,
        from_value: shown_text(a, n.value, ft),
        to_name: m.name,
        to_value: shown_text(b, m.value, ft),
    }
}

/// What nodes were, and what they are.
pub open spec fn diff_changes(
    a: Nodes,
    b: Nodes,
    ids: Seq<Uuid>,
    ft: Seq<(u64, String)>,
) -> Seq<SpecDiffChange> {
    Seq::new(ids.len(), |i: int| diff_change(a, b, ids[i], ft))
}

/// The ids of the nodes of `a`, which is folded, that are not in `b`.
fn ids_only_in(a: &Store, b: &Store) -> (r: Vec<Uuid>)
    requires
        a.wf(),
        b.wf(),
    ensures
        r@ == id_list(picked(a@, |n: SpecNode| find_id(b@, n.id) is None)),
{
    let ghost t = a@;
    let ghost p = |n: SpecNode| find_id(b@, n.id) is None;
    let nodes = a.nodes();
    let mut out: Vec<Uuid> = Vec::new();
    let mut i: usize = 0;
    assert(t.take(0) =~= Seq::<SpecNode>::empty());
    assert(out@ =~= id_list(picked(t.take(0), p)));
    while i < nodes.len()
        invariant
            i <= nodes@.len(),
            b.wf(),
            t == a@,
            models(nodes@) == t,
            p == (|n: SpecNode| find_id(b@, n.id) is None),
            out@ == id_list(picked(t.take(i as int), p)),
        decreases nodes@.len() - i,
    {
        proof {
            crate::tree::lemma_picked_step(t, p, i as int);
            assert(t[i as int] == nodes@[i as int]@);
        }
        if b.position(nodes[i].id).is_none() {
            out.push(nodes[i].id);
        }
        assert(out@ =~= id_list(picked(t.take(i + 1), p)));
        i = i + 1;
    }
    assert(t.take(t.len() as int) =~= t);
    out
}

/// The ids of the nodes of `a`, which is folded, that have another name or value in
/// `b`.
fn ids_differing(a: &Store, b: &Store) -> (r: Vec<Uuid>)
    requires
        a.wf(),
        b.wf(),
    ensures
        r@ == id_list(picked(a@, |n: SpecNode| differs_in(n, b@))),
{
    let ghost t = a@;
    let ghost p = |n: SpecNode| differs_in(n, b@);
    let nodes = a.nodes();
    let mut out: Vec<Uuid> = Vec::new();
    let mut i: usize = 0;
    assert(t.take(0) =~= Seq::<SpecNode>::empty());
    assert(out@ =~= id_list(picked(t.take(0), p)));
    while i < nodes.len()
        invariant
            i <= nodes@.len(),
            b.wf(),
            t == a@,
            models(nodes@) == t,
            p == (|n: SpecNode| differs_in(n, b@)),
            out@ == id_list(picked(t.take(i as int), p)),
        decreases nodes@.len() - i,
    {
        proof {
            crate::tree::lemma_picked_step(t, p, i as int);
            assert(t[i as int] == nodes@[i as int]@);
        }
        let differs = match b.get(nodes[i].id) {
            Some(m) => !same_text(m.name.as_str(), nodes[i].name.as_str()) || !(m.value
                == nodes[i].value),
            None => false,
        };
        if differs {
            out.push(nodes[i].id);
        }
        assert(out@ =~= id_list(picked(t.take(i + 1), p)));
        i = i + 1;
    }
    assert(t.take(t.len() as int) =~= t);
    out
}

proof fn lemma_picked_id(t: Nodes, p: spec_fn(SpecNode) -> bool, k: int)
    requires
        0 <= k < picked(folded(t), p).len(),
    ensures
        find_id(t, picked(folded(t), p)[k].id) is Some,
        p(picked(folded(t), p)[k]),
        found(t, picked(folded(t), p)[k].id) == Some(picked(folded(t), p)[k]),
{
    let f = folded(t);
    crate::model::lemma_picks(f, p);
    let i = picks(f, p)[k];
    let id = f[i].id;
    crate::model::fold_keeps_lookup(t, id);
    crate::model::lemma_find_id(f, id);
    crate::model::lemma_find_id(t, id);
    let j = find_id(f, id)->Some_0;
    assert(f[j].id == f[i].id);
    assert(j == i);
}

proof fn lemma_ordered_id(ids: Seq<Uuid>, k: int)
    requires
        0 <= k < in_id_order(ids).len(),
    ensures
        ids.contains(in_id_order(ids)[k]),
        in_id_order(ids).len() == ids.len(),
{
    let p = crate::sort::sorted_members(ids, id_keys(ids));
}

/// Lists nodes by their ids and their names.
fn list_items(store: &Store, ids: &Vec<Uuid>) -> (r: Vec<DiffItem>)
    requires
        store.wf(),
        forall|k: int| 0 <= k < ids@.len() ==> find_id(store@, #[trigger] ids@[k]) is Some,
    ensures
        all_views(r@) == diff_items(store@, ids@),
{
    let mut out: Vec<DiffItem> = Vec::new();
    let mut i: usize = 0;
    while i < ids.len()
        invariant
            i <= ids@.len(),
            store.wf(),
            forall|k: int| 0 <= k < ids@.len() ==> find_id(store@, #[trigger] ids@[k]) is Some,
            all_views(out@) == diff_items(store@, ids@).take(i as int),
        decreases ids@.len() - i,
    {
        let id = ids[i];
        let ghost o0 = out@;
        let name = match store.get(id) {
            Some(n) => n.name.clone(),
            None => owned(""),
        };
        out.push(DiffItem { id, name });
        proof {
            assert(find_id(store@, ids@[i as int]) is Some);
            assert(all_views(out@) =~= all_views(o0).push(diff_item(store@, ids@[i as int])));
            assert(diff_items(store@, ids@).take(i + 1) =~= diff_items(store@, ids@).take(
                i as int,
            ).push(diff_item(store@, ids@[i as int])));
        }
        i = i + 1;
    }
    assert(diff_items(store@, ids@).take(ids@.len() as int) =~= diff_items(store@, ids@));
    out
}

/// The text of a value as it is shown, or the empty text.
fn show_text(store: &Store, v: &Value, ft: &Vec<(u64, String)>) -> (r: String)
    requires
        store.wf(),
    ensures
        r@ == shown_text(store@, v@, ft@),
{
    match display_value(store, v, ft) {
        Some(s) => s,
        None => String::new(),
    }
}

/// Lists what nodes were, and what they are.
fn list_changes(a: &Store, b: &Store, ids: &Vec<Uuid>, ft: &Vec<(u64, String)>) -> (r: Vec<
    DiffChange,
>)
    requires
        a.wf(),
        b.wf(),
        forall|k: int|
            0 <= k < ids@.len() ==> find_id(a@, #[trigger] ids@[k]) is Some && find_id(b@, ids@[k]) is Some,
    ensures
        all_views(r@) == diff_changes(a@, b@, ids@, ft@),
{
    let mut out: Vec<DiffChange> = Vec::new();
    let mut i: usize = 0;
    while i < ids.len()
        invariant
            i <= ids@.len(),
            a.wf(),
            b.wf(),
            forall|k: int|
                0 <= k < ids@.len() ==> find_id(a@, #[trigger] ids@[k]) is Some && find_id(
                    b@,
                    ids@[k],
                ) is Some,
            all_views(out@) == diff_changes(a@, b@, ids@, ft@).take(i as int),
        decreases ids@.len() - i,
    {
        let id = ids[i];
        let ghost o0 = out@;
        assert(find_id(a@, ids@[i as int]) is Some);
        if let Some(n) = a.get(id) {
            if let Some(m) = b.get(id) {
                out.push(
                    DiffChange {
                        id,
                        from_name: n.name.clone(),
                        from_value: show_text(a, &n.value, ft),
                        to_name: m.name.clone(),
                        to_value: show_text(b, &m.value, ft),
                    },
                );
            }
        }
        proof {
            let c = diff_change(a@, b@, ids@[i as int], ft@);
            assert(all_views(out@) =~= all_views(o0).push(c));
            assert(diff_changes(a@, b@, ids@, ft@).take(i + 1) =~= diff_changes(
                a@,
                b@,
                ids@,
                ft@,
            ).take(i as int).push(c));
        }
        i = i + 1;
    }
    assert(diff_changes(a@, b@, ids@, ft@).take(ids@.len() as int) =~= diff_changes(
        a@,
        b@,
        ids@,
        ft@,
    ));
    out
}

/// What differs from the first file to the second: the nodes that only one of them has,
/// and those with another name or value, each in the order of the ids. `ft` gives the
/// texts of doubles.
pub fn diff(sa: &Store, sb: &Store, ft: &Vec<(u64, String)>) -> (r: DiffOutcome)
    requires
        sa.wf(),
        sb.wf(),
    ensures
        all_views(r.added@) == diff_items(sb@, in_id_order(only_in(sb@, sa@))),
        all_views(r.removed@) == diff_items(sa@, in_id_order(only_in(sa@, sb@))),
        all_views(r.changed@) == diff_changes(sa@, sb@, in_id_order(differing(sa@, sb@)), ft@),
        lists_missing(all_views(r.added@), sb@, sa@),
        lists_missing(all_views(r.removed@), sa@, sb@),
        lists_changed(all_views(r.changed@), sa@, sb@),
{
    proof {
        diff_tells_all(sa@, sb@, ft@);
    }
    let fa = fold(sa);
    let fb = fold(sb);
    let gone = sort_ids(&ids_only_in(&fa, sb));
    let new = sort_ids(&ids_only_in(&fb, sa));
    let other = sort_ids(&ids_differing(&fa, sb));
    proof {
        assert forall|k: int| 0 <= k < gone@.len() implies find_id(sa@, #[trigger] gone@[k]) is Some by {
            lemma_only_in(sa@, sb@, k);
        }
        assert forall|k: int| 0 <= k < new@.len() implies find_id(sb@, #[trigger] new@[k]) is Some by {
            lemma_only_in(sb@, sa@, k);
        }
        assert forall|k: int| 0 <= k < other@.len() implies find_id(sa@, #[trigger] other@[k]) is Some
            && find_id(sb@, other@[k]) is Some by {
            lemma_differing(sa@, sb@, k);
        }
    }
    DiffOutcome {
        added: list_items(sb, &new),
        removed: list_items(sa, &gone),
        changed: list_changes(sa, sb, &other, ft),
    }
}

proof fn lemma_only_in(a: Nodes, b: Nodes, k: int)
    requires
        0 <= k < in_id_order(only_in(a, b)).len(),
    ensures
        find_id(a, in_id_order(only_in(a, b))[k]) is Some,
        find_id(b, in_id_order(only_in(a, b))[k]) is None,
{
    let ids = only_in(a, b);
    lemma_ordered_id(ids, k);
    let j = choose|j: int| 0 <= j < ids.len() && ids[j] == in_id_order(ids)[k];
    lemma_picked_id(a, |n: SpecNode| find_id(b, n.id) is None, j);
}

proof fn lemma_differing(a: Nodes, b: Nodes, k: int)
    requires
        0 <= k < in_id_order(differing(a, b)).len(),
    ensures
        ({
            let id = in_id_order(differing(a, b))[k];
            &&& found(a, id) is Some
            &&& found(b, id) is Some
            &&& differs_in(found(a, id)->Some_0, b)
        }),
{
    let ids = differing(a, b);
    lemma_ordered_id(ids, k);
    let j = choose|j: int| 0 <= j < ids.len() && ids[j] == in_id_order(ids)[k];
    lemma_picked_id(a, |n: SpecNode| differs_in(n, b), j);
}

proof fn lemma_listed(t: Nodes, p: spec_fn(SpecNode) -> bool, id: Uuid)
    ensures
        in_id_order(id_list(picked(folded(t), p))).contains(id) <==> found(t, id) is Some && p(
            found(t, id)->Some_0,
        ),
{
    let f = folded(t);
    let ids = id_list(picked(f, p));
    let q = crate::sort::sorted_members(ids, id_keys(ids));
    if in_id_order(ids).contains(id) {
        let k = choose|k: int| 0 <= k < in_id_order(ids).len() && in_id_order(ids)[k] == id;
        lemma_ordered_id(ids, k);
        let j = choose|j: int| 0 <= j < ids.len() && ids[j] == id;
        lemma_picked_id(t, p, j);
    }
    if found(t, id) is Some && p(found(t, id)->Some_0) {
        crate::model::fold_keeps_lookup(t, id);
        crate::model::lemma_find_id(f, id);
        crate::model::lemma_find_id(t, id);
        crate::model::lemma_picks(f, p);
        let j = find_id(f, id)->Some_0;
        assert(p(f[j]));
        let k = choose|k: int| 0 <= k < picks(f, p).len() && picks(f, p)[k] == j;
        assert(ids[k] == id);
        assert(ids.contains(id));
    }
}

/// The difference of two files is complete: a node is listed as removed or added exactly
/// where only the one file has it, and as changed exactly where both have it and its name
/// or its value differs.
pub proof fn diff_is_complete(a: Nodes, b: Nodes, id: Uuid)
    ensures
        in_id_order(only_in(a, b)).contains(id) <==> find_id(a, id) is Some && find_id(b, id) is None,
        in_id_order(only_in(b, a)).contains(id) <==> find_id(b, id) is Some && find_id(a, id) is None,
        in_id_order(differing(a, b)).contains(id) <==> found(a, id) is Some && differs_in(
            found(a, id)->Some_0,
            b,
        ),
{
    crate::model::lemma_find_id(a, id);
    crate::model::lemma_find_id(b, id);
    lemma_listed(a, |n: SpecNode| find_id(b, n.id) is None, id);
    lemma_listed(b, |n: SpecNode| find_id(a, n.id) is None, id);
    lemma_listed(a, |n: SpecNode| differs_in(n, b), id);
}

/// A file does not differ from itself, but for a double that is not a number, which
/// equals nothing.
pub proof fn diff_with_itself(t: Nodes)
    requires
        forall|i: int| 0 <= i < t.len() ==> same_value((#[trigger] t[i]).value, t[i].value),
    ensures
        only_in(t, t).len() == 0,
        differing(t, t).len() == 0,
{
    if only_in(t, t).len() > 0 {
        lemma_picked_id(t, |n: SpecNode| find_id(t, n.id) is None, 0);
    }
    if differing(t, t).len() > 0 {
        let p = |n: SpecNode| differs_in(n, t);
        lemma_picked_id(t, p, 0);
        let n = picked(folded(t), p)[0];
        crate::model::lemma_find_id(t, n.id);
        assert(differs_in(n, t));
        assert(t[find_id(t, n.id)->Some_0] == n);
    }
}

// ---------------------------------------------------------------------------
// Found nodes
// ---------------------------------------------------------------------------

/// A node that was found.
#[derive(Debug)]
pub struct Hit {
    pub id: Uuid,
    pub name: String,
    pub kind: &'static str,
    pub value: Option<String>,
}

/// The model of [`Hit`].
pub struct SpecHit {
    pub id: Uuid,
    pub name: Seq<char>,
    pub kind: Seq<char>,
    pub value: Option<Seq<char>>,
}

impl View for Hit {
    type V = SpecHit;

    open spec fn view(&self) -> SpecHit {
        SpecHit { id: self.id, name: self.name@, kind: self.kind@, value: opt_text(self.value) }
    }
}

/// Nodes as they are listed where they are found in a stream.
pub open spec fn plain_hits(t: Nodes, ft: Seq<(u64, String)>) -> Seq<SpecHit> {
    Seq::new(
        t.len(),
        |i: int|
            SpecHit {
                id: t[i].id,
                name: t[i].name,
                kind: kind_word(t[i].value),
                value: Some(plain_display(t[i].value, ft)),
            },
    )
}

/// The nodes of a stream of records whose name or text holds the pattern, by name and
/// then by id, as they are listed. `ft` gives the texts of doubles.
pub fn find(records: Vec<Node>, pattern: &str, ft: &Vec<(u64, String)>) -> (r: Vec<Hit>)
    ensures
        exists|hits: Nodes|
            all_views(r@) == #[trigger] plain_hits(hits, ft@) && pattern_hits(
                models(records@),
                pattern@,
                hits,
            ),
{
    let query = crate::scan::Query::NameOrText(owned(pattern));
    let ghost t = models(records@);
    let nodes = crate::scan::collect(records, &query);
    let ghost h = models(nodes@);
    let mut out: Vec<Hit> = Vec::new();
    let mut i: usize = 0;
    while i < nodes.len()
        invariant
            i <= nodes@.len(),
            h == models(nodes@),
            all_views(out@) == plain_hits(h, ft@).take(i as int),
        decreases nodes@.len() - i,
    {
        let n = &nodes[i];
        let ghost o0 = out@;
        let hit = Hit {
            id: n.id,
            name: n.name.clone(),
            kind: kind_word_of(&n.value),
            value: Some(display_of_value(&n.value, ft)),
        };
        let ghost hv = hit@;
        out.push(hit);
        proof {
            assert(h[i as int] == n@);
            assert(hv == plain_hits(h, ft@)[i as int]);
            assert(all_views(out@) =~= all_views(o0).push(hv));
            assert(plain_hits(h, ft@).take(i + 1) =~= plain_hits(h, ft@).take(i as int).push(hv));
        }
        i = i + 1;
    }
    proof {
        assert(plain_hits(h, ft@).take(h.len() as int) =~= plain_hits(h, ft@));
        let p = |n: SpecNode|
            pattern@.len() > 0 && (crate::text::holds_text(n.name, pattern@)
                || crate::scan::text_holds(n.value, pattern@));
        let q = |n: SpecNode| crate::scan::is_match(n, query);
        assert(p =~= q);
        assert(pattern_hits(t, pattern@, h));
    }
    out
}

/// The nodes of a stream whose name or text holds the pattern: of each id its last
/// record. Nothing holds the empty pattern.
pub open spec fn holding(t: Nodes, pattern: Seq<char>) -> Nodes {
    picked(
        folded(t),
        |n: SpecNode|
            pattern.len() > 0 && (crate::text::holds_text(n.name, pattern)
                || crate::scan::text_holds(n.value, pattern)),
    )
}

/// Whether `hits` are the nodes of a stream whose name or text holds the pattern, by
/// name and then by id.
pub open spec fn pattern_hits(t: Nodes, pattern: Seq<char>, hits: Nodes) -> bool {
    crate::sort::in_order(
        holding(t, pattern),
        crate::scan::hit_keys(holding(t, pattern)),
        hits,
    )
}

/// What is searched for: the instances of a template, the nodes with a name, or those of
/// the shape of a node; and what their values must be.
#[derive(Debug)]
pub struct MatchQuery {
    pub root: Option<String>,
    pub shape_of: Option<String>,
    pub template: Option<String>,
    pub wheres: Vec<(String, String)>,
    pub with_tree: bool,
}

/// A node that matches, with what is below it where that is asked for.
#[derive(Debug)]
pub struct MatchItem {
    pub id: Uuid,
    pub name: String,
    pub kind: &'static str,
    pub value: Option<String>,
    pub tree: Option<NodeView>,
}

/// The model of [`MatchItem`].
pub struct SpecMatch {
    pub id: Uuid,
    pub name: Seq<char>,
    pub kind: Seq<char>,
    pub value: Option<Seq<char>>,
    pub tree: Option<SpecView>,
}

impl View for MatchItem {
    type V = SpecMatch;

    open spec fn view(&self) -> SpecMatch {
        SpecMatch {
            id: self.id,
            name: self.name@,
            kind: self.kind@,
            value: opt_text(self.value),
            tree: match self.tree {
                Some(v) => Some(view_model(v)),
                None => None,
            },
        }
    }
}

/// The nodes that match.
#[derive(Debug)]
pub struct MatchOutcome {
    pub items: Vec<MatchItem>,
}

impl View for MatchOutcome {
    type V = Seq<SpecMatch>;

    open spec fn view(&self) -> Seq<SpecMatch> {
        all_views(self.items@)
    }
}

/// The nodes that a search looks at: those of the template where one is given, else
/// those with the name, else those of the shape.
pub open spec fn candidates(t: Nodes, q: MatchQuery) -> Result<Seq<int>, SpecOpError> {
    if q.template is Some {
        match template_meant(t, q.template->Some_0@) {
            Ok(tid) => Ok(instances_of(t, tid)),
            Err(e) => Err(e),
        }
    } else if q.root is Some {
        Ok(picks(t, |n: SpecNode| n.name == q.root->Some_0@))
    } else if q.shape_of is Some {
        match id_argument("节点 ID"@, q.shape_of->Some_0@) {
            Err(e) => Err(e),
            Ok(id) => match first_pick(t, |n: SpecNode| n.id == id) {
                None => Err(missing_node(q.shape_of->Some_0@)),
                Some(i) => Ok(positions_with(shape_numbers(t), shape_numbers(t)[i])),
            },
        }
    } else {
        Err(plain_error(ErrKind::InvalidArgument, "需要 root 或 shape_of 或 template 三者之一"@))
    }
}

/// A node that matches, as it is listed.
pub open spec fn match_of(t: Nodes, n: SpecNode, with_tree: bool, ft: Seq<(u64, String)>) -> SpecMatch {
    SpecMatch {
        id: n.id,
        name: n.name,
        kind: kind_word(n.value),
        value: display(t, n.value, ft),
        tree: if with_tree {
            Some(whole_view(t, n, ft))
        } else {
            None
        },
    }
}

/// The nodes at the first `k` positions at which all conditions hold, as they are
/// listed.
pub open spec fn matches_at(
    t: Nodes,
    pos: Seq<int>,
    q: MatchQuery,
    close: Seq<(u64, String)>,
    ft: Seq<(u64, String)>,
    k: nat,
) -> Seq<SpecMatch>
    decreases k,
{
    if k == 0 {
        Seq::empty()
    } else {
        let r = matches_at(t, pos, q, close, ft, (k - 1) as nat);
        let n = t[pos[k - 1]];
        if meets(t, n.id, q.wheres@, close) {
            r.push(match_of(t, n, q.with_tree, ft))
        } else {
            r
        }
    }
}

/// What a search gives.
pub open spec fn searched(
    t: Nodes,
    q: MatchQuery,
    close: Seq<(u64, String)>,
    ft: Seq<(u64, String)>,
) -> Result<Seq<SpecMatch>, SpecOpError> {
    match candidates(t, q) {
        Ok(pos) => Ok(matches_at(t, pos, q, close, ft, pos.len())),
        Err(e) => Err(e),
    }
}

/// The first position of an id.
fn first_position(store: &Store, id: Uuid) -> (r: Option<usize>)
    ensures
        match r {
            Some(i) => first_pick(store@, |n: SpecNode| n.id == id) == Some(i as int) && i < store@.len(),
            None => first_pick(store@, |n: SpecNode| n.id == id) is None,
        },
{
    let ghost p = |n: SpecNode| n.id == id;
    let nodes = store.nodes();
    let mut i: usize = 0;
    while i < nodes.len()
        invariant
            i <= nodes@.len(),
            models(nodes@) == store@,
            p == (|n: SpecNode| n.id == id),
            forall|j: int| 0 <= j < i ==> !p(#[trigger] store@[j]),
        decreases nodes@.len() - i,
    {
        assert(store@[i as int] == nodes@[i as int]@);
        if nodes[i].id == id {
            proof {
                crate::model::lemma_first_pick_is(store@, p, i as int);
            }
            return Some(i);
        }
        i = i + 1;
    }
    proof {
        crate::model::lemma_first_pick_none(store@, p);
    }
    None
}

/// The positions of the nodes with a name.
fn with_name(store: &Store, name: &str) -> (r: Vec<usize>)
    ensures
        ints(r@) == picks(store@, |n: SpecNode| n.name == name@),
        forall|k: int| 0 <= k < r@.len() ==> #[trigger] r@[k] < store@.len(),
{
    let ghost t = store@;
    let ghost p = |n: SpecNode| n.name == name@;
    let names = name_index(store);
    let out = names.get(name);
    proof {
        let s = ints(out@);
        assert forall|k: int| 0 <= k < s.len() implies 0 <= #[trigger] s[k] < t.len() && p(
            t[s[k]],
        ) by {
            assert(s[k] == out@[k]);
            assert(names.names()[s[k]] == t[s[k]].name);
        }
        assert forall|k: int, l: int| 0 <= k < l < s.len() implies #[trigger] s[k]
            < #[trigger] s[l] by {
            assert(s[k] == out@[k] && s[l] == out@[l]);
        }
        assert forall|j: int| 0 <= j < t.len() && p(#[trigger] t[j]) implies s.contains(j) by {
            assert(names.names()[j] == t[j].name);
        }
        crate::model::lemma_picks_unique(t, p, s);
    }
    out
}

proof fn lemma_positions_in(shapes: Seq<u64>, s: u64)
    ensures
        forall|k: int|
            0 <= k < positions_with(shapes, s).len() ==> 0 <= #[trigger] positions_with(shapes, s)[k]
                < shapes.len(),
    decreases shapes.len(),
{
    if shapes.len() > 0 {
        lemma_positions_in(shapes.drop_last(), s);
        let d = positions_with(shapes.drop_last(), s);
        let r = positions_with(shapes, s);
        assert forall|k: int| 0 <= k < r.len() implies 0 <= #[trigger] r[k] < shapes.len() by {
            if k < d.len() {
                assert(r[k] == d[k]);
            }
        }
    }
}

/// The nodes that a search looks at.
fn find_candidates(store: &Store, q: &MatchQuery) -> (r: OpResult<Vec<usize>>)
    requires
        store.wf(),
    ensures
        match candidates(store@, *q) {
            Ok(pos) => r is Ok && ints(r->Ok_0@) == pos && forall|k: int|
                0 <= k < r->Ok_0@.len() ==> #[trigger] r->Ok_0@[k] < store@.len(),
            Err(e) => r is Err && r->Err_0@ == e,
        },
{
    let ghost t = store@;
    if let Some(name) = &q.template {
        return match resolve_template(store, name.as_str()) {
            Err(e) => Err(e),
            Ok(tid) => {
                let out = find_instances_of(store, tid);
                proof {
                    crate::model::lemma_picks(
                        t,
                        |n: SpecNode|
                            crate::tree::instance_root(t, n.id) && crate::tree::template_of(t, n.id)
                                == Some(tid),
                    );
                    assert forall|k: int| 0 <= k < out@.len() implies #[trigger] out@[k] < t.len() by {
                        assert(ints(out@)[k] == out@[k]);
                    }
                }
                Ok(out)
            },
        };
    }
    if let Some(name) = &q.root {
        return Ok(with_name(store, name.as_str()));
    }
    if let Some(so) = &q.shape_of {
        return match parse_uuid("节点 ID", so.as_str()) {
            Err(e) => Err(e),
            Ok(id) => match first_position(store, id) {
                None => Err(no_node(so.as_str())),
                Some(i) => {
                    let shapes = ShapeIndex::build(store);
                    let s: u64 = shapes.shapes[i];
                    let out = by_shape(&shapes, s);
                    proof {
                        lemma_positions_in(shapes.shapes@, s);
                        assert forall|k: int| 0 <= k < out@.len() implies #[trigger] out@[k] < t.len() by {
                            assert(ints(out@)[k] == out@[k]);
                        }
                    }
                    Ok(out)
                },
            },
        };
    }
    Err(OpError::invalid("需要 root 或 shape_of 或 template 三者之一"))
}

/// Searches a store. `close` lists the pairs of a double and a text that denotes a
/// number next to it; `ft` gives the texts of doubles.
pub fn search(
    store: &Store,
    q: &MatchQuery,
    close: &Vec<(u64, String)>,
    ft: &Vec<(u64, String)>,
) -> (r: OpResult<MatchOutcome>)
    requires
        store.wf(),
    ensures
        amounts_to(r, searched(store@, *q, close@, ft@)),
{
    let cands = match find_candidates(store, q) {
        Ok(c) => c,
        Err(e) => {
            return Err(e);
        },
    };
    let ghost t = store@;
    let ghost pos = ints(cands@);
    let mut items: Vec<MatchItem> = Vec::new();
    let mut i: usize = 0;
    assert(all_views(items@) =~= matches_at(t, pos, *q, close@, ft@, 0));
    while i < cands.len()
        invariant
            i <= cands@.len(),
            store.wf(),
            t == store@,
            pos == ints(cands@),
            forall|k: int| 0 <= k < cands@.len() ==> #[trigger] cands@[k] < t.len(),
            all_views(items@) == matches_at(t, pos, *q, close@, ft@, i as nat),
        decreases cands@.len() - i,
    {
        let at: usize = cands[i];
        assert(pos[i as int] == at);
        if matches_where(store, at, &q.wheres, close) {
            let nd = store.at(at);
            let tree = if q.with_tree {
                Some(tree_view(store, nd, ft))
            } else {
                None
            };
            let item = MatchItem {
                id: nd.id,
                name: nd.name.clone(),
                kind: kind_word_of(&nd.value),
                value: display_value(store, &nd.value, ft),
                tree,
            };
            let ghost iv = item@;
            let ghost o0 = items@;
            items.push(item);
            proof {
                assert(iv == match_of(t, nd@, q.with_tree, ft@));
                assert(all_views(items@) =~= all_views(o0).push(iv));
            }
        }
        i = i + 1;
    }
    Ok(MatchOutcome { items })
}

/// The instances of a template, each with all that is below it.
#[derive(Debug)]
pub struct InstancesOutcome {
    pub template_id: Uuid,
    pub template_name: String,
    pub instances: Vec<NodeView>,
}

/// The model of [`InstancesOutcome`].
pub struct SpecInstances {
    pub template_id: Uuid,
    pub template_name: Seq<char>,
    pub instances: Seq<SpecView>,
}

impl View for InstancesOutcome {
    type V = SpecInstances;

    open spec fn view(&self) -> SpecInstances {
        SpecInstances {
            template_id: self.template_id,
            template_name: self.template_name@,
            instances: view_models(self.instances@),
        }
    }
}

/// The name of a node, or the empty text.
pub open spec fn name_or_empty(t: Nodes, id: Uuid) -> Seq<char> {
    match found(t, id) {
        Some(n) => n.name,
        None => Seq::empty(),
    }
}

/// The name of a node, or the empty text.
pub(crate) fn node_name(store: &Store, id: Uuid) -> (r: String)
    requires
        store.wf(),
    ensures
        r@ == name_or_empty(store@, id),
{
    match store.get(id) {
        Some(n) => n.name.clone(),
        None => String::new(),
    }
}

/// The nodes at positions, each with all that is below it.
pub open spec fn whole_views(t: Nodes, pos: Seq<int>, ft: Seq<(u64, String)>) -> Seq<SpecView> {
    Seq::new(pos.len(), |i: int| whole_view(t, t[pos[i]], ft))
}

/// The instances of the template that a name or an id stands for.
pub open spec fn instances_shown(t: Nodes, template: Seq<char>, ft: Seq<(u64, String)>) -> Result<
    SpecInstances,
    SpecOpError,
> {
    match template_meant(t, template) {
        Err(e) => Err(e),
        Ok(tid) => Ok(
            SpecInstances {
                template_id: tid,
                template_name: name_or_empty(t, tid),
                instances: whole_views(t, instances_of(t, tid), ft),
            },
        ),
    }
}

/// The instances of the template that a name or an id stands for. `ft` gives the texts
/// of doubles.
pub fn instances(store: &Store, template: &str, ft: &Vec<(u64, String)>) -> (r: OpResult<
    InstancesOutcome,
>)
    requires
        store.wf(),
    ensures
        amounts_to(r, instances_shown(store@, template@, ft@)),
{
    let tid = match resolve_template(store, template) {
        Ok(tid) => tid,
        Err(e) => {
            return Err(e);
        },
    };
    let ghost t = store@;
    let template_name = node_name(store, tid);
    let found_at = find_instances_of(store, tid);
    let ghost pos = ints(found_at@);
    proof {
        crate::model::lemma_picks(
            t,
            |n: SpecNode|
                crate::tree::instance_root(t, n.id) && crate::tree::template_of(t, n.id) == Some(tid),
        );
    }
    let mut out: Vec<NodeView> = Vec::new();
    let mut i: usize = 0;
    assert(view_models(out@) =~= whole_views(t, pos, ft@).take(0));
    while i < found_at.len()
        invariant
            i <= found_at@.len(),
            store.wf(),
            t == store@,
            pos == ints(found_at@),
            forall|k: int| 0 <= k < pos.len() ==> 0 <= #[trigger] pos[k] < t.len(),
            view_models(out@) == whole_views(t, pos, ft@).take(i as int),
        decreases found_at@.len() - i,
    {
        assert(pos[i as int] == found_at@[i as int]);
        let v = tree_view(store, store.at(found_at[i]), ft);
        let ghost vm = view_model(v);
        let ghost o0 = out@;
        out.push(v);
        proof {
            assert(out@.drop_last() =~= o0);
            assert(view_models(out@) =~= view_models(o0).push(vm));
            assert(whole_views(t, pos, ft@).take(i + 1) =~= whole_views(t, pos, ft@).take(
                i as int,
            ).push(vm));
        }
        i = i + 1;
    }
    assert(whole_views(t, pos, ft@).take(pos.len() as int) =~= whole_views(t, pos, ft@));
    Ok(InstancesOutcome { template_id: tid, template_name, instances: out })
}

// ---------------------------------------------------------------------------
// What is known of a node
// ---------------------------------------------------------------------------

/// One end of a reference.
#[derive(Debug)]
pub struct RefTarget {
    pub id: Uuid,
    pub name: String,
    pub exists: bool,
}

/// The model of [`RefTarget`].
pub struct SpecTarget {
    pub id: Uuid,
    pub name: Seq<char>,
    pub exists: bool,
}

impl View for RefTarget {
    type V = SpecTarget;

    open spec fn view(&self) -> SpecTarget {
        SpecTarget { id: self.id, name: self.name@, exists: self.exists }
    }
}

/// What a node refers to, and what refers to it.
#[derive(Debug)]
pub struct RefsOutcome {
    pub id: Uuid,
    pub name: String,
    pub reference: Option<RefTarget>,
    pub incoming: Vec<RefTarget>,
}

/// The model of [`RefsOutcome`].
pub struct SpecRefs {
    pub id: Uuid,
    pub name: Seq<char>,
    pub reference: Option<SpecTarget>,
    pub incoming: Seq<SpecTarget>,
}

impl View for RefsOutcome {
    type V = SpecRefs;

    open spec fn view(&self) -> SpecRefs {
        SpecRefs {
            id: self.id,
            name: self.name@,
            reference: match self.reference {
                Some(r) => Some(r@),
                None => None,
            },
            incoming: all_views(self.incoming@),
        }
    }
}

/// The node that an argument stands for.
pub open spec fn node_meant(t: Nodes, raw: Seq<char>) -> Result<SpecNode, SpecOpError> {
    match id_argument("节点 ID"@, raw) {
        Err(e) => Err(e),
        Ok(id) => match found(t, id) {
            Some(n) => Ok(n),
            None => Err(missing_node(raw)),
        },
    }
}

/// The node that an argument stands for.
pub(crate) fn find_node<'a>(store: &'a Store, raw: &str) -> (r: OpResult<&'a Node>)
    requires
        store.wf(),
    ensures
        match node_meant(store@, raw@) {
            Ok(n) => r is Ok && r->Ok_0@ == n,
            Err(e) => r is Err && r->Err_0@ == e,
        },
{
    match parse_uuid("节点 ID", raw) {
        Err(e) => Err(e),
        Ok(id) => match store.get(id) {
            Some(n) => Ok(n),
            None => Err(no_node(raw)),
        },
    }
}

/// The target of a reference: by its name where it is there, else by its id.
pub open spec fn target_of(t: Nodes, v: SpecValue) -> Option<SpecTarget> {
    match v {
        SpecValue::Reference(u) => Some(
            match found(t, u) {
                Some(n) => SpecTarget { id: u, name: n.name, exists: true },
                None => SpecTarget { id: u, name: crate::codec::uuid_text(u), exists: false },
            },
        ),
        _ => None,
    }
}

/// Nodes as ends of references.
pub open spec fn sources_shown(s: Nodes) -> Seq<SpecTarget> {
    Seq::new(s.len(), |i: int| SpecTarget { id: s[i].id, name: s[i].name, exists: true })
}

/// What a node refers to, and the nodes that refer to it, in order.
pub open spec fn refs_shown(t: Nodes, raw: Seq<char>) -> Result<SpecRefs, SpecOpError> {
    match node_meant(t, raw) {
        Err(e) => Err(e),
        Ok(n) => Ok(
            SpecRefs {
                id: n.id,
                name: n.name,
                reference: target_of(t, n.value),
                incoming: sources_shown(
                    picked(t, |m: SpecNode| m.value == SpecValue::Reference(n.id)),
                ),
            },
        ),
    }
}

/// What a node refers to, and what refers to it.
pub fn refs(store: &Store, node_id: &str) -> (r: OpResult<RefsOutcome>)
    requires
        store.wf(),
    ensures
        amounts_to(r, refs_shown(store@, node_id@)),
{
    let node = match find_node(store, node_id) {
        Ok(n) => n,
        Err(e) => {
            return Err(e);
        },
    };
    let reference = match &node.value {
        Value::Reference(u) => Some(
            match store.get(*u) {
                Some(n) => RefTarget { id: *u, name: n.name.clone(), exists: true },
                None => RefTarget { id: *u, name: u.to_string(), exists: false },
            },
        ),
        _ => None,
    };
    let sources = store.references_to(node);
    let ghost s = ref_models(sources@);
    let mut incoming: Vec<RefTarget> = Vec::new();
    let mut i: usize = 0;
    while i < sources.len()
        invariant
            i <= sources@.len(),
            s == ref_models(sources@),
            all_views(incoming@) == sources_shown(s).take(i as int),
        decreases sources@.len() - i,
    {
        let ghost o0 = incoming@;
        let item = RefTarget { id: sources[i].id, name: sources[i].name.clone(), exists: true };
        let ghost iv = item@;
        incoming.push(item);
        proof {
            assert(s[i as int] == sources@[i as int]@);
            assert(all_views(incoming@) =~= all_views(o0).push(iv));
            assert(sources_shown(s).take(i + 1) =~= sources_shown(s).take(i as int).push(iv));
        }
        i = i + 1;
    }
    assert(sources_shown(s).take(s.len() as int) =~= sources_shown(s));
    Ok(RefsOutcome { id: node.id, name: node.name.clone(), reference, incoming })
}

/// What a node once was.
#[derive(Debug)]
pub struct Snapshot {
    pub name: String,
    pub value: Option<String>,
    pub replaced: Option<String>,
}

/// The model of [`Snapshot`].
pub struct SpecSnapshot {
    pub name: Seq<char>,
    pub value: Option<Seq<char>>,
    pub replaced: Option<Seq<char>>,
}

impl View for Snapshot {
    type V = SpecSnapshot;

    open spec fn view(&self) -> SpecSnapshot {
        SpecSnapshot {
            name: self.name@,
            value: opt_text(self.value),
            replaced: opt_text(self.replaced),
        }
    }
}

/// The history of a node.
#[derive(Debug)]
pub struct HistoryOutcome {
    pub id: Uuid,
    pub name: String,
    pub has_history: bool,
    pub snapshots: Vec<Snapshot>,
}

/// The model of [`HistoryOutcome`].
pub struct SpecHistory {
    pub id: Uuid,
    pub name: Seq<char>,
    pub has_history: bool,
    pub snapshots: Seq<SpecSnapshot>,
}

impl View for HistoryOutcome {
    type V = SpecHistory;

    open spec fn view(&self) -> SpecHistory {
        SpecHistory {
            id: self.id,
            name: self.name@,
            has_history: self.has_history,
            snapshots: all_views(self.snapshots@),
        }
    }
}

/// The text of the first child with a name.
pub open spec fn child_text(t: Nodes, id: Uuid, name: Seq<char>) -> Option<Seq<char>> {
    match named_child(t, id, name) {
        Some(i) => match t[i].value {
            SpecValue::Text(s) => Some(s),
            _ => None,
        },
        None => None,
    }
}

/// The text of the first child with a name.
fn text_below(store: &Store, node: &Node, name: &str) -> (r: Option<String>)
    requires
        store.wf(),
    ensures
        opt_text(r) == child_text(store@, node.id, name@),
{
    match store.child_by_name(node, name) {
        Some(c) => match &c.value {
            Value::Text(s) => Some(s.clone()),
            _ => None,
        },
        None => None,
    }
}

/// What a snapshot tells.
pub open spec fn snapshot_shown(t: Nodes, n: SpecNode, ft: Seq<(u64, String)>) -> SpecSnapshot {
    SpecSnapshot {
        name: n.name,
        value: display(t, n.value, ft),
        replaced: child_text(t, n.id, "@replaced"@),
    }
}

/// What snapshots tell.
pub open spec fn snapshots_shown(t: Nodes, s: Nodes, ft: Seq<(u64, String)>) -> Seq<SpecSnapshot> {
    Seq::new(s.len(), |i: int| snapshot_shown(t, s[i], ft))
}

/// The history of a node: what is filed below its `@history` child.
pub open spec fn history_shown(t: Nodes, raw: Seq<char>, ft: Seq<(u64, String)>) -> Result<
    SpecHistory,
    SpecOpError,
> {
    match node_meant(t, raw) {
        Err(e) => Err(e),
        Ok(n) => {
            let h = named_child(t, n.id, "@history"@);
            Ok(
                SpecHistory {
                    id: n.id,
                    name: n.name,
                    has_history: h is Some,
                    snapshots: match h {
                        Some(i) => snapshots_shown(t, children_of(t, t[i].id), ft),
                        None => Seq::empty(),
                    },
                },
            )
        },
    }
}

/// The history of a node. `ft` gives the texts of doubles.
pub fn history(store: &Store, node_id: &str, ft: &Vec<(u64, String)>) -> (r: OpResult<
    HistoryOutcome,
>)
    requires
        store.wf(),
    ensures
        amounts_to(r, history_shown(store@, node_id@, ft@)),
{
    let node = match find_node(store, node_id) {
        Ok(n) => n,
        Err(e) => {
            return Err(e);
        },
    };
    let ghost t = store@;
    let mut snapshots: Vec<Snapshot> = Vec::new();
    assert(all_views(snapshots@) =~= Seq::<SpecSnapshot>::empty());
    match store.child_by_name(node, "@history") {
        None => Ok(
            HistoryOutcome { id: node.id, name: node.name.clone(), has_history: false, snapshots },
        ),
        Some(hist) => {
            let filed = store.children(hist);
            let ghost s = ref_models(filed@);
            let mut i: usize = 0;
            while i < filed.len()
                invariant
                    i <= filed@.len(),
                    store.wf(),
                    t == store@,
                    s == ref_models(filed@),
                    all_views(snapshots@) == snapshots_shown(t, s, ft@).take(i as int),
                decreases filed@.len() - i,
            {
                let ghost o0 = snapshots@;
                let item = Snapshot {
                    name: filed[i].name.clone(),
                    value: display_value(store, &filed[i].value, ft),
                    replaced: text_below(store, filed[i], "@replaced"),
                };
                let ghost iv = item@;
                snapshots.push(item);
                proof {
                    assert(s[i as int] == filed@[i as int]@);
                    assert(iv == snapshot_shown(t, s[i as int], ft@));
                    assert(all_views(snapshots@) =~= all_views(o0).push(iv));
                    assert(snapshots_shown(t, s, ft@).take(i + 1) =~= snapshots_shown(t, s, ft@).take(
                        i as int,
                    ).push(iv));
                }
                i = i + 1;
            }
            assert(snapshots_shown(t, s, ft@).take(s.len() as int) =~= snapshots_shown(t, s, ft@));
            Ok(
                HistoryOutcome {
                    id: node.id,
                    name: node.name.clone(),
                    has_history: true,
                    snapshots,
                },
            )
        },
    }
}

/// What is known of a blob.
#[derive(Debug)]
pub struct BlobInfoOutcome {
    pub bytes: usize,
    pub format: Option<String>,
    pub preview: Option<String>,
}

/// The model of [`BlobInfoOutcome`].
pub struct SpecBlobInfo {
    pub bytes: nat,
    pub format: Option<Seq<char>>,
    pub preview: Option<Seq<char>>,
}

impl View for BlobInfoOutcome {
    type V = SpecBlobInfo;

    open spec fn view(&self) -> SpecBlobInfo {
        SpecBlobInfo {
            bytes: self.bytes as nat,
            format: opt_text(self.format),
            preview: opt_text(self.preview),
        }
    }
}

/// How much of a blob is looked at.
pub const PREVIEW_BYTES: usize = 200;

/// The start of a blob.
pub open spec fn blob_start(b: Seq<u8>) -> Seq<u8> {
    if b.len() <= PREVIEW_BYTES {
        b
    } else {
        b.subrange(0, PREVIEW_BYTES as int)
    }
}

/// The start of a blob as a text, where it is one and holds no zero character.
pub open spec fn blob_preview(b: Seq<u8>) -> Option<Seq<char>> {
    let s = blob_start(b);
    if valid_utf8(s) && !decode_utf8(s).contains('\0') {
        Some(decode_utf8(s))
    } else {
        None
    }
}

/// The blob of the node that an argument stands for.
pub open spec fn blob_meant(t: Nodes, raw: Seq<char>) -> Result<(Uuid, Seq<u8>), SpecOpError> {
    match node_meant(t, raw) {
        Err(e) => Err(e),
        Ok(n) => match n.value {
            SpecValue::Blob(b) => Ok((n.id, b)),
            _ => Err(plain_error(ErrKind::InvalidArgument, "节点不是二进制块："@ + raw)),
        },
    }
}

/// What is known of the blob of the node that an argument stands for.
pub open spec fn blob_info_shown(t: Nodes, raw: Seq<char>) -> Result<SpecBlobInfo, SpecOpError> {
    match blob_meant(t, raw) {
        Err(e) => Err(e),
        Ok((id, b)) => Ok(
            SpecBlobInfo {
                bytes: b.len(),
                format: child_text(t, id, "@format"@),
                preview: blob_preview(b),
            },
        ),
    }
}

/// The error for a node that holds no blob.
pub(crate) fn no_blob(raw: &str) -> (r: OpError)
    ensures
        r@ == plain_error(ErrKind::InvalidArgument, "节点不是二进制块："@ + raw@),
{
    OpError::invalid(join2("节点不是二进制块：", raw).as_str())
}

/// Whether a text holds the zero character.
fn holds_zero(s: &str) -> (r: bool)
    ensures
        r == s@.contains('\0'),
{
    let n = s.unicode_len();
    let mut i: usize = 0;
    while i < n
        invariant
            i <= n,
            n == s@.len(),
            forall|k: int| 0 <= k < i ==> s@[k] != '\0',
        decreases n - i,
    {
        if s.get_char(i) == '\0' {
            return true;
        }
        i = i + 1;
    }
    false
}

/// What is known of the blob of a node.
pub fn blob_info(store: &Store, node_id: &str) -> (r: OpResult<BlobInfoOutcome>)
    requires
        store.wf(),
    ensures
        amounts_to(r, blob_info_shown(store@, node_id@)),
{
    let node = match find_node(store, node_id) {
        Ok(n) => n,
        Err(e) => {
            return Err(e);
        },
    };
    match &node.value {
        Value::Blob(b) => {
            let format = text_below(store, node, "@format");
            let end: usize = if b.len() <= PREVIEW_BYTES {
                b.len()
            } else {
                PREVIEW_BYTES
            };
            let start = crate::bytes::sub_bytes(b.as_slice(), 0, end);
            assert(start@ =~= blob_start(b@));
            let preview = match text_of_bytes(start) {
                None => None,
                Some(s) => if holds_zero(s.as_str()) {
                    None
                } else {
                    Some(s)
                },
            };
            Ok(BlobInfoOutcome { bytes: b.len(), format, preview })
        },
        _ => Err(no_blob(node_id)),
    }
}

// ---------------------------------------------------------------------------
// What a file is
// ---------------------------------------------------------------------------

/// What is known of a file.
#[derive(Debug)]
pub struct InfoOutcome {
    pub file: String,
    pub version: u8,
    pub header_bytes: usize,
    pub header_first_line: String,
    pub nodes: usize,
    pub roots: usize,
}

/// The model of [`InfoOutcome`].
pub struct SpecInfo {
    pub file: Seq<char>,
    pub version: u8,
    pub header_bytes: nat,
    pub header_first_line: Seq<char>,
    pub nodes: nat,
    pub roots: nat,
}

impl View for InfoOutcome {
    type V = SpecInfo;

    open spec fn view(&self) -> SpecInfo {
        SpecInfo {
            file: self.file@,
            version: self.version,
            header_bytes: self.header_bytes as nat,
            header_first_line: self.header_first_line@,
            nodes: self.nodes as nat,
            roots: self.roots as nat,
        }
    }
}

/// A line without the carriage return at its end.
pub open spec fn bare_line(s: Seq<char>) -> Seq<char> {
    if s.len() > 0 && s.last() == '\r' {
        s.drop_last()
    } else {
        s
    }
}

/// The first line of a text without the white space around it, or a mark that there is
/// none.
pub open spec fn first_line(s: Seq<char>) -> Seq<char> {
    let t = crate::text::trimmed(s);
    if t.len() == 0 {
        "(空)"@
    } else {
        let parts = crate::text::split_at_char(t, '\n');
        if parts.len() == 1 {
            parts[0]
        } else {
            bare_line(parts[0])
        }
    }
}

/// What is known of a file with the given bytes, or what is wrong with them.
pub open spec fn info_shown(file: Seq<char>, data: Seq<u8>) -> Result<SpecInfo, SpecOpError> {
    match crate::tree::head_fault(data) {
        Some(e) => Err(plain_error(ErrKind::Internal, e)),
        None => {
            let h = data.subrange(9, 9 + crate::tree::head_len(data));
            if !valid_utf8(h) {
                Err(plain_error(ErrKind::Internal, "头文本非法 UTF-8"@))
            } else {
                match crate::tree::file_nodes(data) {
                    Err(e) => Err(plain_error(ErrKind::Internal, e)),
                    Ok(t) => Ok(
                        SpecInfo {
                            file,
                            version: crate::tree::FORMAT_VERSION,
                            header_bytes: crate::tree::head_len(data) as nat,
                            header_first_line: first_line(decode_utf8(h)),
                            nodes: t.len(),
                            roots: picked(t, |n: SpecNode| n.parent is None).len(),
                        },
                    ),
                }
            }
        },
    }
}

/// The first line of a text without the white space around it, or a mark that there is
/// none.
fn head_line(s: &str) -> (r: String)
    ensures
        r@ == first_line(s@),
{
    let t = crate::text::trim(s);
    if t.as_str().is_empty() {
        return owned("(空)");
    }
    let parts = crate::text::split_char(t.as_str(), '\n');
    let ghost want = crate::text::split_at_char(t@, '\n');
    proof {
        assert(crate::text::text_views(parts@).len() == parts@.len());
        lemma_some_part(t@, '\n');
        assert(want[0] == parts@[0]@);
    }
    let line = parts[0].as_str();
    let n = line.unicode_len();
    if parts.len() > 1 && n > 0 && line.get_char(n - 1) == '\r' {
        let chars = crate::text::chars_of(line);
        let out = crate::text::string_of(&chars, 0, n - 1);
        assert(line@.subrange(0, n - 1) =~= line@.drop_last());
        out
    } else {
        owned(line)
    }
}

proof fn lemma_some_part(s: Seq<char>, c: char)
    ensures
        crate::text::split_at_char(s, c).len() > 0,
    decreases s.len(),
{
    if s.len() > 0 {
        lemma_some_part(s.drop_last(), c);
    }
}

/// What is known of a file with the given bytes.
pub fn info(file: &str, data: &[u8]) -> (r: OpResult<InfoOutcome>)
    ensures
        amounts_to(r, info_shown(file@, data@)),
{
    let (version, header) = match crate::tree::read_header(data) {
        Ok(h) => h,
        Err(e) => {
            return Err(OpError::internal(e.as_str()));
        },
    };
    let store = match Store::load(data) {
        Ok(s) => s,
        Err(e) => {
            return Err(OpError::internal(e.as_str()));
        },
    };
    let roots = store.roots();
    let line = head_line(header.as_str());
    let ghost h = data@.subrange(9, 9 + crate::tree::head_len(data@));
    proof {
        vstd::utf8::decode_utf8_encode_utf8(h);
        assert(ref_models(roots@).len() == roots@.len());
    }
    Ok(
        InfoOutcome {
            file: owned(file),
            version,
            header_bytes: header.as_str().as_bytes().len(),
            header_first_line: line,
            nodes: store.len(),
            roots: roots.len(),
        },
    )
}

// ---------------------------------------------------------------------------
// Laws of what is asked
// ---------------------------------------------------------------------------

/// What a diff lists, in terms of the two files alone. A node is listed as changed exactly
/// where both files have it and its two names differ or its two values are not equal, with
/// both names and both values; as removed or added exactly where only the one or the other has
/// it, with its name. Each list goes by id, with no id twice. Where nothing is listed, both
/// files have the same ids, each with the same name and an equal value.
pub proof fn diff_tells_all(a: Nodes, b: Nodes, ft: Seq<(u64, String)>)
    ensures
        ({
            let added = diff_items(b, in_id_order(only_in(b, a)));
            let removed = diff_items(a, in_id_order(only_in(a, b)));
            let changed = diff_changes(a, b, in_id_order(differing(a, b)), ft);
            &&& lists_changed(changed, a, b)
            &&& forall|k: int|
                0 <= k < changed.len() ==> tells_change(#[trigger] changed[k], a, b, ft)
            &&& lists_missing(removed, a, b)
            &&& lists_missing(added, b, a)
            &&& ids_ascend(in_id_order(differing(a, b)))
            &&& (added.len() == 0 && removed.len() == 0 && changed.len() == 0) ==> same_contents(
                a,
                b,
            )
        }),
{
    let added = diff_items(b, in_id_order(only_in(b, a)));
    let removed = diff_items(a, in_id_order(only_in(a, b)));
    let changed = diff_changes(a, b, in_id_order(differing(a, b)), ft);
    lemma_lists_missing(a, b);
    lemma_lists_missing(b, a);
    lemma_lists_changed(a, b, ft);
    lemma_ids_ascend(a, |n: SpecNode| differs_in(n, b));
    assert forall|k: int| 0 <= k < changed.len() implies tells_change(
        #[trigger] changed[k],
        a,
        b,
        ft,
    ) by {
        lemma_tells_change(a, b, ft, k);
    }
    if added.len() == 0 && removed.len() == 0 && changed.len() == 0 {
        lemma_same_contents(a, b, removed, added, changed);
    }
}

/// Whether the changes listed are those of the nodes that both files have with different names
/// or unequal values.
pub open spec fn lists_changed(changed: Seq<SpecDiffChange>, a: Nodes, b: Nodes) -> bool {
    forall|i: int, j: int|
        #![trigger counts(a, i), counts(b, j)]
        counts(a, i) && counts(b, j) && a[i].id == b[j].id ==> ((exists|k: int|
            0 <= k < changed.len() && (#[trigger] changed[k]).id == a[i].id) <==> a[i].name
            != b[j].name || !same_value(a[i].value, b[j].value))
}

/// Whether a change is told with what the node is in the one file and in the other.
pub open spec fn tells_change(
    c: SpecDiffChange,
    a: Nodes,
    b: Nodes,
    ft: Seq<(u64, String)>,
) -> bool {
    exists|i: int, j: int|
        #![trigger counts(a, i), counts(b, j)]
        counts(a, i) && counts(b, j) && a[i].id == c.id && b[j].id == c.id && c.from_name
            == a[i].name && c.to_name == b[j].name && c.from_value == shown_text(a, a[i].value, ft)
            && c.to_value == shown_text(b, b[j].value, ft)
}

proof fn lemma_lists_changed(a: Nodes, b: Nodes, ft: Seq<(u64, String)>)
    ensures
        lists_changed(diff_changes(a, b, in_id_order(differing(a, b)), ft), a, b),
{
    let ids = in_id_order(differing(a, b));
    let changed = diff_changes(a, b, ids, ft);
    assert forall|i: int, j: int|
        #![trigger counts(a, i), counts(b, j)]
        counts(a, i) && counts(b, j) && a[i].id == b[j].id implies ((exists|k: int|
        0 <= k < changed.len() && (#[trigger] changed[k]).id == a[i].id) <==> a[i].name != b[j].name
        || !same_value(a[i].value, b[j].value)) by {
        let id = a[i].id;
        lookup_finds_what_counts(a, id);
        lookup_finds_what_counts(b, id);
        diff_is_complete(a, b, id);
        crate::codec::equal_values_are_the_same(b[j].value, a[i].value);
        if ids.contains(id) {
            let k = choose|k: int| 0 <= k < ids.len() && ids[k] == id;
            assert(changed[k].id == id);
        }
        if exists|k: int| 0 <= k < changed.len() && (#[trigger] changed[k]).id == a[i].id {
            let k = choose|k: int| 0 <= k < changed.len() && (#[trigger] changed[k]).id == a[i].id;
            assert(ids[k] == id);
        }
    }
}

proof fn lemma_tells_change(a: Nodes, b: Nodes, ft: Seq<(u64, String)>, k: int)
    requires
        0 <= k < diff_changes(a, b, in_id_order(differing(a, b)), ft).len(),
    ensures
        tells_change(diff_changes(a, b, in_id_order(differing(a, b)), ft)[k], a, b, ft),
{
    let ids = in_id_order(differing(a, b));
    let id = ids[k];
    lemma_differing(a, b, k);
    lookup_finds_what_counts(a, id);
    lookup_finds_what_counts(b, id);
    let i = find_id(a, id)->Some_0;
    let j = find_id(b, id)->Some_0;
    assert(counts(a, i) && counts(b, j));
}

proof fn lemma_same_contents(
    a: Nodes,
    b: Nodes,
    removed: Seq<SpecDiffItem>,
    added: Seq<SpecDiffItem>,
    changed: Seq<SpecDiffChange>,
)
    requires
        lists_missing(removed, a, b) && lists_missing(added, b, a) && lists_changed(changed, a, b),
        removed.len() == 0 && added.len() == 0 && changed.len() == 0,
    ensures
        same_contents(a, b),
{
    assert forall|i: int| counts(a, i) implies exists|j: int|
        counts(b, j) && (#[trigger] b[j]).id == (#[trigger] a[i]).id && b[j].name == a[i].name
            && same_value(a[i].value, b[j].value) by {
        lookup_finds_what_counts(b, a[i].id);
        let j = find_id(b, a[i].id)->Some_0;
        assert(counts(b, j) && b[j].id == a[i].id);
    }
    assert forall|j: int| counts(b, j) implies exists|i: int|
        counts(a, i) && (#[trigger] a[i]).id == (#[trigger] b[j]).id by {
        lookup_finds_what_counts(a, b[j].id);
        let i = find_id(a, b[j].id)->Some_0;
        assert(counts(a, i) && a[i].id == b[j].id);
    }
}

/// Whether two files hold the same ids, each with the same name and an equal value.
pub open spec fn same_contents(a: Nodes, b: Nodes) -> bool {
    &&& forall|i: int|
        counts(a, i) ==> exists|j: int|
            counts(b, j) && (#[trigger] b[j]).id == (#[trigger] a[i]).id && b[j].name == a[i].name
                && same_value(a[i].value, b[j].value)
    &&& forall|j: int|
        counts(b, j) ==> exists|i: int|
            counts(a, i) && (#[trigger] a[i]).id == (#[trigger] b[j]).id
}

/// Whether ids go by their bytes, none twice.
pub open spec fn ids_ascend(ids: Seq<Uuid>) -> bool {
    forall|k: int, l: int|
        0 <= k < l < ids.len() ==> #[trigger] ids[k] != #[trigger] ids[l] && crate::sort::bytes_le(
            ids[k].0@,
            ids[l].0@,
        )
}

/// Whether items list the nodes that the one file has and the other has not.
pub open spec fn lists_missing(items: Seq<SpecDiffItem>, a: Nodes, b: Nodes) -> bool {
    &&& forall|i: int|
        counts(a, i) ==> ((exists|k: int|
            0 <= k < items.len() && (#[trigger] items[k]).id == (#[trigger] a[i]).id) <==> forall|
            j: int,
        | 0 <= j < b.len() ==> (#[trigger] b[j]).id != a[i].id)
    &&& forall|k: int|
        0 <= k < items.len() ==> exists|i: int|
            counts(a, i) && (#[trigger] a[i]).id == (#[trigger] items[k]).id && a[i].name
                == items[k].name
    &&& forall|k: int, l: int|
        0 <= k < l < items.len() ==> (#[trigger] items[k]).id != (#[trigger] items[l]).id
            && crate::sort::bytes_le(items[k].id.0@, items[l].id.0@)
}

proof fn lemma_ids_ascend(t: Nodes, p: spec_fn(SpecNode) -> bool)
    ensures
        ids_ascend(in_id_order(id_list(picked(folded(t), p)))),
{
    let f = folded(t);
    let ids = id_list(picked(f, p));
    let q = crate::sort::sorted_members(ids, id_keys(ids));
    let _ = crate::sort::sorted_is_in_order(ids, id_keys(ids));
    let s = in_id_order(ids);
    crate::model::lemma_picks(f, p);
    crate::model::fold_keeps_lookup(t, crate::codec::nil_id());
    let ks = picks(f, p);
    assert forall|k: int, l: int| 0 <= k < l < s.len() implies #[trigger] s[k] != #[trigger] s[l]
        && crate::sort::bytes_le(s[k].0@, s[l].0@) by {
        assert(s[k] == ids[q[k]] && s[l] == ids[q[l]]);
        assert(0 <= q[k] < ids.len() && 0 <= q[l] < ids.len());
        lemma_positions_differ(q, ids.len() as int, k, l);
        let x = ks[q[k]];
        let y = ks[q[l]];
        assert(ids[q[k]] == f[x].id && ids[q[l]] == f[y].id);
        if q[k] < q[l] {
            assert(x < y);
            assert(f[x].id != f[y].id);
        } else {
            assert(y < x);
            assert(f[y].id != f[x].id);
        }
    }
}

/// Positions that hold all of as many numbers hold none twice.
proof fn lemma_positions_differ(p: Seq<int>, n: int, k: int, l: int)
    requires
        p.len() == n,
        forall|x: int| 0 <= x < n ==> #[trigger] p.contains(x),
        0 <= k < l < n,
    ensures
        p[k] != p[l],
{
    if p[k] == p[l] {
        let short = p.remove(l);
        let range = vstd::set_lib::set_int_range(0, n);
        vstd::set_lib::lemma_int_range(0, n);
        assert forall|x: int| range.contains(x) implies short.to_set().contains(x) by {
            assert(p.contains(x));
            let y = choose|y: int| 0 <= y < p.len() && p[y] == x;
            let z = if y == l {
                k
            } else {
                y
            };
            if z < l {
                assert(short[z] == x);
            } else {
                assert(short[z - 1] == x);
            }
        }
        vstd::seq_lib::seq_to_set_is_finite(short);
        short.lemma_cardinality_of_set();
        vstd::set_lib::lemma_len_subset(range, short.to_set());
    }
}

proof fn lemma_lists_missing(a: Nodes, b: Nodes)
    ensures
        lists_missing(diff_items(a, in_id_order(only_in(a, b))), a, b),
{
    let ids = in_id_order(only_in(a, b));
    let items = diff_items(a, ids);
    assert forall|i: int| counts(a, i) implies ((exists|k: int|
        0 <= k < items.len() && (#[trigger] items[k]).id == (#[trigger] a[i]).id) <==> forall|j: int|
        0 <= j < b.len() ==> (#[trigger] b[j]).id != a[i].id) by {
        let id = a[i].id;
        lookup_finds_what_counts(a, id);
        lookup_finds_what_counts(b, id);
        diff_is_complete(a, b, id);
        if ids.contains(id) {
            let k = choose|k: int| 0 <= k < ids.len() && ids[k] == id;
            assert(items[k].id == id);
        }
        if exists|k: int| 0 <= k < items.len() && (#[trigger] items[k]).id == id {
            let k = choose|k: int| 0 <= k < items.len() && (#[trigger] items[k]).id == id;
            assert(ids[k] == id);
        }
        if find_id(b, id) is Some {
            assert(b[find_id(b, id)->Some_0].id == id);
        }
    }
    assert forall|k: int| 0 <= k < items.len() implies exists|i: int|
        counts(a, i) && (#[trigger] a[i]).id == (#[trigger] items[k]).id && a[i].name
            == items[k].name by {
        lemma_only_in(a, b, k);
        lookup_finds_what_counts(a, ids[k]);
        let i = find_id(a, ids[k])->Some_0;
        assert(a[i].id == items[k].id);
    }
    lemma_ids_ascend(a, |n: SpecNode| find_id(b, n.id) is None);
    assert forall|k: int, l: int| 0 <= k < l < items.len() implies (#[trigger] items[k]).id != (
    #[trigger] items[l]).id && crate::sort::bytes_le(items[k].id.0@, items[l].id.0@) by {
        assert(ids[k] != ids[l]);
    }
}

/// What is listed of a search: the nodes at the chosen ones of the positions, which are
/// exactly those where all conditions are met.
proof fn lemma_matches_at(
    t: Nodes,
    pos: Seq<int>,
    q: MatchQuery,
    close: Seq<(u64, String)>,
    ft: Seq<(u64, String)>,
    k: nat,
) -> (sel: Seq<int>)
    requires
        k <= pos.len(),
    ensures
        ({
            let r = matches_at(t, pos, q, close, ft, k);
            &&& sel.len() == r.len()
            &&& forall|x: int|
                0 <= x < sel.len() ==> 0 <= #[trigger] sel[x] < k && meets(
                    t,
                    t[pos[sel[x]]].id,
                    q.wheres@,
                    close,
                ) && r[x].id == t[pos[sel[x]]].id && r[x].name == t[pos[sel[x]]].name && r[x].kind
                    == kind_word(t[pos[sel[x]]].value) && r[x].value == display(
                    t,
                    t[pos[sel[x]]].value,
                    ft,
                ) && (r[x].tree is Some <==> q.with_tree)
            &&& forall|x: int, y: int| 0 <= x < y < sel.len() ==> #[trigger] sel[x] < #[trigger] sel[y]
            &&& forall|i: int|
                0 <= i < k && meets(t, t[#[trigger] pos[i]].id, q.wheres@, close) ==> sel.contains(i)
        }),
    decreases k,
{
    if k == 0 {
        Seq::empty()
    } else {
        let n = (k - 1) as nat;
        let a = lemma_matches_at(t, pos, q, close, ft, n);
        let r = matches_at(t, pos, q, close, ft, k);
        let f = matches_at(t, pos, q, close, ft, n);
        if meets(t, t[pos[k - 1]].id, q.wheres@, close) {
            let sel = a.push(k - 1);
            assert forall|i: int| 0 <= i < k && meets(
                t,
                t[#[trigger] pos[i]].id,
                q.wheres@,
                close,
            ) implies sel.contains(i) by {
                if i < n {
                    assert(a.contains(i));
                    let x = choose|x: int| 0 <= x < a.len() && a[x] == i;
                    assert(sel[x] == i);
                } else {
                    assert(sel[a.len() as int] == i);
                }
            }
            assert forall|x: int| 0 <= x < sel.len() implies 0 <= #[trigger] sel[x] < k && meets(
                t,
                t[pos[sel[x]]].id,
                q.wheres@,
                close,
            ) && r[x].id == t[pos[sel[x]]].id && r[x].name == t[pos[sel[x]]].name && r[x].kind
                == kind_word(t[pos[sel[x]]].value) && r[x].value == display(
                t,
                t[pos[sel[x]]].value,
                ft,
            ) && (r[x].tree is Some <==> q.with_tree) by {
                if x < a.len() {
                    assert(sel[x] == a[x]);
                    assert(r[x] == f[x]);
                }
            }
            sel
        } else {
            a
        }
    }
}

/// A search by name lists every node that has the name and meets all conditions, and no
/// other, in the order in which they stand, with its id, its name and its value.
pub proof fn search_by_name_is_complete(
    t: Nodes,
    q: MatchQuery,
    close: Seq<(u64, String)>,
    ft: Seq<(u64, String)>,
) -> (at: Seq<int>)
    requires
        q.template is None,
        q.root is Some,
    ensures
        searched(t, q, close, ft) is Ok,
        ({
            let r = searched(t, q, close, ft)->Ok_0;
            &&& at.len() == r.len()
            &&& forall|x: int|
                0 <= x < at.len() ==> 0 <= #[trigger] at[x] < t.len() && t[at[x]].name
                    == q.root->Some_0@ && meets(t, t[at[x]].id, q.wheres@, close) && r[x].id
                    == t[at[x]].id && r[x].name == t[at[x]].name && r[x].kind == kind_word(
                    t[at[x]].value,
                ) && r[x].value == display(t, t[at[x]].value, ft)
            &&& forall|x: int, y: int| 0 <= x < y < at.len() ==> #[trigger] at[x] < #[trigger] at[y]
            &&& forall|i: int|
                0 <= i < t.len() && (#[trigger] t[i]).name == q.root->Some_0@ && meets(
                    t,
                    t[i].id,
                    q.wheres@,
                    close,
                ) ==> at.contains(i)
        }),
{
    let p = |n: SpecNode| n.name == q.root->Some_0@;
    let pos = picks(t, p);
    crate::model::lemma_picks(t, p);
    let sel = lemma_matches_at(t, pos, q, close, ft, pos.len());
    let at = Seq::new(sel.len(), |x: int| pos[sel[x]]);
    let r = searched(t, q, close, ft)->Ok_0;
    assert forall|x: int| 0 <= x < at.len() implies 0 <= #[trigger] at[x] < t.len() && t[at[x]].name
        == q.root->Some_0@ && meets(t, t[at[x]].id, q.wheres@, close) && r[x].id == t[at[x]].id
        && r[x].name == t[at[x]].name && r[x].kind == kind_word(t[at[x]].value) && r[x].value
        == display(t, t[at[x]].value, ft) by {
        assert(0 <= sel[x] < pos.len());
        assert(p(t[pos[sel[x]]]));
    }
    assert forall|x: int, y: int| 0 <= x < y < at.len() implies #[trigger] at[x] < #[trigger] at[y] by {
        assert(sel[x] < sel[y]);
        assert(pos[sel[x]] < pos[sel[y]]);
    }
    assert forall|i: int|
        0 <= i < t.len() && (#[trigger] t[i]).name == q.root->Some_0@ && meets(
            t,
            t[i].id,
            q.wheres@,
            close,
        ) implies at.contains(i) by {
        assert(p(t[i]));
        let k = choose|k: int| 0 <= k < pos.len() && pos[k] == i;
        assert(meets(t, t[pos[k]].id, q.wheres@, close));
        let x = choose|x: int| 0 <= x < sel.len() && sel[x] == k;
        assert(at[x] == i);
    }
    at
}

/// A search by template lists every instance of the template that meets all conditions, and
/// no other.
pub proof fn search_by_template_is_complete(
    t: Nodes,
    q: MatchQuery,
    close: Seq<(u64, String)>,
    ft: Seq<(u64, String)>,
    tid: Uuid,
    i: int,
)
    requires
        q.template is Some,
        template_meant(t, q.template->Some_0@) == Ok::<Uuid, SpecOpError>(tid),
        0 <= i < t.len(),
    ensures
        searched(t, q, close, ft) is Ok,
        crate::tree::instance_root(t, t[i].id) && crate::tree::template_of(t, t[i].id) == Some(tid)
            && meets(t, t[i].id, q.wheres@, close) ==> exists|x: int|
            0 <= x < searched(t, q, close, ft)->Ok_0.len() && (
            #[trigger] searched(t, q, close, ft)->Ok_0[x]).id == t[i].id
                && searched(t, q, close, ft)->Ok_0[x].name == t[i].name,
        forall|x: int|
            0 <= x < searched(t, q, close, ft)->Ok_0.len() ==> ({
                let id = (#[trigger] searched(t, q, close, ft)->Ok_0[x]).id;
                crate::tree::instance_root(t, id) && crate::tree::template_of(t, id) == Some(tid)
                    && meets(t, id, q.wheres@, close)
            }),
{
    let p = |n: SpecNode|
        crate::tree::instance_root(t, n.id) && crate::tree::template_of(t, n.id) == Some(tid);
    let pos = instances_of(t, tid);
    crate::model::lemma_picks(t, p);
    let sel = lemma_matches_at(t, pos, q, close, ft, pos.len());
    let r = searched(t, q, close, ft)->Ok_0;
    assert forall|x: int| 0 <= x < r.len() implies ({
        let id = (#[trigger] r[x]).id;
        crate::tree::instance_root(t, id) && crate::tree::template_of(t, id) == Some(tid) && meets(
            t,
            id,
            q.wheres@,
            close,
        )
    }) by {
        assert(0 <= sel[x] < pos.len());
        assert(p(t[pos[sel[x]]]));
    }
    if p(t[i]) && meets(t, t[i].id, q.wheres@, close) {
        let k = choose|k: int| 0 <= k < pos.len() && pos[k] == i;
        assert(meets(t, t[pos[k]].id, q.wheres@, close));
        let x = choose|x: int| 0 <= x < sel.len() && sel[x] == k;
        assert(0 <= sel[x]);
        assert(r[x].id == t[i].id);
    }
}

/// A search by shape lists every node whose tree has the shape of the node's and that meets
/// all conditions, and no other.
pub proof fn search_by_shape_is_complete(
    t: Nodes,
    q: MatchQuery,
    close: Seq<(u64, String)>,
    ft: Seq<(u64, String)>,
    of: int,
    i: int,
)
    requires
        q.template is None && q.root is None && q.shape_of is Some,
        crate::codec::id_of_text(q.shape_of->Some_0@) == Some(t[of].id),
        0 <= of < t.len(),
        forall|j: int| 0 <= j < of ==> (#[trigger] t[j]).id != t[of].id,
        0 <= i < t.len(),
    ensures
        searched(t, q, close, ft) is Ok,
        shape_numbers(t).len() == t.len() ==> (shape_numbers(t)[i] == shape_numbers(t)[of] && meets(
            t,
            t[i].id,
            q.wheres@,
            close,
        ) ==> exists|x: int|
            0 <= x < searched(t, q, close, ft)->Ok_0.len() && (
            #[trigger] searched(t, q, close, ft)->Ok_0[x]).id == t[i].id),
        forall|x: int|
            0 <= x < searched(t, q, close, ft)->Ok_0.len() ==> exists|j: int|
                0 <= j < shape_numbers(t).len() && #[trigger] shape_numbers(t)[j] == shape_numbers(t)[of]
                    && t[j].id == (#[trigger] searched(t, q, close, ft)->Ok_0[x]).id && meets(
                    t,
                    t[j].id,
                    q.wheres@,
                    close,
                ),
{
    let id = t[of].id;
    let p = |n: SpecNode| n.id == id;
    crate::model::lemma_first_pick_is(t, p, of);
    let s = shape_numbers(t);
    let pos = positions_with(s, s[of]);
    crate::query::numbered_positions(s, s[of]);
    let sel = lemma_matches_at(t, pos, q, close, ft, pos.len());
    let r = searched(t, q, close, ft)->Ok_0;
    assert forall|x: int| 0 <= x < r.len() implies exists|j: int|
        0 <= j < s.len() && #[trigger] s[j] == s[of] && t[j].id == (#[trigger] r[x]).id && meets(
            t,
            t[j].id,
            q.wheres@,
            close,
        ) by {
        assert(0 <= sel[x] < pos.len());
        let j = pos[sel[x]];
        assert(s[j] == s[of]);
    }
    if s.len() == t.len() && s[i] == s[of] && meets(t, t[i].id, q.wheres@, close) {
        let k = choose|k: int| 0 <= k < pos.len() && pos[k] == i;
        assert(meets(t, t[pos[k]].id, q.wheres@, close));
        let x = choose|x: int| 0 <= x < sel.len() && sel[x] == k;
        assert(0 <= sel[x]);
        assert(r[x].id == t[i].id);
    }
}

/// A pattern is found in exactly those nodes that count and have it in their name or their
/// text; the empty one in none.
pub proof fn pattern_is_found_where_it_stands(t: Nodes, pattern: Seq<char>, hits: Nodes, i: int)
    requires
        pattern_hits(t, pattern, hits),
        counts(t, i),
    ensures
        hits.contains(t[i]) <==> pattern.len() > 0 && ((exists|k: int|
            0 <= k <= t[i].name.len() - pattern.len() && #[trigger] t[i].name.subrange(
                k,
                k + pattern.len(),
            ) == pattern) || (t[i].value is Text && exists|k: int|
            0 <= k <= t[i].value->Text_0.len() - pattern.len()
                && #[trigger] t[i].value->Text_0.subrange(k, k + pattern.len()) == pattern)),
        forall|k: int, l: int|
            0 <= k < l < hits.len() ==> (#[trigger] hits[k]).id != (#[trigger] hits[l]).id,
{
    let p = |n: SpecNode|
        pattern.len() > 0 && (crate::text::holds_text(n.name, pattern) || crate::scan::text_holds(
            n.value,
            pattern,
        ));
    let h = holding(t, pattern);
    let keys = crate::scan::hit_keys(h);
    let o = choose|o: Seq<int>|
        #[trigger] crate::sort::is_order(keys, o) && hits == crate::sort::arranged(h, o);
    let id = t[i].id;
    lookup_finds_what_counts(t, id);
    lemma_listed(t, p, id);
    let f = folded(t);
    crate::model::lemma_picks(f, p);
    crate::model::fold_keeps_lookup(t, id);
    crate::model::lemma_find_id(f, id);
    let ks = picks(f, p);
    let ids = id_list(h);
    let _ = crate::sort::sorted_members(ids, id_keys(ids));
    crate::sort::lemma_sorted_is(h, keys, o);
    let pos = crate::sort::sorted_members(h, keys);
    assert(hits == crate::sort::sorted(h, keys));
    assert(hits.contains(t[i]) <==> h.contains(t[i]));
    assert(h.contains(t[i]) <==> p(t[i])) by {
        if h.contains(t[i]) {
            let k = choose|k: int| 0 <= k < h.len() && h[k] == t[i];
            assert(p(f[ks[k]]));
        }
        if p(t[i]) {
            let j = find_id(f, id)->Some_0;
            assert(f[j] == t[i]);
            let k = choose|k: int| 0 <= k < ks.len() && ks[k] == j;
            assert(h[k] == t[i]);
        }
    }
    crate::text::held_text_stands_somewhere(t[i].name, pattern);
    if t[i].value is Text {
        crate::text::held_text_stands_somewhere(t[i].value->Text_0, pattern);
    }
    assert forall|k: int, l: int| 0 <= k < l < hits.len() implies (#[trigger] hits[k]).id != (
    #[trigger] hits[l]).id by {
        assert(hits[k] == h[pos[k]] && hits[l] == h[pos[l]]);
        lemma_positions_differ(pos, h.len() as int, k, l);
        let x = ks[pos[k]];
        let y = ks[pos[l]];
        if pos[k] < pos[l] {
            assert(x < y);
            assert(f[x].id != f[y].id);
        } else {
            assert(y < x);
            assert(f[y].id != f[x].id);
        }
    }
}

/// What is told of the references of a node: the node that it refers to, by name where it is
/// there, and every node whose value is a reference to it, and no other, in order.
pub proof fn references_are_told_both_ways(t: Nodes, raw: Seq<char>, i: int) -> (at: Seq<int>)
    requires
        counts(t, i),
        crate::codec::id_of_text(raw) == Some(t[i].id),
    ensures
        refs_shown(t, raw) is Ok,
        ({
            let r = refs_shown(t, raw)->Ok_0;
            &&& r.id == t[i].id && r.name == t[i].name
            &&& r.reference is Some <==> t[i].value is Reference
            &&& t[i].value is Reference ==> r.reference->Some_0.id == t[i].value->Reference_0
                && forall|j: int|
                counts(t, j) && (#[trigger] t[j]).id == t[i].value->Reference_0
                    ==> r.reference->Some_0.exists && r.reference->Some_0.name == t[j].name
            &&& t[i].value is Reference && r.reference->Some_0.exists ==> exists|j: int|
                0 <= j < t.len() && (#[trigger] t[j]).id == t[i].value->Reference_0
            &&& at.len() == r.incoming.len()
            &&& forall|x: int|
                0 <= x < at.len() ==> 0 <= #[trigger] at[x] < t.len() && t[at[x]].value
                    == SpecValue::Reference(t[i].id) && r.incoming[x].id == t[at[x]].id
                    && r.incoming[x].name == t[at[x]].name
            &&& forall|x: int, y: int| 0 <= x < y < at.len() ==> #[trigger] at[x] < #[trigger] at[y]
            &&& forall|j: int|
                0 <= j < t.len() && (#[trigger] t[j]).value == SpecValue::Reference(t[i].id)
                    ==> at.contains(j)
        }),
{
    let id = t[i].id;
    lookup_finds_what_counts(t, id);
    let p = |m: SpecNode| m.value == SpecValue::Reference(id);
    crate::model::lemma_picks(t, p);
    if let SpecValue::Reference(u) = t[i].value {
        lookup_finds_what_counts(t, u);
        if let Some(k) = find_id(t, u) {
            assert(t[k].id == u);
        }
    }
    let at = picks(t, p);
    assert forall|x: int| 0 <= x < at.len() implies 0 <= #[trigger] at[x] < t.len() && t[at[x]].value
        == SpecValue::Reference(id) by {
        assert(p(t[at[x]]));
    }
    assert forall|j: int| 0 <= j < t.len() && (#[trigger] t[j]).value == SpecValue::Reference(
        id,
    ) implies at.contains(j) by {
        assert(p(t[j]));
    }
    at
}

/// The history of a node lists what stands below its first `@history` child, all of it, in
/// order, by name and value; a node without such a child has none.
pub proof fn history_lists_snapshots(t: Nodes, raw: Seq<char>, ft: Seq<(u64, String)>, i: int) -> (at:
    Seq<int>)
    requires
        counts(t, i),
        crate::codec::id_of_text(raw) == Some(t[i].id),
    ensures
        history_shown(t, raw, ft) is Ok,
        ({
            let r = history_shown(t, raw, ft)->Ok_0;
            &&& r.id == t[i].id && r.name == t[i].name
            &&& r.has_history <==> exists|h: int|
                0 <= h < t.len() && (#[trigger] t[h]).parent == Some(t[i].id) && t[h].name
                    == "@history"@
            &&& at.len() == r.snapshots.len()
            &&& !r.has_history ==> at.len() == 0
            &&& forall|x: int, y: int| 0 <= x < y < at.len() ==> #[trigger] at[x] < #[trigger] at[y]
            &&& forall|x: int|
                0 <= x < at.len() ==> 0 <= #[trigger] at[x] < t.len() && r.snapshots[x].name
                    == t[at[x]].name && r.snapshots[x].value == display(t, t[at[x]].value, ft)
            &&& forall|h: int, j: int|
                #![trigger t[h], t[j]]
                0 <= h < t.len() && t[h].parent == Some(t[i].id) && t[h].name == "@history"@ && (
                forall|g: int|
                    0 <= g < h ==> !((#[trigger] t[g]).parent == Some(t[i].id) && t[g].name
                        == "@history"@)) && 0 <= j < t.len() ==> (t[j].parent == Some(t[h].id)
                    <==> at.contains(j))
        }),
{
    let id = t[i].id;
    lookup_finds_what_counts(t, id);
    let p = |n: SpecNode| n.parent == Some(id) && n.name == "@history"@;
    crate::model::lemma_first_pick(t, p);
    match named_child(t, id, "@history"@) {
        None => {
            assert forall|h: int| 0 <= h < t.len() implies !((#[trigger] t[h]).parent == Some(id)
                && t[h].name == "@history"@) by {
                assert(!p(t[h]));
            }
            Seq::empty()
        },
        Some(g) => {
            assert(p(t[g]));
            let q = |n: SpecNode| n.parent == Some(t[g].id);
            crate::model::lemma_picks(t, q);
            let at = picks(t, q);
            assert forall|h: int, j: int|
                #![trigger t[h], t[j]]
                0 <= h < t.len() && t[h].parent == Some(id) && t[h].name == "@history"@ && (forall|
                    e: int,
                |
                    0 <= e < h ==> !((#[trigger] t[e]).parent == Some(id) && t[e].name
                        == "@history"@)) && 0 <= j < t.len() implies (t[j].parent == Some(t[h].id)
                <==> at.contains(j)) by {
                if g < h {
                    assert(t[g].parent == Some(id));
                } else if h < g {
                    assert(!p(t[h]));
                }
                if t[j].parent == Some(t[g].id) {
                    assert(q(t[j]));
                }
                if at.contains(j) {
                    let x = choose|x: int| 0 <= x < at.len() && at[x] == j;
                    assert(q(t[at[x]]));
                }
            }
            at
        },
    }
}

/// What is told of a blob: how many bytes it has, and its first two hundred bytes as a text
/// where they are one without zero characters. Nothing but a blob is told of.
pub proof fn blobs_are_told_by_size_and_start(t: Nodes, raw: Seq<char>, i: int)
    requires
        counts(t, i),
        crate::codec::id_of_text(raw) == Some(t[i].id),
    ensures
        blob_info_shown(t, raw) is Ok <==> t[i].value is Blob,
        t[i].value is Blob ==> ({
            let b = t[i].value->Blob_0;
            let r = blob_info_shown(t, raw)->Ok_0;
            let start = b.take(if b.len() < 200 {
                b.len() as int
            } else {
                200
            });
            &&& blob_meant(t, raw) == Ok::<(Uuid, Seq<u8>), SpecOpError>((t[i].id, b))
            &&& r.bytes == b.len()
            &&& r.preview is Some ==> valid_utf8(start) && r.preview->Some_0 == decode_utf8(start)
                && !r.preview->Some_0.contains('\0')
            &&& valid_utf8(start) && !decode_utf8(start).contains('\0') ==> r.preview is Some
        }),
{
    lookup_finds_what_counts(t, t[i].id);
    if let SpecValue::Blob(b) = t[i].value {
        assert(blob_start(b) =~= b.take(if b.len() < 200 {
            b.len() as int
        } else {
            200
        }));
    }
}

/// What is told of a saved file: its nodes and its roots are counted.
pub proof fn saved_files_are_counted(file: Seq<char>, t: Nodes)
    requires
        forall|i: int| 0 <= i < t.len() ==> crate::codec::node_fits(#[trigger] t[i]),
    ensures
        ({
            let data = crate::tree::file_bytes(crate::tree::all_bytes(t));
            &&& info_shown(file, data) is Ok
            &&& info_shown(file, data)->Ok_0.file == file
            &&& info_shown(file, data)->Ok_0.nodes == t.len()
            &&& info_shown(file, data)->Ok_0.roots == t.filter(|n: SpecNode| n.parent is None).len()
        }),
{
    crate::tree::saved_file_loads(t);
    crate::tree::file_round_trip(crate::tree::all_bytes(t));
    vstd::utf8::encode_utf8_valid_utf8(crate::header::HEADER@);
    lemma_picked_is_filtered(t, |n: SpecNode| n.parent is None);
}

proof fn lemma_picked_is_filtered(t: Nodes, p: spec_fn(SpecNode) -> bool)
    ensures
        picked(t, p) == t.filter(p),
    decreases t.len(),
{
    reveal(Seq::filter);
    if t.len() == 0 {
        assert(picked(t, p) =~= t.filter(p));
    } else {
        let i = t.len() - 1;
        lemma_picked_is_filtered(t.drop_last(), p);
        crate::tree::lemma_picked_step(t, p, i);
        assert(t.take(i + 1) =~= t);
        assert(t.take(i) =~= t.drop_last());
    }
}

/// The text of a child is told where the first child with the name is a text: so a snapshot
/// tells when it was replaced, and a blob its format.
pub proof fn children_tell_texts(t: Nodes, id: Uuid, name: Seq<char>, i: int)
    ensures
        0 <= i < t.len() && t[i].parent == Some(id) && t[i].name == name && (forall|j: int|
            0 <= j < i ==> !((#[trigger] t[j]).parent == Some(id) && t[j].name == name))
            ==> child_text(t, id, name) == (if t[i].value is Text {
            Some(t[i].value->Text_0)
        } else {
            None
        }),
        (forall|j: int|
            0 <= j < t.len() ==> !((#[trigger] t[j]).parent == Some(id) && t[j].name == name))
            ==> child_text(t, id, name) is None,
{
    let _ = crate::model::children_stand_in_order(t, id, name);
    if let Some(k) = named_child(t, id, name) {
        assert(t[k].parent == Some(id));
        if 0 <= i < t.len() && t[i].parent == Some(id) && t[i].name == name && i < k {
            assert(!(t[i].parent == Some(id) && t[i].name == name));
        }
    }
}

/// A snapshot is shown with the text of its `@replaced` child, a blob with that of its
/// `@format` child.
pub proof fn notes_are_shown(t: Nodes, n: SpecNode, ft: Seq<(u64, String)>, raw: Seq<char>, i: int)
    requires
        counts(t, i),
        crate::codec::id_of_text(raw) == Some(t[i].id),
    ensures
        snapshot_shown(t, n, ft).replaced == child_text(t, n.id, "@replaced"@),
        t[i].value is Blob ==> blob_info_shown(t, raw) is Ok && blob_info_shown(t, raw)->Ok_0.format
            == child_text(t, t[i].id, "@format"@),
{
    lookup_finds_what_counts(t, t[i].id);
}

/// The first line of a head is what is before the first line end of the trimmed text.
pub proof fn the_first_line_is_told(s: Seq<char>)
    ensures
        crate::text::trimmed(s).len() > 0 && !crate::text::trimmed(s).contains('\n') ==> first_line(s)
            == crate::text::trimmed(s),
        !first_line(s).contains('\n'),
{
    let t = crate::text::trimmed(s);
    let parts = crate::text::split_at_char(t, '\n');
    crate::text::parts_make_the_text(t, '\n');
    reveal_strlit("(空)");
    if t.len() > 0 {
        let f = first_line(s);
        assert(!parts[0].contains('\n'));
        if f.contains('\n') {
            let k = choose|k: int| 0 <= k < f.len() && f[k] == '\n';
            assert(parts[0][k] == '\n');
        }
        if !t.contains('\n') && parts.len() > 1 {
            lemma_joined_has(parts, '\n');
        }
    } else {
        let e = "(空)"@;
        assert(e[0] == '(' && e[1] == '空' && e[2] == ')');
        if e.contains('\n') {
            let k = choose|k: int| 0 <= k < e.len() && e[k] == '\n';
            assert(k == 0 || k == 1 || k == 2);
        }
    }
}

proof fn lemma_joined_has(parts: Seq<Seq<char>>, c: char)
    requires
        parts.len() > 1,
    ensures
        crate::text::joined_by(parts, c).contains(c),
{
    let front = crate::text::joined_by(parts.drop_last(), c);
    let all = crate::text::joined_by(parts, c);
    assert(all == front.push(c) + parts.last());
    assert(all[front.len() as int] == c);
}

} // verus!
