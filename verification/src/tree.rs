//! A run of nodes as a tree: reading, walking, changing with a trace, copying,
//! and the bytes of a whole file.
use crate::bytes::{be, get_be, put_be, put_slice, sub_bytes};
use crate::codec::{decode_node, drawn, encode_node, models, node_at, node_bytes, node_fits,
    same_value, Error, Node, SpecNode, SpecValue, Uuid, Value};
use crate::header::HEADER;
use crate::idmap::{list_of, IdMap, IdSet};
use crate::model::{children_of, first_pick, folded, firsts, find_id, ids_of, ints, kids,
    named_child, picked, picks, same_shape, subtree_of, walk, Nodes};
use crate::text::{begins, decimal, decimal_text, is_aux_name, join3, owned, same_text,
    text_of_bytes};
use vstd::prelude::*;
use vstd::utf8::{decode_utf8, encode_utf8, valid_utf8};

verus! {

/// The models of a run of node references.
pub open spec fn ref_models(nodes: Seq<&Node>) -> Nodes {
    Seq::new(nodes.len(), |i: int| nodes[i]@)
}

/// A run of nodes with an index by id and an index by parent.
#[derive(Debug)]
pub struct Store {
    nodes: Vec<Node>,
    index: IdMap<usize>,
    children_of: IdMap<Vec<usize>>,
}

impl View for Store {
    type V = Nodes;

    closed spec fn view(&self) -> Nodes {
        models(self.nodes@)
    }
}

/// What a lookup by id finds: the node and `None` where there is none.
pub open spec fn found(t: Nodes, id: Uuid) -> Option<SpecNode> {
    match find_id(t, id) {
        Some(i) => Some(t[i]),
        None => None,
    }
}

/// A node reference, as a model.
pub open spec fn ref_model(r: Option<&Node>) -> Option<SpecNode> {
    match r {
        Some(n) => Some(n@),
        None => None,
    }
}

/// `chrono::Utc::now` in its RFC 3339 form. Nothing is claimed of the text: it
/// depends on the time.
#[verifier::external_body]
pub(crate) fn now_text() -> String {
    chrono::Utc::now().to_rfc3339()
}

/// Whether `m` is a note of a time on the node `of`.
pub open spec fn time_note(m: SpecNode, of: Uuid, name: Seq<char>) -> bool {
    &&& drawn(m.id)
    &&& m.parent == Some(of)
    &&& m.name == name
    &&& m.value is Text
}

/// Whether `m` keeps the name and the value of `n` below `hist`.
pub open spec fn snapshot(m: SpecNode, hist: Uuid, n: SpecNode) -> bool {
    &&& drawn(m.id)
    &&& m.parent == Some(hist)
    &&& m.name == n.name
    &&& m.value == n.value
}

/// Whether `m` is an empty `@history` node below `of`.
pub open spec fn history_node(m: SpecNode, of: Uuid) -> bool {
    &&& drawn(m.id)
    &&& m.parent == Some(of)
    &&& m.name == "@history"@
    &&& m.value == SpecValue::Empty
}

/// Whether `u` is `t` with the name and value of node `i` filed below its
/// `@history` child (made if it has none), with the time of the change.
pub open spec fn traced(t: Nodes, u: Nodes, i: int) -> bool {
    let n = t.len() as int;
    match named_child(t, t[i].id, "@history"@) {
        Some(h) => {
            &&& u.len() == n + 2
            &&& u.take(n) == t
            &&& snapshot(u[n], t[h].id, t[i])
            &&& time_note(u[n + 1], u[n].id, "@replaced"@)
        },
        None => {
            &&& u.len() == n + 3
            &&& u.take(n) == t
            &&& history_node(u[n], t[i].id)
            &&& snapshot(u[n + 1], u[n].id, t[i])
            &&& time_note(u[n + 2], u[n + 1].id, "@replaced"@)
        },
    }
}

/// Whether `u` is `t` with node `i` made `now` and its former name and value
/// filed in its history.
pub open spec fn changed_with_trace(t: Nodes, u: Nodes, i: int, now: SpecNode) -> bool {
    &&& 0 <= i < t.len() < u.len()
    &&& u[i] == now
    &&& traced(t, u.update(i, t[i]), i)
}

/// What a change by id leads to: an error where the id is missing, nothing
/// where `same` holds, and else the change with its trace.
pub open spec fn traced_change(
    t: Nodes,
    u: Nodes,
    id: Uuid,
    r: Result<(), String>,
    same: spec_fn(SpecNode) -> bool,
    change: spec_fn(SpecNode) -> SpecNode,
) -> bool {
    match find_id(t, id) {
        None => r is Err && r->Err_0@ == "节点不存在"@ && u == t,
        Some(i) => r is Ok && if same(t[i]) {
            u == t
        } else {
            changed_with_trace(t, u, i, change(t[i]))
        },
    }
}

/// The position of a template mark below `id`: the first `@模板` child.
pub open spec fn template_mark(t: Nodes, id: Uuid) -> Option<int> {
    named_child(t, id, "@模板"@)
}

/// Whether `id` is the root of a template: its `@模板` child is empty.
pub open spec fn template_root(t: Nodes, id: Uuid) -> bool {
    template_mark(t, id) is Some && t[template_mark(t, id)->Some_0].value == SpecValue::Empty
}

/// Whether `id` is the root of an instance: it has an `@实例` child.
pub open spec fn instance_root(t: Nodes, id: Uuid) -> bool {
    named_child(t, id, "@实例"@) is Some
}

/// The template that `id` refers to by its `@模板` child.
pub open spec fn template_of(t: Nodes, id: Uuid) -> Option<Uuid> {
    match template_mark(t, id) {
        Some(i) => match t[i].value {
            SpecValue::Reference(u) => Some(u),
            _ => None,
        },
        None => None,
    }
}

/// Whether the nearest marked node, from `n` upwards within `steps` steps, is
/// not the root of a template.
pub open spec fn editable(t: Nodes, n: SpecNode, steps: nat) -> bool
    decreases steps,
{
    if template_root(t, n.id) {
        false
    } else if instance_root(t, n.id) || n.parent is None || steps == 0 {
        true
    } else {
        match found(t, n.parent->Some_0) {
            None => true,
            Some(p) => editable(t, p, (steps - 1) as nat),
        }
    }
}

/// The last node that is met upwards from `id` within `steps` steps.
pub open spec fn climb(t: Nodes, id: Uuid, steps: nat) -> Option<Uuid>
    decreases steps,
{
    match found(t, id) {
        None => None,
        Some(n) => match n.parent {
            None => Some(n.id),
            Some(p) => if p == n.id || found(t, p) is None || steps == 0 {
                Some(n.id)
            } else {
                climb(t, p, (steps - 1) as nat)
            },
        },
    }
}

/// Whether the node `root` has a `@protocol` child that names the protocol.
pub open spec fn declares(t: Nodes, root: Uuid, name: Seq<char>) -> bool {
    found(t, root) is Some && exists|i: int|
        0 <= i < t.len() && (#[trigger] t[i]).parent == Some(root) && t[i].name == "@protocol"@
            && t[i].value == SpecValue::Text(name)
}

impl Clone for Store {
    fn clone(&self) -> (r: Self)
        ensures
            r.wf(),
            r@ == self@,
    {
        let mut out = Store::new();
        let mut i: usize = 0;
        while i < self.nodes.len()
            invariant
                i <= self.nodes@.len(),
                out.wf(),
                out@ == self@.take(i as int),
            decreases self.nodes@.len() - i,
        {
            out.add(self.nodes[i].clone());
            assert(self@.take(i + 1) =~= self@.take(i as int).push(self@[i as int]));
            i = i + 1;
        }
        assert(self@.take(self@.len() as int) =~= self@);
        out
    }
}

impl Store {
    /// The indexes agree with the nodes.
    pub closed spec fn wf(&self) -> bool {
        &&& forall|id: Uuid| #[trigger]
            find_id(self@, id) == (if self.index@.contains_key(id) {
                Some(self.index@[id] as int)
            } else {
                None
            })
        &&& forall|id: Uuid| #[trigger]
            kids(self@, id) == ints(list_of(self.children_of@, id))
    }

    /// No nodes.
    pub fn new() -> (r: Self)
        ensures
            r.wf(),
            r@ == Seq::<SpecNode>::empty(),
    {
        let r = Store { nodes: Vec::new(), index: IdMap::new(), children_of: IdMap::new() };
        assert(r@ =~= Seq::<SpecNode>::empty());
        assert forall|id: Uuid| #[trigger] kids(r@, id) == ints(list_of(r.children_of@, id)) by {
            assert(kids(r@, id) =~= ints(list_of(r.children_of@, id)));
        }
        r
    }

    /// Adds a node behind the others.
    pub fn add(&mut self, node: Node)
        requires
            old(self).wf(),
        ensures
            final(self).wf(),
            final(self)@ == old(self)@.push(node@),
    {
        let i: usize = self.nodes.len();
        let ghost n = node@;
        if let Some(p) = node.parent {
            self.children_of.push_to(p, i);
        }
        self.index.insert(node.id, i);
        self.nodes.push(node);
        proof {
            let t = old(self)@;
            assert(self@ =~= t.push(n));
            assert forall|id: Uuid| #[trigger]
                find_id(self@, id) == (if self.index@.contains_key(id) {
                    Some(self.index@[id] as int)
                } else {
                    None
                }) by {
                crate::model::lemma_find_id_push(t, n, id);
                assert(find_id(t, id) == find_id(t, id));
            }
            assert forall|id: Uuid| #[trigger] kids(self@, id) == ints(
                list_of(self.children_of@, id),
            ) by {
                crate::model::lemma_picks_push(t, n, |m: SpecNode| m.parent == Some(id));
                assert(kids(t, id) == ints(list_of(old(self).children_of@, id)));
                assert(kids(self@, id) =~= ints(list_of(self.children_of@, id)));
            }
        }
    }

    /// The node with the id; the last one where the id occurs twice.
    pub fn get(&self, id: Uuid) -> (r: Option<&Node>)
        requires
            self.wf(),
        ensures
            ref_model(r) == found(self@, id),
    {
        match self.position(id) {
            Some(i) => Some(&self.nodes[i]),
            None => None,
        }
    }

    /// The position of the node with the id.
    pub fn position(&self, id: Uuid) -> (r: Option<usize>)
        requires
            self.wf(),
        ensures
            match r {
                Some(i) => find_id(self@, id) == Some(i as int) && i < self@.len(),
                None => find_id(self@, id) is None,
            },
    {
        proof {
            crate::model::lemma_find_id(self@, id);
        }
        match self.index.get(id) {
            Some(i) => Some(*i),
            None => None,
        }
    }

    /// How many nodes there are.
    pub fn len(&self) -> (r: usize)
        ensures
            r == self@.len(),
    {
        self.nodes.len()
    }

    /// Whether there are no nodes.
    pub fn is_empty(&self) -> (r: bool)
        ensures
            r == (self@.len() == 0),
    {
        self.nodes.len() == 0
    }

    /// All nodes, in the order in which they were added.
    pub fn nodes(&self) -> (r: &Vec<Node>)
        ensures
            models(r@) == self@,
            r@.len() == self@.len(),
    {
        &self.nodes
    }

    /// The node at a position.
    pub fn at(&self, i: usize) -> (r: &Node)
        requires
            i < self@.len(),
        ensures
            r@ == self@[i as int],
    {
        &self.nodes[i]
    }

    /// The nodes without a parent.
    pub fn roots(&self) -> (r: Vec<&Node>)
        ensures
            ref_models(r@) == picked(self@, |n: SpecNode| n.parent is None),
    {
        let ghost p = |n: SpecNode| n.parent is None;
        let mut out: Vec<&Node> = Vec::new();
        let mut i: usize = 0;
        assert(self@.take(0) =~= Seq::<SpecNode>::empty());
        assert(ref_models(out@) =~= picked(self@.take(0), p));
        while i < self.nodes.len()
            invariant
                i <= self@.len(),
                self@.len() == self.nodes@.len(),
                p == (|n: SpecNode| n.parent is None),
                ref_models(out@) == picked(self@.take(i as int), p),
            decreases self@.len() - i,
        {
            proof {
                lemma_picked_step(self@, p, i as int);
            }
            if self.nodes[i].parent.is_none() {
                let ghost before = out@;
                out.push(&self.nodes[i]);
                assert(ref_models(out@) =~= ref_models(before).push(self@[i as int]));
            }
            i = i + 1;
        }
        assert(self@.take(self@.len() as int) =~= self@);
        out
    }

    /// The positions of the children of `id`.
    pub fn child_positions(&self, id: Uuid) -> (r: Vec<usize>)
        requires
            self.wf(),
        ensures
            ints(r@) == kids(self@, id),
            forall|k: int| 0 <= k < r@.len() ==> #[trigger] r@[k] < self@.len(),
    {
        assert(kids(self@, id) == ints(list_of(self.children_of@, id)));
        proof {
            crate::model::lemma_picks(self@, |n: SpecNode| n.parent == Some(id));
        }
        let mut out: Vec<usize> = Vec::new();
        match self.children_of.get(id) {
            Some(list) => {
                let mut k: usize = 0;
                while k < list.len()
                    invariant
                        k <= list@.len(),
                        out@ == list@.take(k as int),
                    decreases list@.len() - k,
                {
                    out.push(list[k]);
                    assert(list@.take(k + 1) =~= list@.take(k as int).push(list@[k as int]));
                    k = k + 1;
                }
                assert(list@.take(list@.len() as int) =~= list@);
            },
            None => {},
        }
        assert(out@ =~= list_of(self.children_of@, id));
        assert forall|k: int| 0 <= k < out@.len() implies #[trigger] out@[k] < self@.len() by {
            assert(ints(out@)[k] == out@[k]);
            assert(kids(self@, id)[k] < self@.len());
        }
        out
    }

    /// The children of a node, in order.
    pub fn children(&self, node: &Node) -> (r: Vec<&Node>)
        requires
            self.wf(),
        ensures
            ref_models(r@) == children_of(self@, node.id),
    {
        let pos = self.child_positions(node.id);
        let mut out: Vec<&Node> = Vec::new();
        let mut k: usize = 0;
        while k < pos.len()
            invariant
                k <= pos@.len(),
                self@.len() == self.nodes@.len(),
                ints(pos@) == kids(self@, node.id),
                forall|j: int| 0 <= j < pos@.len() ==> #[trigger] pos@[j] < self@.len(),
                ref_models(out@) == children_of(self@, node.id).take(k as int),
            decreases pos@.len() - k,
        {
            let ghost before = out@;
            out.push(&self.nodes[pos[k]]);
            proof {
                let c = children_of(self@, node.id);
                assert(ints(pos@)[k as int] == pos@[k as int]);
                assert(c.take(k + 1) =~= c.take(k as int).push(c[k as int]));
                assert(ref_models(out@) =~= ref_models(before).push(c[k as int]));
            }
            k = k + 1;
        }
        proof {
            let c = children_of(self@, node.id);
            assert(c.take(c.len() as int) =~= c);
        }
        out
    }

    /// The children of a node, in order; without the `@` nodes if `skip_aux`.
    pub fn children_opt(&self, node: &Node, skip_aux: bool) -> (r: Vec<&Node>)
        requires
            self.wf(),
        ensures
            ref_models(r@) == children_of(self@, node.id).filter(
                |n: SpecNode| !skip_aux || !begins(n.name, '@'),
            ),
    {
        let ghost p = |n: SpecNode| !skip_aux || !begins(n.name, '@');
        let all = self.children(node);
        let ghost c = children_of(self@, node.id);
        let mut out: Vec<&Node> = Vec::new();
        let mut k: usize = 0;
        assert(c.take(0).filter(p) =~= Seq::<SpecNode>::empty()) by {
            reveal(Seq::filter);
        }
        assert(ref_models(out@) =~= Seq::<SpecNode>::empty());
        while k < all.len()
            invariant
                k <= all@.len(),
                c == children_of(self@, node.id),
                ref_models(all@) == c,
                p == (|n: SpecNode| !skip_aux || !begins(n.name, '@')),
                ref_models(out@) == c.take(k as int).filter(p),
            decreases all@.len() - k,
        {
            proof {
                assert(c.take(k + 1).drop_last() =~= c.take(k as int));
                assert(c[k as int] == all@[k as int]@);
                reveal(Seq::filter);
            }
            if !skip_aux || !is_aux_name(all[k].name.as_str()) {
                let ghost before = out@;
                out.push(all[k]);
                assert(ref_models(out@) =~= ref_models(before).push(c[k as int]));
            }
            k = k + 1;
        }
        assert(c.take(c.len() as int) =~= c);
        out
    }

    /// The position of the first child with the name.
    pub fn child_position(&self, id: Uuid, name: &str) -> (r: Option<usize>)
        requires
            self.wf(),
        ensures
            match r {
                Some(i) => named_child(self@, id, name@) == Some(i as int) && i < self@.len(),
                None => named_child(self@, id, name@) is None,
            },
    {
        let ghost p = |n: SpecNode| n.parent == Some(id) && n.name == name@;
        let ghost q = |n: SpecNode| n.parent == Some(id);
        let pos = self.child_positions(id);
        let mut k: usize = 0;
        proof {
            crate::model::lemma_picks(self@, q);
        }
        while k < pos.len()
            invariant
                k <= pos@.len(),
                self@.len() == self.nodes@.len(),
                p == (|n: SpecNode| n.parent == Some(id) && n.name == name@),
                q == (|n: SpecNode| n.parent == Some(id)),
                ints(pos@) == picks(self@, q),
                forall|j: int| 0 <= j < pos@.len() ==> #[trigger] pos@[j] < self@.len(),
                forall|j: int|
                    0 <= j < k ==> self@[(#[trigger] pos@[j]) as int].name != name@,
            decreases pos@.len() - k,
        {
            let i: usize = pos[k];
            if same_text(self.nodes[i].name.as_str(), name) {
                proof {
                    crate::model::lemma_picks(self@, q);
                    let s = picks(self@, q);
                    assert(s[k as int] == ints(pos@)[k as int]);
                    assert(q(self@[s[k as int]]));
                    assert forall|j: int| 0 <= j < i implies !p(#[trigger] self@[j]) by {
                        if p(self@[j]) {
                            assert(q(self@[j]));
                            let l = choose|l: int| 0 <= l < s.len() && s[l] == j;
                            assert(ints(pos@)[l] == pos@[l]);
                            if l >= k {
                                if l > k {
                                    assert(s[k as int] < s[l]);
                                }
                            }
                        }
                    }
                    crate::model::lemma_first_pick_is(self@, p, i as int);
                }
                return Some(i);
            }
            k = k + 1;
        }
        proof {
            crate::model::lemma_picks(self@, q);
            let s = picks(self@, q);
            assert forall|j: int| 0 <= j < self@.len() implies !p(#[trigger] self@[j]) by {
                if p(self@[j]) {
                    assert(q(self@[j]));
                    let l = choose|l: int| 0 <= l < s.len() && s[l] == j;
                    assert(ints(pos@)[l] == pos@[l]);
                }
            }
            crate::model::lemma_first_pick_none(self@, p);
        }
        None
    }

    /// The first child with the name.
    pub fn child_by_name(&self, node: &Node, name: &str) -> (r: Option<&Node>)
        requires
            self.wf(),
        ensures
            ref_model(r) == (match named_child(self@, node.id, name@) {
                Some(i) => Some(self@[i]),
                None => None,
            }),
    {
        match self.child_position(node.id, name) {
            Some(i) => Some(&self.nodes[i]),
            None => None,
        }
    }

    /// The node that a reference points to.
    pub fn resolve(&self, node: &Node) -> (r: Option<&Node>)
        requires
            self.wf(),
        ensures
            ref_model(r) == (match node@.value {
                SpecValue::Reference(u) => found(self@, u),
                _ => None,
            }),
    {
        match &node.value {
            Value::Reference(target) => self.get(*target),
            _ => None,
        }
    }

    /// The parent of a node.
    pub fn parent(&self, node: &Node) -> (r: Option<&Node>)
        requires
            self.wf(),
        ensures
            ref_model(r) == (match node.parent {
                Some(p) => found(self@, p),
                None => None,
            }),
    {
        match node.parent {
            Some(p) => self.get(p),
            None => None,
        }
    }

    /// The nodes whose value refers to the node.
    pub fn references_to(&self, node: &Node) -> (r: Vec<&Node>)
        ensures
            ref_models(r@) == picked(
                self@,
                |n: SpecNode| n.value == SpecValue::Reference(node.id),
            ),
    {
        let ghost p = |n: SpecNode| n.value == SpecValue::Reference(node.id);
        let mut out: Vec<&Node> = Vec::new();
        let mut i: usize = 0;
        assert(self@.take(0) =~= Seq::<SpecNode>::empty());
        assert(ref_models(out@) =~= picked(self@.take(0), p));
        while i < self.nodes.len()
            invariant
                i <= self@.len(),
                self@.len() == self.nodes@.len(),
                p == (|n: SpecNode| n.value == SpecValue::Reference(node.id)),
                ref_models(out@) == picked(self@.take(i as int), p),
            decreases self@.len() - i,
        {
            proof {
                lemma_picked_step(self@, p, i as int);
            }
            let hit = match &self.nodes[i].value {
                Value::Reference(t) => *t == node.id,
                _ => false,
            };
            if hit {
                let ghost before = out@;
                out.push(&self.nodes[i]);
                assert(ref_models(out@) =~= ref_models(before).push(self@[i as int]));
            }
            i = i + 1;
        }
        assert(self@.take(self@.len() as int) =~= self@);
        out
    }

    /// The nodes with the name.
    pub fn find_by_name(&self, name: &str) -> (r: Vec<&Node>)
        ensures
            ref_models(r@) == picked(self@, |n: SpecNode| n.name == name@),
    {
        let ghost p = |n: SpecNode| n.name == name@;
        let mut out: Vec<&Node> = Vec::new();
        let mut i: usize = 0;
        assert(self@.take(0) =~= Seq::<SpecNode>::empty());
        assert(ref_models(out@) =~= picked(self@.take(0), p));
        while i < self.nodes.len()
            invariant
                i <= self@.len(),
                self@.len() == self.nodes@.len(),
                p == (|n: SpecNode| n.name == name@),
                ref_models(out@) == picked(self@.take(i as int), p),
            decreases self@.len() - i,
        {
            proof {
                lemma_picked_step(self@, p, i as int);
            }
            if same_text(self.nodes[i].name.as_str(), name) {
                let ghost before = out@;
                out.push(&self.nodes[i]);
                assert(ref_models(out@) =~= ref_models(before).push(self@[i as int]));
            }
            i = i + 1;
        }
        assert(self@.take(self@.len() as int) =~= self@);
        out
    }

    /// The node and all below it, parents before children. A node that a
    /// cycle of parents leads back to is met once.
    pub fn subtree<'a>(&'a self, node: &'a Node) -> (r: Vec<&'a Node>)
        requires
            self.wf(),
        ensures
            ref_models(r@) == subtree_of(self@, node@),
    {
        let mut out: Vec<&'a Node> = Vec::new();
        let mut stack: Vec<&'a Node> = Vec::new();
        stack.push(node);
        let mut seen = IdSet::new();
        let ghost mut todo: Nodes = seq![node@];
        assert(ref_models(out@) + walk(self@, todo, seen@) =~= subtree_of(self@, node@));
        while stack.len() > 0
            invariant
                self.wf(),
                self@.len() == self.nodes@.len(),
                todo == stacked(stack@),
                ref_models(out@) + walk(self@, todo, seen@) == subtree_of(self@, node@),
            decreases todo.len() + crate::model::pending(self@, seen@),
        {
            let ghost before_stack = stack@;
            let ghost before_todo = todo;
            let ghost before_seen = seen@;
            let n: &'a Node = match stack.pop() {
                Some(n) => n,
                None => {
                    return out;
                },
            };
            assert(todo[0] == n@);
            proof {
                todo = todo.skip(1);
                assert(todo =~= stacked(stack@));
            }
            if seen.insert(n.id) {
                proof {
                    crate::model::lemma_pending_insert(self@, before_seen, n.id);
                }
                let ghost before_out = out@;
                out.push(n);
                let pos = self.child_positions(n.id);
                let ghost c = children_of(self@, n.id);
                let ghost rest = todo;
                let mut k: usize = pos.len();
                assert(c.subrange(k as int, c.len() as int) + rest =~= stacked(stack@));
                while k > 0
                    invariant
                        k <= pos@.len(),
                        self@.len() == self.nodes@.len(),
                        c == children_of(self@, n.id),
                        ints(pos@) == kids(self@, n.id),
                        forall|j: int| 0 <= j < pos@.len() ==> #[trigger] pos@[j] < self@.len(),
                        stacked(stack@) == c.subrange(k as int, c.len() as int) + rest,
                    decreases k,
                {
                    k = k - 1;
                    let ghost s0 = stack@;
                    stack.push(&self.nodes[pos[k]]);
                    proof {
                        assert(ints(pos@)[k as int] == pos@[k as int]);
                        assert(stacked(stack@) =~= seq![c[k as int]] + stacked(s0));
                        assert(c.subrange(k as int, c.len() as int) =~= seq![c[k as int]]
                            + c.subrange(k + 1, c.len() as int));
                        assert(stacked(stack@) =~= c.subrange(k as int, c.len() as int) + rest);
                    }
                }
                proof {
                    assert(c.subrange(0, c.len() as int) =~= c);
                    todo = c + rest;
                    assert(ref_models(out@) =~= ref_models(before_out).push(n@));
                    assert(ref_models(out@) + walk(self@, todo, seen@) =~= ref_models(before_out)
                        + walk(self@, before_todo, before_seen));
                }
            } else {
                assert(seen@ =~= before_seen);
            }
        }
        assert(ref_models(out@) + walk(self@, todo, seen@) =~= ref_models(out@));
        out
    }

    /// A store of the subtree alone.
    pub fn sub_store<'a>(&'a self, root: &'a Node) -> (r: Store)
        requires
            self.wf(),
        ensures
            r.wf(),
            r@ == subtree_of(self@, root@),
    {
        let sub = self.subtree(root);
        let ghost w = subtree_of(self@, root@);
        let mut s = Store::new();
        let mut i: usize = 0;
        while i < sub.len()
            invariant
                i <= sub@.len(),
                s.wf(),
                ref_models(sub@) == w,
                s@ == w.take(i as int),
            decreases sub@.len() - i,
        {
            s.add(sub[i].clone());
            assert(w[i as int] == sub@[i as int]@);
            assert(w.take(i + 1) =~= w.take(i as int).push(w[i as int]));
            i = i + 1;
        }
        assert(w.take(w.len() as int) =~= w);
        s
    }
}

/// The nodes that a copy leaves out, from the run of a subtree: those named
/// `@history` and those below one that is left out.
pub open spec fn history_part(s: Nodes) -> Set<Uuid>
    decreases s.len(),
{
    if s.len() == 0 {
        Set::empty()
    } else {
        let e = history_part(s.drop_last());
        let n = s.last();
        if n.name == "@history"@ || (n.parent is Some && e.contains(n.parent->Some_0)) {
            e.insert(n.id)
        } else {
            e
        }
    }
}

/// The nodes that a copy leaves out. Where a cycle puts the root itself below
/// a history, that is all of them.
pub open spec fn left_out(s: Nodes, history: bool) -> Set<Uuid> {
    let e = history_part(s);
    if history {
        Set::empty()
    } else if s.len() > 0 && s[0].parent is Some && e.contains(s[0].parent->Some_0) {
        ids_of(s)
    } else {
        e
    }
}

/// The nodes of a subtree that are copied.
pub open spec fn copied_nodes(s: Nodes, history: bool) -> Nodes {
    s.filter(|n: SpecNode| !left_out(s, history).contains(n.id))
}

/// The id that the copy of `id` has, if `id` is copied.
pub open spec fn copy_id(k: Nodes, fresh: Seq<Uuid>, id: Uuid) -> Option<Uuid> {
    match find_id(k, id) {
        Some(i) => Some(fresh[i]),
        None => None,
    }
}

/// The value of a copy: references into the copied part follow it, others
/// stay; other values stay or are blanked.
pub open spec fn copy_value(k: Nodes, fresh: Seq<Uuid>, v: SpecValue, blank: bool) -> SpecValue {
    match v {
        SpecValue::Reference(u) => match copy_id(k, fresh, u) {
            Some(c) => SpecValue::Reference(c),
            None => v,
        },
        _ => if blank {
            SpecValue::Empty
        } else {
            v
        },
    }
}

/// The copy of one node.
pub open spec fn copy_node_of(
    k: Nodes,
    fresh: Seq<Uuid>,
    i: int,
    root: Uuid,
    parent: Option<Uuid>,
    blank: bool,
) -> SpecNode {
    SpecNode {
        id: fresh[i],
        parent: if k[i].id == root {
            parent
        } else if k[i].parent is Some {
            copy_id(k, fresh, k[i].parent->Some_0)
        } else {
            None
        },
        name: k[i].name,
        value: copy_value(k, fresh, k[i].value, blank),
    }
}

/// The copies of the nodes `k` under the ids `fresh`.
pub open spec fn copies(
    k: Nodes,
    fresh: Seq<Uuid>,
    root: Uuid,
    parent: Option<Uuid>,
    blank: bool,
) -> Nodes {
    Seq::new(k.len(), |i: int| copy_node_of(k, fresh, i, root, parent, blank))
}

/// The ids of a run of nodes, in order.
pub open spec fn id_list(s: Nodes) -> Seq<Uuid> {
    Seq::new(s.len(), |i: int| s[i].id)
}

/// The nodes without those whose id is in `gone`.
pub open spec fn without_ids(t: Nodes, gone: Set<Uuid>) -> Nodes {
    t.filter(|n: SpecNode| !gone.contains(n.id))
}

/// Whether a snapshot was replaced before the given time.
pub open spec fn replaced_before(t: Nodes, snap: Uuid, before: Option<Seq<char>>) -> bool {
    match before {
        None => true,
        Some(cut) => match named_child(t, snap, "@replaced"@) {
            Some(i) => t[i].value is Text && crate::text::lex_less(t[i].value->Text_0, cut),
            None => false,
        },
    }
}

/// The snapshots among the first `k` that are cut: all but the last `keep`,
/// as far as they were replaced before the given time.
pub open spec fn doomed(
    t: Nodes,
    snaps: Nodes,
    keep: nat,
    before: Option<Seq<char>>,
    k: nat,
) -> Seq<Uuid>
    decreases k,
{
    if k == 0 {
        Seq::<Uuid>::empty()
    } else {
        let r = doomed(t, snaps, keep, before, (k - 1) as nat);
        let s = snaps[k - 1];
        if k - 1 < snaps.len() - keep && replaced_before(t, s.id, before) {
            r.push(s.id)
        } else {
            r
        }
    }
}

/// The nodes after the subtrees of the first `k` ids are taken out one after
/// the other, and whether each was still there.
pub open spec fn taken_out(t: Nodes, ids: Seq<Uuid>, k: nat) -> (Nodes, bool)
    decreases k,
{
    if k == 0 {
        (t, true)
    } else {
        let (u, ok) = taken_out(t, ids, (k - 1) as nat);
        if !ok {
            (u, false)
        } else {
            match found(u, ids[k - 1]) {
                None => (u, false),
                Some(n) => (without_ids(u, ids_of(subtree_of(u, n))), true),
            }
        }
    }
}

/// What pruning a history did.
#[derive(Clone, Copy, Debug, PartialEq, Eq)]
pub struct PruneReport {
    pub removed: usize,
    pub kept: usize,
    pub before_nodes: usize,
    pub after_nodes: usize,
}

/// What a copy of a subtree takes over.
#[derive(Clone, Copy, Debug, PartialEq, Eq)]
pub struct CopyOptions {
    /// Blank the values that are no references.
    pub blank_values: bool,
    /// Copy the `@history` parts too.
    pub history: bool,
}

impl Default for CopyOptions {
    fn default() -> (r: Self)
        ensures
            !r.blank_values,
            !r.history,
    {
        CopyOptions { blank_values: false, history: false }
    }
}

impl Default for Store {
    fn default() -> (r: Self)
        ensures
            r.wf(),
            r@ == Seq::<SpecNode>::empty(),
    {
        Store::new()
    }
}

/// The ids of nodes, as a set.
fn id_set(nodes: &Vec<&Node>) -> (r: IdSet)
    ensures
        r@ == ids_of(ref_models(nodes@)),
{
    let ghost s = ref_models(nodes@);
    let mut out = IdSet::new();
    let mut i: usize = 0;
    assert(out@ =~= ids_of(s.take(0)));
    while i < nodes.len()
        invariant
            i <= nodes@.len(),
            s == ref_models(nodes@),
            out@ == ids_of(s.take(i as int)),
        decreases nodes@.len() - i,
    {
        let ghost before = out@;
        out.insert(nodes[i].id);
        proof {
            assert(s[i as int].id == nodes@[i as int].id);
            lemma_ids_of_push(s, i as int);
        }
        i = i + 1;
    }
    assert(s.take(s.len() as int) =~= s);
    out
}

pub proof fn lemma_ids_of_push(s: Nodes, i: int)
    requires
        0 <= i < s.len(),
    ensures
        ids_of(s.take(i + 1)) == ids_of(s.take(i)).insert(s[i].id),
{
    let a = ids_of(s.take(i + 1));
    let b = ids_of(s.take(i)).insert(s[i].id);
    assert forall|id: Uuid| a.contains(id) <==> b.contains(id) by {
        if a.contains(id) {
            let k = choose|k: int|
                0 <= k < s.take(i + 1).len() && (#[trigger] s.take(i + 1)[k]).id == id;
            if k < i {
                assert(s.take(i)[k].id == id);
            }
        }
        if b.contains(id) {
            if id == s[i].id {
                assert(s.take(i + 1)[i].id == id);
            } else {
                let k = choose|k: int|
                    0 <= k < s.take(i).len() && (#[trigger] s.take(i)[k]).id == id;
                assert(s.take(i + 1)[k].id == id);
            }
        }
    }
    assert(a =~= b);
}

impl Store {
    /// A store of the given nodes.
    pub fn from_nodes(nodes: Vec<Node>) -> (r: Store)
        ensures
            r.wf(),
            r@ == models(nodes@),
    {
        let ghost t = models(nodes@);
        let mut out = Store::new();
        for n in it: nodes
            invariant
                out.wf(),
                t == models(it.seq()),
                out@ == t.take(it.index() as int),
        {
            out.add(n);
            assert(t.take(it.index() + 1) =~= t.take(it.index() as int).push(t[it.index() as int]));
        }
        assert(t.take(t.len() as int) =~= t);
        out
    }

    /// Gives node `i` a name and a value.
    fn put(&mut self, i: usize, name: String, value: Value)
        requires
            old(self).wf(),
            i < old(self)@.len(),
        ensures
            final(self).wf(),
            final(self)@ == old(self)@.update(
                i as int,
                SpecNode { name: name@, value: value@, ..old(self)@[i as int] },
            ),
    {
        let ghost now = SpecNode { name: name@, value: value@, ..self@[i as int] };
        let id = self.nodes[i].id;
        let parent = self.nodes[i].parent;
        self.nodes.set(i, Node { id, parent, name, value });
        proof {
            let t = old(self)@;
            assert(self@ =~= t.update(i as int, now));
            assert(same_shape(t, self@));
            assert forall|x: Uuid| #[trigger]
                find_id(self@, x) == (if self.index@.contains_key(x) {
                    Some(self.index@[x] as int)
                } else {
                    None
                }) by {
                crate::model::lemma_same_shape(t, self@, x);
                assert(find_id(t, x) == find_id(t, x));
            }
            assert forall|x: Uuid| #[trigger] kids(self@, x) == ints(
                list_of(self.children_of@, x),
            ) by {
                crate::model::lemma_same_shape(t, self@, x);
                assert(kids(t, x) == kids(t, x));
            }
        }
    }

    /// Gives a node another parent.
    pub fn set_parent(&mut self, id: Uuid, parent: Option<Uuid>) -> (r: Result<(), String>)
        requires
            old(self).wf(),
        ensures
            final(self).wf(),
            match find_id(old(self)@, id) {
                None => r is Err && r->Err_0@ == "节点不存在"@ && final(self)@ == old(self)@,
                Some(i) => r is Ok && final(self)@ == old(self)@.update(
                    i,
                    SpecNode { parent, ..old(self)@[i] },
                ),
            },
    {
        let i: usize = match self.position(id) {
            Some(i) => i,
            None => return Err(owned("节点不存在")),
        };
        let ghost t = self@;
        let mut nodes: Vec<Node> = Vec::new();
        std::mem::swap(&mut nodes, &mut self.nodes);
        let n = nodes[i].clone();
        nodes.set(i, Node { id: n.id, parent, name: n.name, value: n.value });
        assert(models(nodes@) =~= t.update(i as int, SpecNode { parent, ..t[i as int] }));
        *self = Store::from_nodes(nodes);
        Ok(())
    }

    /// Notes the time on a node.
    fn add_time(&mut self, of: Uuid, name: &str)
        requires
            old(self).wf(),
        ensures
            final(self).wf(),
            final(self)@.len() == old(self)@.len() + 1,
            final(self)@.take(old(self)@.len() as int) == old(self)@,
            time_note(final(self)@.last(), of, name@),
    {
        let t = Node {
            id: Uuid::random_v4(),
            parent: Some(of),
            name: owned(name),
            value: Value::Text(now_text()),
        };
        self.add(t);
        assert(self@.take(old(self)@.len() as int) =~= old(self)@);
    }

    /// Adds a node under a fresh id, with a note of the time if
    /// `record_created`.
    pub fn create(
        &mut self,
        parent: Option<Uuid>,
        name: &str,
        value: Value,
        record_created: bool,
    ) -> (r: Node)
        requires
            old(self).wf(),
        ensures
            final(self).wf(),
            drawn(r.id),
            r.parent == parent,
            r.name@ == name@,
            r.value@ == value@,
            final(self)@.len() == old(self)@.len() + (if record_created {
                2int
            } else {
                1
            }),
            final(self)@.take(old(self)@.len() as int) == old(self)@,
            final(self)@[old(self)@.len() as int] == r@,
            record_created ==> time_note(
                final(self)@[old(self)@.len() as int + 1],
                r.id,
                "@created"@,
            ),
    {
        let n = Node { id: Uuid::random_v4(), parent, name: owned(name), value };
        self.add(n.clone());
        let ghost mid = self@;
        assert(mid.take(old(self)@.len() as int) =~= old(self)@);
        if record_created {
            self.add_time(n.id, "@created");
            assert(self@.take(old(self)@.len() as int) =~= mid.take(old(self)@.len() as int));
            assert(self@[old(self)@.len() as int] == mid[old(self)@.len() as int]) by {
                assert(self@.take(mid.len() as int)[old(self)@.len() as int] == mid[old(self)@.len() as int]);
            }
        }
        n
    }

    /// The id of the `@history` child of a node, made if it has none.
    fn ensure_history(&mut self, id: Uuid) -> (r: Uuid)
        requires
            old(self).wf(),
        ensures
            final(self).wf(),
            match named_child(old(self)@, id, "@history"@) {
                Some(h) => final(self)@ == old(self)@ && r == old(self)@[h].id,
                None => final(self)@.len() == old(self)@.len() + 1 && final(self)@.take(
                    old(self)@.len() as int,
                ) == old(self)@ && history_node(final(self)@.last(), id) && r == final(self)@.last().id,
            },
    {
        match self.child_position(id, "@history") {
            Some(h) => self.nodes[h].id,
            None => {
                let n = self.create(Some(id), "@history", Value::Empty, false);
                n.id
            },
        }
    }

    /// Files the name and value of node `i` below `hist`.
    fn file_snapshot(&mut self, i: usize, hist: Uuid)
        requires
            old(self).wf(),
            i < old(self)@.len(),
        ensures
            final(self).wf(),
            final(self)@.len() == old(self)@.len() + 2,
            final(self)@.take(old(self)@.len() as int) == old(self)@,
            snapshot(final(self)@[old(self)@.len() as int], hist, old(self)@[i as int]),
            time_note(
                final(self)@[old(self)@.len() as int + 1],
                final(self)@[old(self)@.len() as int].id,
                "@replaced"@,
            ),
    {
        let name = self.nodes[i].name.clone();
        let value = self.nodes[i].value.clone();
        let id = Uuid::random_v4();
        let snap = Node { id, parent: Some(hist), name, value };
        self.add(snap);
        let ghost mid = self@;
        let ghost n = old(self)@.len() as int;
        assert(mid.take(n) =~= old(self)@);
        self.add_time(id, "@replaced");
        assert(self@.take(n) =~= mid.take(n));
        assert(self@[n] == mid[n]) by {
            assert(self@.take(n + 1)[n] == mid[n]);
        }
    }

    /// Files the name and value of node `i` in its history.
    fn trace(&mut self, i: usize)
        requires
            old(self).wf(),
            i < old(self)@.len(),
        ensures
            final(self).wf(),
            traced(old(self)@, final(self)@, i as int),
    {
        let ghost t = self@;
        let ghost n = t.len() as int;
        let id = self.nodes[i].id;
        let hist = self.ensure_history(id);
        let ghost mid = self@;
        assert(mid[i as int] == t[i as int]) by {
            assert(mid.take(n)[i as int] == t[i as int]);
        }
        self.file_snapshot(i, hist);
        proof {
            assert(self@.take(n) =~= mid.take(n));
            if named_child(t, id, "@history"@) is Some {
                assert(mid.take(n) =~= mid);
            } else {
                assert(self@[n] == mid[n]) by {
                    assert(self@.take(n + 1)[n] == mid[n]);
                }
            }
        }
    }

    /// Changes a value; the former one goes to the history. The same value
    /// leaves no trace.
    pub fn update(&mut self, node_id: Uuid, new_value: Value) -> (r: Result<(), String>)
        requires
            old(self).wf(),
        ensures
            final(self).wf(),
            traced_change(
                old(self)@,
                final(self)@,
                node_id,
                r,
                |n: SpecNode| same_value(n.value, new_value@),
                |n: SpecNode| SpecNode { value: new_value@, ..n },
            ),
    {
        let i: usize = match self.position(node_id) {
            Some(i) => i,
            None => return Err(owned("节点不存在")),
        };
        if self.nodes[i].value == new_value {
            return Ok(());
        }
        let ghost t = self@;
        let name = self.nodes[i].name.clone();
        self.trace(i);
        let ghost mid = self@;
        proof {
            lemma_traced_keeps(t, mid, i as int);
        }
        self.put(i, name, new_value);
        assert(self@.update(i as int, t[i as int]) =~= mid);
        Ok(())
    }

    /// Changes a value without a trace.
    pub fn set_quiet(&mut self, node_id: Uuid, new_value: Value) -> (r: Result<(), String>)
        requires
            old(self).wf(),
        ensures
            final(self).wf(),
            match find_id(old(self)@, node_id) {
                None => r is Err && r->Err_0@ == "节点不存在"@ && final(self)@ == old(self)@,
                Some(i) => r is Ok && final(self)@ == (if same_value(
                    old(self)@[i].value,
                    new_value@,
                ) {
                    old(self)@
                } else {
                    old(self)@.update(i, SpecNode { value: new_value@, ..old(self)@[i] })
                }),
            },
    {
        let i: usize = match self.position(node_id) {
            Some(i) => i,
            None => return Err(owned("节点不存在")),
        };
        if self.nodes[i].value == new_value {
            return Ok(());
        }
        let name = self.nodes[i].name.clone();
        self.put(i, name, new_value);
        Ok(())
    }

    /// Changes a name without a trace; a name may take 255 bytes.
    pub fn rename_quiet(&mut self, node_id: Uuid, new_name: String) -> (r: Result<(), String>)
        requires
            old(self).wf(),
        ensures
            final(self).wf(),
            if encode_utf8(new_name@).len() > 255 {
                r is Err && r->Err_0@ == "名字超 255 字节"@ && final(self)@ == old(self)@
            } else {
                match find_id(old(self)@, node_id) {
                    None => r is Err && r->Err_0@ == "节点不存在"@ && final(self)@ == old(self)@,
                    Some(i) => r is Ok && final(self)@ == old(self)@.update(
                        i,
                        SpecNode { name: new_name@, ..old(self)@[i] },
                    ),
                }
            },
    {
        if new_name.as_str().as_bytes().len() > 255 {
            return Err(owned("名字超 255 字节"));
        }
        let i: usize = match self.position(node_id) {
            Some(i) => i,
            None => return Err(owned("节点不存在")),
        };
        let ghost now = SpecNode { name: new_name@, ..self@[i as int] };
        if same_text(self.nodes[i].name.as_str(), new_name.as_str()) {
            assert(self@ =~= self@.update(i as int, now));
            return Ok(());
        }
        let value = self.nodes[i].value.clone();
        self.put(i, new_name, value);
        Ok(())
    }

    /// Gives a node a name and a value without a trace.
    pub fn restore(&mut self, node_id: Uuid, name: String, value: Value) -> (r: Result<(), String>)
        requires
            old(self).wf(),
        ensures
            final(self).wf(),
            match find_id(old(self)@, node_id) {
                None => r is Err && r->Err_0@ == "节点不存在"@ && final(self)@ == old(self)@,
                Some(i) => r is Ok && final(self)@ == old(self)@.update(
                    i,
                    SpecNode { name: name@, value: value@, ..old(self)@[i] },
                ),
            },
    {
        let i: usize = match self.position(node_id) {
            Some(i) => i,
            None => return Err(owned("节点不存在")),
        };
        self.put(i, name, value);
        Ok(())
    }

    /// Takes a node back to the last snapshot in its history; what it was
    /// until now goes to the history too.
    pub fn revert(&mut self, node_id: Uuid) -> (r: Result<(), String>)
        requires
            old(self).wf(),
        ensures
            final(self).wf(),
            reverted(old(self)@, final(self)@, node_id, r),
    {
        let i: usize = match self.position(node_id) {
            Some(i) => i,
            None => return Err(owned("节点不存在")),
        };
        let h: usize = match self.child_position(node_id, "@history") {
            Some(h) => h,
            None => return Err(owned("无 @history，无法撤销")),
        };
        let hist = self.nodes[h].id;
        let snaps = self.child_positions(hist);
        assert(ints(snaps@).len() == snaps@.len());
        if snaps.len() == 0 {
            return Err(owned("@history 为空"));
        }
        let s: usize = snaps[snaps.len() - 1];
        assert(ints(snaps@)[snaps@.len() - 1] == s);
        let name = self.nodes[s].name.clone();
        let value = self.nodes[s].value.clone();
        let ghost t = self@;
        proof {
            crate::model::lemma_find_id(t, node_id);
        }
        self.file_snapshot(i, hist);
        let ghost mid = self@;
        assert(mid[i as int] == t[i as int]) by {
            assert(mid.take(t.len() as int)[i as int] == t[i as int]);
        }
        self.put(i, name, value);
        assert(self@.update(i as int, t[i as int]) =~= mid);
        Ok(())
    }

    /// Changes a name; the former one goes to the history. The same name
    /// leaves no trace; a name may take 255 bytes.
    pub fn rename(&mut self, node_id: Uuid, new_name: String) -> (r: Result<(), String>)
        requires
            old(self).wf(),
        ensures
            final(self).wf(),
            if encode_utf8(new_name@).len() > 255 {
                r is Err && r->Err_0@ == "名字超 255 字节"@ && final(self)@ == old(self)@
            } else {
                traced_change(
                    old(self)@,
                    final(self)@,
                    node_id,
                    r,
                    |n: SpecNode| n.name == new_name@,
                    |n: SpecNode| SpecNode { name: new_name@, ..n },
                )
            },
    {
        if new_name.as_str().as_bytes().len() > 255 {
            return Err(owned("名字超 255 字节"));
        }
        let i: usize = match self.position(node_id) {
            Some(i) => i,
            None => return Err(owned("节点不存在")),
        };
        if same_text(self.nodes[i].name.as_str(), new_name.as_str()) {
            return Ok(());
        }
        let ghost t = self@;
        let value = self.nodes[i].value.clone();
        self.trace(i);
        let ghost mid = self@;
        proof {
            lemma_traced_keeps(t, mid, i as int);
        }
        self.put(i, new_name, value);
        assert(self@.update(i as int, t[i as int]) =~= mid);
        Ok(())
    }

    /// Empties a node: its name and its value go to the history. A node that
    /// is empty already is left alone.
    pub fn remove(&mut self, node_id: Uuid) -> (r: Result<(), String>)
        requires
            old(self).wf(),
        ensures
            final(self).wf(),
            traced_change(
                old(self)@,
                final(self)@,
                node_id,
                r,
                |n: SpecNode| n.name.len() == 0 && n.value == SpecValue::Empty,
                |n: SpecNode|
                    SpecNode { name: Seq::<char>::empty(), value: SpecValue::Empty, ..n },
            ),
    {
        let i: usize = match self.position(node_id) {
            Some(i) => i,
            None => return Err(owned("节点不存在")),
        };
        let empty = match &self.nodes[i].value {
            Value::Empty => true,
            _ => false,
        };
        if self.nodes[i].name.as_str().is_empty() && empty {
            return Ok(());
        }
        let ghost t = self@;
        self.trace(i);
        let ghost mid = self@;
        proof {
            lemma_traced_keeps(t, mid, i as int);
        }
        self.put(i, String::new(), Value::Empty);
        assert(self@.update(i as int, t[i as int]) =~= mid);
        Ok(())
    }

    /// Whether the node is the root of a template.
    pub fn is_template_root(&self, node: &Node) -> (r: bool)
        requires
            self.wf(),
        ensures
            r == template_root(self@, node.id),
    {
        match self.child_position(node.id, "@模板") {
            Some(i) => match &self.nodes[i].value {
                Value::Empty => true,
                _ => false,
            },
            None => false,
        }
    }

    /// Whether the node is the root of an instance.
    pub fn is_instance_root(&self, node: &Node) -> (r: bool)
        requires
            self.wf(),
        ensures
            r == instance_root(self@, node.id),
    {
        self.child_position(node.id, "@实例").is_some()
    }

    /// The template that an instance refers to.
    pub fn template_ref(&self, node: &Node) -> (r: Option<Uuid>)
        requires
            self.wf(),
        ensures
            r == template_of(self@, node.id),
    {
        match self.child_position(node.id, "@模板") {
            Some(i) => match &self.nodes[i].value {
                Value::Reference(u) => Some(*u),
                _ => None,
            },
            None => None,
        }
    }

    /// Whether the node may be edited: from it upwards, the nearest marked
    /// node is not the root of a template.
    pub fn is_editable(&self, node: &Node) -> (r: bool)
        requires
            self.wf(),
        ensures
            r == editable(self@, node@, self@.len()),
    {
        let mut steps: usize = self.nodes.len();
        let mut cur: &Node = node;
        loop
            invariant
                self.wf(),
                editable(self@, node@, self@.len()) == editable(self@, cur@, steps as nat),
            decreases steps,
        {
            if self.is_template_root(cur) {
                return false;
            }
            if self.is_instance_root(cur) {
                return true;
            }
            let p = match cur.parent {
                Some(p) => p,
                None => return true,
            };
            if steps == 0 {
                return true;
            }
            cur = match self.get(p) {
                Some(n) => n,
                None => return true,
            };
            steps = steps - 1;
        }
    }

    /// The node that is met last upwards from the node, within a million
    /// steps; a missing parent and a node that is its own parent end the climb.
    pub fn root_of(&self, id: Uuid) -> (r: Option<Uuid>)
        requires
            self.wf(),
        ensures
            r == climb(self@, id, 1_000_000),
    {
        let mut cur = id;
        let mut steps: usize = 1_000_000;
        loop
            invariant
                self.wf(),
                climb(self@, id, 1_000_000) == climb(self@, cur, steps as nat),
            decreases steps,
        {
            let n = match self.get(cur) {
                Some(n) => n,
                None => return None,
            };
            let p = match n.parent {
                Some(p) => p,
                None => return Some(n.id),
            };
            if p == n.id || self.get(p).is_none() || steps == 0 {
                return Some(n.id);
            }
            steps = steps - 1;
            cur = p;
        }
    }

    /// Whether the root has a `@protocol` child that names the protocol.
    pub fn declares_protocol(&self, root: Uuid, name: &str) -> (r: bool)
        requires
            self.wf(),
        ensures
            r == declares(self@, root, name@),
    {
        if self.get(root).is_none() {
            return false;
        }
        let pos = self.child_positions(root);
        let ghost q = |n: SpecNode| n.parent == Some(root);
        let mut k: usize = 0;
        proof {
            crate::model::lemma_picks(self@, q);
            assert forall|j: int| 0 <= j < pos@.len() implies self@[(#[trigger] pos@[j]) as int].parent
                == Some(root) by {
                assert(ints(pos@)[j] == pos@[j]);
                assert(q(self@[picks(self@, q)[j]]));
            }
        }
        while k < pos.len()
            invariant
                k <= pos@.len(),
                self.wf(),
                self@.len() == self.nodes@.len(),
                found(self@, root) is Some,
                ints(pos@) == kids(self@, root),
                forall|j: int|
                    0 <= j < pos@.len() ==> #[trigger] pos@[j] < self@.len() && self@[pos@[j] as int].parent
                        == Some(root),
                forall|j: int|
                    0 <= j < k ==> !(self@[(#[trigger] pos@[j]) as int].name == "@protocol"@
                        && self@[pos@[j] as int].value == SpecValue::Text(name@)),
            decreases pos@.len() - k,
        {
            let n = &self.nodes[pos[k]];
            let hit = match &n.value {
                Value::Text(s) => same_text(s.as_str(), name),
                _ => false,
            };
            if hit && same_text(n.name.as_str(), "@protocol") {
                assert(self@[pos@[k as int] as int].parent == Some(root));
                return true;
            }
            k = k + 1;
        }
        proof {
            crate::model::lemma_picks(self@, q);
            assert forall|i: int|
                0 <= i < self@.len() && (#[trigger] self@[i]).parent == Some(root) && self@[i].name
                    == "@protocol"@ implies self@[i].value != SpecValue::Text(name@) by {
                assert(q(self@[i]));
                let l = choose|l: int| 0 <= l < kids(self@, root).len() && kids(self@, root)[l] == i;
                assert(ints(pos@)[l] == pos@[l]);
            }
        }
        false
    }

    /// The roots that declare the protocol.
    pub fn protocol_roots(&self, name: &str) -> (r: Vec<Uuid>)
        requires
            self.wf(),
        ensures
            r@ == id_list(
                picked(
                    self@,
                    |n: SpecNode| n.parent is None && declares(self@, n.id, name@),
                ),
            ),
    {
        let ghost p = |n: SpecNode| n.parent is None && declares(self@, n.id, name@);
        let mut out: Vec<Uuid> = Vec::new();
        let mut i: usize = 0;
        assert(self@.take(0) =~= Seq::<SpecNode>::empty());
        assert(out@ =~= id_list(picked(self@.take(0), p)));
        while i < self.nodes.len()
            invariant
                i <= self@.len(),
                self.wf(),
                self@.len() == self.nodes@.len(),
                p == (|n: SpecNode| n.parent is None && declares(self@, n.id, name@)),
                out@ == id_list(picked(self@.take(i as int), p)),
            decreases self@.len() - i,
        {
            proof {
                lemma_picked_step(self@, p, i as int);
            }
            if self.nodes[i].parent.is_none() && self.declares_protocol(self.nodes[i].id, name) {
                out.push(self.nodes[i].id);
                assert(out@ =~= id_list(picked(self@.take(i + 1), p)));
            }
            i = i + 1;
        }
        assert(self@.take(self@.len() as int) =~= self@);
        out
    }

    /// Takes a node and all below it out of the store.
    pub fn remove_subtree(&mut self, root_id: Uuid) -> (r: Result<(), String>)
        requires
            old(self).wf(),
        ensures
            final(self).wf(),
            match found(old(self)@, root_id) {
                None => r is Err && r->Err_0@ == "根节点不存在"@ && final(self)@ == old(self)@,
                Some(n) => r is Ok && final(self)@ == without_ids(
                    old(self)@,
                    ids_of(subtree_of(old(self)@, n)),
                ),
            },
    {
        let gone = match self.get(root_id) {
            Some(root) => {
                let sub = self.subtree(root);
                id_set(&sub)
            },
            None => return Err(owned("根节点不存在")),
        };
        let ghost t = self@;
        let ghost p = |n: SpecNode| !gone@.contains(n.id);
        let mut kept = Store::new();
        let mut i: usize = 0;
        assert(t.take(0).filter(p) =~= Seq::<SpecNode>::empty()) by {
            reveal(Seq::filter);
        }
        while i < self.nodes.len()
            invariant
                i <= self@.len(),
                t == self@,
                self@.len() == self.nodes@.len(),
                kept.wf(),
                p == (|n: SpecNode| !gone@.contains(n.id)),
                kept@ == t.take(i as int).filter(p),
            decreases self@.len() - i,
        {
            proof {
                assert(t.take(i + 1).drop_last() =~= t.take(i as int));
                reveal(Seq::filter);
            }
            if !gone.contains(self.nodes[i].id) {
                kept.add(self.nodes[i].clone());
            }
            i = i + 1;
        }
        assert(t.take(t.len() as int) =~= t);
        *self = kept;
        Ok(())
    }

    /// Cuts the history of a node: of its snapshots the last `keep` stay, and
    /// of the others those that were not replaced before `before` (the start
    /// of a time in the form of the notes).
    pub fn prune_history(&mut self, node_id: Uuid, keep: usize, before: Option<&str>) -> (r: Result<
        PruneReport,
        String,
    >)
        requires
            old(self).wf(),
        ensures
            final(self).wf(),
            pruned(
                old(self)@,
                final(self)@,
                node_id,
                keep as nat,
                match before {
                    Some(b) => Some(b@),
                    None => None,
                },
                r,
            ),
    {
        let ghost cut = match before {
            Some(b) => Some(b@),
            None => None,
        };
        let ghost t = self@;
        let total_nodes: usize = self.nodes.len();
        if self.get(node_id).is_none() {
            return Err(owned("节点不存在"));
        }
        let h: usize = match self.child_position(node_id, "@history") {
            Some(h) => h,
            None => {
                return Ok(
                    PruneReport {
                        removed: 0,
                        kept: 0,
                        before_nodes: total_nodes,
                        after_nodes: total_nodes,
                    },
                );
            },
        };
        let hist = self.nodes[h].id;
        let snaps = self.child_positions(hist);
        let ghost c = children_of(t, hist);
        let total: usize = snaps.len();
        assert(ints(snaps@).len() == c.len());
        let keep_from: usize = if keep >= total { 0 } else { total - keep };
        let mut gone: Vec<Uuid> = Vec::new();
        let mut k: usize = 0;
        while k < total
            invariant
                k <= total,
                total == snaps@.len(),
                total == c.len(),
                self.wf(),
                self@ == t,
                self@.len() == self.nodes@.len(),
                c == children_of(t, hist),
                ints(snaps@) == kids(t, hist),
                forall|j: int| 0 <= j < snaps@.len() ==> #[trigger] snaps@[j] < self@.len(),
                keep_from == (if keep >= total { 0int } else { total - keep }),
                cut == (match before {
                    Some(b) => Some(b@),
                    None => None,
                }),
                gone@ == doomed(t, c, keep as nat, cut, k as nat),
                gone@.len() <= k,
            decreases total - k,
        {
            assert(ints(snaps@)[k as int] == snaps@[k as int]);
            let id = self.nodes[snaps[k]].id;
            let old_enough = match before {
                None => true,
                Some(b) => match self.child_position(id, "@replaced") {
                    Some(i) => match &self.nodes[i].value {
                        Value::Text(x) => crate::text::text_less(x.as_str(), b),
                        _ => false,
                    },
                    None => false,
                },
            };
            if k < keep_from && old_enough {
                gone.push(id);
            }
            k = k + 1;
        }
        let mut j: usize = 0;
        while j < gone.len()
            invariant
                j <= gone@.len(),
                self.wf(),
                t == old(self)@,
                cut == (match before {
                    Some(b) => Some(b@),
                    None => None,
                }),
                gone@ == doomed(t, c, keep as nat, cut, c.len()),
                (self@, true) == taken_out(t, gone@, j as nat),
                found(t, node_id) is Some,
                named_child(t, node_id, "@history"@) == Some(h as int),
                hist == t[h as int].id,
                c == children_of(t, hist),
            decreases gone@.len() - j,
        {
            let ghost u = self@;
            match self.remove_subtree(gone[j]) {
                Ok(_) => {},
                Err(e) => {
                    proof {
                        assert(taken_out(t, gone@, (j + 1) as nat) == (u, false));
                        lemma_taken_out_fails(t, gone@, (j + 1) as nat, gone@.len());
                    }
                    return Err(e);
                },
            }
            j = j + 1;
        }
        let after_nodes: usize = self.nodes.len();
        Ok(
            PruneReport {
                removed: gone.len(),
                kept: total - gone.len(),
                before_nodes: total_nodes,
                after_nodes,
            },
        )
    }

    /// Copies a subtree under fresh ids below `new_parent` and gives the id of
    /// the new root. References into the copied part follow it; others stay.
    pub fn copy_subtree(
        &mut self,
        root_id: Uuid,
        new_parent: Option<Uuid>,
        opts: &CopyOptions,
    ) -> (r: Result<Uuid, String>)
        requires
            old(self).wf(),
        ensures
            final(self).wf(),
            subtree_copied(old(self)@, final(self)@, root_id, new_parent, *opts, r),
    {
        let ghost t = self@;
        let mut sub: Vec<Node> = Vec::new();
        let ghost s;
        match self.get(root_id) {
            Some(root) => {
                let refs = self.subtree(root);
                proof {
                    s = subtree_of(t, root@);
                }
                let mut i: usize = 0;
                while i < refs.len()
                    invariant
                        i <= refs@.len(),
                        ref_models(refs@) == s,
                        models(sub@) == s.take(i as int),
                    decreases refs@.len() - i,
                {
                    let ghost before = sub@;
                    sub.push(refs[i].clone());
                    proof {
                        assert(s[i as int] == refs@[i as int]@);
                        assert(models(sub@) =~= models(before).push(s[i as int]));
                        assert(s.take(i + 1) =~= s.take(i as int).push(s[i as int]));
                    }
                    i = i + 1;
                }
                assert(s.take(s.len() as int) =~= s);
            },
            None => return Err(owned("根节点不存在")),
        }
        assert(models(sub@) == s);
        let out = left_out_ids(&sub, opts.history);
        if out.contains(root_id) {
            return Err(owned("复制失败：根节点未复制"));
        }
        let ghost p = |n: SpecNode| !left_out(s, opts.history).contains(n.id);
        let mut kept: Vec<Node> = Vec::new();
        let mut fresh: Vec<Uuid> = Vec::new();
        let mut map: IdMap<Uuid> = IdMap::new();
        let mut i: usize = 0;
        assert(s.take(0).filter(p) =~= Seq::<SpecNode>::empty()) by {
            reveal(Seq::filter);
        }
        assert(models(kept@) =~= Seq::<SpecNode>::empty());
        while i < sub.len()
            invariant
                i <= sub@.len(),
                models(sub@) == s,
                out@ == left_out(s, opts.history),
                p == (|n: SpecNode| !left_out(s, opts.history).contains(n.id)),
                models(kept@) == s.take(i as int).filter(p),
                kept@.len() == fresh@.len(),
                forall|k: int| 0 <= k < fresh@.len() ==> drawn(#[trigger] fresh@[k]),
                forall|id: Uuid| #[trigger]
                    copy_id(models(kept@), fresh@, id) == (if map@.contains_key(id) {
                        Some(map@[id])
                    } else {
                        None
                    }),
            decreases sub@.len() - i,
        {
            proof {
                assert(s.take(i + 1).drop_last() =~= s.take(i as int));
                assert(s[i as int] == sub@[i as int]@);
                reveal(Seq::filter);
            }
            if !out.contains(sub[i].id) {
                let ghost k0 = models(kept@);
                let ghost f0 = fresh@;
                let ghost m0 = map@;
                let id = Uuid::random_v4();
                map.insert(sub[i].id, id);
                kept.push(sub[i].clone());
                fresh.push(id);
                proof {
                    let n = s[i as int];
                    assert(models(kept@) =~= k0.push(n));
                    assert forall|x: Uuid| #[trigger]
                        copy_id(models(kept@), fresh@, x) == (if map@.contains_key(x) {
                            Some(map@[x])
                        } else {
                            None
                        }) by {
                        crate::model::lemma_find_id_push(k0, n, x);
                        crate::model::lemma_find_id(k0, x);
                        assert(copy_id(k0, f0, x) == (if m0.contains_key(x) {
                            Some(m0[x])
                        } else {
                            None
                        }));
                    }
                }
            }
            i = i + 1;
        }
        assert(s.take(s.len() as int) =~= s);
        let ghost k = models(kept@);
        let ghost f = fresh@;
        let ghost cs = copies(k, f, root_id, new_parent, opts.blank_values);
        let mut j: usize = 0;
        assert(t + cs.take(0) =~= t);
        while j < kept.len()
            invariant
                j <= kept@.len(),
                self.wf(),
                k == models(kept@),
                f == fresh@,
                kept@.len() == fresh@.len(),
                forall|k: int| 0 <= k < f.len() ==> drawn(#[trigger] f[k]),
                cs == copies(k, f, root_id, new_parent, opts.blank_values),
                forall|id: Uuid| #[trigger]
                    copy_id(k, f, id) == (if map@.contains_key(id) {
                        Some(map@[id])
                    } else {
                        None
                    }),
                self@ == t + cs.take(j as int),
            decreases kept@.len() - j,
        {
            let n = &kept[j];
            assert(k[j as int] == n@);
            let parent = if n.id == root_id {
                new_parent
            } else {
                match n.parent {
                    Some(p) => match map.get(p) {
                        Some(c) => Some(*c),
                        None => None,
                    },
                    None => None,
                }
            };
            let value = match &n.value {
                Value::Reference(u) => match map.get(*u) {
                    Some(c) => Value::Reference(*c),
                    None => Value::Reference(*u),
                },
                _ => if opts.blank_values {
                    Value::Empty
                } else {
                    n.value.clone()
                },
            };
            proof {
                if n.parent is Some {
                    assert(copy_id(k, f, n.parent->Some_0) == copy_id(k, f, n.parent->Some_0));
                }
                if n@.value is Reference {
                    assert(copy_id(k, f, n@.value->Reference_0) == copy_id(
                        k,
                        f,
                        n@.value->Reference_0,
                    ));
                }
            }
            let c = Node { id: fresh[j], parent, name: n.name.clone(), value };
            assert(c@ == cs[j as int]);
            self.add(c);
            assert(t + cs.take(j + 1) =~= (t + cs.take(j as int)).push(cs[j as int]));
            j = j + 1;
        }
        assert(cs.take(cs.len() as int) =~= cs);
        assert(id_list(self@.skip(t.len() as int)) =~= f);
        assert(copy_id(k, f, root_id) == copy_id(k, f, root_id));
        match map.get(root_id) {
            Some(id) => Ok(*id),
            None => {
                proof {
                    crate::model::subtree_ids_distinct(t, found(t, root_id)->Some_0);
                    crate::model::lemma_find_id(t, root_id);
                    lemma_root_kept(s, p);
                    crate::model::lemma_find_id(k, root_id);
                }
                Err(owned("复制失败：根节点未复制"))
            },
        }
    }
}

/// The first node of a run is kept by a filter that holds of it.
proof fn lemma_root_kept(s: Nodes, p: spec_fn(SpecNode) -> bool)
    requires
        s.len() > 0,
        p(s[0]),
    ensures
        s.filter(p).len() > 0,
        s.filter(p)[0] == s[0],
    decreases s.len(),
{
    reveal(Seq::filter);
    if s.len() > 1 {
        lemma_root_kept(s.drop_last(), p);
    } else {
        assert(s.drop_last() =~= Seq::<SpecNode>::empty());
        assert(s.drop_last().filter(p) =~= Seq::<SpecNode>::empty());
    }
}

/// The ids that a copy leaves out.
fn left_out_ids(sub: &Vec<Node>, history: bool) -> (r: IdSet)
    ensures
        r@ == left_out(models(sub@), history),
{
    let ghost s = models(sub@);
    let mut out = IdSet::new();
    if history {
        return out;
    }
    let mut all = IdSet::new();
    let mut i: usize = 0;
    assert(s.take(0) =~= Seq::<SpecNode>::empty());
    assert(all@ =~= ids_of(s.take(0)));
    while i < sub.len()
        invariant
            i <= sub@.len(),
            s == models(sub@),
            out@ == history_part(s.take(i as int)),
            all@ == ids_of(s.take(i as int)),
        decreases sub@.len() - i,
    {
        proof {
            assert(s.take(i + 1).drop_last() =~= s.take(i as int));
            assert(s[i as int] == sub@[i as int]@);
            lemma_ids_of_push(s, i as int);
        }
        let below = match sub[i].parent {
            Some(p) => out.contains(p),
            None => false,
        };
        if below || same_text(sub[i].name.as_str(), "@history") {
            out.insert(sub[i].id);
        }
        all.insert(sub[i].id);
        i = i + 1;
    }
    assert(s.take(s.len() as int) =~= s);
    if sub.len() > 0 {
        assert(s[0] == sub@[0]@);
        if let Some(p) = sub[0].parent {
            if out.contains(p) {
                return all;
            }
        }
    }
    out
}

proof fn lemma_taken_out_fails(t: Nodes, ids: Seq<Uuid>, j: nat, k: nat)
    requires
        j <= k,
        !taken_out(t, ids, j).1,
    ensures
        taken_out(t, ids, k) == taken_out(t, ids, j),
    decreases k,
{
    if j < k {
        lemma_taken_out_fails(t, ids, j, (k - 1) as nat);
    }
}

proof fn lemma_traced_keeps(t: Nodes, u: Nodes, i: int)
    requires
        0 <= i < t.len(),
        traced(t, u, i),
    ensures
        u[i] == t[i],
        t.len() < u.len(),
{
    assert(u.take(t.len() as int)[i] == u[i]);
}

/// What taking a node back leads to.
pub open spec fn reverted(t: Nodes, u: Nodes, id: Uuid, r: Result<(), String>) -> bool {
    match find_id(t, id) {
        None => r is Err && r->Err_0@ == "节点不存在"@ && u == t,
        Some(i) => match named_child(t, id, "@history"@) {
            None => r is Err && r->Err_0@ == "无 @history，无法撤销"@ && u == t,
            Some(h) => {
                let snaps = kids(t, t[h].id);
                if snaps.len() == 0 {
                    r is Err && r->Err_0@ == "@history 为空"@ && u == t
                } else {
                    let last = t[snaps.last()];
                    &&& r is Ok
                    &&& changed_with_trace(
                        t,
                        u,
                        i,
                        SpecNode { name: last.name, value: last.value, ..t[i] },
                    )
                }
            },
        },
    }
}

/// What pruning a history leads to.
pub open spec fn pruned(
    t: Nodes,
    u: Nodes,
    id: Uuid,
    keep: nat,
    before: Option<Seq<char>>,
    r: Result<PruneReport, String>,
) -> bool {
    if found(t, id) is None {
        r is Err && r->Err_0@ == "节点不存在"@ && u == t
    } else {
        match named_child(t, id, "@history"@) {
            None => u == t && r is Ok && r->Ok_0.removed == 0 && r->Ok_0.kept == 0
                && r->Ok_0.before_nodes == t.len() && r->Ok_0.after_nodes == t.len(),
            Some(h) => {
                let snaps = children_of(t, t[h].id);
                let ids = doomed(t, snaps, keep, before, snaps.len());
                let (v, ok) = taken_out(t, ids, ids.len());
                &&& u == v
                &&& if ok {
                    r is Ok && r->Ok_0.removed == ids.len() && r->Ok_0.kept == snaps.len()
                        - ids.len() && r->Ok_0.before_nodes == t.len() && r->Ok_0.after_nodes
                        == v.len()
                } else {
                    r is Err && r->Err_0@ == "根节点不存在"@
                }
            },
        }
    }
}

/// What copying a subtree leads to.
pub open spec fn subtree_copied(
    t: Nodes,
    u: Nodes,
    root: Uuid,
    parent: Option<Uuid>,
    opts: CopyOptions,
    r: Result<Uuid, String>,
) -> bool {
    match found(t, root) {
        None => r is Err && r->Err_0@ == "根节点不存在"@ && u == t,
        Some(n) => {
            let s = subtree_of(t, n);
            if left_out(s, opts.history).contains(root) {
                r is Err && r->Err_0@ == "复制失败：根节点未复制"@ && u == t
            } else {
                let k = copied_nodes(s, opts.history);
                let fresh = id_list(u.skip(t.len() as int));
                &&& r is Ok
                &&& u == t + copies(k, fresh, root, parent, opts.blank_values)
                &&& copy_id(k, fresh, root) == Some(r->Ok_0)
                &&& forall|i: int| 0 <= i < fresh.len() ==> drawn(#[trigger] fresh[i])
            }
        },
    }
}

/// The bytes of nodes one after the other.
pub open spec fn all_bytes(t: Nodes) -> Seq<u8>
    decreases t.len(),
{
    if t.len() == 0 {
        Seq::<u8>::empty()
    } else {
        all_bytes(t.drop_last()) + node_bytes(t.last())
    }
}

/// Whether a name takes more bytes than its length field can say.
pub open spec fn name_too_long(n: SpecNode) -> bool {
    encode_utf8(n.name).len() > 255
}

/// The message for a name that is too long.
pub open spec fn long_name_message(len: nat) -> Seq<char> {
    "F009：节点名超长（"@ + decimal(len) + " 字节，上限 255）"@
}

/// The nodes that stand in `data` from `off` to its end, or the first error.
pub open spec fn nodes_from(data: Seq<u8>, off: int) -> Result<Nodes, Error>
    decreases data.len() - off,
{
    if off < 0 || off >= data.len() {
        Ok(Seq::<SpecNode>::empty())
    } else {
        match node_at(data, off) {
            (Ok(n), end) => {
                proof {
                    crate::codec::lemma_node_at_progress(data, off);
                }
                match nodes_from(data, end) {
                    Ok(rest) => Ok(seq![n] + rest),
                    Err(e) => Err(e),
                }
            },
            (Err(e), _) => Err(e),
        }
    }
}

/// What reading all nodes ended with, as a model.
pub open spec fn store_outcome(r: Result<Store, Error>) -> Result<Nodes, Error> {
    match r {
        Ok(s) => Ok(s@),
        Err(e) => Err(e),
    }
}

/// `before` in front of what was read.
pub open spec fn prepended(before: Nodes, r: Result<Nodes, Error>) -> Result<Nodes, Error> {
    match r {
        Ok(rest) => Ok(before + rest),
        Err(e) => Err(e),
    }
}

impl Store {
    /// The bytes of all nodes, without a file head.
    pub fn encode(&self) -> (r: Result<Vec<u8>, String>)
        ensures
            match first_pick(self@, |n: SpecNode| name_too_long(n)) {
                None => r is Ok && r->Ok_0@ == all_bytes(self@),
                Some(i) => r is Err && r->Err_0@ == long_name_message(
                    encode_utf8(self@[i].name).len(),
                ),
            },
    {
        let ghost p = |n: SpecNode| name_too_long(n);
        let mut out: Vec<u8> = Vec::new();
        let mut i: usize = 0;
        while i < self.nodes.len()
            invariant
                i <= self@.len(),
                self@.len() == self.nodes@.len(),
                p == (|n: SpecNode| name_too_long(n)),
                out@ == all_bytes(self@.take(i as int)),
                forall|j: int| 0 <= j < i ==> !p(#[trigger] self@[j]),
            decreases self@.len() - i,
        {
            assert(self@[i as int] == self.nodes@[i as int]@);
            match encode_node(&self.nodes[i]) {
                Ok(b) => {
                    put_slice(&mut out, b.as_slice());
                },
                Err(e) => {
                    proof {
                        assert(p(self@[i as int]));
                        crate::model::lemma_first_pick_is(self@, p, i as int);
                    }
                    return Err(codec_error(e));
                },
            }
            assert(self@.take(i + 1).drop_last() =~= self@.take(i as int));
            i = i + 1;
        }
        proof {
            crate::model::lemma_first_pick_none(self@, p);
            assert(self@.take(self@.len() as int) =~= self@);
        }
        Ok(out)
    }

    /// The nodes that the bytes hold, without a file head.
    pub fn decode(data: &[u8]) -> (r: Result<Store, Error>)
        ensures
            r is Ok ==> r->Ok_0.wf(),
            store_outcome(r) == nodes_from(data@, 0),
    {
        let mut store = Store::new();
        let mut off: usize = 0;
        proof {
            let all = nodes_from(data@, 0);
            if all is Ok {
                assert(store@ + all->Ok_0 =~= all->Ok_0);
            }
        }
        while off < data.len()
            invariant
                store.wf(),
                nodes_from(data@, 0) == prepended(store@, nodes_from(data@, off as int)),
            decreases data@.len() - off,
        {
            let ghost at = off as int;
            let ghost before = store@;
            match decode_node(data, &mut off) {
                Ok(n) => {
                    let ghost m = n@;
                    proof {
                        crate::codec::lemma_node_at_progress(data@, at);
                    }
                    store.add(n);
                    proof {
                        let rest = nodes_from(data@, off as int);
                        if rest is Ok {
                            assert(before + (seq![m] + rest->Ok_0) =~= store@ + rest->Ok_0);
                        }
                    }
                },
                Err(e) => return Err(e),
            }
        }
        assert(store@ + Seq::<SpecNode>::empty() =~= store@);
        Ok(store)
    }
}

/// Reading back the bytes of nodes gives the nodes.
pub proof fn store_round_trip(t: Nodes)
    requires
        forall|i: int| 0 <= i < t.len() ==> node_fits(#[trigger] t[i]),
    ensures
        nodes_from(all_bytes(t), 0) == Ok::<Nodes, Error>(t),
{
    lemma_round_trip_from(Seq::<u8>::empty(), t, 0);
    assert(Seq::<u8>::empty() + all_bytes(t) =~= all_bytes(t));
    assert(t.take(0) =~= Seq::<SpecNode>::empty());
    assert(t.skip(0) =~= t);
}

proof fn lemma_all_bytes_split(t: Nodes, k: int) -> (after: Seq<u8>)
    requires
        0 <= k < t.len(),
    ensures
        all_bytes(t.take(k + 1)) == all_bytes(t.take(k)) + node_bytes(t[k]),
        all_bytes(t) == all_bytes(t.take(k)) + node_bytes(t[k]) + after,
    decreases t.len() - k,
{
    assert(t.take(k + 1).drop_last() =~= t.take(k));
    if k + 1 == t.len() {
        assert(t.take(k + 1) =~= t);
        assert(all_bytes(t) =~= all_bytes(t.take(k)) + node_bytes(t[k]) + Seq::<u8>::empty());
        Seq::<u8>::empty()
    } else {
        let a = lemma_all_bytes_split(t, k + 1);
        let b = node_bytes(t[k + 1]) + a;
        assert(all_bytes(t) =~= all_bytes(t.take(k)) + node_bytes(t[k]) + b);
        b
    }
}

proof fn lemma_round_trip_from(before: Seq<u8>, t: Nodes, k: int)
    requires
        0 <= k <= t.len(),
        forall|i: int| 0 <= i < t.len() ==> node_fits(#[trigger] t[i]),
    ensures
        nodes_from(before + all_bytes(t), (before.len() + all_bytes(t.take(k)).len()) as int) == Ok::<
            Nodes,
            Error,
        >(t.skip(k)),
    decreases t.len() - k,
{
    let data = before + all_bytes(t);
    let front = before + all_bytes(t.take(k));
    let at = front.len() as int;
    if k == t.len() {
        assert(t.take(k) =~= t);
        assert(t.skip(k) =~= Seq::<SpecNode>::empty());
    } else {
        let after = lemma_all_bytes_split(t, k);
        assert(node_fits(t[k]));
        assert(data =~= front + node_bytes(t[k]) + after);
        crate::codec::node_round_trip(t[k], front, after);
        crate::codec::lemma_node_at_progress(data, at);
        lemma_round_trip_from(before, t, k + 1);
        assert(seq![t[k]] + t.skip(k + 1) =~= t.skip(k));
    }
}

proof fn lemma_nodes_from_more(data: Seq<u8>, t: Nodes, off: int)
    requires
        0 <= off <= data.len(),
        nodes_from(data, off) is Ok,
        forall|i: int| 0 <= i < t.len() ==> node_fits(#[trigger] t[i]),
    ensures
        nodes_from(data + all_bytes(t), off) == Ok::<Nodes, Error>(
            nodes_from(data, off)->Ok_0 + t,
        ),
    decreases data.len() - off,
{
    let all = data + all_bytes(t);
    let got = nodes_from(data, off)->Ok_0;
    if off == data.len() {
        lemma_round_trip_from(data, t, 0);
        assert(t.take(0) =~= Seq::<SpecNode>::empty());
        assert(t.skip(0) =~= t);
        assert(got + t =~= t);
    } else {
        crate::codec::lemma_node_at_prefix(data, all_bytes(t), off);
        crate::codec::lemma_node_at_progress(data, off);
        crate::codec::lemma_node_at_progress(all, off);
        let n = node_at(data, off).0->Ok_0;
        let end = node_at(data, off).1;
        lemma_nodes_from_more(data, t, end);
        let rest = nodes_from(data, end)->Ok_0;
        assert(seq![n] + (rest + t) =~= (seq![n] + rest) + t);
    }
}

/// The folded view of a store: of each id the last record, in the order in
/// which the ids occur first.
pub fn fold(store: &Store) -> (r: Store)
    requires
        store.wf(),
    ensures
        r.wf(),
        r@ == folded(store@),
{
    let ghost t = store@;
    let mut seen = IdSet::new();
    let mut out = Store::new();
    let mut i: usize = 0;
    assert(seen@ =~= ids_of(t.take(0)));
    while i < store.nodes.len()
        invariant
            i <= t.len(),
            t == store@,
            t.len() == store.nodes@.len(),
            store.wf(),
            out.wf(),
            seen@ == ids_of(t.take(i as int)),
            out@ == fold_part(t, i as int),
        decreases t.len() - i,
    {
        let id = store.nodes[i].id;
        proof {
            lemma_ids_of_push(t, i as int);
            assert(t.take(i + 1).drop_last() =~= t.take(i as int));
            crate::model::lemma_find_id(t.take(i as int), id);
            crate::model::lemma_find_id(t, id);
            crate::model::lemma_firsts(t.take(i as int));
            if find_id(t.take(i as int), id) is Some {
                let k = find_id(t.take(i as int), id)->Some_0;
                assert(t.take(i as int)[k].id == id);
            }
        }
        if seen.insert(id) {
            if let Some(n) = store.get(id) {
                out.add(n.clone());
            }
            assert(out@ =~= fold_part(t, i + 1));
        } else {
            assert(out@ =~= fold_part(t, i + 1));
        }
        i = i + 1;
    }
    assert(t.take(t.len() as int) =~= t);
    assert(fold_part(t, t.len() as int) =~= folded(t));
    out
}

/// The part of the folded view whose ids occur among the first `i` nodes.
spec fn fold_part(t: Nodes, i: int) -> Nodes {
    Seq::new(
        firsts(t.take(i)).len(),
        |k: int| t[find_id(t, t[firsts(t.take(i))[k]].id)->Some_0],
    )
}

/// The first bytes of every file: `XRNG`.
pub open spec fn magic() -> Seq<u8> {
    seq![0x58u8, 0x52u8, 0x4eu8, 0x47u8]
}

/// The version of the file format.
pub const FORMAT_VERSION: u8 = 1;

/// The value of a `@protocol` node that lets records of one id follow each
/// other in a file, the last one being the valid one.
pub const PROTOCOL_APPEND: &'static str = "append-v1";

/// The bytes of a file: magic, version, length of the head text, head text,
/// nodes.
pub open spec fn file_bytes(nodes: Seq<u8>) -> Seq<u8> {
    magic() + seq![FORMAT_VERSION] + be(encode_utf8(HEADER@).len(), 4) + encode_utf8(HEADER@)
        + nodes
}

/// The length of the head text that a file states.
pub open spec fn head_len(data: Seq<u8>) -> int {
    crate::bytes::be_value(data.subrange(5, 9)) as int
}

/// What is wrong with the head of a file, if anything.
pub open spec fn head_fault(data: Seq<u8>) -> Option<Seq<char>> {
    if data.len() < 4 {
        Some("F004：文件截断（不足 4 字节）"@)
    } else if data.take(4) != magic() {
        Some("F001：魔数非法（不是 XRNG 息壤文件）"@)
    } else if data.len() < 9 {
        Some("F003：文件头不完整（不足 9 字节）"@)
    } else if data[4] != FORMAT_VERSION {
        Some("F002：格式版本不支持（"@ + decimal(data[4] as nat) + "）"@)
    } else if 9 + head_len(data) > data.len() {
        Some("F003：头长非法"@)
    } else {
        None
    }
}

fn has_magic(data: &[u8]) -> (r: bool)
    requires
        data@.len() >= 4,
    ensures
        r == (data@.take(4) == magic()),
{
    let r = data[0] == 0x58 && data[1] == 0x52 && data[2] == 0x4e && data[3] == 0x47;
    proof {
        if r {
            assert(data@.take(4) =~= magic());
        } else {
            assert(data@.take(4)[0] == data@[0]);
            assert(data@.take(4)[1] == data@[1]);
            assert(data@.take(4)[2] == data@[2]);
            assert(data@.take(4)[3] == data@[3]);
        }
    }
    r
}

/// Where the nodes of a sound file start, or what is wrong with its head.
fn checked_start(data: &[u8]) -> (r: Result<usize, String>)
    ensures
        match r {
            Ok(start) => head_fault(data@) is None && start == 9 + head_len(data@) && start
                <= data@.len(),
            Err(e) => head_fault(data@) == Some(e@),
        },
{
    if data.len() < 4 {
        return Err(owned("F004：文件截断（不足 4 字节）"));
    }
    if !has_magic(data) {
        return Err(owned("F001：魔数非法（不是 XRNG 息壤文件）"));
    }
    if data.len() < 9 {
        return Err(owned("F003：文件头不完整（不足 9 字节）"));
    }
    let version: u8 = data[4];
    if version != FORMAT_VERSION {
        let d = decimal_text(version as u64);
        return Err(join3("F002：格式版本不支持（", d.as_str(), "）"));
    }
    let n: u64 = get_be(data, 5, 4);
    if n > (data.len() - 9) as u64 {
        return Err(owned("F003：头长非法"));
    }
    Ok(9 + n as usize)
}

/// The position at which the nodes of a file start.
pub fn node_data_start(data: &[u8]) -> (r: Result<u64, String>)
    ensures
        if data@.len() < 9 {
            r is Err && r->Err_0@ == "F004：文件截断（头部不完整）"@
        } else if data@.take(4) != magic() {
            r is Err && r->Err_0@ == "F001：魔数非法（不是 XRNG 息壤文件）"@
        } else if 9 + head_len(data@) > data@.len() {
            r is Err && r->Err_0@ == "F003：头长非法"@
        } else {
            r is Ok && r->Ok_0 == 9 + head_len(data@)
        },
{
    if data.len() < 9 {
        return Err(owned("F004：文件截断（头部不完整）"));
    }
    if !has_magic(data) {
        return Err(owned("F001：魔数非法（不是 XRNG 息壤文件）"));
    }
    let n: u64 = get_be(data, 5, 4);
    if n > (data.len() - 9) as u64 {
        return Err(owned("F003：头长非法"));
    }
    Ok(9 + n)
}

/// The message for bytes that are no nodes.
pub open spec fn codec_message(e: Error) -> Seq<char> {
    match e {
        Error::Truncated => "F004：文件截断（节点流在节点中间结束）"@,
        Error::InvalidTag(t) => "F010：类型标记非法（"@ + decimal(t as nat) + "）"@,
        Error::InvalidUtf8 => "F011：文本非法 UTF-8"@,
        Error::NameTooLong(n) => long_name_message(n as nat),
    }
}

/// The message for bytes that are no nodes.
pub fn codec_error(e: Error) -> (r: String)
    ensures
        r@ == codec_message(e),
{
    match e {
        Error::Truncated => owned("F004：文件截断（节点流在节点中间结束）"),
        Error::InvalidTag(t) => {
            let d = decimal_text(t as u64);
            join3("F010：类型标记非法（", d.as_str(), "）")
        },
        Error::InvalidUtf8 => owned("F011：文本非法 UTF-8"),
        Error::NameTooLong(n) => {
            let d = decimal_text(n as u64);
            join3("F009：节点名超长（", d.as_str(), " 字节，上限 255）")
        },
    }
}

/// The bytes of a file that holds the nodes.
pub fn make_file(nodes_bytes: &[u8]) -> (out: Vec<u8>)
    ensures
        out@ == file_bytes(nodes_bytes@),
{
    let header = HEADER.as_bytes();
    let mut out: Vec<u8> = Vec::new();
    out.push(0x58);
    out.push(0x52);
    out.push(0x4e);
    out.push(0x47);
    out.push(FORMAT_VERSION);
    put_be(&mut out, header.len() as u64, 4);
    put_slice(&mut out, header);
    put_slice(&mut out, nodes_bytes);
    assert(out@ =~= file_bytes(nodes_bytes@));
    out
}

/// The version and the head text of a file.
pub fn read_header(data: &[u8]) -> (r: Result<(u8, String), String>)
    ensures
        match head_fault(data@) {
            Some(e) => r is Err && r->Err_0@ == e,
            None => {
                let h = data@.subrange(9, 9 + head_len(data@));
                if valid_utf8(h) {
                    r is Ok && r->Ok_0.0 == FORMAT_VERSION && r->Ok_0.1@ == decode_utf8(h)
                } else {
                    r is Err && r->Err_0@ == "头文本非法 UTF-8"@
                }
            },
        },
{
    match checked_start(data) {
        Err(e) => Err(e),
        Ok(start) => match text_of_bytes(sub_bytes(data, 9, start)) {
            Some(s) => Ok((FORMAT_VERSION, s)),
            None => Err(owned("头文本非法 UTF-8")),
        },
    }
}

/// The bytes of the nodes of a file.
pub fn parse_file(data: &[u8]) -> (r: Result<&[u8], String>)
    ensures
        match head_fault(data@) {
            Some(e) => r is Err && r->Err_0@ == e,
            None => r is Ok && r->Ok_0@ == data@.skip(9 + head_len(data@)),
        },
{
    match checked_start(data) {
        Err(e) => Err(e),
        Ok(start) => {
            let s = vstd::slice::slice_subrange(data, start, data.len());
            assert(s@ =~= data@.skip(9 + head_len(data@)));
            Ok(s)
        },
    }
}

/// A file that was made is sound, and its nodes are those that it was made of.
pub proof fn file_round_trip(nodes: Seq<u8>)
    ensures
        head_fault(file_bytes(nodes)) is None,
        file_bytes(nodes).skip(9 + head_len(file_bytes(nodes))) == nodes,
        file_bytes(nodes).subrange(9, 9 + head_len(file_bytes(nodes))) == encode_utf8(HEADER@),
{
    let d = file_bytes(nodes);
    let h = encode_utf8(HEADER@);
    crate::header::lemma_header_fits();
    crate::bytes::lemma_be_len(h.len(), 4);
    crate::bytes::lemma_pow256_values();
    crate::bytes::lemma_be_value_of_be(h.len(), 4);
    assert(d.take(4) =~= magic());
    assert(d.subrange(5, 9) =~= be(h.len(), 4));
    assert(d.skip(9 + h.len() as int) =~= nodes);
    assert(d.subrange(9, 9 + h.len() as int) =~= h);
}

/// Where a file is sound, its nodes start where its head text ends.
pub proof fn data_start_agrees(data: Seq<u8>)
    requires
        head_fault(data) is None,
    ensures
        data.len() >= 9,
        data.take(4) == magic(),
        9 + head_len(data) <= data.len(),
{
}

/// The nodes of a file, or what is wrong with it.
pub open spec fn file_nodes(data: Seq<u8>) -> Result<Nodes, Seq<char>> {
    match head_fault(data) {
        Some(e) => Err(e),
        None => match nodes_from(data.skip(9 + head_len(data)), 0) {
            Ok(t) => Ok(t),
            Err(e) => Err(codec_message(e)),
        },
    }
}

/// What reading a file ended with, as a model.
pub open spec fn load_outcome(r: Result<Store, String>) -> Result<Nodes, Seq<char>> {
    match r {
        Ok(s) => Ok(s@),
        Err(e) => Err(e@),
    }
}

impl Store {
    /// The bytes of a file with all nodes.
    pub fn save(&self) -> (r: Result<Vec<u8>, String>)
        ensures
            match first_pick(self@, |n: SpecNode| name_too_long(n)) {
                None => r is Ok && r->Ok_0@ == file_bytes(all_bytes(self@)),
                Some(i) => r is Err && r->Err_0@ == long_name_message(
                    encode_utf8(self@[i].name).len(),
                ),
            },
    {
        match self.encode() {
            Ok(b) => Ok(make_file(b.as_slice())),
            Err(e) => Err(e),
        }
    }

    /// The nodes of a file, of which these are the bytes.
    pub fn load(data: &[u8]) -> (r: Result<Store, String>)
        ensures
            r is Ok ==> r->Ok_0.wf(),
            load_outcome(r) == file_nodes(data@),
    {
        match parse_file(data) {
            Err(e) => Err(e),
            Ok(b) => match Store::decode(b) {
                Ok(s) => Ok(s),
                Err(e) => Err(codec_error(e)),
            },
        }
    }

    /// The nodes of a file in the folded view: of each id the last record.
    pub fn load_view(data: &[u8]) -> (r: Result<Store, String>)
        ensures
            r is Ok ==> r->Ok_0.wf(),
            load_outcome(r) == (match file_nodes(data@) {
                Ok(t) => Ok::<Nodes, Seq<char>>(folded(t)),
                Err(e) => Err(e),
            }),
    {
        match Store::load(data) {
            Ok(s) => Ok(fold(&s)),
            Err(e) => Err(e),
        }
    }
}

/// Loading what was saved gives the nodes back.
pub proof fn saved_file_loads(t: Nodes)
    requires
        forall|i: int| 0 <= i < t.len() ==> node_fits(#[trigger] t[i]),
    ensures
        file_nodes(file_bytes(all_bytes(t))) == Ok::<Nodes, Seq<char>>(t),
{
    file_round_trip(all_bytes(t));
    store_round_trip(t);
}

/// A file with the bytes of records behind it loads as the nodes of the file and the
/// records behind them.
pub proof fn appended_records_load(data: Seq<u8>, t: Nodes)
    requires
        file_nodes(data) is Ok,
        forall|i: int| 0 <= i < t.len() ==> node_fits(#[trigger] t[i]),
    ensures
        file_nodes(data + all_bytes(t)) == Ok::<Nodes, Seq<char>>(file_nodes(data)->Ok_0 + t),
{
    let all = data + all_bytes(t);
    let start = 9 + head_len(data);
    assert(all.take(4) =~= data.take(4));
    assert(all.subrange(5, 9) =~= data.subrange(5, 9));
    assert(all.skip(start) =~= data.skip(start) + all_bytes(t));
    lemma_nodes_from_more(data.skip(start), t, 0);
}

// ---------------------------------------------------------------------------
// Laws of changes
// ---------------------------------------------------------------------------

/// A change that was traced keeps every other node and every id and parent, and
/// adds at the end.
pub proof fn traced_change_is_local(t: Nodes, u: Nodes, i: int, now: SpecNode, j: int)
    requires
        changed_with_trace(t, u, i, now),
        0 <= j < t.len(),
        j != i,
    ensures
        u[j] == t[j],
{
    let v = u.update(i, t[i]);
    assert(v.take(t.len() as int)[j] == v[j]);
}

proof fn lemma_last_kid(t: Nodes, x: Uuid, j: int)
    requires
        0 <= j < t.len(),
        t[j].parent == Some(x),
        forall|k: int| j < k < t.len() ==> (#[trigger] t[k]).parent != Some(x),
    ensures
        kids(t, x).len() > 0,
        kids(t, x).last() == j,
{
    let p = |n: SpecNode| n.parent == Some(x);
    crate::model::lemma_picks(t, p);
    let s = picks(t, p);
    assert(p(t[j]));
    let l = choose|l: int| 0 <= l < s.len() && s[l] == j;
    if l < s.len() - 1 {
        assert(s[l] < s[s.len() - 1]);
        assert(p(t[s[s.len() - 1]]));
    }
}

/// Whether a change of a node leaves the place of its history: only a node that is its own
/// parent can come to be its own history, or cease to be it.
pub open spec fn history_stays(t: Nodes, i: int, now: SpecNode) -> bool {
    ||| t[i].parent != Some(t[i].id)
    ||| (t[i].name == "@history"@ <==> now.name == "@history"@)
    ||| (named_child(t, t[i].id, "@history"@) matches Some(h) && h < i)
}

/// Taking a change back restores the name and the value of a node, provided that the
/// change leaves the place of its history, and that the ids made for the history differ
/// from each other and from all before.
pub proof fn revert_undoes_change(
    t: Nodes,
    u: Nodes,
    v: Nodes,
    i: int,
    now: SpecNode,
    r: Result<(), String>,
)
    requires
        find_id(t, t[i].id) == Some(i),
        history_stays(t, i, now),
        now.id == t[i].id,
        now.parent == t[i].parent,
        changed_with_trace(t, u, i, now),
        forall|a: int, b: int|
            0 <= a < b < u.len() && t.len() <= b ==> (#[trigger] u[a]).id != (#[trigger] u[b]).id,
        reverted(u, v, t[i].id, r),
    ensures
        r is Ok,
        v[i].id == t[i].id,
        v[i].parent == t[i].parent,
        v[i].name == t[i].name,
        v[i].value == t[i].value,
{
    let id = t[i].id;
    let n = t.len() as int;
    let w = u.update(i, t[i]);
    let p = |m: SpecNode| m.parent == Some(id) && m.name == "@history"@;
    assert(w.take(n) == t);
    assert forall|j: int| 0 <= j < n && j != i implies u[j] == t[j] by {
        assert(w.take(n)[j] == w[j]);
    }
    crate::model::lemma_find_id(t, id);
    assert forall|j: int| i < j < u.len() implies u[j].id != id by {
        if j >= n {
            assert(u[i].id != u[j].id);
        }
    }
    crate::model::lemma_find_id_is(u, id, i);
    crate::model::lemma_first_pick(t, p);
    match named_child(t, id, "@history"@) {
        Some(h) => {
            assert forall|j: int| 0 <= j < h implies !p(#[trigger] u[j]) by {
                assert(!p(t[j]));
            }
            crate::model::lemma_first_pick_is(u, p, h);
            assert(w[n] == u[n] && w[n + 1] == u[n + 1]);
            assert(u[h].id != u[n].id);
            lemma_last_kid(u, u[h].id, n);
        },
        None => {
            assert forall|j: int| 0 <= j < n implies !p(#[trigger] u[j]) by {
                assert(!p(t[j]));
            }
            assert(w[n] == u[n] && w[n + 1] == u[n + 1] && w[n + 2] == u[n + 2]);
            crate::model::lemma_first_pick_is(u, p, n);
            assert(u[n].id != u[n + 1].id);
            lemma_last_kid(u, u[n].id, n + 1);
        },
    }
}

/// Taking a change back twice brings the change again: the node has the name and the value
/// that the change gave it, provided that the change leaves the place of its history, and
/// that the ids made for the history differ from each other and from all before.
pub proof fn second_revert_redoes_change(
    t: Nodes,
    u: Nodes,
    v: Nodes,
    w: Nodes,
    i: int,
    now: SpecNode,
    first: Result<(), String>,
    second: Result<(), String>,
)
    requires
        find_id(t, t[i].id) == Some(i),
        history_stays(t, i, now),
        now.id == t[i].id,
        now.parent == t[i].parent,
        changed_with_trace(t, u, i, now),
        reverted(u, v, t[i].id, first),
        reverted(v, w, t[i].id, second),
        forall|a: int, b: int|
            0 <= a < b < v.len() && t.len() <= b ==> (#[trigger] v[a]).id != (#[trigger] v[b]).id,
    ensures
        first is Ok,
        second is Ok,
        w[i].id == now.id,
        w[i].parent == now.parent,
        w[i].name == now.name,
        w[i].value == now.value,
{
    let id = t[i].id;
    let n = t.len() as int;
    let x = u.update(i, t[i]);
    assert(x.take(n) == t);
    crate::model::lemma_find_id(t, id);
    assert forall|j: int| 0 <= j < n && j != i implies u[j] == t[j] by {
        assert(x.take(n)[j] == x[j]);
    }
    // the trace of the first step back leaves the ids of `u`
    assert(u.len() <= v.len() && forall|j: int|
        0 <= j < u.len() ==> (#[trigger] u[j]).id == v[j].id) by {
        crate::model::lemma_find_id(u, id);
        if find_id(u, id) is Some && v != u {
            let k = find_id(u, id)->Some_0;
            let y = v.update(k, u[k]);
            assert(y.take(u.len() as int) == u);
            assert forall|j: int| 0 <= j < u.len() implies (#[trigger] u[j]).id == v[j].id by {
                assert(y.take(u.len() as int)[j] == y[j]);
            }
        }
    }
    assert forall|a: int, b: int| 0 <= a < b < u.len() && n <= b implies (#[trigger] u[a]).id != (
    #[trigger] u[b]).id by {
        assert(v[a].id != v[b].id);
    }
    revert_undoes_change(t, u, v, i, now, first);
    assert forall|j: int| i < j < u.len() implies u[j].id != id by {
        if j >= n {
            assert(u[i].id != u[j].id);
        }
    }
    crate::model::lemma_find_id_is(u, id, i);
    let h = named_child(u, id, "@history"@)->Some_0;
    let last = u[kids(u, u[h].id).last()];
    let back = SpecNode { name: last.name, value: last.value, ..u[i] };
    assert(changed_with_trace(u, v, i, back));
    let p = |m: SpecNode| m.parent == Some(id) && m.name == "@history"@;
    crate::model::lemma_first_pick(t, p);
    if let Some(g) = named_child(t, id, "@history"@) {
        if g < i {
            assert forall|j: int| 0 <= j < g implies !p(#[trigger] u[j]) by {
                assert(!p(t[j]));
            }
            crate::model::lemma_first_pick_is(u, p, g);
        }
    }
    revert_undoes_change(u, v, w, i, back, second);
}

/// Nothing that was taken out is found any more, and everything else is found
/// as before.
pub proof fn taken_out_is_gone(t: Nodes, gone: Set<Uuid>, id: Uuid)
    ensures
        found(without_ids(t, gone), id) == (if gone.contains(id) {
            None
        } else {
            found(t, id)
        }),
    decreases t.len(),
{
    let p = |n: SpecNode| !gone.contains(n.id);
    reveal(Seq::filter);
    if t.len() > 0 {
        let d = t.drop_last();
        taken_out_is_gone(d, gone, id);
        let f = d.filter(p);
        crate::model::lemma_find_id(d, id);
        crate::model::lemma_find_id(f, id);
        if p(t.last()) {
            crate::model::lemma_find_id_push(f, t.last(), id);
            assert(t.filter(p) == f.push(t.last()));
        }
    }
}

/// The nodes of a stack, from its top.
pub open spec fn stacked(s: Seq<&Node>) -> Nodes {
    Seq::new(s.len(), |i: int| s[s.len() - 1 - i]@)
}

/// One more node picks its position or nothing.
pub proof fn lemma_picked_step(t: Nodes, p: spec_fn(SpecNode) -> bool, i: int)
    requires
        0 <= i < t.len(),
    ensures
        picked(t.take(i + 1), p) == (if p(t[i]) {
            picked(t.take(i), p).push(t[i])
        } else {
            picked(t.take(i), p)
        }),
{
    let a = t.take(i);
    assert(t.take(i + 1) =~= a.push(t[i]));
    crate::model::lemma_picks_push(a, t[i], p);
    crate::model::lemma_picks(a, p);
    assert forall|k: int| 0 <= k < picks(a, p).len() implies t.take(i + 1)[#[trigger] picks(
        a,
        p,
    )[k]] == a[picks(a, p)[k]] by {}
    if p(t[i]) {
        assert(picked(t.take(i + 1), p) =~= picked(a, p).push(t[i]));
    } else {
        assert(picked(t.take(i + 1), p) =~= picked(a, p));
    }
}

// ---------------------------------------------------------------------------
// Laws of marks, ways up, traces and copies
// ---------------------------------------------------------------------------

/// A node is the root of a template exactly if the first of its children named `@模板` is
/// empty; it refers to a template exactly if that one is a reference; it is the root of an
/// instance exactly if it has a child named `@实例`.
pub proof fn marks_tell_templates(t: Nodes, id: Uuid)
    ensures
        template_root(t, id) <==> exists|i: int|
            first_mark(t, id, i) && (#[trigger] t[i]).value == SpecValue::Empty,
        forall|u: Uuid|
            template_of(t, id) == Some(u) <==> exists|i: int|
                first_mark(t, id, i) && (#[trigger] t[i]).value == SpecValue::Reference(u),
        instance_root(t, id) <==> exists|i: int|
            0 <= i < t.len() && (#[trigger] t[i]).parent == Some(id) && t[i].name == "@实例"@,
{
    let _ = crate::model::children_stand_in_order(t, id, "@模板"@);
    let _ = crate::model::children_stand_in_order(t, id, "@实例"@);
    if let Some(k) = template_mark(t, id) {
        assert(t[k].parent == Some(id));
        assert(first_mark(t, id, k));
        assert forall|i: int| #[trigger] first_mark(t, id, i) implies i == k by {
            if k < i {
                assert(t[k].parent == Some(id));
            } else if i < k {
                assert(t[i].parent == Some(id));
            }
        }
    } else {
        assert forall|i: int| !(#[trigger] first_mark(t, id, i)) by {
            if first_mark(t, id, i) {
                assert(t[i].parent == Some(id));
            }
        }
    }
    if let Some(k) = named_child(t, id, "@实例"@) {
        assert(t[k].parent == Some(id));
    }
}

/// Whether a position holds the first child of the node that is named `@模板`.
pub open spec fn first_mark(t: Nodes, id: Uuid, i: int) -> bool {
    &&& 0 <= i < t.len() && t[i].parent == Some(id) && t[i].name == "@模板"@
    &&& forall|j: int| 0 <= j < i ==> !((#[trigger] t[j]).parent == Some(id) && t[j].name == "@模板"@)
}

/// Going up from a node, the first that is the root of a template or of an instance decides:
/// the node cannot be edited exactly if that one is the root of a template.
pub proof fn the_nearest_mark_decides(t: Nodes, n: SpecNode, steps: nat) -> (way: Nodes)
    ensures
        1 <= way.len() <= steps + 1,
        way[0] == n,
        forall|k: int|
            0 <= k < way.len() - 1 ==> !template_root(t, (#[trigger] way[k]).id) && !instance_root(
                t,
                way[k].id,
            ) && way[k].parent is Some && found(t, way[k].parent->Some_0) == Some(way[k + 1]),
        editable(t, n, steps) <==> !template_root(t, way.last().id),
        way.len() == steps + 1 || template_root(t, way.last().id) || instance_root(
            t,
            way.last().id,
        ) || way.last().parent is None || found(t, way.last().parent->Some_0) is None,
    decreases steps,
{
    if template_root(t, n.id) || instance_root(t, n.id) || n.parent is None || steps == 0 {
        seq![n]
    } else {
        match found(t, n.parent->Some_0) {
            None => seq![n],
            Some(p) => {
                let rest = the_nearest_mark_decides(t, p, (steps - 1) as nat);
                let way = seq![n] + rest;
                assert(way.last() == rest.last());
                assert forall|k: int| 0 <= k < way.len() - 1 implies !template_root(
                    t,
                    (#[trigger] way[k]).id,
                ) && !instance_root(t, way[k].id) && way[k].parent is Some && found(
                    t,
                    way[k].parent->Some_0,
                ) == Some(way[k + 1]) by {
                    if k > 0 {
                        assert(way[k] == rest[k - 1] && way[k + 1] == rest[k]);
                    } else {
                        assert(way[1] == rest[0]);
                    }
                }
                way
            },
        }
    }
}

/// Climbing goes from each node to its parent, and stops at one that has none, or whose
/// parent is not there or itself, or where the steps end.
pub proof fn climbing_follows_parents(t: Nodes, id: Uuid, steps: nat) -> (way: Nodes)
    requires
        found(t, id) is Some,
    ensures
        1 <= way.len() <= steps + 1,
        found(t, id) == Some(way[0]),
        forall|k: int|
            0 <= k < way.len() - 1 ==> (#[trigger] way[k]).parent is Some && found(
                t,
                way[k].parent->Some_0,
            ) == Some(way[k + 1]) && way[k].parent != Some(way[k].id),
        climb(t, id, steps) == Some(way.last().id),
        way.len() == steps + 1 || way.last().parent is None || way.last().parent == Some(
            way.last().id,
        ) || found(t, way.last().parent->Some_0) is None,
    decreases steps,
{
    let n = found(t, id)->Some_0;
    if n.parent is None || n.parent == Some(n.id) || found(t, n.parent->Some_0) is None || steps
        == 0 {
        seq![n]
    } else {
        let rest = climbing_follows_parents(t, n.parent->Some_0, (steps - 1) as nat);
        let way = seq![n] + rest;
        assert(way.last() == rest.last());
        assert forall|k: int| 0 <= k < way.len() - 1 implies (#[trigger] way[k]).parent is Some
            && found(t, way[k].parent->Some_0) == Some(way[k + 1]) && way[k].parent != Some(
            way[k].id,
        ) by {
            if k > 0 {
                assert(way[k] == rest[k - 1] && way[k + 1] == rest[k]);
            } else {
                assert(way[1] == rest[0]);
            }
        }
        way
    }
}

/// A change files what the node was: the nodes before stay but for the changed one, and
/// among those added, one below an `@history` child of the node has the old name and the old
/// value, and one below that is named `@replaced`. Nothing else is added but an `@history`
/// child where there was none.
pub proof fn a_change_files_what_was(t: Nodes, u: Nodes, i: int, now: SpecNode) -> (s: int)
    requires
        changed_with_trace(t, u, i, now),
    ensures
        u[i] == now,
        forall|j: int| 0 <= j < t.len() && j != i ==> #[trigger] u[j] == t[j],
        t.len() <= s < u.len() && u.len() == s + 2,
        u[s].name == t[i].name && u[s].value == t[i].value,
        u[s + 1].name == "@replaced"@ && u[s + 1].parent == Some(u[s].id) && u[s + 1].value is Text,
        s == t.len() || s == t.len() + 1,
        s == t.len() + 1 <==> forall|j: int|
            0 <= j < t.len() ==> !((#[trigger] t[j]).parent == Some(t[i].id) && t[j].name
                == "@history"@),
        s == t.len() + 1 ==> u[t.len() as int].parent == Some(t[i].id) && u[t.len() as int].name
            == "@history"@ && u[t.len() as int].value == SpecValue::Empty && u[s].parent == Some(
            u[t.len() as int].id,
        ),
        s == t.len() ==> exists|h: int|
            0 <= h < t.len() && (#[trigger] t[h]).parent == Some(t[i].id) && t[h].name
                == "@history"@ && u[s].parent == Some(t[h].id) && forall|j: int|
                0 <= j < h ==> !((#[trigger] t[j]).parent == Some(t[i].id) && t[j].name
                    == "@history"@),
{
    let v = u.update(i, t[i]);
    let n = t.len() as int;
    let _ = crate::model::children_stand_in_order(t, t[i].id, "@history"@);
    assert forall|j: int| 0 <= j < t.len() && j != i implies #[trigger] u[j] == t[j] by {
        assert(v.take(n)[j] == v[j]);
    }
    match named_child(t, t[i].id, "@history"@) {
        Some(h) => {
            assert(v[n] == u[n] && v[n + 1] == u[n + 1]);
            assert(t[h].parent == Some(t[i].id));
            n
        },
        None => {
            assert(v[n] == u[n] && v[n + 1] == u[n + 1] && v[n + 2] == u[n + 2]);
            n + 1
        },
    }
}

proof fn lemma_history_part(s: Nodes, i: int)
    requires
        crate::model::distinct_ids(s),
        0 <= i < s.len(),
        forall|k: int|
            0 < k < s.len() ==> exists|j: int|
                0 <= j < k && (#[trigger] s[k]).parent == Some((#[trigger] s[j]).id),
        s[0].parent is None || !ids_of(s).contains(s[0].parent->Some_0),
    ensures
        history_part(s).contains(s[i].id) <==> s[i].name == "@history"@ || (s[i].parent is Some
            && history_part(s).contains(s[i].parent->Some_0)),
        forall|id: Uuid| history_part(s).contains(id) ==> ids_of(s).contains(id),
    decreases s.len(),
{
    let d = s.drop_last();
    let l = s.len() - 1;
    let e = history_part(d);
    assert forall|k: int| 0 < k < d.len() implies exists|j: int|
        0 <= j < k && (#[trigger] d[k]).parent == Some((#[trigger] d[j]).id) by {
        assert(d[k] == s[k]);
        let j = choose|j: int| 0 <= j < k && s[k].parent == Some((#[trigger] s[j]).id);
        assert(d[j] == s[j]);
    }
    assert forall|id: Uuid| ids_of(d).contains(id) implies ids_of(s).contains(id) by {
        let k = choose|k: int| 0 <= k < d.len() && (#[trigger] d[k]).id == id;
        assert(s[k].id == id);
    }
    assert forall|k: int, j: int| 0 <= k < j < d.len() implies (#[trigger] d[k]).id != (
    #[trigger] d[j]).id by {
        assert(s[k].id != s[j].id);
    }
    assert(ids_of(s).contains(s[l].id));
    if d.len() > 0 {
        assert(d[0] == s[0]);
        lemma_history_part(d, if i < l {
            i
        } else {
            0
        });
        assert(!ids_of(d).contains(s[l].id)) by {
            if ids_of(d).contains(s[l].id) {
                let k = choose|k: int| 0 <= k < d.len() && (#[trigger] d[k]).id == s[l].id;
                assert(s[k].id != s[l].id);
            }
        }
        if i < l {
            assert(d[i] == s[i]);
            // the last node is no parent of an earlier one
            if s[i].parent == Some(s[l].id) {
                if i == 0 {
                    assert(ids_of(s).contains(s[l].id));
                } else {
                    let j = choose|j: int| 0 <= j < i && s[i].parent == Some((#[trigger] s[j]).id);
                    assert(s[j].id != s[l].id);
                }
            }
            assert(s[i].id != s[l].id);
        } else {
            // its own id is not its parent
            let j = choose|j: int| 0 <= j < l && s[l].parent == Some((#[trigger] s[j]).id);
            assert(s[j].id != s[l].id);
        }
    } else {
        assert(e =~= Set::<Uuid>::empty());
        if s[0].parent is Some {
            assert(s[0].id != s[0].parent->Some_0) by {
                assert(ids_of(s).contains(s[0].id));
            }
        }
    }
}

/// A copy without history leaves out exactly the nodes of the subtree that are named
/// `@history` or are below one that is left out; with history, it leaves out none.
pub proof fn copies_leave_history_out(s: Nodes, i: int)
    requires
        crate::model::distinct_ids(s),
        0 <= i < s.len(),
        forall|k: int|
            0 < k < s.len() ==> exists|j: int|
                0 <= j < k && (#[trigger] s[k]).parent == Some((#[trigger] s[j]).id),
        s[0].parent is None || !ids_of(s).contains(s[0].parent->Some_0),
    ensures
        copied_nodes(s, true) == s,
        copied_nodes(s, false).contains(s[i]) <==> !left_out(s, false).contains(s[i].id),
        left_out(s, false).contains(s[i].id) <==> s[i].name == "@history"@ || (s[i].parent is Some
            && left_out(s, false).contains(s[i].parent->Some_0)),
{
    lemma_history_part(s, i);
    let p = |n: SpecNode| !left_out(s, true).contains(n.id);
    lemma_all_kept(s, p);
    let q = |n: SpecNode| !left_out(s, false).contains(n.id);
    broadcast use vstd::seq_lib::group_filter_ensures;
    if q(s[i]) {
        assert(s.contains(s[i]));
        assert(s.filter(q).contains(s[i]));
    }
    if s.filter(q).contains(s[i]) {
        assert(q(s[i]));
    }
}

proof fn lemma_all_kept(s: Nodes, p: spec_fn(SpecNode) -> bool)
    requires
        forall|i: int| 0 <= i < s.len() ==> p(#[trigger] s[i]),
    ensures
        s.filter(p) == s,
    decreases s.len(),
{
    reveal(Seq::filter);
    if s.len() > 0 {
        let d = s.drop_last();
        assert forall|i: int| 0 <= i < d.len() implies p(#[trigger] d[i]) by {
            assert(d[i] == s[i]);
        }
        lemma_all_kept(d, p);
        assert(p(s[s.len() - 1]));
        assert(s =~= d.push(s.last()));
    } else {
        assert(s.filter(p) =~= s);
    }
}

/// A copy keeps the names; what was below a copied node is below its copy, the root below the
/// given parent; a reference to a copied node becomes one to its copy, one to another node
/// stays; other values stay, or become empty where they are blanked.
pub proof fn copies_hang_together(
    k: Nodes,
    fresh: Seq<Uuid>,
    root: Uuid,
    parent: Option<Uuid>,
    blank: bool,
    i: int,
    j: int,
)
    requires
        crate::model::distinct_ids(k),
        fresh.len() == k.len(),
        0 <= i < k.len(),
        0 <= j < k.len(),
    ensures
        ({
            let c = copies(k, fresh, root, parent, blank);
            &&& c.len() == k.len()
            &&& c[i].id == fresh[i]
            &&& c[i].name == k[i].name
            &&& k[i].id == root ==> c[i].parent == parent
            &&& k[i].id != root && k[i].parent == Some(k[j].id) ==> c[i].parent == Some(c[j].id)
            &&& k[i].value == SpecValue::Reference(k[j].id) ==> c[i].value == SpecValue::Reference(
                c[j].id,
            )
            &&& k[i].value is Reference && !ids_of(k).contains(k[i].value->Reference_0)
                ==> c[i].value == k[i].value
            &&& !(k[i].value is Reference) && !blank ==> c[i].value == k[i].value
            &&& !(k[i].value is Reference) && blank ==> c[i].value == SpecValue::Empty
        }),
{
    crate::model::lemma_find_id(k, k[j].id);
    if let Some(x) = find_id(k, k[j].id) {
        if x != j {
            if x < j {
                assert(k[x].id != k[j].id);
            } else {
                assert(k[j].id != k[x].id);
            }
        }
    }
    if let SpecValue::Reference(u) = k[i].value {
        crate::model::lemma_find_id(k, u);
        if let Some(x) = find_id(k, u) {
            assert(k[x].id == u);
            assert(ids_of(k).contains(u));
        }
    }
}

/// The snapshots that pruning takes out: all but the last `keep`, as far as they were replaced
/// before the given time, in order.
pub proof fn pruning_spares_the_last(
    t: Nodes,
    snaps: Nodes,
    keep: nat,
    before: Option<Seq<char>>,
    k: nat,
) -> (at: Seq<int>)
    requires
        k <= snaps.len(),
    ensures
        at.len() == doomed(t, snaps, keep, before, k).len(),
        forall|x: int|
            0 <= x < at.len() ==> 0 <= #[trigger] at[x] < k && at[x] + keep < snaps.len()
                && doomed(t, snaps, keep, before, k)[x] == snaps[at[x]].id && replaced_before(
                t,
                snaps[at[x]].id,
                before,
            ),
        forall|x: int, y: int| 0 <= x < y < at.len() ==> #[trigger] at[x] < #[trigger] at[y],
        forall|i: int|
            0 <= i < k && i + keep < snaps.len() && replaced_before(
                t,
                (#[trigger] snaps[i]).id,
                before,
            ) ==> at.contains(i),
    decreases k,
{
    if k == 0 {
        Seq::empty()
    } else {
        let n = (k - 1) as nat;
        let rest = pruning_spares_the_last(t, snaps, keep, before, n);
        let s = snaps[k - 1];
        let at = if n < snaps.len() - keep && replaced_before(t, s.id, before) {
            rest.push(k - 1)
        } else {
            rest
        };
        assert forall|i: int|
            0 <= i < k && i + keep < snaps.len() && replaced_before(
                t,
                (#[trigger] snaps[i]).id,
                before,
            ) implies at.contains(i) by {
            if i < n {
                let x = choose|x: int| 0 <= x < rest.len() && rest[x] == i;
                assert(at[x] == i);
            } else {
                assert(at[rest.len() as int] == i);
            }
        }
        at
    }
}

/// Without a time, every snapshot was replaced before; with one, exactly those whose first
/// `@replaced` child is a text that comes before it.
pub proof fn replaced_is_told_by_its_note(t: Nodes, snap: Uuid, cut: Seq<char>)
    ensures
        replaced_before(t, snap, None),
        replaced_before(t, snap, Some(cut)) <==> exists|i: int|
            0 <= i < t.len() && (#[trigger] t[i]).parent == Some(snap) && t[i].name == "@replaced"@
                && t[i].value is Text && crate::text::lex_less(t[i].value->Text_0, cut) && forall|
                j: int,
            | 0 <= j < i ==> !((#[trigger] t[j]).parent == Some(snap) && t[j].name == "@replaced"@),
{
    let _ = crate::model::children_stand_in_order(t, snap, "@replaced"@);
    if let Some(k) = named_child(t, snap, "@replaced"@) {
        assert(t[k].parent == Some(snap));
    }
}

/// What is not below a snapshot that is taken out stays as it was, in order; what is taken out
/// with each is the snapshot with all that is below it.
pub proof fn taking_out_spares_the_rest(t: Nodes, ids: Seq<Uuid>, k: nat) -> (at: Seq<int>)
    requires
        k <= ids.len(),
        taken_out(t, ids, k).1,
    ensures
        at.len() == taken_out(t, ids, k).0.len(),
        forall|x: int|
            0 <= x < at.len() ==> 0 <= #[trigger] at[x] < t.len() && taken_out(t, ids, k).0[x]
                == t[at[x]],
        forall|x: int, y: int| 0 <= x < y < at.len() ==> #[trigger] at[x] < #[trigger] at[y],
        forall|j: int|
            0 <= j < k ==> found(taken_out(t, ids, k).0, #[trigger] ids[j]) is None,
    decreases k,
{
    if k == 0 {
        Seq::new(t.len(), |x: int| x)
    } else {
        let n = (k - 1) as nat;
        let u = taken_out(t, ids, n).0;
        let rest = taking_out_spares_the_rest(t, ids, n);
        let g = ids_of(subtree_of(u, found(u, ids[k - 1])->Some_0));
        crate::model::lemma_find_id(u, ids[k - 1]);
        crate::model::subtree_ids_distinct(u, found(u, ids[k - 1])->Some_0);
        assert(g.contains(ids[k - 1])) by {
            assert(subtree_of(u, found(u, ids[k - 1])->Some_0)[0].id == ids[k - 1]);
        }
        let sel = lemma_filtered(u, |m: SpecNode| !g.contains(m.id));
        let v = without_ids(u, g);
        let at = Seq::new(sel.len(), |x: int| rest[sel[x]]);
        assert forall|x: int| 0 <= x < at.len() implies 0 <= #[trigger] at[x] < t.len() && v[x]
            == t[at[x]] by {
            assert(0 <= sel[x] < u.len());
            assert(0 <= rest[sel[x]] < t.len());
        }
        assert forall|x: int, y: int| 0 <= x < y < at.len() implies #[trigger] at[x]
            < #[trigger] at[y] by {
            assert(0 <= sel[x] < u.len() && 0 <= sel[y] < u.len());
            assert(sel[x] < sel[y]);
            assert(rest[sel[x]] < rest[sel[y]]);
        }
        assert forall|j: int| 0 <= j < k implies found(v, #[trigger] ids[j]) is None by {
            taken_out_is_gone(u, g, ids[j]);
        }
        at
    }
}

/// What a filter keeps stands at rising positions, all at which the predicate holds.
pub proof fn lemma_filtered<A>(s: Seq<A>, p: spec_fn(A) -> bool) -> (at: Seq<int>)
    ensures
        at.len() == s.filter(p).len(),
        forall|x: int|
            0 <= x < at.len() ==> 0 <= #[trigger] at[x] < s.len() && s.filter(p)[x] == s[at[x]] && p(
                s[at[x]],
            ),
        forall|x: int, y: int| 0 <= x < y < at.len() ==> #[trigger] at[x] < #[trigger] at[y],
        forall|i: int| 0 <= i < s.len() && p(#[trigger] s[i]) ==> at.contains(i),
    decreases s.len(),
{
    reveal(Seq::filter);
    if s.len() == 0 {
        Seq::empty()
    } else {
        let d = s.drop_last();
        let rest = lemma_filtered(d, p);
        let at = if p(s.last()) {
            rest.push(s.len() - 1)
        } else {
            rest
        };
        assert forall|i: int| 0 <= i < s.len() && p(#[trigger] s[i]) implies at.contains(i) by {
            if i < d.len() {
                assert(d[i] == s[i]);
                let x = choose|x: int| 0 <= x < rest.len() && rest[x] == i;
                assert(at[x] == i);
            } else {
                assert(at[rest.len() as int] == i);
            }
        }
        assert forall|x: int| 0 <= x < at.len() implies 0 <= #[trigger] at[x] < s.len() && s.filter(
            p,
        )[x] == s[at[x]] && p(s[at[x]]) by {
            if x < rest.len() {
                assert(at[x] == rest[x]);
                assert(d[rest[x]] == s[rest[x]]);
            }
        }
        at
    }
}

/// A file begins with `XRNG`, then the version, the length of the head text in four bytes and
/// the head text; what has no such beginning is refused.
pub proof fn files_begin_with_their_head(data: Seq<u8>, nodes: Seq<u8>)
    ensures
        head_fault(data) is None <==> data.len() >= 9 && data[0] == 0x58 && data[1] == 0x52
            && data[2] == 0x4e && data[3] == 0x47 && data[4] == 1 && 9 + crate::bytes::be_value(
            data.subrange(5, 9),
        ) <= data.len(),
        ({
            let f = file_bytes(nodes);
            let h = encode_utf8(HEADER@);
            &&& f.len() == 9 + h.len() + nodes.len()
            &&& f[0] == 0x58 && f[1] == 0x52 && f[2] == 0x4e && f[3] == 0x47 && f[4] == 1
            &&& f.subrange(5, 9) == be(h.len(), 4)
            &&& f.subrange(9, 9 + h.len() as int) == h
            &&& f.skip(9 + h.len() as int) == nodes
        }),
{
    if data.len() >= 4 {
        let d = data.take(4);
        assert(d[0] == data[0] && d[1] == data[1] && d[2] == data[2] && d[3] == data[3]);
        if data[0] == 0x58 && data[1] == 0x52 && data[2] == 0x4e && data[3] == 0x47 {
            assert(d =~= magic());
        }
    }
    let f = file_bytes(nodes);
    let h = encode_utf8(HEADER@);
    crate::bytes::lemma_be_len(h.len(), 4);
    assert(f.subrange(5, 9) =~= be(h.len(), 4));
    assert(f.subrange(9, 9 + h.len() as int) =~= h);
    assert(f.skip(9 + h.len() as int) =~= nodes);
}

/// A copy of a subtree comes behind all nodes, which stay; the copy of the root is the one
/// that is told, below the given parent and with the name of the root.
pub proof fn a_copied_subtree_comes_last(
    t: Nodes,
    u: Nodes,
    root: Uuid,
    parent: Option<Uuid>,
    opts: CopyOptions,
    r: Result<Uuid, String>,
) -> (i: int)
    requires
        subtree_copied(t, u, root, parent, opts, r),
        r is Ok,
    ensures
        found(t, root) is Some,
        t.len() <= i < u.len(),
        u.take(t.len() as int) == t,
        u[i].id == r->Ok_0 && u[i].parent == parent && u[i].name == found(t, root)->Some_0.name,
        opts.history ==> u.len() == t.len() + subtree_of(t, found(t, root)->Some_0).len(),
{
    let n = found(t, root)->Some_0;
    let s = subtree_of(t, n);
    let k = copied_nodes(s, opts.history);
    let fresh = id_list(u.skip(t.len() as int));
    crate::model::lemma_find_id(t, root);
    crate::model::subtree_ids_distinct(t, n);
    let at = lemma_filtered(s, |m: SpecNode| !left_out(s, opts.history).contains(m.id));
    crate::model::lemma_find_id(k, root);
    let x = find_id(k, root)->Some_0;
    assert(u.take(t.len() as int) =~= t);
    let c = copies(k, fresh, root, parent, opts.blank_values);
    assert(u[t.len() + x] == c[x]);
    assert(k[x] == s[at[x]]);
    if at[x] > 0 {
        assert(s[0].id != s[at[x]].id);
    }
    assert(k[x] == n);
    if opts.history {
        lemma_all_kept(s, |m: SpecNode| !left_out(s, opts.history).contains(m.id));
    }
    t.len() + x
}

/// What pruning tells: the snapshots that went and those that stay make up all of them, the
/// last `keep` are among those that stay, and the nodes are counted before and after.
pub proof fn pruning_tells_what_it_did(
    t: Nodes,
    u: Nodes,
    id: Uuid,
    keep: nat,
    before: Option<Seq<char>>,
    r: Result<PruneReport, String>,
    h: int,
)
    requires
        pruned(t, u, id, keep, before, r),
        r is Ok,
        0 <= h < t.len() && t[h].parent == Some(id) && t[h].name == "@history"@,
        forall|j: int|
            0 <= j < h ==> !((#[trigger] t[j]).parent == Some(id) && t[j].name == "@history"@),
    ensures
        r->Ok_0.removed + r->Ok_0.kept == children_of(t, t[h].id).len(),
        r->Ok_0.kept >= keep || r->Ok_0.removed == 0,
        before is None && children_of(t, t[h].id).len() >= keep ==> r->Ok_0.kept == keep,
        r->Ok_0.before_nodes == t.len() && r->Ok_0.after_nodes == u.len(),
{
    let _ = crate::model::children_stand_in_order(t, id, "@history"@);
    let g = named_child(t, id, "@history"@)->Some_0;
    if g < h {
        assert(t[g].parent == Some(id));
    } else if h < g {
        assert(t[h].parent == Some(id));
    }
    let snaps = children_of(t, t[h].id);
    let at = pruning_spares_the_last(t, snaps, keep, before, snaps.len());
    lemma_rising_below(at, if snaps.len() >= keep {
        snaps.len() - keep
    } else {
        0
    });
    if before is None && snaps.len() >= keep {
        lemma_doomed_all(t, snaps, keep, snaps.len());
    }
}

proof fn lemma_doomed_all(t: Nodes, snaps: Nodes, keep: nat, k: nat)
    requires
        k <= snaps.len(),
        keep <= snaps.len(),
    ensures
        doomed(t, snaps, keep, None, k).len() == (if k <= snaps.len() - keep {
            k as int
        } else {
            snaps.len() - keep
        }),
    decreases k,
{
    if k > 0 {
        lemma_doomed_all(t, snaps, keep, (k - 1) as nat);
    }
}

/// Rising numbers below a bound are no more than it.
proof fn lemma_rising_below(at: Seq<int>, n: int)
    requires
        n >= 0,
        forall|x: int| 0 <= x < at.len() ==> 0 <= #[trigger] at[x] < n,
        forall|x: int, y: int| 0 <= x < y < at.len() ==> #[trigger] at[x] < #[trigger] at[y],
    ensures
        at.len() <= n,
    decreases at.len(),
{
    if at.len() > 0 {
        let d = at.drop_last();
        let l = at.last();
        assert(at[at.len() - 1] == l);
        assert forall|x: int| 0 <= x < d.len() implies 0 <= #[trigger] d[x] < l by {
            assert(d[x] == at[x]);
            assert(at[x] < at[at.len() - 1]);
        }
        assert forall|x: int, y: int| 0 <= x < y < d.len() implies #[trigger] d[x]
            < #[trigger] d[y] by {
            assert(at[x] < at[y]);
        }
        lemma_rising_below(d, l);
    }
}

} // verus!
