//! Several files as one space of ids.
use crate::codec::{Node, SpecNode, SpecValue, Uuid, Value};
use crate::model::{picked, Nodes};
use crate::tree::{found, Store};
use vstd::prelude::*;

verus! {

/// What a file in a workspace is: its path and its nodes.
pub struct SpecFile {
    pub path: Seq<char>,
    pub nodes: Nodes,
}

/// What a node in a workspace is: the path of its file and the node.
pub struct SpecPlace {
    pub path: Seq<char>,
    pub node: SpecNode,
}

/// Several files.
#[derive(Debug)]
pub struct Workspace {
    files: Vec<(String, Store)>,
}

impl View for Workspace {
    type V = Seq<SpecFile>;

    closed spec fn view(&self) -> Seq<SpecFile> {
        Seq::new(
            self.files@.len(),
            |i: int| SpecFile { path: self.files@[i].0@, nodes: self.files@[i].1@ },
        )
    }
}

/// Where an id is found: in the first file that has it.
pub open spec fn place_of(w: Seq<SpecFile>, id: Uuid) -> Option<SpecPlace>
    decreases w.len(),
{
    if w.len() == 0 {
        None
    } else if found(w[0].nodes, id) is Some {
        Some(SpecPlace { path: w[0].path, node: found(w[0].nodes, id)->Some_0 })
    } else {
        place_of(w.skip(1), id)
    }
}

/// The nodes of a file that refer to an id, with the file's path.
pub open spec fn referrers(f: SpecFile, id: Uuid) -> Seq<SpecPlace> {
    let s = picked(f.nodes, |n: SpecNode| n.value == SpecValue::Reference(id));
    Seq::new(s.len(), |i: int| SpecPlace { path: f.path, node: s[i] })
}

/// The nodes of all files that refer to an id, file by file.
pub open spec fn all_referrers(w: Seq<SpecFile>, id: Uuid) -> Seq<SpecPlace>
    decreases w.len(),
{
    if w.len() == 0 {
        Seq::<SpecPlace>::empty()
    } else {
        all_referrers(w.drop_last(), id) + referrers(w.last(), id)
    }
}

/// A found place, as a model.
pub open spec fn place_model(r: Option<(&str, &Node)>) -> Option<SpecPlace> {
    match r {
        Some(p) => Some(SpecPlace { path: p.0@, node: p.1@ }),
        None => None,
    }
}

/// Places, as models.
pub open spec fn place_models(s: Seq<(&str, &Node)>) -> Seq<SpecPlace> {
    Seq::new(s.len(), |i: int| SpecPlace { path: s[i].0@, node: s[i].1@ })
}

impl Default for Workspace {
    fn default() -> (r: Self)
        ensures
            r.wf(),
            r@ == Seq::<SpecFile>::empty(),
    {
        Workspace::new()
    }
}

impl Workspace {
    /// Every file is indexed.
    pub closed spec fn wf(&self) -> bool {
        forall|i: int| 0 <= i < self.files@.len() ==> (#[trigger] self.files@[i]).1.wf()
    }

    /// No files.
    pub fn new() -> (r: Self)
        ensures
            r.wf(),
            r@ == Seq::<SpecFile>::empty(),
    {
        let r = Workspace { files: Vec::new() };
        assert(r@ =~= Seq::<SpecFile>::empty());
        r
    }

    /// Adds a file behind the others.
    pub fn add(&mut self, path: String, store: Store)
        requires
            old(self).wf(),
            store.wf(),
        ensures
            final(self).wf(),
            final(self)@ == old(self)@.push(SpecFile { path: path@, nodes: store@ }),
    {
        let ghost f = SpecFile { path: path@, nodes: store@ };
        self.files.push((path, store));
        assert(self@ =~= old(self)@.push(f));
    }

    /// All files, in the order in which they were added.
    pub fn files(&self) -> (r: &Vec<(String, Store)>)
        ensures
            r@.len() == self@.len(),
            forall|i: int|
                0 <= i < r@.len() ==> (#[trigger] r@[i]).0@ == self@[i].path && r@[i].1@
                    == self@[i].nodes,
    {
        &self.files
    }

    /// The node with the id, from the first file that has it.
    pub fn find(&self, id: Uuid) -> (r: Option<(&str, &Node)>)
        requires
            self.wf(),
        ensures
            place_model(r) == place_of(self@, id),
    {
        let mut i: usize = 0;
        assert(self@.skip(0) =~= self@);
        while i < self.files.len()
            invariant
                i <= self.files@.len(),
                self.wf(),
                self@.len() == self.files@.len(),
                place_of(self@, id) == place_of(self@.skip(i as int), id),
            decreases self.files@.len() - i,
        {
            assert(self@.skip(i as int).skip(1) =~= self@.skip(i + 1));
            assert(self@.skip(i as int)[0] == self@[i as int]);
            assert(self.files@[i as int].1.wf());
            let path = self.files[i].0.as_str();
            if let Some(n) = self.files[i].1.get(id) {
                return Some((path, n));
            }
            i = i + 1;
        }
        None
    }

    /// The node that a reference points to, from the first file that has it.
    pub fn resolve(&self, node: &Node) -> (r: Option<(&str, &Node)>)
        requires
            self.wf(),
        ensures
            place_model(r) == (match node@.value {
                SpecValue::Reference(u) => place_of(self@, u),
                _ => None,
            }),
    {
        match &node.value {
            Value::Reference(id) => self.find(*id),
            _ => None,
        }
    }

    /// The nodes of all files that refer to the id.
    pub fn references_to(&self, id: Uuid) -> (r: Vec<(&str, &Node)>)
        ensures
            place_models(r@) == all_referrers(self@, id),
    {
        let mut out: Vec<(&str, &Node)> = Vec::new();
        let mut i: usize = 0;
        assert(self@.take(0) =~= Seq::<SpecFile>::empty());
        assert(place_models(out@) =~= all_referrers(self@.take(0), id));
        while i < self.files.len()
            invariant
                i <= self.files@.len(),
                self@.len() == self.files@.len(),
                place_models(out@) == all_referrers(self@.take(i as int), id),
            decreases self.files@.len() - i,
        {
            let ghost f = self@[i as int];
            let ghost p = |n: SpecNode| n.value == SpecValue::Reference(id);
            let ghost before = all_referrers(self@.take(i as int), id);
            assert(self@.take(i + 1).drop_last() =~= self@.take(i as int));
            let path = self.files[i].0.as_str();
            let store = &self.files[i].1;
            let ghost t = store@;
            let mut j: usize = 0;
            assert(t.take(0) =~= Seq::<SpecNode>::empty());
            assert(place_models(out@) =~= before + referrers(
                SpecFile { path: path@, nodes: t.take(0) },
                id,
            ));
            while j < store.len()
                invariant
                    j <= t.len(),
                    t == store@,
                    p == (|n: SpecNode| n.value == SpecValue::Reference(id)),
                    place_models(out@) == before + referrers(
                        SpecFile { path: path@, nodes: t.take(j as int) },
                        id,
                    ),
                decreases t.len() - j,
            {
                proof {
                    crate::tree::lemma_picked_step(t, p, j as int);
                }
                let n = store.at(j);
                let hit = match &n.value {
                    Value::Reference(u) => *u == id,
                    _ => false,
                };
                let ghost o0 = out@;
                if hit {
                    out.push((path, n));
                    assert(place_models(out@) =~= place_models(o0).push(
                        SpecPlace { path: path@, node: t[j as int] },
                    ));
                }
                assert(place_models(out@) =~= before + referrers(
                    SpecFile { path: path@, nodes: t.take(j + 1) },
                    id,
                ));
                j = j + 1;
            }
            assert(t.take(t.len() as int) =~= t);
            i = i + 1;
        }
        assert(self@.take(self@.len() as int) =~= self@);
        out
    }
}

/// An id is found in the first file that has it.
pub proof fn the_first_file_counts(w: Seq<SpecFile>, id: Uuid)
    ensures
        (forall|f: int| 0 <= f < w.len() ==> found((#[trigger] w[f]).nodes, id) is None)
            ==> place_of(w, id) is None,
        forall|f: int|
            0 <= f < w.len() && found((#[trigger] w[f]).nodes, id) is Some && (forall|g: int|
                0 <= g < f ==> found((#[trigger] w[g]).nodes, id) is None) ==> place_of(w, id)
                == Some(SpecPlace { path: w[f].path, node: found(w[f].nodes, id)->Some_0 }),
    decreases w.len(),
{
    if w.len() > 0 {
        let d = w.skip(1);
        the_first_file_counts(d, id);
        if forall|f: int| 0 <= f < w.len() ==> found((#[trigger] w[f]).nodes, id) is None {
            assert(found(w[0].nodes, id) is None);
            assert forall|f: int| 0 <= f < d.len() implies found((#[trigger] d[f]).nodes, id) is None by {
                assert(d[f] == w[f + 1]);
            }
        }
        assert forall|f: int|
            0 <= f < w.len() && found((#[trigger] w[f]).nodes, id) is Some && (forall|g: int|
                0 <= g < f ==> found((#[trigger] w[g]).nodes, id) is None) implies place_of(w, id)
            == Some(SpecPlace { path: w[f].path, node: found(w[f].nodes, id)->Some_0 }) by {
            if f > 0 {
                assert(found(w[0].nodes, id) is None);
                assert(d[f - 1] == w[f]);
                assert forall|g: int| 0 <= g < f - 1 implies found((#[trigger] d[g]).nodes, id) is None by {
                    assert(d[g] == w[g + 1]);
                }
            }
        }
    }
}

/// What refers to an id: exactly the nodes of the files whose value is a reference to it, each
/// with its path.
pub proof fn all_referring_nodes_are_found(w: Seq<SpecFile>, id: Uuid, p: SpecPlace)
    ensures
        all_referrers(w, id).contains(p) <==> p.node.value == SpecValue::Reference(id) && exists|
            f: int,
            i: int,
        |
            0 <= f < w.len() && w[f].path == p.path && 0 <= i < w[f].nodes.len()
                && #[trigger] w[f].nodes[i] == p.node,
    decreases w.len(),
{
    if w.len() > 0 {
        let d = w.drop_last();
        let l = w.last();
        all_referring_nodes_are_found(d, id, p);
        let q = |n: SpecNode| n.value == SpecValue::Reference(id);
        crate::model::lemma_picks(l.nodes, q);
        let ks = crate::model::picks(l.nodes, q);
        let a = all_referrers(d, id);
        let b = referrers(l, id);
        let s = all_referrers(w, id);
        if s.contains(p) {
            let k = choose|k: int| 0 <= k < s.len() && s[k] == p;
            if k < a.len() {
                assert(a[k] == p);
                let (f, i) = choose|f: int, i: int|
                    0 <= f < d.len() && d[f].path == p.path && 0 <= i < d[f].nodes.len()
                        && #[trigger] d[f].nodes[i] == p.node;
                assert(w[f] == d[f]);
                assert(w[f].nodes[i] == p.node);
            } else {
                let x = k - a.len();
                assert(b[x] == p);
                assert(q(l.nodes[ks[x]]));
                assert(w[w.len() - 1].nodes[ks[x]] == p.node);
            }
        }
        if p.node.value == SpecValue::Reference(id) && exists|f: int, i: int|
            0 <= f < w.len() && w[f].path == p.path && 0 <= i < w[f].nodes.len()
                && #[trigger] w[f].nodes[i] == p.node {
            let (f, i) = choose|f: int, i: int|
                0 <= f < w.len() && w[f].path == p.path && 0 <= i < w[f].nodes.len()
                    && #[trigger] w[f].nodes[i] == p.node;
            if f < d.len() {
                assert(d[f] == w[f]);
                assert(d[f].nodes[i] == p.node);
                let k = choose|k: int| 0 <= k < a.len() && a[k] == p;
                assert(s[k] == p);
            } else {
                assert(q(l.nodes[i]));
                let x = choose|x: int| 0 <= x < ks.len() && ks[x] == i;
                assert(b[x] == p);
                assert(s[a.len() + x] == p);
            }
        }
    }
}

} // verus!
