//! Questions across files: where a node is, what is below it, who refers to it.
use crate::codec::{Node, SpecNode, SpecValue, Uuid, Value};
use crate::idmap::{unmet, IdSet};
use crate::index::{children_at, node_in, pair_found, read_node_at, Sidecar};
use crate::model::{children_of, Nodes};
use crate::text::same_text;
use crate::tree::{found, Store};
use vstd::prelude::*;

verus! {

/// Where the index of files is kept.
#[derive(Clone, Copy, Debug, PartialEq, Eq, Structural)]
pub enum IndexMode {
    /// In ledgers for the whole workspace.
    Workspace,
    /// In a file beside each file.
    Sidecar,
}

/// The mode that the setting `XIRANG_INDEX_MODE` asks for.
pub open spec fn mode_of(setting: Option<Seq<char>>) -> IndexMode {
    match setting {
        Some(s) => if s == "sidecar"@ || s == "off"@ || s == "0"@ || s == "false"@ {
            IndexMode::Sidecar
        } else {
            IndexMode::Workspace
        },
        None => IndexMode::Workspace,
    }
}

/// The view of an optional text.
pub open spec fn opt_view(s: Option<&str>) -> Option<Seq<char>> {
    match s {
        Some(x) => Some(x@),
        None => None,
    }
}

/// The mode that the setting asks for: ledgers, unless it names the files beside.
pub fn index_mode(setting: Option<&str>) -> (r: IndexMode)
    ensures
        r == mode_of(opt_view(setting)),
{
    match setting {
        Some(s) => if same_text(s, "sidecar") || same_text(s, "off") || same_text(s, "0")
            || same_text(s, "false") {
            IndexMode::Sidecar
        } else {
            IndexMode::Workspace
        },
        None => IndexMode::Workspace,
    }
}

/// Whether files get an index beside them.
pub fn sidecar_enabled(setting: Option<&str>) -> (r: bool)
    ensures
        r == (mode_of(opt_view(setting)) == IndexMode::Sidecar),
{
    index_mode(setting) == IndexMode::Sidecar
}

/// A node in a file.
pub type FileNode = (String, Node);

/// What a node in a file is.
pub struct SpecHit {
    pub file: Seq<char>,
    pub node: SpecNode,
}

/// The models of nodes in files.
pub open spec fn hit_models(s: Seq<FileNode>) -> Seq<SpecHit> {
    Seq::new(s.len(), |i: int| SpecHit { file: s[i].0@, node: s[i].1@ })
}

/// The models of ids in files.
pub open spec fn source_models(s: Seq<(String, Uuid)>) -> Seq<(Seq<char>, Uuid)> {
    Seq::new(s.len(), |i: int| (s[i].0@, s[i].1))
}

/// The ids of nodes in files.
pub open spec fn hit_ids(s: Seq<SpecHit>) -> Seq<Uuid> {
    Seq::new(s.len(), |i: int| s[i].node.id)
}

/// The nodes whose ids are not in the set, of each id the first.
pub open spec fn fresh(hits: Seq<SpecHit>, seen: Set<Uuid>) -> Seq<SpecHit>
    decreases hits.len(),
{
    if hits.len() == 0 {
        Seq::<SpecHit>::empty()
    } else {
        let d = hits.drop_last();
        if seen.contains(hits.last().node.id) || hit_ids(d).contains(hits.last().node.id) {
            fresh(d, seen)
        } else {
            fresh(d, seen).push(hits.last())
        }
    }
}

/// The set with the ids of the nodes.
pub open spec fn with_ids(seen: Set<Uuid>, hits: Seq<SpecHit>) -> Set<Uuid> {
    seen.union(hit_ids(hits).to_set())
}

proof fn lemma_fresh(hits: Seq<SpecHit>, seen: Set<Uuid>)
    ensures
        forall|k: int|
            0 <= k < fresh(hits, seen).len() ==> !seen.contains(
                (#[trigger] fresh(hits, seen)[k]).node.id,
            ),
        with_ids(seen, fresh(hits, seen)) == with_ids(seen, hits),
    decreases hits.len(),
{
    if hits.len() > 0 {
        let d = hits.drop_last();
        lemma_fresh(d, seen);
        let f = fresh(d, seen);
        let r = fresh(hits, seen);
        let x = hits.last().node.id;
        assert(hit_ids(hits) =~= hit_ids(d).push(x));
        assert(with_ids(seen, hits) =~= with_ids(seen, d).insert(x)) by {
            lemma_push_to_set(hit_ids(d), x);
        }
        if seen.contains(x) || hit_ids(d).contains(x) {
            assert(with_ids(seen, d).insert(x) =~= with_ids(seen, d));
        } else {
            assert(hit_ids(r) =~= hit_ids(f).push(x));
            lemma_push_to_set(hit_ids(f), x);
            assert(with_ids(seen, r) =~= with_ids(seen, f).insert(x));
        }
    }
}

proof fn lemma_push_to_set(s: Seq<Uuid>, x: Uuid)
    ensures
        s.push(x).to_set() == s.to_set().insert(x),
{
    let p = s.push(x);
    assert forall|y: Uuid| #[trigger] p.to_set().contains(y) <==> s.to_set().insert(x).contains(
        y,
    ) by {
        if p.contains(y) {
            let k = choose|k: int| 0 <= k < p.len() && p[k] == y;
            if k < s.len() {
                assert(s[k] == y);
            }
        }
        if s.contains(y) {
            let k = choose|k: int| 0 <= k < s.len() && s[k] == y;
            assert(p[k] == y);
        }
        assert(p[s.len() as int] == x);
    }
    assert(p.to_set() =~= s.to_set().insert(x));
}

/// The nodes below those in the queue, level by level, each id once.
pub open spec fn levels(kids: spec_fn(Uuid) -> Seq<SpecHit>, queue: Seq<Uuid>, seen: Set<Uuid>) -> Seq<
    SpecHit,
>
    decreases unmet(seen), queue.len(),
{
    if queue.len() == 0 {
        Seq::<SpecHit>::empty()
    } else {
        let new = fresh(kids(queue[0]), seen);
        proof {
            lemma_levels_shrink(kids(queue[0]), seen);
        }
        new + levels(kids, queue.skip(1) + hit_ids(new), with_ids(seen, new))
    }
}

pub proof fn lemma_levels_shrink(hits: Seq<SpecHit>, seen: Set<Uuid>)
    ensures
        ({
            let new = fresh(hits, seen);
            if new.len() == 0 {
                with_ids(seen, new) == seen
            } else {
                unmet(with_ids(seen, new)) < unmet(seen)
            }
        }),
{
    let new = fresh(hits, seen);
    lemma_fresh(hits, seen);
    if new.len() == 0 {
        assert(with_ids(seen, new) =~= seen);
    } else {
        let x = new[0].node.id;
        assert(hit_ids(new)[0] == x);
        crate::idmap::lemma_unmet_shrinks(seen, with_ids(seen, new), x);
    }
}

/// A way to answer questions across files.
pub trait Backend {
    /// It is sound.
    spec fn wf(&self) -> bool;

    /// The node with the id in each file that has it.
    spec fn located(&self, id: Uuid) -> Seq<SpecHit>;

    /// The children of the id in all files, each once.
    spec fn below(&self, id: Uuid) -> Seq<SpecHit>;

    /// The ids of the nodes that refer to the id, with their files.
    spec fn referring(&self, id: Uuid) -> Seq<(Seq<char>, Uuid)>;

    /// Which backend it is.
    spec fn of_kind(&self) -> BackendKind;

    /// How many files it answers for.
    spec fn covered(&self) -> nat;

    /// The node with the id in each file that has it.
    fn locate(&self, id: Uuid) -> (r: Vec<FileNode>)
        requires
            self.wf(),
        ensures
            hit_models(r@) == self.located(id),
    ;

    /// The children of the id in all files, each once.
    fn children(&self, parent: Uuid) -> (r: Vec<FileNode>)
        requires
            self.wf(),
        ensures
            hit_models(r@) == self.below(parent),
    ;

    /// The ids of the nodes that refer to the id, with their files.
    fn references(&self, target: Uuid) -> (r: Vec<(String, Uuid)>)
        requires
            self.wf(),
        ensures
            source_models(r@) == self.referring(target),
    ;

    /// Which backend it is.
    fn kind(&self) -> (r: BackendKind)
        ensures
            r == self.of_kind(),
    ;

    /// How many files it answers for.
    fn file_count(&self) -> (r: usize)
        ensures
            r == self.covered(),
    ;
}

/// A copy of a node in a file.
fn copy_hit(h: &FileNode) -> (r: FileNode)
    ensures
        r.0@ == h.0@,
        r.1@ == h.1@,
{
    (h.0.clone(), h.1.clone())
}

/// Keeps the nodes whose ids are not in the set, of each id the first, and puts
/// the ids in.
fn keep_fresh(hits: &Vec<FileNode>, seen: &mut IdSet) -> (r: Vec<FileNode>)
    ensures
        hit_models(r@) == fresh(hit_models(hits@), old(seen)@),
        final(seen)@ == with_ids(old(seen)@, hit_models(hits@)),
{
    let ghost h = hit_models(hits@);
    let ghost s = seen@;
    let mut out: Vec<FileNode> = Vec::new();
    let mut i: usize = 0;
    assert(h.take(0) =~= Seq::<SpecHit>::empty());
    assert(hit_models(out@) =~= fresh(h.take(0), s));
    assert(with_ids(s, h.take(0)) =~= s);
    while i < hits.len()
        invariant
            i <= hits@.len(),
            h == hit_models(hits@),
            hit_models(out@) == fresh(h.take(i as int), s),
            seen@ == with_ids(s, h.take(i as int)),
        decreases hits@.len() - i,
    {
        let ghost d = h.take(i as int);
        let id = hits[i].1.id;
        proof {
            assert(h.take(i + 1).drop_last() =~= d);
            assert(h.take(i + 1).last() == h[i as int]);
            assert(hit_ids(h.take(i + 1)) =~= hit_ids(d).push(id));
            lemma_push_to_set(hit_ids(d), id);
            assert(with_ids(s, h.take(i + 1)) =~= with_ids(s, d).insert(id));
            assert(with_ids(s, d).contains(id) == (s.contains(id) || hit_ids(d).contains(id)));
        }
        if seen.insert(id) {
            let ghost o0 = out@;
            out.push(copy_hit(&hits[i]));
            assert(hit_models(out@) =~= hit_models(o0).push(h[i as int]));
        }
        i = i + 1;
    }
    assert(h.take(h.len() as int) =~= h);
    out
}

/// The nodes below the root, level by level, each id once.
fn walk_levels<B: Backend>(b: &B, root: Uuid) -> (r: Vec<FileNode>)
    requires
        b.wf(),
    ensures
        hit_models(r@) == levels(
            |id: Uuid| b.below(id),
            seq![root],
            Set::<Uuid>::empty().insert(root),
        ),
{
    let ghost kids = |id: Uuid| b.below(id);
    let mut out: Vec<FileNode> = Vec::new();
    let mut seen = IdSet::new();
    seen.insert(root);
    let mut queue: Vec<Uuid> = Vec::new();
    queue.push(root);
    let mut head: usize = 0;
    let ghost want = levels(kids, seq![root], Set::<Uuid>::empty().insert(root));
    proof {
        assert(queue@.skip(0) =~= seq![root]);
        assert(hit_models(out@) + want =~= want);
    }
    while head < queue.len()
        invariant
            head <= queue@.len(),
            b.wf(),
            kids == (|id: Uuid| b.below(id)),
            want == hit_models(out@) + levels(kids, queue@.skip(head as int), seen@),
        decreases unmet(seen@), queue@.len() - head,
    {
        let ghost q0 = queue@.skip(head as int);
        let ghost s0 = seen@;
        let id = queue[head];
        assert(q0[0] == id);
        let found = b.children(id);
        let new = keep_fresh(&found, &mut seen);
        let ghost n = hit_models(new@);
        let ghost o0 = hit_models(out@);
        proof {
            assert(kids(id) == b.below(id));
            lemma_fresh(kids(id), s0);
            lemma_levels_shrink(kids(id), s0);
        }
        let ghost old_queue = queue@;
        let mut i: usize = 0;
        assert(o0 + n.take(0) =~= o0);
        assert(queue@ =~= old_queue + hit_ids(n).take(0));
        while i < new.len()
            invariant
                i <= new@.len(),
                n == hit_models(new@),
                hit_models(out@) == o0 + n.take(i as int),
                queue@ == old_queue + hit_ids(n).take(i as int),
            decreases new@.len() - i,
        {
            let ghost o1 = out@;
            out.push(copy_hit(&new[i]));
            queue.push(new[i].1.id);
            proof {
                assert(hit_models(out@) =~= hit_models(o1).push(n[i as int]));
                assert(n.take(i + 1) =~= n.take(i as int).push(n[i as int]));
                assert(hit_ids(n).take(i + 1) =~= hit_ids(n).take(i as int).push(
                    n[i as int].node.id,
                ));
            }
            i = i + 1;
        }
        head = head + 1;
        proof {
            assert(n.take(n.len() as int) =~= n);
            assert(hit_ids(n).take(n.len() as int) =~= hit_ids(n));
            assert(queue@.skip(head as int) =~= q0.skip(1) + hit_ids(n));
            assert(levels(kids, q0, s0) == n + levels(
                kids,
                q0.skip(1) + hit_ids(n),
                with_ids(s0, n),
            ));
            assert(o0 + (n + levels(kids, q0.skip(1) + hit_ids(n), with_ids(s0, n))) =~= hit_models(
                out@,
            ) + levels(kids, queue@.skip(head as int), seen@));
        }
    }
    assert(hit_models(out@) + Seq::<SpecHit>::empty() =~= hit_models(out@));
    out
}

/// The tree of a node across files: the node where it is, then what is below it,
/// each id once.
pub open spec fn tree_of<B: Backend>(b: B, root: Uuid) -> Seq<SpecHit> {
    fresh(
        b.located(root) + levels(
            |id: Uuid| b.below(id),
            seq![root],
            Set::<Uuid>::empty().insert(root),
        ),
        Set::<Uuid>::empty(),
    )
}

/// The tree of a node across files.
pub fn subtree<B: Backend>(b: &B, root: Uuid) -> (r: Vec<FileNode>)
    requires
        b.wf(),
    ensures
        hit_models(r@) == tree_of(*b, root),
{
    let mut all = b.locate(root);
    let ghost first = hit_models(all@);
    let rest = walk_levels(b, root);
    let ghost more = hit_models(rest@);
    let mut i: usize = 0;
    assert(first + more.take(0) =~= first);
    while i < rest.len()
        invariant
            i <= rest@.len(),
            more == hit_models(rest@),
            hit_models(all@) == first + more.take(i as int),
        decreases rest@.len() - i,
    {
        let ghost a0 = all@;
        all.push(copy_hit(&rest[i]));
        proof {
            assert(hit_models(all@) =~= hit_models(a0).push(more[i as int]));
            assert(more.take(i + 1) =~= more.take(i as int).push(more[i as int]));
        }
        i = i + 1;
    }
    assert(more.take(more.len() as int) =~= more);
    let mut seen = IdSet::new();
    keep_fresh(&all, &mut seen)
}

/// A tree across files holds no id twice.
pub proof fn tree_ids_distinct(hits: Seq<SpecHit>, seen: Set<Uuid>)
    ensures
        forall|i: int, j: int|
            0 <= i < j < fresh(hits, seen).len() ==> (#[trigger] fresh(hits, seen)[i]).node.id != (
            #[trigger] fresh(hits, seen)[j]).node.id,
    decreases hits.len(),
{
    if hits.len() > 0 {
        let d = hits.drop_last();
        tree_ids_distinct(d, seen);
        lemma_fresh(d, seen);
        let f = fresh(d, seen);
        let r = fresh(hits, seen);
        let x = hits.last().node.id;
        if !(seen.contains(x) || hit_ids(d).contains(x)) {
            assert forall|i: int, j: int| 0 <= i < j < r.len() implies (#[trigger] r[i]).node.id != (
            #[trigger] r[j]).node.id by {
                if j == f.len() {
                    assert(r[i] == f[i]);
                    assert(hit_ids(f)[i] == f[i].node.id);
                    assert(with_ids(seen, f).contains(f[i].node.id));
                    assert(with_ids(seen, d).contains(f[i].node.id));
                } else {
                    assert(r[i] == f[i] && r[j] == f[j]);
                }
            }
        }
    }
}

// ---------------------------------------------------------------------------
// Files in memory
// ---------------------------------------------------------------------------

/// Files that are wholly in memory.
#[derive(Debug)]
pub struct MemoryBackend {
    pub files: Vec<(String, Store)>,
}

/// A file in memory: its path and its nodes.
pub struct SpecLoaded {
    pub file: Seq<char>,
    pub nodes: Nodes,
}

/// The models of files in memory.
pub open spec fn loaded_models(s: Seq<(String, Store)>) -> Seq<SpecLoaded> {
    Seq::new(s.len(), |i: int| SpecLoaded { file: s[i].0@, nodes: s[i].1@ })
}

/// The node with the id in each file that has it.
pub open spec fn located_in(w: Seq<SpecLoaded>, id: Uuid) -> Seq<SpecHit>
    decreases w.len(),
{
    if w.len() == 0 {
        Seq::<SpecHit>::empty()
    } else {
        let r = located_in(w.drop_last(), id);
        match found(w.last().nodes, id) {
            Some(n) => r.push(SpecHit { file: w.last().file, node: n }),
            None => r,
        }
    }
}

/// Nodes of one file.
pub open spec fn hits_in(file: Seq<char>, nodes: Nodes) -> Seq<SpecHit> {
    Seq::new(nodes.len(), |i: int| SpecHit { file, node: nodes[i] })
}

/// The children of the id in each file, whether it has the id itself or not.
pub open spec fn below_in(w: Seq<SpecLoaded>, id: Uuid) -> Seq<SpecHit>
    decreases w.len(),
{
    if w.len() == 0 {
        Seq::<SpecHit>::empty()
    } else {
        below_in(w.drop_last(), id) + hits_in(w.last().file, children_of(w.last().nodes, id))
    }
}

/// The ids of the nodes of one file that refer to the id.
pub open spec fn referring_from(file: Seq<char>, t: Nodes, id: Uuid) -> Seq<(Seq<char>, Uuid)>
    decreases t.len(),
{
    if t.len() == 0 {
        Seq::<(Seq<char>, Uuid)>::empty()
    } else {
        let r = referring_from(file, t.drop_last(), id);
        if t.last().value == SpecValue::Reference(id) {
            r.push((file, t.last().id))
        } else {
            r
        }
    }
}

/// The ids of the nodes that refer to the id, with their files.
pub open spec fn referring_in(w: Seq<SpecLoaded>, id: Uuid) -> Seq<(Seq<char>, Uuid)>
    decreases w.len(),
{
    if w.len() == 0 {
        Seq::<(Seq<char>, Uuid)>::empty()
    } else {
        referring_in(w.drop_last(), id) + referring_from(w.last().file, w.last().nodes, id)
    }
}

/// The ids of the children of a node in files: those of all nodes whose parent it is, also
/// in files that do not have the node itself. Each comes once.
pub proof fn children_in_files_are_complete(w: Seq<SpecLoaded>, id: Uuid, c: Uuid)
    ensures
        hit_ids(fresh(below_in(w, id), Set::<Uuid>::empty())).no_duplicates(),
        hit_ids(fresh(below_in(w, id), Set::<Uuid>::empty())).contains(c) <==> exists|f: int, i: int|
            0 <= f < w.len() && 0 <= i < w[f].nodes.len() && (#[trigger] w[f].nodes[i]).parent == Some(
                id,
            ) && w[f].nodes[i].id == c,
{
    let none = Set::<Uuid>::empty();
    let all = below_in(w, id);
    let r = fresh(all, none);
    tree_ids_distinct(all, none);
    lemma_fresh(all, none);
    assert(with_ids(none, r) =~= hit_ids(r).to_set());
    assert(with_ids(none, all) =~= hit_ids(all).to_set());
    assert(hit_ids(r).contains(c) <==> hit_ids(all).contains(c)) by {
        assert(hit_ids(r).to_set().contains(c) <==> hit_ids(all).to_set().contains(c));
    }
    lemma_below_in(w, id, c);
}

proof fn lemma_below_in(w: Seq<SpecLoaded>, id: Uuid, c: Uuid)
    ensures
        hit_ids(below_in(w, id)).contains(c) <==> exists|f: int, i: int|
            0 <= f < w.len() && 0 <= i < w[f].nodes.len() && (#[trigger] w[f].nodes[i]).parent == Some(
                id,
            ) && w[f].nodes[i].id == c,
    decreases w.len(),
{
    if w.len() > 0 {
        let d = w.drop_last();
        let t = w.last().nodes;
        let n = w.len() - 1;
        lemma_below_in(d, id, c);
        let p = |x: SpecNode| x.parent == Some(id);
        crate::model::lemma_picks(t, p);
        let ks = crate::model::kids(t, id);
        let front = below_in(d, id);
        let more = hits_in(w.last().file, children_of(t, id));
        let all = hit_ids(below_in(w, id));
        if all.contains(c) {
            let k = choose|k: int| 0 <= k < all.len() && all[k] == c;
            if k < front.len() {
                assert(hit_ids(front)[k] == c);
                let (f, i) = choose|f: int, i: int|
                    0 <= f < d.len() && 0 <= i < d[f].nodes.len() && (#[trigger] d[f].nodes[i]).parent
                        == Some(id) && d[f].nodes[i].id == c;
                assert(w[f].nodes[i].parent == Some(id) && w[f].nodes[i].id == c);
            } else {
                let i = ks[k - front.len()];
                assert(p(t[i]));
                assert(w[n].nodes[i].parent == Some(id) && w[n].nodes[i].id == c);
            }
        }
        if exists|f: int, i: int|
            0 <= f < w.len() && 0 <= i < w[f].nodes.len() && (#[trigger] w[f].nodes[i]).parent == Some(
                id,
            ) && w[f].nodes[i].id == c {
            let (f, i) = choose|f: int, i: int|
                0 <= f < w.len() && 0 <= i < w[f].nodes.len() && (#[trigger] w[f].nodes[i]).parent
                    == Some(id) && w[f].nodes[i].id == c;
            if f < n {
                assert(d[f].nodes[i].parent == Some(id) && d[f].nodes[i].id == c);
                let k = choose|k: int| 0 <= k < hit_ids(front).len() && hit_ids(front)[k] == c;
                assert(all[k] == c);
            } else {
                assert(p(t[i]));
                assert(ks.contains(i));
                let k = choose|k: int| 0 <= k < ks.len() && ks[k] == i;
                assert(more[k].node == t[i]);
                assert(all[front.len() + k] == c);
            }
        }
    }
}

impl MemoryBackend {
    /// Takes files that were loaded.
    pub fn load(files: Vec<(String, Store)>) -> (r: MemoryBackend)
        requires
            forall|i: int| 0 <= i < files@.len() ==> (#[trigger] files@[i]).1.wf(),
        ensures
            r.wf(),
            r.files@ == files@,
    {
        MemoryBackend { files }
    }
}

impl Backend for MemoryBackend {
    open spec fn wf(&self) -> bool {
        forall|i: int| 0 <= i < self.files@.len() ==> (#[trigger] self.files@[i]).1.wf()
    }

    open spec fn located(&self, id: Uuid) -> Seq<SpecHit> {
        located_in(loaded_models(self.files@), id)
    }

    open spec fn below(&self, id: Uuid) -> Seq<SpecHit> {
        fresh(below_in(loaded_models(self.files@), id), Set::<Uuid>::empty())
    }

    open spec fn referring(&self, id: Uuid) -> Seq<(Seq<char>, Uuid)> {
        referring_in(loaded_models(self.files@), id)
    }

    open spec fn of_kind(&self) -> BackendKind {
        BackendKind::Memory
    }

    open spec fn covered(&self) -> nat {
        self.files@.len()
    }

    fn kind(&self) -> (r: BackendKind) {
        BackendKind::Memory
    }

    fn file_count(&self) -> (r: usize) {
        self.files.len()
    }

    fn locate(&self, id: Uuid) -> (r: Vec<FileNode>) {
        let ghost w = loaded_models(self.files@);
        let mut out: Vec<FileNode> = Vec::new();
        let mut i: usize = 0;
        assert(w.take(0) =~= Seq::<SpecLoaded>::empty());
        assert(hit_models(out@) =~= located_in(w.take(0), id));
        while i < self.files.len()
            invariant
                i <= self.files@.len(),
                w == loaded_models(self.files@),
                self.wf(),
                hit_models(out@) == located_in(w.take(i as int), id),
            decreases self.files@.len() - i,
        {
            proof {
                assert(w.take(i + 1).drop_last() =~= w.take(i as int));
                assert(w.take(i + 1).last() == w[i as int]);
                assert(self.files@[i as int].1.wf());
            }
            let f = &self.files[i];
            if let Some(n) = f.1.get(id) {
                let ghost o0 = out@;
                out.push((f.0.clone(), n.clone()));
                assert(hit_models(out@) =~= hit_models(o0).push(
                    SpecHit { file: f.0@, node: n@ },
                ));
            }
            i = i + 1;
        }
        assert(w.take(w.len() as int) =~= w);
        out
    }

    fn children(&self, parent: Uuid) -> (r: Vec<FileNode>) {
        let ghost w = loaded_models(self.files@);
        let mut all: Vec<FileNode> = Vec::new();
        let mut i: usize = 0;
        assert(w.take(0) =~= Seq::<SpecLoaded>::empty());
        assert(hit_models(all@) =~= below_in(w.take(0), parent));
        while i < self.files.len()
            invariant
                i <= self.files@.len(),
                w == loaded_models(self.files@),
                self.wf(),
                hit_models(all@) == below_in(w.take(i as int), parent),
            decreases self.files@.len() - i,
        {
            proof {
                assert(w.take(i + 1).drop_last() =~= w.take(i as int));
                assert(w.take(i + 1).last() == w[i as int]);
                assert(self.files@[i as int].1.wf());
            }
            let f = &self.files[i];
            let pos = f.1.child_positions(parent);
            let ghost km = children_of(f.1@, parent);
            let ghost before = hit_models(all@);
            let mut k: usize = 0;
            assert(before + hits_in(f.0@, km).take(0) =~= before);
            while k < pos.len()
                invariant
                    k <= pos@.len(),
                    km == children_of(f.1@, parent),
                    crate::model::ints(pos@) == crate::model::kids(f.1@, parent),
                    forall|j: int| 0 <= j < pos@.len() ==> #[trigger] pos@[j] < f.1@.len(),
                    hit_models(all@) == before + hits_in(f.0@, km).take(k as int),
                decreases pos@.len() - k,
            {
                let ghost a0 = all@;
                assert(crate::model::ints(pos@)[k as int] == pos@[k as int]);
                all.push((f.0.clone(), f.1.at(pos[k]).clone()));
                proof {
                    let h = SpecHit { file: f.0@, node: km[k as int] };
                    assert(hit_models(all@) =~= hit_models(a0).push(h));
                    assert(hits_in(f.0@, km).take(k + 1) =~= hits_in(f.0@, km).take(k as int).push(
                        h,
                    ));
                }
                k = k + 1;
            }
            assert(crate::model::ints(pos@).len() == pos@.len());
            assert(hits_in(f.0@, km).take(km.len() as int) =~= hits_in(f.0@, km));
            i = i + 1;
        }
        assert(w.take(w.len() as int) =~= w);
        let mut seen = IdSet::new();
        keep_fresh(&all, &mut seen)
    }

    fn references(&self, target: Uuid) -> (r: Vec<(String, Uuid)>) {
        let ghost w = loaded_models(self.files@);
        let mut out: Vec<(String, Uuid)> = Vec::new();
        let mut i: usize = 0;
        assert(w.take(0) =~= Seq::<SpecLoaded>::empty());
        assert(source_models(out@) =~= referring_in(w.take(0), target));
        while i < self.files.len()
            invariant
                i <= self.files@.len(),
                w == loaded_models(self.files@),
                source_models(out@) == referring_in(w.take(i as int), target),
            decreases self.files@.len() - i,
        {
            proof {
                assert(w.take(i + 1).drop_last() =~= w.take(i as int));
                assert(w.take(i + 1).last() == w[i as int]);
            }
            let f = &self.files[i];
            let ghost t = f.1@;
            let ghost before = source_models(out@);
            let mut k: usize = 0;
            assert(t.take(0) =~= Seq::<SpecNode>::empty());
            assert(before + referring_from(f.0@, t.take(0), target) =~= before);
            while k < f.1.len()
                invariant
                    k <= t.len(),
                    t == f.1@,
                    source_models(out@) == before + referring_from(f.0@, t.take(k as int), target),
                decreases t.len() - k,
            {
                proof {
                    assert(t.take(k + 1).drop_last() =~= t.take(k as int));
                    assert(t.take(k + 1).last() == t[k as int]);
                }
                let n = f.1.at(k);
                if let Value::Reference(u) = &n.value {
                    if *u == target {
                        let ghost o0 = out@;
                        out.push((f.0.clone(), n.id));
                        assert(source_models(out@) =~= source_models(o0).push((f.0@, n@.id)));
                        assert(source_models(out@) =~= before + referring_from(
                            f.0@,
                            t.take(k + 1),
                            target,
                        ));
                    }
                }
                k = k + 1;
            }
            assert(t.take(t.len() as int) =~= t);
            i = i + 1;
        }
        assert(w.take(w.len() as int) =~= w);
        out
    }
}

// ---------------------------------------------------------------------------
// Files with an index beside them
// ---------------------------------------------------------------------------

/// A file with its index.
#[derive(Debug)]
pub struct IndexedFile {
    pub path: String,
    pub index: Sidecar,
    pub data: Vec<u8>,
}

/// Files with an index beside each.
#[derive(Debug)]
pub struct SidecarBackend {
    pub files: Vec<IndexedFile>,
}

/// The node with the id in one file, if its index and the file give one.
pub open spec fn indexed_node(f: IndexedFile, id: Uuid) -> Option<SpecNode> {
    match pair_found(f.index.data@, f.index.assign, id, 32) {
        Some(Some((rel, len))) => match node_in(f.data@, f.index.node_data_start, rel, len) {
            Ok(n) => Some(n),
            Err(_) => None,
        },
        _ => None,
    }
}

/// The node with the id in each file that gives one.
pub open spec fn indexed_nodes(w: Seq<IndexedFile>, id: Uuid) -> Seq<SpecHit>
    decreases w.len(),
{
    if w.len() == 0 {
        Seq::<SpecHit>::empty()
    } else {
        let r = indexed_nodes(w.drop_last(), id);
        match indexed_node(w.last(), id) {
            Some(n) => r.push(SpecHit { file: w.last().path@, node: n }),
            None => r,
        }
    }
}

/// The children that the index of one file lists; none where it ends too early.
pub open spec fn listed_children(f: IndexedFile, id: Uuid) -> Seq<(Uuid, u64, u64)> {
    match crate::search::run_of(f.index.data@, f.index.children, id) {
        Some(ps) => children_at(f.index.data@, ps),
        None => Seq::<(Uuid, u64, u64)>::empty(),
    }
}

/// What reading listed children gives: those whose id was not met before, and
/// the ids that were met then.
pub open spec fn read_children(f: IndexedFile, cs: Seq<(Uuid, u64, u64)>, seen: Set<Uuid>) -> (
    Seq<SpecHit>,
    Set<Uuid>,
)
    decreases cs.len(),
{
    if cs.len() == 0 {
        (Seq::<SpecHit>::empty(), seen)
    } else {
        let (r, met) = read_children(f, cs.drop_last(), seen);
        let c = cs.last();
        if met.contains(c.0) {
            (r, met)
        } else {
            match node_in(f.data@, f.index.node_data_start, c.1, c.2) {
                Ok(n) => (r.push(SpecHit { file: f.path@, node: n }), met.insert(c.0)),
                Err(_) => (r, met.insert(c.0)),
            }
        }
    }
}

/// What reading the children of the id in all files gives.
pub open spec fn indexed_children(w: Seq<IndexedFile>, id: Uuid) -> (Seq<SpecHit>, Set<Uuid>)
    decreases w.len(),
{
    if w.len() == 0 {
        (Seq::<SpecHit>::empty(), Set::<Uuid>::empty())
    } else {
        let (r, met) = indexed_children(w.drop_last(), id);
        let (s, met2) = read_children(w.last(), listed_children(w.last(), id), met);
        (r + s, met2)
    }
}

/// The ids that the index of one file lists as referring to the id.
pub open spec fn listed_sources(f: IndexedFile, id: Uuid) -> Seq<(Seq<char>, Uuid)> {
    match crate::search::run_of(f.index.data@, f.index.reverse, id) {
        Some(ps) => Seq::new(
            ps.len(),
            |k: int| (f.path@, crate::index::sources_at(f.index.data@, ps)[k]),
        ),
        None => Seq::<(Seq<char>, Uuid)>::empty(),
    }
}

/// The ids that the indexes list as referring to the id.
pub open spec fn indexed_sources(w: Seq<IndexedFile>, id: Uuid) -> Seq<(Seq<char>, Uuid)>
    decreases w.len(),
{
    if w.len() == 0 {
        Seq::<(Seq<char>, Uuid)>::empty()
    } else {
        indexed_sources(w.drop_last(), id) + listed_sources(w.last(), id)
    }
}

impl SidecarBackend {
    /// Takes files that were opened with their indexes.
    pub fn open(files: Vec<IndexedFile>) -> (r: SidecarBackend)
        requires
            forall|i: int| 0 <= i < files@.len() ==> (#[trigger] files@[i]).index.wf(),
        ensures
            r.wf(),
            r.files@ == files@,
    {
        SidecarBackend { files }
    }
}

impl Backend for SidecarBackend {
    open spec fn wf(&self) -> bool {
        forall|i: int| 0 <= i < self.files@.len() ==> (#[trigger] self.files@[i]).index.wf()
    }

    open spec fn located(&self, id: Uuid) -> Seq<SpecHit> {
        indexed_nodes(self.files@, id)
    }

    open spec fn below(&self, id: Uuid) -> Seq<SpecHit> {
        indexed_children(self.files@, id).0
    }

    open spec fn referring(&self, id: Uuid) -> Seq<(Seq<char>, Uuid)> {
        indexed_sources(self.files@, id)
    }

    open spec fn of_kind(&self) -> BackendKind {
        BackendKind::Sidecar
    }

    open spec fn covered(&self) -> nat {
        self.files@.len()
    }

    fn kind(&self) -> (r: BackendKind) {
        BackendKind::Sidecar
    }

    fn file_count(&self) -> (r: usize) {
        self.files.len()
    }

    fn locate(&self, id: Uuid) -> (r: Vec<FileNode>) {
        let ghost w = self.files@;
        let mut out: Vec<FileNode> = Vec::new();
        let mut i: usize = 0;
        assert(w.take(0) =~= Seq::<IndexedFile>::empty());
        assert(hit_models(out@) =~= indexed_nodes(w.take(0), id));
        while i < self.files.len()
            invariant
                i <= w.len(),
                w == self.files@,
                self.wf(),
                hit_models(out@) == indexed_nodes(w.take(i as int), id),
            decreases w.len() - i,
        {
            proof {
                assert(w.take(i + 1).drop_last() =~= w.take(i as int));
                assert(w.take(i + 1).last() == w[i as int]);
                assert(w[i as int].index.wf());
            }
            let f = &self.files[i];
            if let Ok(Some(at)) = f.index.find_node_loc(id) {
                if let Ok(n) = read_node_at(
                    f.data.as_slice(),
                    f.index.node_data_start,
                    at.0,
                    at.1,
                ) {
                    let ghost o0 = out@;
                    let ghost nm = n@;
                    out.push((f.path.clone(), n));
                    assert(hit_models(out@) =~= hit_models(o0).push(
                        SpecHit { file: f.path@, node: nm },
                    ));
                }
            }
            i = i + 1;
        }
        assert(w.take(w.len() as int) =~= w);
        out
    }

    fn children(&self, parent: Uuid) -> (r: Vec<FileNode>) {
        let ghost w = self.files@;
        let mut out: Vec<FileNode> = Vec::new();
        let mut seen = IdSet::new();
        let mut i: usize = 0;
        assert(w.take(0) =~= Seq::<IndexedFile>::empty());
        assert(hit_models(out@) =~= indexed_children(w.take(0), parent).0);
        while i < self.files.len()
            invariant
                i <= w.len(),
                w == self.files@,
                self.wf(),
                (hit_models(out@), seen@) == indexed_children(w.take(i as int), parent),
            decreases w.len() - i,
        {
            proof {
                assert(w.take(i + 1).drop_last() =~= w.take(i as int));
                assert(w.take(i + 1).last() == w[i as int]);
                assert(w[i as int].index.wf());
            }
            let f = &self.files[i];
            let cs: Vec<(Uuid, u64, u64)> = match f.index.find_children(parent) {
                Ok(v) => v,
                Err(_) => Vec::new(),
            };
            assert(cs@ =~= listed_children(*f, parent));
            let ghost before = hit_models(out@);
            let ghost s0 = seen@;
            let mut k: usize = 0;
            assert(cs@.take(0) =~= Seq::<(Uuid, u64, u64)>::empty());
            assert(hit_models(out@) =~= before + read_children(*f, cs@.take(0), s0).0);
            while k < cs.len()
                invariant
                    k <= cs@.len(),
                    hit_models(out@) == before + read_children(*f, cs@.take(k as int), s0).0,
                    seen@ == read_children(*f, cs@.take(k as int), s0).1,
                decreases cs@.len() - k,
            {
                proof {
                    assert(cs@.take(k + 1).drop_last() =~= cs@.take(k as int));
                    assert(cs@.take(k + 1).last() == cs@[k as int]);
                }
                let c = cs[k];
                let ghost r0 = read_children(*f, cs@.take(k as int), s0);
                if seen.insert(c.0) {
                    if let Ok(n) = read_node_at(
                        f.data.as_slice(),
                        f.index.node_data_start,
                        c.1,
                        c.2,
                    ) {
                        let ghost o0 = out@;
                        let ghost nm = n@;
                        out.push((f.path.clone(), n));
                        proof {
                            let h = SpecHit { file: f.path@, node: nm };
                            assert(hit_models(out@) =~= hit_models(o0).push(h));
                            assert(before + r0.0.push(h) =~= hit_models(out@));
                        }
                    }
                } else {
                    assert(r0.1.insert(c.0) =~= r0.1);
                }
                k = k + 1;
            }
            assert(cs@.take(cs@.len() as int) =~= cs@);
            i = i + 1;
        }
        assert(w.take(w.len() as int) =~= w);
        out
    }

    fn references(&self, target: Uuid) -> (r: Vec<(String, Uuid)>) {
        let ghost w = self.files@;
        let mut out: Vec<(String, Uuid)> = Vec::new();
        let mut i: usize = 0;
        assert(w.take(0) =~= Seq::<IndexedFile>::empty());
        assert(source_models(out@) =~= indexed_sources(w.take(0), target));
        while i < self.files.len()
            invariant
                i <= w.len(),
                w == self.files@,
                self.wf(),
                source_models(out@) == indexed_sources(w.take(i as int), target),
            decreases w.len() - i,
        {
            proof {
                assert(w.take(i + 1).drop_last() =~= w.take(i as int));
                assert(w.take(i + 1).last() == w[i as int]);
                assert(w[i as int].index.wf());
            }
            let f = &self.files[i];
            let ghost before = source_models(out@);
            let ghost listed = listed_sources(*f, target);
            if let Ok(srcs) = f.index.find_reverse(target) {
                let mut k: usize = 0;
                assert(before + listed.take(0) =~= before);
                while k < srcs.len()
                    invariant
                        k <= srcs@.len(),
                        listed.len() == srcs@.len(),
                        forall|j: int|
                            0 <= j < srcs@.len() ==> #[trigger] listed[j] == (f.path@, srcs@[j]),
                        source_models(out@) == before + listed.take(k as int),
                    decreases srcs@.len() - k,
                {
                    let ghost o0 = out@;
                    out.push((f.path.clone(), srcs[k]));
                    proof {
                        assert(source_models(out@) =~= source_models(o0).push(listed[k as int]));
                        assert(listed.take(k + 1) =~= listed.take(k as int).push(listed[k as int]));
                    }
                    k = k + 1;
                }
                assert(listed.take(listed.len() as int) =~= listed);
            } else {
                assert(before + listed =~= before);
            }
            i = i + 1;
        }
        assert(w.take(w.len() as int) =~= w);
        out
    }
}

// ---------------------------------------------------------------------------
// Questions to any of them
// ---------------------------------------------------------------------------

/// Which backend answers.
#[derive(Clone, Copy, Debug, PartialEq, Eq, Structural)]
pub enum BackendKind {
    Workspace,
    Sidecar,
    Memory,
}

impl BackendKind {
    /// The name of the backend.
    pub open spec fn text(self) -> Seq<char> {
        match self {
            BackendKind::Workspace => "workspace"@,
            BackendKind::Sidecar => "sidecar"@,
            BackendKind::Memory => "memory"@,
        }
    }

    /// The name of the backend.
    pub fn name(self) -> (r: &'static str)
        ensures
            r@ == self.text(),
    {
        match self {
            BackendKind::Workspace => "workspace",
            BackendKind::Sidecar => "sidecar",
            BackendKind::Memory => "memory",
        }
    }
}

/// The backend to use: the files beside in their mode; else the ledgers where
/// they are there and cover all files; else the files in memory.
pub fn choose_backend(mode: IndexMode, ledgers_exist: bool, all_covered: bool) -> (r: BackendKind)
    ensures
        r == (if mode == IndexMode::Sidecar {
            BackendKind::Sidecar
        } else if ledgers_exist && all_covered {
            BackendKind::Workspace
        } else {
            BackendKind::Memory
        }),
{
    match mode {
        IndexMode::Sidecar => BackendKind::Sidecar,
        IndexMode::Workspace => if ledgers_exist && all_covered {
            BackendKind::Workspace
        } else {
            BackendKind::Memory
        },
    }
}

/// Files as one workspace, whatever answers for them.
pub struct LazyWorkspace<B: Backend> {
    pub backend: B,
}

/// The first of the located nodes of each referring id.
pub open spec fn referring_nodes<B: Backend>(b: B, srcs: Seq<(Seq<char>, Uuid)>) -> Seq<SpecHit>
    decreases srcs.len(),
{
    if srcs.len() == 0 {
        Seq::<SpecHit>::empty()
    } else {
        let r = referring_nodes(b, srcs.drop_last());
        let hits = b.located(srcs.last().1);
        if hits.len() > 0 {
            r.push(hits[0])
        } else {
            r
        }
    }
}

impl<B: Backend> LazyWorkspace<B> {
    /// The name of the backend that answers.
    pub fn backend_kind(&self) -> (r: &'static str)
        ensures
            r@ == self.backend.of_kind().text(),
    {
        self.backend.kind().name()
    }

    /// How many files the workspace has.
    pub fn file_count(&self) -> (r: usize)
        ensures
            r == self.backend.covered(),
    {
        self.backend.file_count()
    }

    /// The node with the id, from the first file that has it.
    pub fn find(&self, id: Uuid) -> (r: Option<FileNode>)
        requires
            self.backend.wf(),
        ensures
            match r {
                Some(h) => self.backend.located(id).len() > 0 && self.backend.located(id)[0]
                    == (SpecHit { file: h.0@, node: h.1@ }),
                None => self.backend.located(id).len() == 0,
            },
    {
        let hits = self.backend.locate(id);
        let ghost m = hit_models(hits@);
        if hits.len() > 0 {
            assert(m[0] == (SpecHit { file: hits@[0].0@, node: hits@[0].1@ }));
            Some(copy_hit(&hits[0]))
        } else {
            None
        }
    }

    /// The node with the id in each file that has it.
    pub fn node_views(&self, id: Uuid) -> (r: Vec<FileNode>)
        requires
            self.backend.wf(),
        ensures
            hit_models(r@) == self.backend.located(id),
    {
        self.backend.locate(id)
    }

    /// The children of the id in all files, each once.
    pub fn children_union(&self, id: Uuid) -> (r: Vec<FileNode>)
        requires
            self.backend.wf(),
        ensures
            hit_models(r@) == self.backend.below(id),
    {
        self.backend.children(id)
    }

    /// The nodes that refer to the id, each from the first file that has it.
    pub fn references_to(&self, id: Uuid) -> (r: Vec<FileNode>)
        requires
            self.backend.wf(),
        ensures
            hit_models(r@) == referring_nodes(self.backend, self.backend.referring(id)),
    {
        let srcs = self.backend.references(id);
        let ghost m = source_models(srcs@);
        let mut out: Vec<FileNode> = Vec::new();
        let mut i: usize = 0;
        assert(m.take(0) =~= Seq::<(Seq<char>, Uuid)>::empty());
        assert(hit_models(out@) =~= referring_nodes(self.backend, m.take(0)));
        while i < srcs.len()
            invariant
                i <= srcs@.len(),
                m == source_models(srcs@),
                self.backend.wf(),
                hit_models(out@) == referring_nodes(self.backend, m.take(i as int)),
            decreases srcs@.len() - i,
        {
            proof {
                assert(m.take(i + 1).drop_last() =~= m.take(i as int));
                assert(m.take(i + 1).last() == m[i as int]);
            }
            if let Some(h) = self.find(srcs[i].1) {
                let ghost o0 = out@;
                let ghost hm = SpecHit { file: h.0@, node: h.1@ };
                out.push(h);
                assert(hit_models(out@) =~= hit_models(o0).push(hm));
            }
            i = i + 1;
        }
        assert(m.take(m.len() as int) =~= m);
        out
    }

    /// The tree of a node across files.
    pub fn subtree(&self, root: Uuid) -> (r: Vec<FileNode>)
        requires
            self.backend.wf(),
        ensures
            hit_models(r@) == tree_of(self.backend, root),
    {
        self::subtree(&self.backend, root)
    }
}

/// Why the files are taken into memory although ledgers are asked for.
pub open spec fn memory_reason(mode: IndexMode, ledgers_exist: bool, all_covered: bool) -> Option<
    Seq<char>,
> {
    if mode == IndexMode::Sidecar || (ledgers_exist && all_covered) {
        None
    } else if !ledgers_exist {
        Some("还没有工作区索引"@)
    } else {
        Some("索引没有覆盖全部文件，或文件已被改动"@)
    }
}

/// Why the files are taken into memory although ledgers are asked for.
pub fn fallback_reason(mode: IndexMode, ledgers_exist: bool, all_covered: bool) -> (r: Option<
    &'static str,
>)
    ensures
        opt_view(r) == memory_reason(mode, ledgers_exist, all_covered),
        r is Some <==> mode == IndexMode::Workspace && !(ledgers_exist && all_covered),
{
    if mode == IndexMode::Sidecar || (ledgers_exist && all_covered) {
        None
    } else if !ledgers_exist {
        Some("还没有工作区索引")
    } else {
        Some("索引没有覆盖全部文件，或文件已被改动")
    }
}

// ---------------------------------------------------------------------------
// Laws of trees across files
// ---------------------------------------------------------------------------

/// Whether one of the nodes has the id.
pub open spec fn has_id(hits: Seq<SpecHit>, id: Uuid) -> bool {
    exists|k: int| 0 <= k < hits.len() && (#[trigger] hits[k]).node.id == id
}

/// What is kept of nodes: nodes of them, none with an id of the set, each id once, and every
/// id that is not in the set.
proof fn lemma_kept_fresh(hits: Seq<SpecHit>, seen: Set<Uuid>)
    ensures
        forall|k: int|
            0 <= k < fresh(hits, seen).len() ==> hits.contains(#[trigger] fresh(hits, seen)[k])
                && !seen.contains(fresh(hits, seen)[k].node.id),
        forall|c: SpecHit| #[trigger]
            hits.contains(c) ==> seen.contains(c.node.id) || has_id(fresh(hits, seen), c.node.id),
    decreases hits.len(),
{
    if hits.len() > 0 {
        let d = hits.drop_last();
        lemma_kept_fresh(d, seen);
        let f = fresh(d, seen);
        let r = fresh(hits, seen);
        let n = hits.len() - 1;
        assert forall|k: int| 0 <= k < r.len() implies hits.contains(#[trigger] r[k])
            && !seen.contains(r[k].node.id) by {
            if k < f.len() {
                assert(r[k] == f[k]);
                let j = choose|j: int| 0 <= j < d.len() && d[j] == f[k];
                assert(hits[j] == f[k]);
            } else {
                assert(hits[n] == r[k]);
            }
        }
        assert forall|c: SpecHit| #[trigger] hits.contains(c) implies seen.contains(c.node.id)
            || has_id(r, c.node.id) by {
            let j = choose|j: int| 0 <= j < hits.len() && hits[j] == c;
            if !seen.contains(c.node.id) {
                if j < n || hit_ids(d).contains(c.node.id) {
                    let m = if j < n {
                        j
                    } else {
                        choose|m: int| 0 <= m < hit_ids(d).len() && hit_ids(d)[m] == c.node.id
                    };
                    assert(d.contains(d[m]));
                    assert(d[m].node.id == c.node.id);
                    let k = choose|k: int| 0 <= k < f.len() && (#[trigger] f[k]).node.id == c.node.id;
                    assert(r[k].node.id == c.node.id);
                } else {
                    assert(r[f.len() as int].node.id == c.node.id);
                }
            }
        }
    }
}

/// The ids whose children a walk over levels asks for: those that it starts with, and then
/// those of the nodes that it finds.
pub open spec fn asked_for(queue: Seq<Uuid>, found: Seq<SpecHit>) -> Seq<Uuid> {
    queue + hit_ids(found)
}

proof fn lemma_levels(kids: spec_fn(Uuid) -> Seq<SpecHit>, queue: Seq<Uuid>, seen: Set<Uuid>) -> (up:
    Seq<int>)
    ensures
        ({
            let r = levels(kids, queue, seen);
            let q = asked_for(queue, r);
            &&& up.len() == r.len()
            &&& forall|k: int|
                0 <= k < r.len() ==> 0 <= #[trigger] up[k] < queue.len() + k && kids(q[up[k]]).contains(
                    r[k],
                ) && !seen.contains(r[k].node.id)
            &&& forall|k: int, l: int| 0 <= k < l < r.len() ==> #[trigger] up[k] <= #[trigger] up[l]
            &&& forall|k: int, l: int|
                0 <= k < l < r.len() ==> (#[trigger] r[k]).node.id != (#[trigger] r[l]).node.id
            &&& forall|i: int, c: SpecHit|
                0 <= i < q.len() && #[trigger] kids(q[i]).contains(c) ==> seen.contains(c.node.id)
                    || has_id(r, c.node.id)
        }),
    decreases unmet(seen), queue.len(),
{
    if queue.len() == 0 {
        Seq::<int>::empty()
    } else {
        let hits = kids(queue[0]);
        let new = fresh(hits, seen);
        lemma_levels_shrink(hits, seen);
        lemma_kept_fresh(hits, seen);
        tree_ids_distinct(hits, seen);
        let met = with_ids(seen, new);
        let rest = queue.skip(1) + hit_ids(new);
        let more = levels(kids, rest, met);
        let r = levels(kids, queue, seen);
        assert(r == new + more);
        let below = lemma_levels(kids, rest, met);
        let q = asked_for(queue, r);
        let p = asked_for(rest, more);
        let n = new.len() as int;
        let up = Seq::new(
            r.len(),
            |k: int|
                if k < n {
                    0
                } else {
                    below[k - n] + 1
                },
        );
        assert forall|i: int| 0 <= i < p.len() implies #[trigger] p[i] == q[i + 1] by {
            if i < queue.len() - 1 {
                assert(p[i] == queue[i + 1]);
            } else {
                let j = i - (queue.len() - 1);
                assert(q[i + 1] == hit_ids(r)[j]);
                if j < n {
                    assert(p[i] == hit_ids(new)[j]);
                } else {
                    assert(p[i] == hit_ids(more)[j - n]);
                }
            }
        }
        assert(q[0] == queue[0]);
        assert forall|k: int| 0 <= k < n implies met.contains((#[trigger] new[k]).node.id) by {
            assert(hit_ids(new)[k] == new[k].node.id);
        }
        assert forall|k: int| 0 <= k < r.len() implies 0 <= #[trigger] up[k] < queue.len() + k && kids(
            q[up[k]],
        ).contains(r[k]) && !seen.contains(r[k].node.id) by {
            if k < n {
                assert(r[k] == new[k]);
            } else {
                assert(r[k] == more[k - n]);
                assert(0 <= below[k - n] < rest.len() + (k - n));
                assert(p[below[k - n]] == q[below[k - n] + 1]);
                assert(!met.contains(r[k].node.id));
            }
        }
        assert forall|k: int, l: int| 0 <= k < l < r.len() implies #[trigger] up[k]
            <= #[trigger] up[l] by {
            if k >= n {
                assert(below[k - n] <= below[l - n]);
            } else if l >= n {
                assert(0 <= below[l - n]);
            }
        }
        assert forall|k: int, l: int| 0 <= k < l < r.len() implies (#[trigger] r[k]).node.id != (
        #[trigger] r[l]).node.id by {
            if l < n {
                assert(r[k] == new[k] && r[l] == new[l]);
            } else if k >= n {
                assert(r[k] == more[k - n] && r[l] == more[l - n]);
            } else {
                assert(r[k] == new[k] && r[l] == more[l - n]);
                assert(0 <= below[l - n]);
                assert(met.contains(new[k].node.id));
            }
        }
        assert forall|i: int, c: SpecHit|
            0 <= i < q.len() && #[trigger] kids(q[i]).contains(c) implies seen.contains(c.node.id)
            || has_id(r, c.node.id) by {
            if i == 0 {
                if !seen.contains(c.node.id) {
                    let k = choose|k: int|
                        0 <= k < new.len() && (#[trigger] new[k]).node.id == c.node.id;
                    assert(r[k].node.id == c.node.id);
                }
            } else {
                assert(p[i - 1] == q[i]);
                assert(kids(p[i - 1]).contains(c));
                if !seen.contains(c.node.id) {
                    if met.contains(c.node.id) {
                        assert(hit_ids(new).contains(c.node.id));
                        let k = choose|k: int|
                            0 <= k < hit_ids(new).len() && hit_ids(new)[k] == c.node.id;
                        assert(r[k].node.id == c.node.id);
                    } else {
                        let k = choose|k: int|
                            0 <= k < more.len() && (#[trigger] more[k]).node.id == c.node.id;
                        assert(r[n + k].node.id == c.node.id);
                    }
                }
            }
        }
        up
    }
}

proof fn lemma_fresh_of_distinct(hits: Seq<SpecHit>, root: Uuid, h: int)
    requires
        0 <= h <= hits.len(),
        forall|i: int| 0 <= i < h ==> (#[trigger] hits[i]).node.id == root,
        forall|i: int| h <= i < hits.len() ==> (#[trigger] hits[i]).node.id != root,
        forall|i: int, j: int|
            h <= i < j < hits.len() ==> (#[trigger] hits[i]).node.id != (#[trigger] hits[j]).node.id,
    ensures
        fresh(hits, Set::empty()) == (if h > 0 {
            seq![hits[0]]
        } else {
            Seq::empty()
        }) + hits.skip(h),
    decreases hits.len(),
{
    let head = if h > 0 {
        seq![hits[0]]
    } else {
        Seq::empty()
    };
    if hits.len() == 0 {
        assert(fresh(hits, Set::empty()) =~= head + hits.skip(h));
    } else {
        let d = hits.drop_last();
        let n = hits.len() - 1;
        if h == hits.len() {
            lemma_fresh_of_distinct(d, root, h - 1);
            if h > 1 {
                assert(hit_ids(d)[0] == root);
                assert(hit_ids(d).contains(root));
                assert(fresh(hits, Set::empty()) =~= head + hits.skip(h));
            } else {
                assert(d.len() == 0);
                assert(hit_ids(d).len() == 0);
                assert(fresh(hits, Set::empty()) =~= head + hits.skip(h));
            }
        } else {
            lemma_fresh_of_distinct(d, root, h);
            if hit_ids(d).contains(hits[n].node.id) {
                let m = choose|m: int| 0 <= m < hit_ids(d).len() && hit_ids(d)[m] == hits[n].node.id;
                assert(hits[m].node.id == hits[n].node.id);
                assert(false);
            }
            assert(fresh(hits, Set::empty()) =~= head + hits.skip(h));
        }
    }
}

/// The tree of a node across files is whole. Behind the node, where a file has it, stand
/// nodes of which each is a child of the node or of one before it, none with the id of
/// another; and whatever is a child of the node or of one of them is there. The nodes stand
/// level by level: the parents of nodes stand in the order of the nodes.
pub proof fn subtree_is_whole<B: Backend>(b: B, root: Uuid) -> (up: Seq<int>)
    requires
        forall|i: int| 0 <= i < b.located(root).len() ==> (#[trigger] b.located(root)[i]).node.id == root,
    ensures
        ({
            let r = tree_of(b, root);
            let h: int = if b.located(root).len() > 0 {
                1
            } else {
                0
            };
            let line = seq![root] + hit_ids(r.skip(h));
            &&& r.len() >= h
            &&& h == 1 ==> r[0] == b.located(root)[0]
            &&& forall|i: int, j: int|
                0 <= i < j < r.len() ==> (#[trigger] r[i]).node.id != (#[trigger] r[j]).node.id
            &&& forall|k: int| h <= k < r.len() ==> (#[trigger] r[k]).node.id != root
            &&& up.len() == r.len() - h
            &&& forall|k: int|
                0 <= k < up.len() ==> 0 <= #[trigger] up[k] <= k && b.below(line[up[k]]).contains(
                    r[h + k],
                )
            &&& forall|k: int, l: int| 0 <= k < l < up.len() ==> #[trigger] up[k] <= #[trigger] up[l]
            &&& forall|c: SpecHit| #[trigger]
                b.below(root).contains(c) ==> c.node.id == root || has_id(r, c.node.id)
            &&& forall|k: int, c: SpecHit|
                0 <= k < r.len() && #[trigger] b.below(r[k].node.id).contains(c) ==> c.node.id == root
                    || has_id(r, c.node.id)
        }),
{
    let kids = |id: Uuid| b.below(id);
    let seen = Set::<Uuid>::empty().insert(root);
    let first = b.located(root);
    let more = levels(kids, seq![root], seen);
    let up = lemma_levels(kids, seq![root], seen);
    let all = first + more;
    let h0 = first.len() as int;
    assert forall|i: int| 0 <= i < h0 implies (#[trigger] all[i]).node.id == root by {
        assert(all[i] == first[i]);
    }
    assert forall|i: int| h0 <= i < all.len() implies (#[trigger] all[i]).node.id != root by {
        assert(all[i] == more[i - h0]);
        assert(0 <= up[i - h0]);
        assert(!seen.contains(more[i - h0].node.id));
    }
    assert forall|i: int, j: int| h0 <= i < j < all.len() implies (#[trigger] all[i]).node.id != (
    #[trigger] all[j]).node.id by {
        assert(all[i] == more[i - h0] && all[j] == more[j - h0]);
    }
    lemma_fresh_of_distinct(all, root, h0);
    assert(all.skip(h0) =~= more);
    let r = tree_of(b, root);
    let h: int = if first.len() > 0 {
        1
    } else {
        0
    };
    assert(r == (if h0 > 0 {
        seq![all[0]]
    } else {
        Seq::empty()
    }) + more);
    assert(r.skip(h) =~= more);
    let line = seq![root] + hit_ids(r.skip(h));
    let q = asked_for(seq![root], more);
    assert(line =~= q);
    tree_ids_distinct(all, Set::empty());
    assert forall|k: int| 0 <= k < up.len() implies 0 <= #[trigger] up[k] <= k && b.below(
        line[up[k]],
    ).contains(r[h + k]) by {
        assert(r[h + k] == more[k]);
        assert(kids(q[up[k]]).contains(more[k]));
    }
    assert forall|i: int, c: SpecHit| 0 <= i < q.len() && #[trigger] b.below(q[i]).contains(
        c,
    ) implies c.node.id == root || has_id(r, c.node.id) by {
        assert(kids(q[i]).contains(c));
        if c.node.id != root {
            let k = choose|k: int| 0 <= k < more.len() && (#[trigger] more[k]).node.id == c.node.id;
            assert(r[h + k].node.id == c.node.id);
        }
    }
    assert forall|c: SpecHit| #[trigger] b.below(root).contains(c) implies c.node.id == root || has_id(
        r,
        c.node.id,
    ) by {
        assert(q[0] == root);
        assert(b.below(q[0]).contains(c));
    }
    assert forall|k: int, c: SpecHit|
        0 <= k < r.len() && #[trigger] b.below(r[k].node.id).contains(c) implies c.node.id == root
        || has_id(r, c.node.id) by {
        if k < h {
            assert(q[0] == root);
            assert(b.below(q[0]).contains(c));
        } else {
            assert(r[k] == more[k - h]);
            assert(q[1 + k - h] == r[k].node.id);
            assert(b.below(q[1 + k - h]).contains(c));
        }
    }
    up
}

/// An id is located once in each file that has it, with the node that counts there, in the
/// order of the files.
pub proof fn ids_are_located_in_every_file(w: Seq<SpecLoaded>, id: Uuid) -> (at: Seq<int>)
    ensures
        at.len() == located_in(w, id).len(),
        forall|x: int|
            0 <= x < at.len() ==> 0 <= #[trigger] at[x] < w.len() && located_in(w, id)[x].file
                == w[at[x]].file && found(w[at[x]].nodes, id) == Some(located_in(w, id)[x].node),
        forall|x: int, y: int| 0 <= x < y < at.len() ==> #[trigger] at[x] < #[trigger] at[y],
        forall|f: int|
            0 <= f < w.len() && found((#[trigger] w[f]).nodes, id) is Some ==> at.contains(f),
    decreases w.len(),
{
    if w.len() == 0 {
        Seq::empty()
    } else {
        let d = w.drop_last();
        let rest = ids_are_located_in_every_file(d, id);
        let at = if found(w.last().nodes, id) is Some {
            rest.push(w.len() - 1)
        } else {
            rest
        };
        assert forall|f: int|
            0 <= f < w.len() && found((#[trigger] w[f]).nodes, id) is Some implies at.contains(f) by {
            if f < d.len() {
                assert(d[f] == w[f]);
                let x = choose|x: int| 0 <= x < rest.len() && rest[x] == f;
                assert(at[x] == f);
            } else {
                assert(at[rest.len() as int] == f);
            }
        }
        assert forall|x: int| 0 <= x < at.len() implies 0 <= #[trigger] at[x] < w.len()
            && located_in(w, id)[x].file == w[at[x]].file && found(w[at[x]].nodes, id) == Some(
            located_in(w, id)[x].node,
        ) by {
            if x < rest.len() {
                assert(at[x] == rest[x]);
                assert(d[rest[x]] == w[rest[x]]);
            }
        }
        at
    }
}

proof fn lemma_referring_from(file: Seq<char>, t: Nodes, id: Uuid, src: (Seq<char>, Uuid))
    ensures
        referring_from(file, t, id).contains(src) <==> src.0 == file && exists|i: int|
            0 <= i < t.len() && (#[trigger] t[i]).id == src.1 && t[i].value == SpecValue::Reference(
                id,
            ),
    decreases t.len(),
{
    if t.len() > 0 {
        let d = t.drop_last();
        lemma_referring_from(file, d, id, src);
        let r = referring_from(file, d, id);
        let s = referring_from(file, t, id);
        if s.contains(src) {
            let k = choose|k: int| 0 <= k < s.len() && s[k] == src;
            if k < r.len() {
                assert(r[k] == src);
                let i = choose|i: int|
                    0 <= i < d.len() && (#[trigger] d[i]).id == src.1 && d[i].value
                        == SpecValue::Reference(id);
                assert(t[i] == d[i]);
            } else {
                assert(t[t.len() - 1].id == src.1);
            }
        }
        if src.0 == file && exists|i: int|
            0 <= i < t.len() && (#[trigger] t[i]).id == src.1 && t[i].value == SpecValue::Reference(
                id,
            ) {
            let i = choose|i: int|
                0 <= i < t.len() && (#[trigger] t[i]).id == src.1 && t[i].value
                    == SpecValue::Reference(id);
            if i < d.len() {
                assert(d[i] == t[i]);
                let k = choose|k: int| 0 <= k < r.len() && r[k] == src;
                assert(s[k] == src);
            } else {
                assert(s[r.len() as int] == src);
            }
        }
    }
}

/// What refers to an id: exactly the nodes of the files whose value is a reference to it, each
/// with its file.
pub proof fn references_are_found_in_every_file(w: Seq<SpecLoaded>, id: Uuid, src: (Seq<char>, Uuid))
    ensures
        referring_in(w, id).contains(src) <==> exists|f: int, i: int|
            0 <= f < w.len() && w[f].file == src.0 && 0 <= i < w[f].nodes.len() && (
            #[trigger] w[f].nodes[i]).id == src.1 && w[f].nodes[i].value == SpecValue::Reference(id),
    decreases w.len(),
{
    if w.len() > 0 {
        let d = w.drop_last();
        references_are_found_in_every_file(d, id, src);
        let l = w.last();
        lemma_referring_from(l.file, l.nodes, id, src);
        let a = referring_in(d, id);
        let b = referring_from(l.file, l.nodes, id);
        let s = referring_in(w, id);
        if s.contains(src) {
            let k = choose|k: int| 0 <= k < s.len() && s[k] == src;
            if k < a.len() {
                assert(a[k] == src);
                let (f, i) = choose|f: int, i: int|
                    0 <= f < d.len() && d[f].file == src.0 && 0 <= i < d[f].nodes.len() && (
                    #[trigger] d[f].nodes[i]).id == src.1 && d[f].nodes[i].value
                        == SpecValue::Reference(id);
                assert(w[f] == d[f]);
                assert(w[f].nodes[i].id == src.1);
            } else {
                assert(b[k - a.len()] == src);
                let i = choose|i: int|
                    0 <= i < l.nodes.len() && (#[trigger] l.nodes[i]).id == src.1 && l.nodes[i].value
                        == SpecValue::Reference(id);
                assert(w[w.len() - 1].nodes[i].id == src.1);
            }
        }
        if exists|f: int, i: int|
            0 <= f < w.len() && w[f].file == src.0 && 0 <= i < w[f].nodes.len() && (
            #[trigger] w[f].nodes[i]).id == src.1 && w[f].nodes[i].value == SpecValue::Reference(
                id,
            ) {
            let (f, i) = choose|f: int, i: int|
                0 <= f < w.len() && w[f].file == src.0 && 0 <= i < w[f].nodes.len() && (
                #[trigger] w[f].nodes[i]).id == src.1 && w[f].nodes[i].value
                    == SpecValue::Reference(id);
            if f < d.len() {
                assert(d[f] == w[f]);
                assert(d[f].nodes[i].id == src.1);
                let k = choose|k: int| 0 <= k < a.len() && a[k] == src;
                assert(s[k] == src);
            } else {
                assert(l.nodes[i].id == src.1);
                let k = choose|k: int| 0 <= k < b.len() && b[k] == src;
                assert(s[a.len() + k] == src);
            }
        }
    }
}

/// Of each referring id the first node that is located is given, in order; an id that is not
/// located is passed over.
pub proof fn referring_ids_are_located<B: Backend>(b: B, srcs: Seq<(Seq<char>, Uuid)>) -> (at: Seq<
    int,
>)
    ensures
        at.len() == referring_nodes(b, srcs).len(),
        forall|x: int|
            0 <= x < at.len() ==> 0 <= #[trigger] at[x] < srcs.len() && b.located(
                srcs[at[x]].1,
            ).len() > 0 && referring_nodes(b, srcs)[x] == b.located(srcs[at[x]].1)[0],
        forall|x: int, y: int| 0 <= x < y < at.len() ==> #[trigger] at[x] < #[trigger] at[y],
        forall|i: int|
            0 <= i < srcs.len() && b.located((#[trigger] srcs[i]).1).len() > 0 ==> at.contains(i),
    decreases srcs.len(),
{
    if srcs.len() == 0 {
        Seq::empty()
    } else {
        let d = srcs.drop_last();
        let rest = referring_ids_are_located(b, d);
        let at = if b.located(srcs.last().1).len() > 0 {
            rest.push(srcs.len() - 1)
        } else {
            rest
        };
        assert forall|i: int|
            0 <= i < srcs.len() && b.located((#[trigger] srcs[i]).1).len() > 0 implies at.contains(
            i,
        ) by {
            if i < d.len() {
                assert(d[i] == srcs[i]);
                let x = choose|x: int| 0 <= x < rest.len() && rest[x] == i;
                assert(at[x] == i);
            } else {
                assert(at[rest.len() as int] == i);
            }
        }
        assert forall|x: int| 0 <= x < at.len() implies 0 <= #[trigger] at[x] < srcs.len()
            && b.located(srcs[at[x]].1).len() > 0 && referring_nodes(b, srcs)[x] == b.located(
            srcs[at[x]].1,
        )[0] by {
            if x < rest.len() {
                assert(at[x] == rest[x]);
                assert(d[rest[x]] == srcs[rest[x]]);
            }
        }
        at
    }
}

/// An id is located once in each file whose index and bytes give a node for it, in the order
/// of the files.
pub proof fn ids_are_located_by_every_index(w: Seq<IndexedFile>, id: Uuid) -> (at: Seq<int>)
    ensures
        at.len() == indexed_nodes(w, id).len(),
        forall|x: int|
            0 <= x < at.len() ==> 0 <= #[trigger] at[x] < w.len() && indexed_nodes(w, id)[x].file
                == w[at[x]].path@ && indexed_node(w[at[x]], id) == Some(
                indexed_nodes(w, id)[x].node,
            ),
        forall|x: int, y: int| 0 <= x < y < at.len() ==> #[trigger] at[x] < #[trigger] at[y],
        forall|f: int|
            0 <= f < w.len() && indexed_node(#[trigger] w[f], id) is Some ==> at.contains(f),
    decreases w.len(),
{
    if w.len() == 0 {
        Seq::empty()
    } else {
        let d = w.drop_last();
        let rest = ids_are_located_by_every_index(d, id);
        let at = if indexed_node(w.last(), id) is Some {
            rest.push(w.len() - 1)
        } else {
            rest
        };
        assert forall|f: int|
            0 <= f < w.len() && indexed_node(#[trigger] w[f], id) is Some implies at.contains(f) by {
            if f < d.len() {
                assert(d[f] == w[f]);
                let x = choose|x: int| 0 <= x < rest.len() && rest[x] == f;
                assert(at[x] == f);
            } else {
                assert(at[rest.len() as int] == f);
            }
        }
        assert forall|x: int| 0 <= x < at.len() implies 0 <= #[trigger] at[x] < w.len()
            && indexed_nodes(w, id)[x].file == w[at[x]].path@ && indexed_node(w[at[x]], id) == Some(
            indexed_nodes(w, id)[x].node,
        ) by {
            if x < rest.len() {
                assert(at[x] == rest[x]);
                assert(d[rest[x]] == w[rest[x]]);
            }
        }
        at
    }
}

/// The words `sidecar`, `off`, `0` and `false` ask for sidecars; everything else, and nothing
/// at all, for ledgers.
pub proof fn modes_are_asked_for_by_word(s: Seq<char>)
    ensures
        mode_of(None) == IndexMode::Workspace,
        mode_of(Some(s)) == IndexMode::Sidecar <==> s == "sidecar"@ || s == "off"@ || s == "0"@ || s
            == "false"@,
{
}

proof fn lemma_read_children(f: IndexedFile, cs: Seq<(Uuid, u64, u64)>, seen: Set<Uuid>)
    ensures
        ({
            let (r, met) = read_children(f, cs, seen);
            &&& forall|x: Uuid| #[trigger]
                met.contains(x) <==> seen.contains(x) || exists|k: int|
                    0 <= k < cs.len() && (#[trigger] cs[k]).0 == x
            &&& forall|y: int|
                0 <= y < r.len() ==> (#[trigger] r[y]).file == f.path@ && exists|k: int|
                    0 <= k < cs.len() && !seen.contains((#[trigger] cs[k]).0) && node_in(
                        f.data@,
                        f.index.node_data_start,
                        cs[k].1,
                        cs[k].2,
                    ) is Ok && node_in(f.data@, f.index.node_data_start, cs[k].1, cs[k].2)->Ok_0
                        == r[y].node
            &&& forall|k: int|
                0 <= k < cs.len() && !seen.contains((#[trigger] cs[k]).0) && (forall|j: int|
                    0 <= j < k ==> (#[trigger] cs[j]).0 != cs[k].0) && node_in(
                    f.data@,
                    f.index.node_data_start,
                    cs[k].1,
                    cs[k].2,
                ) is Ok ==> r.contains(
                    SpecHit {
                        file: f.path@,
                        node: node_in(f.data@, f.index.node_data_start, cs[k].1, cs[k].2)->Ok_0,
                    },
                )
        }),
    decreases cs.len(),
{
    if cs.len() > 0 {
        let d = cs.drop_last();
        let l = cs.len() - 1;
        lemma_read_children(f, d, seen);
        let (q, before) = read_children(f, d, seen);
        let (r, met) = read_children(f, cs, seen);
        assert forall|k: int| 0 <= k < l implies (#[trigger] d[k]) == cs[k] by {}
        assert forall|x: Uuid| #[trigger] met.contains(x) <==> seen.contains(x) || exists|k: int|
            0 <= k < cs.len() && (#[trigger] cs[k]).0 == x by {
            if before.contains(x) && !seen.contains(x) {
                let k = choose|k: int| 0 <= k < d.len() && (#[trigger] d[k]).0 == x;
                assert(cs[k].0 == x);
            }
            if x == cs[l].0 {
                assert(cs[l].0 == x);
            }
            if exists|k: int| 0 <= k < cs.len() && (#[trigger] cs[k]).0 == x {
                let k = choose|k: int| 0 <= k < cs.len() && (#[trigger] cs[k]).0 == x;
                if k < l {
                    assert(d[k].0 == x);
                }
            }
        }
        assert forall|y: int| 0 <= y < r.len() implies (#[trigger] r[y]).file == f.path@ && exists|
            k: int,
        |
            0 <= k < cs.len() && !seen.contains((#[trigger] cs[k]).0) && node_in(
                f.data@,
                f.index.node_data_start,
                cs[k].1,
                cs[k].2,
            ) is Ok && node_in(f.data@, f.index.node_data_start, cs[k].1, cs[k].2)->Ok_0
                == r[y].node by {
            if y < q.len() {
                assert(r[y] == q[y]);
                let k = choose|k: int|
                    0 <= k < d.len() && !seen.contains((#[trigger] d[k]).0) && node_in(
                        f.data@,
                        f.index.node_data_start,
                        d[k].1,
                        d[k].2,
                    ) is Ok && node_in(f.data@, f.index.node_data_start, d[k].1, d[k].2)->Ok_0
                        == q[y].node;
                assert(cs[k] == d[k]);
            } else {
                assert(!before.contains(cs[l].0));
                assert(!seen.contains(cs[l].0));
            }
        }
        assert forall|k: int|
            0 <= k < cs.len() && !seen.contains((#[trigger] cs[k]).0) && (forall|j: int|
                0 <= j < k ==> (#[trigger] cs[j]).0 != cs[k].0) && node_in(
                f.data@,
                f.index.node_data_start,
                cs[k].1,
                cs[k].2,
            ) is Ok implies r.contains(
            SpecHit {
                file: f.path@,
                node: node_in(f.data@, f.index.node_data_start, cs[k].1, cs[k].2)->Ok_0,
            },
        ) by {
            let hit = SpecHit {
                file: f.path@,
                node: node_in(f.data@, f.index.node_data_start, cs[k].1, cs[k].2)->Ok_0,
            };
            if k < l {
                assert(d[k] == cs[k]);
                assert forall|j: int| 0 <= j < k implies (#[trigger] d[j]).0 != d[k].0 by {
                    assert(cs[j].0 != cs[k].0);
                }
                assert(q.contains(hit));
                let y = choose|y: int| 0 <= y < q.len() && q[y] == hit;
                assert(r[y] == hit);
            } else {
                if before.contains(cs[k].0) {
                    let j = choose|j: int| 0 <= j < d.len() && (#[trigger] d[j]).0 == cs[k].0;
                    assert(cs[j].0 != cs[k].0);
                }
                assert(r[q.len() as int] == hit);
            }
        }
    }
}

/// Whether the index of a file lists the child.
pub open spec fn lists_child(f: IndexedFile, id: Uuid, x: Uuid) -> bool {
    exists|k: int|
        0 <= k < listed_children(f, id).len() && (#[trigger] listed_children(f, id)[k]).0 == x
}

/// What the bytes of a file give for a child that its index lists.
pub open spec fn child_read(f: IndexedFile, id: Uuid, k: int) -> Result<SpecNode, Seq<char>> {
    node_in(
        f.data@,
        f.index.node_data_start,
        listed_children(f, id)[k].1,
        listed_children(f, id)[k].2,
    )
}

proof fn lemma_children_met(w: Seq<IndexedFile>, id: Uuid, x: Uuid)
    ensures
        indexed_children(w, id).1.contains(x) <==> exists|f: int|
            0 <= f < w.len() && lists_child(#[trigger] w[f], id, x),
    decreases w.len(),
{
    if w.len() > 0 {
        let d = w.drop_last();
        let n = w.len() - 1;
        lemma_children_met(d, id, x);
        let before = indexed_children(d, id).1;
        lemma_read_children(w.last(), listed_children(w.last(), id), before);
        let met = read_children(w.last(), listed_children(w.last(), id), before).1;
        assert(met == indexed_children(w, id).1);
        if before.contains(x) {
            let f = choose|f: int| 0 <= f < d.len() && lists_child(#[trigger] d[f], id, x);
            assert(w[f] == d[f]);
        } else if met.contains(x) {
            assert(lists_child(w[n], id, x));
        }
        if exists|f: int| 0 <= f < w.len() && lists_child(#[trigger] w[f], id, x) {
            let f = choose|f: int| 0 <= f < w.len() && lists_child(#[trigger] w[f], id, x);
            if f < n {
                assert(d[f] == w[f]);
            }
        }
    }
}

/// A child that indexes give comes from a file that lists it and whose bytes give it.
pub proof fn given_children_are_listed(w: Seq<IndexedFile>, id: Uuid, y: int) -> (r: (int, int))
    requires
        0 <= y < indexed_children(w, id).0.len(),
    ensures
        0 <= r.0 < w.len(),
        0 <= r.1 < listed_children(w[r.0], id).len(),
        indexed_children(w, id).0[y].file == w[r.0].path@,
        child_read(w[r.0], id, r.1) == Ok::<SpecNode, Seq<char>>(indexed_children(w, id).0[y].node),
    decreases w.len(),
{
    let d = w.drop_last();
    let n = w.len() - 1;
    let (q, before) = indexed_children(d, id);
    let l = w.last();
    let cs = listed_children(l, id);
    let s = read_children(l, cs, before).0;
    let all = indexed_children(w, id).0;
    assert(all == q + s);
    if y < q.len() {
        let r = given_children_are_listed(d, id, y);
        assert(w[r.0] == d[r.0]);
        r
    } else {
        lemma_read_children(l, cs, before);
        assert(all[y] == s[y - q.len()]);
        let k = choose|k: int|
            0 <= k < cs.len() && !before.contains((#[trigger] cs[k]).0) && node_in(
                l.data@,
                l.index.node_data_start,
                cs[k].1,
                cs[k].2,
            ) is Ok && node_in(l.data@, l.index.node_data_start, cs[k].1, cs[k].2)->Ok_0
                == s[y - q.len()].node;
        (n, k)
    }
}

/// A child that a file lists, and that neither an earlier file nor the file itself listed
/// before, is given where the bytes give it.
pub proof fn listed_children_are_given(w: Seq<IndexedFile>, id: Uuid, f: int, k: int)
    requires
        0 <= f < w.len(),
        0 <= k < listed_children(w[f], id).len(),
        forall|g: int|
            0 <= g < f ==> !lists_child(#[trigger] w[g], id, listed_children(w[f], id)[k].0),
        forall|j: int|
            0 <= j < k ==> (#[trigger] listed_children(w[f], id)[j]).0 != listed_children(
                w[f],
                id,
            )[k].0,
        child_read(w[f], id, k) is Ok,
    ensures
        indexed_children(w, id).0.contains(
            SpecHit { file: w[f].path@, node: child_read(w[f], id, k)->Ok_0 },
        ),
    decreases w.len(),
{
    let d = w.drop_last();
    let n = w.len() - 1;
    let (q, before) = indexed_children(d, id);
    let l = w.last();
    let cs = listed_children(l, id);
    let s = read_children(l, cs, before).0;
    let all = indexed_children(w, id).0;
    assert(all == q + s);
    let hit = SpecHit { file: w[f].path@, node: child_read(w[f], id, k)->Ok_0 };
    if f < n {
        assert(d[f] == w[f]);
        assert forall|g: int| 0 <= g < f implies !lists_child(
            #[trigger] d[g],
            id,
            listed_children(d[f], id)[k].0,
        ) by {
            assert(d[g] == w[g]);
        }
        listed_children_are_given(d, id, f, k);
        let y = choose|y: int| 0 <= y < q.len() && q[y] == hit;
        assert(all[y] == hit);
    } else {
        lemma_children_met(d, id, cs[k].0);
        if before.contains(cs[k].0) {
            let g = choose|g: int| 0 <= g < d.len() && lists_child(#[trigger] d[g], id, cs[k].0);
            assert(d[g] == w[g]);
        }
        lemma_read_children(l, cs, before);
        assert(s.contains(hit));
        let y = choose|y: int| 0 <= y < s.len() && s[y] == hit;
        assert(all[q.len() + y] == hit);
    }
}

/// What indexes list as referring to an id: what any of them lists.
pub proof fn listed_sources_are_all_given(w: Seq<IndexedFile>, id: Uuid, src: (Seq<char>, Uuid))
    ensures
        indexed_sources(w, id).contains(src) <==> exists|f: int|
            0 <= f < w.len() && listed_sources(#[trigger] w[f], id).contains(src),
    decreases w.len(),
{
    if w.len() > 0 {
        let d = w.drop_last();
        listed_sources_are_all_given(d, id, src);
        let a = indexed_sources(d, id);
        let b = listed_sources(w.last(), id);
        let s = indexed_sources(w, id);
        if s.contains(src) {
            let k = choose|k: int| 0 <= k < s.len() && s[k] == src;
            if k < a.len() {
                assert(a[k] == src);
                let f = choose|f: int|
                    0 <= f < d.len() && listed_sources(#[trigger] d[f], id).contains(src);
                assert(w[f] == d[f]);
            } else {
                assert(b[k - a.len()] == src);
                assert(listed_sources(w[w.len() - 1], id).contains(src));
            }
        }
        if exists|f: int| 0 <= f < w.len() && listed_sources(#[trigger] w[f], id).contains(src) {
            let f = choose|f: int|
                0 <= f < w.len() && listed_sources(#[trigger] w[f], id).contains(src);
            if f < d.len() {
                assert(d[f] == w[f]);
                let k = choose|k: int| 0 <= k < a.len() && a[k] == src;
                assert(s[k] == src);
            } else {
                let k = choose|k: int| 0 <= k < b.len() && b[k] == src;
                assert(s[a.len() + k] == src);
            }
        }
    }
}

} // verus!
