//! What a run of nodes means as a tree: lookups, children, walks and the
//! folded view, as mathematics.
use crate::codec::{SpecNode, Uuid};
use vstd::prelude::*;

verus! {

/// A run of nodes, in the order in which they were added.
pub type Nodes = Seq<SpecNode>;

/// The position of the last node with the id.
pub open spec fn find_id(t: Nodes, id: Uuid) -> Option<int>
    decreases t.len(),
{
    if t.len() == 0 {
        None
    } else if t.last().id == id {
        Some(t.len() - 1)
    } else {
        find_id(t.drop_last(), id)
    }
}

/// The positions of the nodes for which `p` holds, in order.
pub open spec fn picks(t: Nodes, p: spec_fn(SpecNode) -> bool) -> Seq<int>
    decreases t.len(),
{
    if t.len() == 0 {
        Seq::<int>::empty()
    } else if p(t.last()) {
        picks(t.drop_last(), p).push(t.len() - 1)
    } else {
        picks(t.drop_last(), p)
    }
}

/// The first position at which `p` holds.
pub open spec fn first_pick(t: Nodes, p: spec_fn(SpecNode) -> bool) -> Option<int> {
    if picks(t, p).len() > 0 {
        Some(picks(t, p)[0])
    } else {
        None
    }
}

/// The nodes at the given positions.
pub open spec fn nodes_at(t: Nodes, idx: Seq<int>) -> Nodes {
    Seq::new(idx.len(), |k: int| t[idx[k]])
}

/// The nodes for which `p` holds, in order.
pub open spec fn picked(t: Nodes, p: spec_fn(SpecNode) -> bool) -> Nodes {
    nodes_at(t, picks(t, p))
}

/// The positions of the children of `id`, in order.
pub open spec fn kids(t: Nodes, id: Uuid) -> Seq<int> {
    picks(t, |n: SpecNode| n.parent == Some(id))
}

/// The children of `id`, in order.
pub open spec fn children_of(t: Nodes, id: Uuid) -> Nodes {
    nodes_at(t, kids(t, id))
}

/// The position of the first child of `id` with the name.
pub open spec fn named_child(t: Nodes, id: Uuid, name: Seq<char>) -> Option<int> {
    first_pick(t, |n: SpecNode| n.parent == Some(id) && n.name == name)
}

/// A sequence of machine integers, as integers.
pub open spec fn ints(s: Seq<usize>) -> Seq<int> {
    Seq::new(s.len(), |k: int| s[k] as int)
}

pub proof fn lemma_find_id(t: Nodes, id: Uuid)
    ensures
        match find_id(t, id) {
            Some(i) => 0 <= i < t.len() && t[i].id == id && forall|j: int|
                i < j < t.len() ==> t[j].id != id,
            None => forall|j: int| 0 <= j < t.len() ==> t[j].id != id,
        },
    decreases t.len(),
{
    if t.len() > 0 && t.last().id != id {
        lemma_find_id(t.drop_last(), id);
        assert forall|j: int| 0 <= j < t.len() - 1 implies t[j] == t.drop_last()[j] by {}
    }
}

/// The position that has the id, with none behind it, is the one found.
pub proof fn lemma_find_id_is(t: Nodes, id: Uuid, i: int)
    requires
        0 <= i < t.len(),
        t[i].id == id,
        forall|j: int| i < j < t.len() ==> t[j].id != id,
    ensures
        find_id(t, id) == Some(i),
{
    lemma_find_id(t, id);
}

pub proof fn lemma_find_id_push(t: Nodes, n: SpecNode, id: Uuid)
    ensures
        find_id(t.push(n), id) == (if n.id == id {
            Some(t.len() as int)
        } else {
            find_id(t, id)
        }),
{
    assert(t.push(n).drop_last() =~= t);
}

pub proof fn lemma_picks(t: Nodes, p: spec_fn(SpecNode) -> bool)
    ensures
        picks(t, p).len() <= t.len(),
        forall|k: int|
            0 <= k < picks(t, p).len() ==> 0 <= #[trigger] picks(t, p)[k] < t.len() && p(
                t[picks(t, p)[k]],
            ),
        forall|k: int, l: int|
            0 <= k < l < picks(t, p).len() ==> #[trigger] picks(t, p)[k] < #[trigger] picks(t, p)[l],
        forall|i: int| 0 <= i < t.len() && p(#[trigger] t[i]) ==> picks(t, p).contains(i),
    decreases t.len(),
{
    if t.len() > 0 {
        let d = t.drop_last();
        lemma_picks(d, p);
        let s = picks(t, p);
        let r = picks(d, p);
        assert forall|i: int| 0 <= i < t.len() && p(#[trigger] t[i]) implies s.contains(i) by {
            if i < d.len() {
                assert(d[i] == t[i]);
                let k = choose|k: int| 0 <= k < r.len() && r[k] == i;
                assert(s[k] == i);
            } else {
                assert(s[s.len() - 1] == i);
            }
        }
    }
}

pub proof fn lemma_picks_push(t: Nodes, n: SpecNode, p: spec_fn(SpecNode) -> bool)
    ensures
        picks(t.push(n), p) == (if p(n) {
            picks(t, p).push(t.len() as int)
        } else {
            picks(t, p)
        }),
{
    assert(t.push(n).drop_last() =~= t);
}

/// A position at which `p` holds, with none before it, is the first.
pub proof fn lemma_first_pick_is(t: Nodes, p: spec_fn(SpecNode) -> bool, i: int)
    requires
        0 <= i < t.len(),
        p(t[i]),
        forall|j: int| 0 <= j < i ==> !p(#[trigger] t[j]),
    ensures
        first_pick(t, p) == Some(i),
{
    lemma_picks(t, p);
    let s = picks(t, p);
    let k = choose|k: int| 0 <= k < s.len() && s[k] == i;
    if k > 0 {
        assert(s[0] < s[k]);
        assert(p(t[s[0]]));
    }
}

pub proof fn lemma_first_pick_none(t: Nodes, p: spec_fn(SpecNode) -> bool)
    requires
        forall|j: int| 0 <= j < t.len() ==> !p(#[trigger] t[j]),
    ensures
        first_pick(t, p) is None,
{
    lemma_picks(t, p);
    if picks(t, p).len() > 0 {
        assert(p(t[picks(t, p)[0]]));
    }
}

pub proof fn lemma_first_pick(t: Nodes, p: spec_fn(SpecNode) -> bool)
    ensures
        match first_pick(t, p) {
            Some(i) => 0 <= i < t.len() && p(t[i]) && forall|j: int|
                0 <= j < i ==> !p(#[trigger] t[j]),
            None => forall|j: int| 0 <= j < t.len() ==> !p(#[trigger] t[j]),
        },
{
    lemma_picks(t, p);
    let s = picks(t, p);
    if s.len() > 0 {
        assert(p(t[s[0]]));
        assert forall|j: int| 0 <= j < s[0] implies !p(#[trigger] t[j]) by {
            if p(t[j]) {
                let k = choose|k: int| 0 <= k < s.len() && s[k] == j;
                if k > 0 {
                    assert(s[0] < s[k]);
                }
            }
        }
    } else {
        assert forall|j: int| 0 <= j < t.len() implies !p(#[trigger] t[j]) by {
            if p(t[j]) {
                assert(s.contains(j));
            }
        }
    }
}

/// A list of positions in order that holds exactly those at which `p` holds is
/// the list of picks.
pub proof fn lemma_picks_unique(t: Nodes, p: spec_fn(SpecNode) -> bool, s: Seq<int>)
    requires
        forall|k: int| 0 <= k < s.len() ==> 0 <= #[trigger] s[k] < t.len() && p(t[s[k]]),
        forall|k: int, l: int| 0 <= k < l < s.len() ==> #[trigger] s[k] < #[trigger] s[l],
        forall|i: int| 0 <= i < t.len() && p(#[trigger] t[i]) ==> s.contains(i),
    ensures
        s == picks(t, p),
    decreases t.len(),
{
    if t.len() == 0 {
        if s.len() > 0 {
            assert(0 <= s[0] < t.len());
        }
        assert(s =~= picks(t, p));
    } else {
        let d = t.drop_last();
        let last = t.len() - 1;
        if p(t.last()) {
            assert(p(t[last]));
            let k = choose|k: int| 0 <= k < s.len() && s[k] == last;
            if k < s.len() - 1 {
                assert(s[k] < s[s.len() - 1]);
            }
            let r = s.drop_last();
            assert forall|i: int| 0 <= i < d.len() && p(#[trigger] d[i]) implies r.contains(i) by {
                assert(t[i] == d[i]);
                let l = choose|l: int| 0 <= l < s.len() && s[l] == i;
                assert(r[l] == i);
            }
            assert forall|l: int| 0 <= l < r.len() implies 0 <= #[trigger] r[l] < d.len() && p(
                d[r[l]],
            ) by {
                assert(s[l] < s[s.len() - 1]);
                assert(p(t[s[l]]));
            }
            lemma_picks_unique(d, p, r);
            assert(s =~= r.push(last));
        } else {
            assert forall|i: int| 0 <= i < d.len() && p(#[trigger] d[i]) implies s.contains(i) by {
                assert(t[i] == d[i]);
            }
            assert forall|l: int| 0 <= l < s.len() implies 0 <= #[trigger] s[l] < d.len() && p(
                d[s[l]],
            ) by {
                assert(p(t[s[l]]));
            }
            lemma_picks_unique(d, p, s);
        }
    }
}

/// Whether two runs of nodes have the same ids and parents throughout.
pub open spec fn same_shape(t: Nodes, u: Nodes) -> bool {
    &&& t.len() == u.len()
    &&& forall|i: int|
        0 <= i < t.len() ==> (#[trigger] t[i]).id == u[i].id && t[i].parent == u[i].parent
}

pub proof fn lemma_same_shape(t: Nodes, u: Nodes, id: Uuid)
    requires
        same_shape(t, u),
    ensures
        find_id(t, id) == find_id(u, id),
        kids(t, id) == kids(u, id),
    decreases t.len(),
{
    if t.len() > 0 {
        assert(t[t.len() - 1].id == u[t.len() - 1].id);
        assert forall|i: int| 0 <= i < t.len() - 1 implies (#[trigger] t.drop_last()[i]).id
            == u.drop_last()[i].id && t.drop_last()[i].parent == u.drop_last()[i].parent by {
            assert(t[i].id == u[i].id);
        }
        lemma_same_shape(t.drop_last(), u.drop_last(), id);
    }
}

// ---------------------------------------------------------------------------
// Walking a tree
// ---------------------------------------------------------------------------

/// How many nodes have a parent that is not in `seen`.
pub open spec fn pending(t: Nodes, seen: Set<Uuid>) -> nat
    decreases t.len(),
{
    if t.len() == 0 {
        0
    } else {
        pending(t.drop_last(), seen) + (if t.last().parent is Some && !seen.contains(
            t.last().parent->Some_0,
        ) {
            1nat
        } else {
            0nat
        })
    }
}

pub proof fn lemma_pending_insert(t: Nodes, seen: Set<Uuid>, x: Uuid)
    requires
        !seen.contains(x),
    ensures
        pending(t, seen) == pending(t, seen.insert(x)) + kids(t, x).len(),
    decreases t.len(),
{
    if t.len() > 0 {
        lemma_pending_insert(t.drop_last(), seen, x);
    }
}

/// The nodes that a depth-first walk meets, parents before children: it takes
/// the nodes of `todo` in turn, each followed by what is below it, and passes
/// over those whose id it has met before.
pub open spec fn walk(t: Nodes, todo: Nodes, seen: Set<Uuid>) -> Nodes
    decreases todo.len() + pending(t, seen),
{
    if todo.len() == 0 {
        Seq::<SpecNode>::empty()
    } else if seen.contains(todo[0].id) {
        walk(t, todo.skip(1), seen)
    } else {
        proof {
            lemma_pending_insert(t, seen, todo[0].id);
        }
        seq![todo[0]] + walk(
            t,
            children_of(t, todo[0].id) + todo.skip(1),
            seen.insert(todo[0].id),
        )
    }
}

/// The subtree of a node: the node and all below it, parents before children.
pub open spec fn subtree_of(t: Nodes, n: SpecNode) -> Nodes {
    walk(t, seq![n], Set::empty())
}

/// The ids of a run of nodes.
pub open spec fn ids_of(s: Nodes) -> Set<Uuid> {
    Set::new(|id: Uuid| exists|i: int| 0 <= i < s.len() && (#[trigger] s[i]).id == id)
}

/// Whether no id occurs twice.
pub open spec fn distinct_ids(s: Nodes) -> bool {
    forall|i: int, j: int|
        0 <= i < j < s.len() ==> (#[trigger] s[i]).id != (#[trigger] s[j]).id
}

/// What a walk meets has ids that it had not met before, each once.
pub proof fn lemma_walk_distinct(t: Nodes, todo: Nodes, seen: Set<Uuid>)
    ensures
        distinct_ids(walk(t, todo, seen)),
        forall|i: int|
            0 <= i < walk(t, todo, seen).len() ==> !seen.contains(
                (#[trigger] walk(t, todo, seen)[i]).id,
            ),
    decreases todo.len() + pending(t, seen),
{
    if todo.len() == 0 {
    } else if seen.contains(todo[0].id) {
        lemma_walk_distinct(t, todo.skip(1), seen);
    } else {
        lemma_pending_insert(t, seen, todo[0].id);
        let more = children_of(t, todo[0].id) + todo.skip(1);
        let seen2 = seen.insert(todo[0].id);
        lemma_walk_distinct(t, more, seen2);
        let w = walk(t, todo, seen);
        let r = walk(t, more, seen2);
        assert(w =~= seq![todo[0]] + r);
        assert forall|i: int| 0 < i < w.len() implies (#[trigger] w[i]) == r[i - 1] by {}
    }
}

/// A subtree holds each id once.
pub proof fn subtree_ids_distinct(t: Nodes, n: SpecNode)
    ensures
        distinct_ids(subtree_of(t, n)),
        subtree_of(t, n).len() > 0,
        subtree_of(t, n)[0] == n,
{
    lemma_walk_distinct(t, seq![n], Set::empty());
    assert(subtree_of(t, n) =~= seq![n] + walk(
        t,
        children_of(t, n.id) + seq![n].skip(1),
        Set::empty().insert(n.id),
    ));
}

/// What a walk meets stands in `todo`, or is a node of `t` below one that it
/// met earlier.
pub proof fn lemma_walk_member(t: Nodes, todo: Nodes, seen: Set<Uuid>, i: int) -> (j: int)
    requires
        0 <= i < walk(t, todo, seen).len(),
    ensures
        todo.contains(walk(t, todo, seen)[i]) || (t.contains(walk(t, todo, seen)[i]) && 0 <= j < i
            && walk(t, todo, seen)[i].parent == Some(walk(t, todo, seen)[j].id)),
    decreases todo.len() + pending(t, seen),
{
    let w = walk(t, todo, seen);
    let x = todo[0].id;
    if seen.contains(x) {
        let j = lemma_walk_member(t, todo.skip(1), seen, i);
        if todo.skip(1).contains(w[i]) {
            let k = choose|k: int| 0 <= k < todo.skip(1).len() && todo.skip(1)[k] == w[i];
            assert(todo[k + 1] == w[i]);
        }
        j
    } else {
        lemma_pending_insert(t, seen, x);
        let ch = children_of(t, x);
        let more = ch + todo.skip(1);
        let seen2 = seen.insert(x);
        let r = walk(t, more, seen2);
        assert(w =~= seq![todo[0]] + r);
        if i == 0 {
            assert(todo[0] == w[0]);
            0
        } else {
            assert(w[i] == r[i - 1]);
            let j = lemma_walk_member(t, more, seen2, i - 1);
            if more.contains(r[i - 1]) {
                let k = choose|k: int| 0 <= k < more.len() && more[k] == r[i - 1];
                if k < ch.len() {
                    lemma_picks(t, |n: SpecNode| n.parent == Some(x));
                    let at = kids(t, x)[k];
                    assert(0 <= at < t.len() && t[at].parent == Some(x));
                    assert(ch[k] == t[at]);
                    assert(w[i] == t[at]);
                    assert(w[0].id == x);
                } else {
                    assert(todo[k - ch.len() + 1] == w[i]);
                }
                0
            } else {
                assert(w[j + 1] == r[j]);
                j + 1
            }
        }
    }
}

/// A walk meets every id of `todo` that it had not met before, and with each
/// id that it meets the ids of all its children.
pub proof fn lemma_walk_closed(t: Nodes, todo: Nodes, seen: Set<Uuid>)
    ensures
        forall|k: int|
            0 <= k < todo.len() ==> seen.contains((#[trigger] todo[k]).id) || ids_of(
                walk(t, todo, seen),
            ).contains(todo[k].id),
        forall|i: int, c: int|
            0 <= i < walk(t, todo, seen).len() && 0 <= c < t.len() && (#[trigger] t[c]).parent
                == Some((#[trigger] walk(t, todo, seen)[i]).id) ==> seen.contains(t[c].id)
                || ids_of(walk(t, todo, seen)).contains(t[c].id),
    decreases todo.len() + pending(t, seen),
{
    let w = walk(t, todo, seen);
    if todo.len() == 0 {
    } else if seen.contains(todo[0].id) {
        lemma_walk_closed(t, todo.skip(1), seen);
        assert forall|k: int| 0 <= k < todo.len() implies seen.contains((#[trigger] todo[k]).id)
            || ids_of(w).contains(todo[k].id) by {
            if k > 0 {
                assert(todo.skip(1)[k - 1] == todo[k]);
            }
        }
    } else {
        let x = todo[0].id;
        lemma_pending_insert(t, seen, x);
        let ch = children_of(t, x);
        let more = ch + todo.skip(1);
        let seen2 = seen.insert(x);
        lemma_walk_closed(t, more, seen2);
        let r = walk(t, more, seen2);
        assert(w =~= seq![todo[0]] + r);
        assert forall|id: Uuid| ids_of(r).contains(id) implies ids_of(w).contains(id) by {
            let i = choose|i: int| 0 <= i < r.len() && (#[trigger] r[i]).id == id;
            assert(w[i + 1].id == id);
        }
        assert(w[0].id == x);
        assert(ids_of(w).contains(x));
        assert forall|k: int| 0 <= k < todo.len() implies seen.contains((#[trigger] todo[k]).id)
            || ids_of(w).contains(todo[k].id) by {
            if k > 0 {
                assert(more[ch.len() + k - 1] == todo[k]);
            }
        }
        assert forall|i: int, c: int|
            0 <= i < w.len() && 0 <= c < t.len() && (#[trigger] t[c]).parent == Some(
                (#[trigger] w[i]).id,
            ) implies seen.contains(t[c].id) || ids_of(w).contains(t[c].id) by {
            if i == 0 {
                lemma_picks(t, |n: SpecNode| n.parent == Some(x));
                let s = kids(t, x);
                assert(s.contains(c));
                let k = choose|k: int| 0 <= k < s.len() && s[k] == c;
                assert(more[k] == t[c]);
            } else {
                assert(w[i] == r[i - 1]);
            }
        }
    }
}

/// A subtree is closed: the id of every child of a node in it is in it.
pub proof fn subtree_closed(t: Nodes, n: SpecNode, i: int, c: int)
    requires
        0 <= i < subtree_of(t, n).len(),
        0 <= c < t.len(),
        t[c].parent == Some(subtree_of(t, n)[i].id),
    ensures
        ids_of(subtree_of(t, n)).contains(t[c].id),
{
    lemma_walk_closed(t, seq![n], Set::empty());
}

/// Every node of a subtree but its root is a node of the tree whose parent
/// comes earlier in the subtree.
pub proof fn subtree_parents_first(t: Nodes, n: SpecNode, i: int)
    requires
        0 < i < subtree_of(t, n).len(),
    ensures
        t.contains(subtree_of(t, n)[i]),
        exists|j: int|
            0 <= j < i && subtree_of(t, n)[i].parent == Some((#[trigger] subtree_of(t, n)[j]).id),
{
    let j = lemma_walk_member(t, seq![n], Set::empty(), i);
    subtree_ids_distinct(t, n);
    let w = subtree_of(t, n);
    if seq![n].contains(w[i]) {
        assert(w[i] == n);
        assert(w[0].id != w[i].id);
    }
    assert(w[i].parent == Some(w[j].id));
}

// ---------------------------------------------------------------------------
// Folding revisions
// ---------------------------------------------------------------------------

/// The positions at which an id occurs for the first time.
pub open spec fn firsts(t: Nodes) -> Seq<int>
    decreases t.len(),
{
    if t.len() == 0 {
        Seq::<int>::empty()
    } else if find_id(t.drop_last(), t.last().id) is None {
        firsts(t.drop_last()).push(t.len() - 1)
    } else {
        firsts(t.drop_last())
    }
}

/// The folded view: of each id the last record, in the order in which the ids
/// occur first.
pub open spec fn folded(t: Nodes) -> Nodes {
    Seq::new(firsts(t).len(), |k: int| t[find_id(t, t[firsts(t)[k]].id)->Some_0])
}

pub proof fn lemma_firsts(t: Nodes)
    ensures
        forall|k: int| 0 <= k < firsts(t).len() ==> 0 <= #[trigger] firsts(t)[k] < t.len(),
        forall|k: int, l: int|
            0 <= k < l < firsts(t).len() ==> #[trigger] firsts(t)[k] < #[trigger] firsts(t)[l],
        forall|k: int, l: int|
            0 <= k < l < firsts(t).len() ==> t[#[trigger] firsts(t)[k]].id
                != t[#[trigger] firsts(t)[l]].id,
    decreases t.len(),
{
    if t.len() > 0 {
        let d = t.drop_last();
        lemma_firsts(d);
        lemma_find_id(d, t.last().id);
        let s = firsts(t);
        let r = firsts(d);
        assert forall|k: int, l: int| 0 <= k < l < s.len() implies t[#[trigger] s[k]].id
            != t[#[trigger] s[l]].id by {
            assert(s[k] == r[k]);
            assert(t[s[k]] == d[r[k]]);
            if l < r.len() {
                assert(t[s[l]] == d[r[l]]);
            }
        }
    }
}

/// The first occurrence of the id at a position.
pub proof fn lemma_first_of(t: Nodes, i: int) -> (k: int)
    requires
        0 <= i < t.len(),
    ensures
        0 <= k < firsts(t).len(),
        0 <= firsts(t)[k] <= i,
        t[firsts(t)[k]].id == t[i].id,
    decreases t.len(),
{
    let d = t.drop_last();
    lemma_find_id(d, t.last().id);
    lemma_firsts(d);
    if i < d.len() {
        let k = lemma_first_of(d, i);
        assert(t[firsts(d)[k]] == d[firsts(d)[k]]);
        k
    } else if find_id(d, t.last().id) is None {
        firsts(t).len() - 1
    } else {
        let k = lemma_first_of(d, find_id(d, t.last().id)->Some_0);
        assert(t[firsts(d)[k]] == d[firsts(d)[k]]);
        k
    }
}

/// In the folded view every id occurs once, and looking it up gives what
/// looking it up in the whole run gives.
pub proof fn fold_keeps_lookup(t: Nodes, id: Uuid)
    ensures
        distinct_ids(folded(t)),
        match find_id(t, id) {
            Some(i) => find_id(folded(t), id) is Some && folded(t)[find_id(
                folded(t),
                id,
            )->Some_0] == t[i],
            None => find_id(folded(t), id) is None,
        },
{
    lemma_firsts(t);
    let f = folded(t);
    let s = firsts(t);
    assert forall|k: int| 0 <= k < f.len() implies (#[trigger] f[k]).id == t[s[k]].id by {
        lemma_find_id(t, t[s[k]].id);
    }
    lemma_find_id(t, id);
    lemma_find_id(f, id);
    if find_id(t, id) is Some {
        let i = find_id(t, id)->Some_0;
        let k = lemma_first_of(t, i);
        assert(f[k].id == id);
        lemma_find_id_is(f, id, k);
    } else if find_id(f, id) is Some {
        let k = find_id(f, id)->Some_0;
        assert(t[s[k]].id == id);
    }
}

pub proof fn lemma_firsts_distinct(t: Nodes)
    requires
        distinct_ids(t),
    ensures
        firsts(t) == Seq::new(t.len(), |i: int| i),
    decreases t.len(),
{
    if t.len() > 0 {
        let d = t.drop_last();
        assert forall|i: int, j: int| 0 <= i < j < d.len() implies (#[trigger] d[i]).id != (
        #[trigger] d[j]).id by {
            assert(t[i].id != t[j].id);
        }
        lemma_firsts_distinct(d);
        lemma_find_id(d, t.last().id);
        if find_id(d, t.last().id) is Some {
            let i = find_id(d, t.last().id)->Some_0;
            assert(t[i].id != t[t.len() - 1].id);
        }
        assert(firsts(t) =~= Seq::new(t.len(), |i: int| i));
    } else {
        assert(firsts(t) =~= Seq::new(t.len(), |i: int| i));
    }
}

/// A run without revisions is its own folded view.
pub proof fn fold_of_distinct(t: Nodes)
    requires
        distinct_ids(t),
    ensures
        folded(t) == t,
{
    lemma_firsts_distinct(t);
    assert forall|k: int| 0 <= k < t.len() implies #[trigger] folded(t)[k] == t[k] by {
        lemma_find_id_is(t, t[k].id, k);
    }
    assert(folded(t) =~= t);
}

/// Folding twice is folding once.
pub proof fn fold_idempotent(t: Nodes)
    ensures
        folded(folded(t)) == folded(t),
{
    fold_keeps_lookup(t, crate::codec::nil_id());
    fold_of_distinct(folded(t));
}

/// Whether the node at a position is there and no later one has its id: what a lookup of the
/// id gives.
pub open spec fn counts(t: Nodes, i: int) -> bool {
    0 <= i < t.len() && forall|j: int| i < j < t.len() ==> (#[trigger] t[j]).id != t[i].id
}

/// A lookup finds the node that counts, and finds one exactly if some node has the id.
pub proof fn lookup_finds_what_counts(t: Nodes, id: Uuid)
    ensures
        match find_id(t, id) {
            Some(i) => counts(t, i) && t[i].id == id,
            None => forall|j: int| 0 <= j < t.len() ==> (#[trigger] t[j]).id != id,
        },
        forall|i: int| #[trigger] counts(t, i) && t[i].id == id ==> find_id(t, id) == Some(i),
{
    lemma_find_id(t, id);
    assert forall|i: int| #[trigger] counts(t, i) && t[i].id == id implies find_id(t, id) == Some(
        i,
    ) by {
        let k = find_id(t, id)->Some_0;
        if k < i {
            assert(t[i].id != id);
        } else if i < k {
            assert(t[k].id != t[i].id);
        }
    }
}

// ---------------------------------------------------------------------------
// Laws of order
// ---------------------------------------------------------------------------

/// The children of a node are all nodes that name it as their parent, and no other, in the
/// order in which they stand; the child with a name is the first of them that has it.
pub proof fn children_stand_in_order(t: Nodes, id: Uuid, name: Seq<char>) -> (at: Seq<int>)
    ensures
        at.len() == children_of(t, id).len(),
        forall|x: int|
            0 <= x < at.len() ==> 0 <= #[trigger] at[x] < t.len() && t[at[x]].parent == Some(id)
                && children_of(t, id)[x] == t[at[x]],
        forall|x: int, y: int| 0 <= x < y < at.len() ==> #[trigger] at[x] < #[trigger] at[y],
        forall|i: int| 0 <= i < t.len() && (#[trigger] t[i]).parent == Some(id) ==> at.contains(i),
        match named_child(t, id, name) {
            Some(i) => 0 <= i < t.len() && t[i].parent == Some(id) && t[i].name == name && forall|
                j: int,
            | 0 <= j < i ==> !((#[trigger] t[j]).parent == Some(id) && t[j].name == name),
            None => forall|j: int|
                0 <= j < t.len() ==> !((#[trigger] t[j]).parent == Some(id) && t[j].name == name),
        },
{
    let p = |n: SpecNode| n.parent == Some(id);
    lemma_picks(t, p);
    let at = kids(t, id);
    assert forall|x: int| 0 <= x < at.len() implies 0 <= #[trigger] at[x] < t.len()
        && t[at[x]].parent == Some(id) by {
        assert(p(t[at[x]]));
    }
    assert forall|i: int| 0 <= i < t.len() && (#[trigger] t[i]).parent == Some(id) implies at.contains(
        i,
    ) by {
        assert(p(t[i]));
    }
    let q = |n: SpecNode| n.parent == Some(id) && n.name == name;
    lemma_first_pick(t, q);
    assert forall|j: int|
        0 <= j < t.len() && (named_child(t, id, name) matches Some(i) ==> j < i) implies !((
    #[trigger] t[j]).parent == Some(id) && t[j].name == name) by {
        assert(!q(t[j]));
    }
    at
}

/// A walk of two runs takes the first as a whole, then what is left of the second.
proof fn lemma_walk_split(t: Nodes, a: Nodes, b: Nodes, seen: Set<Uuid>)
    ensures
        walk(t, a + b, seen) == walk(t, a, seen) + walk(
            t,
            b,
            seen.union(ids_of(walk(t, a, seen))),
        ),
    decreases a.len() + pending(t, seen),
{
    if a.len() == 0 {
        assert(a + b =~= b);
        assert(seen.union(ids_of(walk(t, a, seen))) =~= seen);
        assert(walk(t, a, seen) + walk(t, b, seen) =~= walk(t, b, seen));
    } else {
        let x = a[0].id;
        assert((a + b)[0] == a[0]);
        assert((a + b).skip(1) =~= a.skip(1) + b);
        if seen.contains(x) {
            lemma_walk_split(t, a.skip(1), b, seen);
        } else {
            lemma_pending_insert(t, seen, x);
            let ch = children_of(t, x);
            let s2 = seen.insert(x);
            assert(ch + (a + b).skip(1) =~= (ch + a.skip(1)) + b);
            lemma_walk_split(t, ch + a.skip(1), b, s2);
            let r = walk(t, ch + a.skip(1), s2);
            let w = walk(t, a, seen);
            assert(w =~= seq![a[0]] + r);
            assert(s2.union(ids_of(r)) =~= seen.union(ids_of(w))) by {
                assert forall|id: Uuid| s2.union(ids_of(r)).contains(id) == seen.union(
                    ids_of(w),
                ).contains(id) by {
                    assert(w[0].id == x);
                    if ids_of(r).contains(id) {
                        let i = choose|i: int| 0 <= i < r.len() && (#[trigger] r[i]).id == id;
                        assert(w[i + 1].id == id);
                    }
                    if ids_of(w).contains(id) {
                        let i = choose|i: int| 0 <= i < w.len() && (#[trigger] w[i]).id == id;
                        if i > 0 {
                            assert(r[i - 1].id == id);
                        }
                    }
                }
            }
            let rest = walk(t, b, s2.union(ids_of(r)));
            assert((seq![a[0]] + r) + rest =~= seq![a[0]] + (r + rest));
        }
    }
}

/// What a walk meets from a node on until `end` is below that node, and no child of it comes
/// later.
proof fn lemma_walk_block(t: Nodes, todo: Nodes, seen: Set<Uuid>, a: int) -> (end: int)
    requires
        0 <= a < walk(t, todo, seen).len(),
    ensures
        a < end <= walk(t, todo, seen).len(),
        forall|b: int|
            a < b < end ==> exists|j: int|
                a <= j < b && (#[trigger] walk(t, todo, seen)[b]).parent == Some(
                    (#[trigger] walk(t, todo, seen)[j]).id,
                ),
        forall|c: int|
            end <= c < walk(t, todo, seen).len() && t.contains(#[trigger] walk(t, todo, seen)[c])
                ==> walk(t, todo, seen)[c].parent != Some(walk(t, todo, seen)[a].id),
    decreases todo.len() + pending(t, seen),
{
    let w = walk(t, todo, seen);
    let x = todo[0].id;
    if seen.contains(x) {
        lemma_walk_block(t, todo.skip(1), seen, a)
    } else {
        lemma_pending_insert(t, seen, x);
        let ch = children_of(t, x);
        let rest = todo.skip(1);
        let s2 = seen.insert(x);
        let r = walk(t, ch + rest, s2);
        assert(w =~= seq![todo[0]] + r);
        if a == 0 {
            lemma_walk_split(t, ch, rest, s2);
            let wc = walk(t, ch, s2);
            let s3 = s2.union(ids_of(wc));
            let wr = walk(t, rest, s3);
            let end = 1 + wc.len() as int;
            let at = children_stand_in_order(t, x, Seq::empty());
            assert forall|b: int| a < b < end implies exists|j: int|
                a <= j < b && (#[trigger] w[b]).parent == Some((#[trigger] w[j]).id) by {
                assert(w[b] == wc[b - 1]);
                let j = lemma_walk_member(t, ch, s2, b - 1);
                if ch.contains(wc[b - 1]) {
                    let k = choose|k: int| 0 <= k < ch.len() && ch[k] == wc[b - 1];
                    assert(t[at[k]].parent == Some(x));
                    assert(w[0].id == x);
                } else {
                    assert(w[j + 1] == wc[j]);
                }
            }
            lemma_walk_closed(t, ch, s2);
            lemma_walk_distinct(t, rest, s3);
            assert forall|c: int| end <= c < w.len() && t.contains(#[trigger] w[c]) implies w[c].parent
                != Some(w[a].id) by {
                assert(w[c] == wr[c - end]);
                if w[c].parent == Some(x) {
                    let i = choose|i: int| 0 <= i < t.len() && t[i] == w[c];
                    assert(t[i].parent == Some(x));
                    let k = choose|k: int| 0 <= k < at.len() && at[k] == i;
                    assert(0 <= at[k] && ch[k].id == w[c].id);
                    assert(s3.contains(w[c].id));
                }
            }
            end
        } else {
            let e = lemma_walk_block(t, ch + rest, s2, a - 1);
            assert forall|b: int| a < b < e + 1 implies exists|j: int|
                a <= j < b && (#[trigger] w[b]).parent == Some((#[trigger] w[j]).id) by {
                assert(w[b] == r[b - 1]);
                let j = choose|j: int|
                    a - 1 <= j < b - 1 && r[b - 1].parent == Some((#[trigger] r[j]).id);
                assert(w[j + 1] == r[j]);
            }
            assert forall|c: int| e + 1 <= c < w.len() && t.contains(#[trigger] w[c]) implies w[c].parent
                != Some(w[a].id) by {
                assert(w[c] == r[c - 1]);
            }
            e + 1
        }
    }
}

/// A subtree goes in depth: between a node and a child of it, there is nothing but what is
/// below the node.
pub proof fn subtree_goes_in_depth(t: Nodes, n: SpecNode, a: int, b: int, c: int)
    requires
        0 <= a < b < c < subtree_of(t, n).len(),
        subtree_of(t, n)[c].parent == Some(subtree_of(t, n)[a].id),
    ensures
        exists|j: int|
            a <= j < b && subtree_of(t, n)[b].parent == Some((#[trigger] subtree_of(t, n)[j]).id),
{
    let w = subtree_of(t, n);
    let end = lemma_walk_block(t, seq![n], Set::empty(), a);
    subtree_parents_first(t, n, c);
    assert(t.contains(w[c]));
    assert(c < end);
    let j = choose|j: int| a <= j < b && w[b].parent == Some((#[trigger] w[j]).id);
    assert(w[b].parent == Some(w[j].id));
}

} // verus!
