//! Finding nodes by the shape of their trees, by name and by value.
use crate::codec::{SpecNode, SpecValue, Uuid, Value};
use crate::model::{find_id, ints, kids, named_child, picks, Nodes};
use crate::text::{begins, is_aux_name, parse_i64, same_text, signed_number, split_at_char,
    split_char, text_views};
use crate::tree::{found, Store};
use crate::validator::{on_cycle, up};
use std::collections::HashMap;
use vstd::multiset::Multiset;
use vstd::prelude::*;
use vstd::relations::sorted_by;

verus! {

// ---------------------------------------------------------------------------
// Shapes
// ---------------------------------------------------------------------------

/// The children of node `i` that make its shape: those of its id, if it is the
/// last record of it, without the `@` nodes.
pub open spec fn shape_kids(t: Nodes, i: int) -> Seq<int> {
    if find_id(t, t[i].id) == Some(i) {
        kids(t, t[i].id).filter(|c: int| !begins(t[c].name, '@'))
    } else {
        Seq::<int>::empty()
    }
}

/// The shapes of the children of node `i`, whatever their order.
pub open spec fn kid_shapes(t: Nodes, shapes: Seq<u64>, i: int) -> Multiset<u64> {
    let k = shape_kids(t, i);
    Seq::new(k.len(), |j: int| shapes[k[j]]).to_multiset()
}

/// A shape: those of the children, one after another.
pub struct Shape {
    pub kids: Seq<Shape>,
}

/// Whether shapes can be paired off so that the two of each pair are alike.
pub open spec fn paired_off(a: Seq<Shape>, b: Seq<Shape>) -> bool
    decreases a,
{
    &&& a.len() == b.len()
    &&& a.len() > 0 ==> exists|m: int|
        0 <= m < b.len() && paired_off(a.last().kids, (#[trigger] b[m]).kids) && paired_off(
            a.drop_last(),
            b.remove(m),
        )
}

/// Whether two shapes are the same but for the order of children.
pub open spec fn alike(a: Shape, b: Shape) -> bool {
    paired_off(a.kids, b.kids)
}

/// The shape of the tree below node `i`, down to a depth.
pub open spec fn tree_to(t: Nodes, i: int, depth: nat) -> Shape
    decreases depth,
{
    if depth == 0 {
        Shape { kids: Seq::<Shape>::empty() }
    } else {
        let k = shape_kids(t, i);
        Shape { kids: Seq::new(k.len(), |j: int| tree_to(t, k[j], (depth - 1) as nat)) }
    }
}

/// The shape of the tree below node `i`. No tree is deeper than there are nodes.
pub open spec fn shape_tree(t: Nodes, i: int) -> Shape {
    tree_to(t, i, t.len())
}

/// The nodes whose trees have the shape of that of node `i`.
pub open spec fn shape_class(t: Nodes, i: int) -> Set<int> {
    Set::new(|j: int| 0 <= j < t.len() && alike(shape_tree(t, i), shape_tree(t, j)))
}

/// The keys from position `i` on, each once, in the order in which they come up from the
/// back.
pub open spec fn distinct_from<A>(keys: Seq<A>, i: int) -> Seq<A>
    decreases keys.len() - i,
{
    if i < 0 || i >= keys.len() {
        Seq::<A>::empty()
    } else {
        let d = distinct_from(keys, i + 1);
        if d.contains(keys[i]) {
            d
        } else {
            d.push(keys[i])
        }
    }
}

/// Numbers for keys, given from the back: a new key gets the next number.
pub open spec fn numbering<A>(keys: Seq<A>) -> Seq<u64> {
    Seq::new(keys.len(), |i: int| distinct_from(keys, 0).index_of(keys[i]) as u64)
}

/// The shape numbers of all nodes: nodes of one shape have one number.
pub open spec fn shape_numbers(t: Nodes) -> Seq<u64> {
    numbering(Seq::new(t.len(), |i: int| shape_class(t, i)))
}

// ---------------------------------------------------------------------------
// Numbering
// ---------------------------------------------------------------------------

proof fn lemma_distinct<A>(keys: Seq<A>, i: int)
    requires
        0 <= i <= keys.len(),
    ensures
        distinct_from(keys, i).no_duplicates(),
        distinct_from(keys, i).len() <= keys.len() - i,
        forall|j: int| i <= j < keys.len() ==> distinct_from(keys, i).contains(#[trigger] keys[j]),
    decreases keys.len() - i,
{
    if i < keys.len() {
        lemma_distinct(keys, i + 1);
        let d = distinct_from(keys, i + 1);
        let e = distinct_from(keys, i);
        assert forall|j: int| i <= j < keys.len() implies e.contains(#[trigger] keys[j]) by {
            if d.contains(keys[j]) {
                let k = choose|k: int| 0 <= k < d.len() && d[k] == keys[j];
                assert(e[k] == keys[j]);
            } else {
                assert(j == i);
                assert(e[d.len() as int] == keys[i]);
            }
        }
    }
}

/// Numbers are the same exactly for the same keys.
proof fn lemma_numbering<A>(keys: Seq<A>, i: int, j: int)
    requires
        0 <= i < keys.len(),
        0 <= j < keys.len(),
        keys.len() <= u64::MAX,
    ensures
        numbering(keys)[i] == numbering(keys)[j] <==> keys[i] == keys[j],
{
    lemma_distinct(keys, 0);
    let d = distinct_from(keys, 0);
    assert(d.contains(keys[i]));
    assert(d.contains(keys[j]));
}

/// Keys that are the same in the same places come up in the same places.
proof fn lemma_same_places<A, B>(a: Seq<A>, b: Seq<B>, i: int) -> (w: Seq<int>)
    requires
        a.len() == b.len(),
        0 <= i <= a.len(),
        forall|x: int, y: int|
            0 <= x < a.len() && 0 <= y < a.len() ==> ((#[trigger] a[x] == #[trigger] a[y])
                <==> b[x] == b[y]),
    ensures
        w.len() == distinct_from(a, i).len(),
        w.len() == distinct_from(b, i).len(),
        forall|x: int|
            0 <= x < w.len() ==> 0 <= #[trigger] w[x] < a.len() && distinct_from(a, i)[x]
                == a[w[x]] && distinct_from(b, i)[x] == b[w[x]],
    decreases a.len() - i,
{
    if i == a.len() {
        Seq::empty()
    } else {
        let w = lemma_same_places(a, b, i + 1);
        let d = distinct_from(a, i + 1);
        let e = distinct_from(b, i + 1);
        if d.contains(a[i]) {
            let x = choose|x: int| 0 <= x < d.len() && d[x] == a[i];
            assert(0 <= w[x] < a.len());
            assert(a[w[x]] == a[i]);
            assert(e[x] == b[i]);
            w
        } else {
            if e.contains(b[i]) {
                let x = choose|x: int| 0 <= x < e.len() && e[x] == b[i];
                assert(0 <= w[x] < a.len());
                assert(a[w[x]] == a[i]);
                assert(d[x] == a[i]);
            }
            w.push(i)
        }
    }
}

/// Keys that are the same in the same places get the same numbers.
proof fn lemma_same_numbering<A, B>(a: Seq<A>, b: Seq<B>)
    requires
        a.len() == b.len(),
        forall|x: int, y: int|
            0 <= x < a.len() && 0 <= y < a.len() ==> ((#[trigger] a[x] == #[trigger] a[y])
                <==> b[x] == b[y]),
    ensures
        numbering(a) == numbering(b),
{
    let w = lemma_same_places(a, b, 0);
    lemma_distinct(a, 0);
    lemma_distinct(b, 0);
    let d = distinct_from(a, 0);
    let e = distinct_from(b, 0);
    assert forall|i: int| 0 <= i < a.len() implies d.index_of(a[i]) == e.index_of(b[i]) by {
        assert(d.contains(a[i]));
        assert(e.contains(b[i]));
        let x = d.index_of(a[i]);
        assert(d[x] == a[i]);
        assert(0 <= w[x] < a.len());
        assert(a[w[x]] == a[i]);
        assert(e[x] == b[i]);
        assert(e[e.index_of(b[i])] == b[i]);
    }
    assert(numbering(a) =~= numbering(b));
}

// ---------------------------------------------------------------------------
// Shapes down to a depth
// ---------------------------------------------------------------------------

/// The keys by which nodes are numbered: the numbers of their children, whatever their
/// order.
pub open spec fn kid_keys(t: Nodes, shapes: Seq<u64>) -> Seq<Multiset<u64>> {
    Seq::new(t.len(), |i: int| kid_shapes(t, shapes, i))
}

/// The numbers of the shapes down to a depth.
pub open spec fn numbers_to(t: Nodes, depth: nat) -> Seq<u64>
    decreases depth,
{
    if depth == 0 {
        Seq::new(t.len(), |i: int| 0u64)
    } else {
        numbering(kid_keys(t, numbers_to(t, (depth - 1) as nat)))
    }
}

/// The shapes below nodes down to a depth.
spec fn trees_to(t: Nodes, at: Seq<int>, depth: nat) -> Seq<Shape> {
    Seq::new(at.len(), |j: int| tree_to(t, at[j], depth))
}

/// Where numbers tell shapes apart, nodes can be paired off by their shapes exactly if
/// their numbers are the same, each as often.
proof fn lemma_pairing(t: Nodes, f: Seq<u64>, depth: nat, a: Seq<int>, b: Seq<int>)
    requires
        forall|i: int, j: int|
            0 <= i < t.len() && 0 <= j < t.len() ==> ((#[trigger] f[i] == #[trigger] f[j])
                <==> alike(tree_to(t, i, depth), tree_to(t, j, depth))),
        forall|k: int| 0 <= k < a.len() ==> 0 <= #[trigger] a[k] < t.len(),
        forall|k: int| 0 <= k < b.len() ==> 0 <= #[trigger] b[k] < t.len(),
    ensures
        paired_off(trees_to(t, a, depth), trees_to(t, b, depth)) <==> numbers_at(f, a).to_multiset()
            == numbers_at(f, b).to_multiset(),
    decreases a.len(),
{
    broadcast use vstd::seq_lib::group_to_multiset_ensures;

    let x = trees_to(t, a, depth);
    let y = trees_to(t, b, depth);
    let p = numbers_at(f, a);
    let q = numbers_at(f, b);
    if p.to_multiset() == q.to_multiset() {
        assert(p.to_multiset().len() == q.to_multiset().len());
        assert(a.len() == b.len());
    }
    if a.len() == 0 {
        if b.len() == 0 {
            assert(p =~= q);
        }
    } else if a.len() == b.len() {
        let short = a.drop_last();
        assert(p.drop_last() =~= numbers_at(f, short));
        assert(p =~= p.drop_last().push(p.last()));
        assert(x.drop_last() =~= trees_to(t, short, depth));
        assert forall|m: int| 0 <= m < b.len() implies #[trigger] y.remove(m) == trees_to(
            t,
            b.remove(m),
            depth,
        ) && q.remove(m) == numbers_at(f, b.remove(m)) by {
            assert(y.remove(m) =~= trees_to(t, b.remove(m), depth));
            assert(q.remove(m) =~= numbers_at(f, b.remove(m)));
        }
        assert forall|m: int| 0 <= m < b.len() implies (paired_off(x.last().kids, (#[trigger] y[m]).kids)
            && paired_off(x.drop_last(), y.remove(m))) == (p.last() == q[m]
            && p.drop_last().to_multiset() == q.remove(m).to_multiset()) by {
            let rest = b.remove(m);
            assert forall|k: int| 0 <= k < rest.len() implies 0 <= #[trigger] rest[k] < t.len() by {
                if k < m {
                    assert(rest[k] == b[k]);
                } else {
                    assert(rest[k] == b[k + 1]);
                }
            }
            lemma_pairing(t, f, depth, short, rest);
            assert(y.remove(m) == trees_to(t, rest, depth));
            assert(0 <= a.last() < t.len());
            assert(0 <= b[m] < t.len());
            assert((f[a.last()] == f[b[m]]) <==> alike(
                tree_to(t, a.last(), depth),
                tree_to(t, b[m], depth),
            ));
        }
        if paired_off(x, y) {
            let m = choose|m: int|
                0 <= m < y.len() && paired_off(x.last().kids, (#[trigger] y[m]).kids) && paired_off(
                    x.drop_last(),
                    y.remove(m),
                );
            assert(p.last() == q[m]);
            vstd::seq_lib::to_multiset_remove(q, m);
            assert(q.to_multiset().contains(q[m]));
            assert(q.to_multiset() =~= q.to_multiset().remove(q[m]).insert(q[m]));
            assert(p.to_multiset() =~= p.drop_last().to_multiset().insert(p.last()));
        }
        if p.to_multiset() == q.to_multiset() {
            assert(p[p.len() - 1] == p.last());
            assert(p.contains(p.last()));
            assert(p.to_multiset().count(p.last()) > 0);
            assert(q.contains(p.last()));
            let m = choose|m: int| 0 <= m < q.len() && q[m] == p.last();
            vstd::seq_lib::to_multiset_remove(q, m);
            assert(p.to_multiset() =~= p.drop_last().to_multiset().insert(p.last()));
            assert(p.drop_last().to_multiset() =~= q.remove(m).to_multiset());
            assert(paired_off(x.last().kids, y[m].kids) && paired_off(x.drop_last(), y.remove(m)));
        }
    }
}

/// The children that make a shape are there.
proof fn lemma_shape_kids(t: Nodes, i: int)
    requires
        0 <= i < t.len(),
    ensures
        forall|k: int|
            0 <= k < shape_kids(t, i).len() ==> {
                let c = #[trigger] shape_kids(t, i)[k];
                0 <= c < t.len() && t[c].parent == Some(t[i].id) && find_id(t, t[i].id) == Some(i)
            },
{
    let id = t[i].id;
    crate::model::lemma_picks(t, |n: SpecNode| n.parent == Some(id));
    let all = kids(t, id);
    let p = |c: int| !begins(t[c].name, '@');
    assert forall|k: int| 0 <= k < shape_kids(t, i).len() implies {
        let c = #[trigger] shape_kids(t, i)[k];
        0 <= c < t.len() && t[c].parent == Some(t[i].id) && find_id(t, t[i].id) == Some(i)
    } by {
        let c = shape_kids(t, i)[k];
        assert(all.filter(p).contains(c));
        all.lemma_filter_contains_rev(p, c);
        assert(all.contains(c));
    }
}

/// Numbers tell shapes apart, down to the depth that they are for.
proof fn lemma_numbers_to(t: Nodes, depth: nat, i: int, j: int)
    requires
        0 <= i < t.len(),
        0 <= j < t.len(),
        t.len() <= u64::MAX,
    ensures
        numbers_to(t, depth)[i] == numbers_to(t, depth)[j] <==> alike(
            tree_to(t, i, depth),
            tree_to(t, j, depth),
        ),
    decreases depth,
{
    if depth > 0 {
        let d = (depth - 1) as nat;
        let f = numbers_to(t, d);
        assert forall|x: int, y: int| 0 <= x < t.len() && 0 <= y < t.len() implies ((
        #[trigger] f[x] == #[trigger] f[y]) <==> alike(tree_to(t, x, d), tree_to(t, y, d))) by {
            lemma_numbers_to(t, d, x, y);
        }
        lemma_shape_kids(t, i);
        lemma_shape_kids(t, j);
        let a = shape_kids(t, i);
        let b = shape_kids(t, j);
        lemma_pairing(t, f, d, a, b);
        assert(tree_to(t, i, depth).kids =~= trees_to(t, a, d));
        assert(tree_to(t, j, depth).kids =~= trees_to(t, b, d));
        assert(kid_shapes(t, f, i) == numbers_at(f, a).to_multiset());
        assert(kid_shapes(t, f, j) == numbers_at(f, b).to_multiset());
        lemma_numbering(kid_keys(t, f), i, j);
    }
}

/// The numbers down to the greatest depth are the shape numbers.
proof fn lemma_shape_numbers(t: Nodes)
    requires
        t.len() <= u64::MAX,
    ensures
        numbers_to(t, t.len()) == shape_numbers(t),
{
    let n = t.len();
    let f = numbers_to(t, n);
    let classes = Seq::new(n, |i: int| shape_class(t, i));
    assert forall|x: int, y: int| 0 <= x < n && 0 <= y < n implies ((f[x] == f[y])
        <==> #[trigger] classes[x] == #[trigger] classes[y]) by {
        lemma_numbers_to(t, n, x, y);
        if f[x] == f[y] {
            assert forall|z: int| classes[x].contains(z) <==> classes[y].contains(z) by {
                if 0 <= z < n {
                    lemma_numbers_to(t, n, x, z);
                    lemma_numbers_to(t, n, y, z);
                }
            }
            assert(classes[x] =~= classes[y]);
        } else {
            lemma_numbers_to(t, n, y, y);
            assert(classes[y].contains(y));
            assert(!classes[x].contains(y));
        }
    }
    if n > 0 {
        let keys = kid_keys(t, numbers_to(t, (n - 1) as nat));
        assert forall|x: int, y: int| 0 <= x < n && 0 <= y < n implies ((#[trigger] keys[x]
            == #[trigger] keys[y]) <==> classes[x] == classes[y]) by {
            lemma_numbering(keys, x, y);
            assert((f[x] == f[y]) <==> classes[x] == classes[y]);
        }
        lemma_same_numbering(keys, classes);
    } else {
        assert(f =~= shape_numbers(t));
    }
}

/// Where numbers for a depth are those for the next, they are those for all that follow.
proof fn lemma_numbers_stay(t: Nodes, depth: nat, more: nat)
    requires
        depth <= more,
        numbers_to(t, depth + 1) == numbers_to(t, depth),
    ensures
        numbers_to(t, more) == numbers_to(t, depth),
    decreases more,
{
    if depth < more {
        lemma_numbers_stay(t, depth, (more - 1) as nat);
    }
}

/// Two nodes have the same number exactly if their trees have the same shape, the order of
/// children and the `@` nodes left out of account.
pub proof fn same_number_iff_same_shape(t: Nodes, i: int, j: int)
    requires
        0 <= i < t.len(),
        0 <= j < t.len(),
        t.len() <= u64::MAX,
    ensures
        shape_numbers(t)[i] == shape_numbers(t)[j] <==> alike(shape_tree(t, i), shape_tree(t, j)),
{
    lemma_shape_numbers(t);
    lemma_numbers_to(t, t.len(), i, j);
}

/// Whether no node is above itself.
pub open spec fn acyclic(t: Nodes) -> bool {
    forall|i: int| 0 <= i < t.len() ==> !on_cycle(t, #[trigger] t[i])
}

/// Whether `w` leads from nodes to children that make their shapes.
spec fn leads_down(t: Nodes, w: Seq<int>) -> bool {
    &&& forall|k: int| 0 <= k < w.len() ==> 0 <= #[trigger] w[k] < t.len()
    &&& forall|k: int, l: int|
        0 <= k && l == k + 1 && l < w.len() ==> shape_kids(t, #[trigger] w[k]).contains(
            #[trigger] w[l],
        )
}

/// A tree that grows with the depth has a way down that is as long.
proof fn lemma_way_down(t: Nodes, i: int, depth: nat) -> (w: Seq<int>)
    requires
        0 <= i < t.len(),
        tree_to(t, i, depth) != tree_to(t, i, depth + 1),
    ensures
        w.len() == depth + 2,
        w[0] == i,
        leads_down(t, w),
    decreases depth,
{
    let k = shape_kids(t, i);
    lemma_shape_kids(t, i);
    let a = tree_to(t, i, depth);
    let b = tree_to(t, i, depth + 1);
    if depth == 0 {
        if k.len() == 0 {
            assert(a.kids =~= b.kids);
        }
        assert(k.contains(k[0]));
        assert(0 <= k[0] < t.len());
        seq![i, k[0]]
    } else {
        if forall|j: int|
            0 <= j < k.len() ==> tree_to(t, #[trigger] k[j], (depth - 1) as nat) == tree_to(
                t,
                k[j],
                depth,
            ) {
            assert(a.kids =~= b.kids);
        }
        let j = choose|j: int|
            0 <= j < k.len() && tree_to(t, #[trigger] k[j], (depth - 1) as nat) != tree_to(
                t,
                k[j],
                depth,
            );
        assert(0 <= k[j] < t.len());
        let v = lemma_way_down(t, k[j], (depth - 1) as nat);
        let w = seq![i] + v;
        assert(k.contains(k[j]));
        assert forall|x: int, y: int| 0 <= x && y == x + 1 && y < w.len() implies shape_kids(
            t,
            #[trigger] w[x],
        ).contains(#[trigger] w[y]) by {
            if x > 0 {
                assert(w[x] == v[x - 1]);
                assert(w[y] == v[y - 1]);
            }
        }
        assert forall|x: int| 0 <= x < w.len() implies 0 <= #[trigger] w[x] < t.len() by {
            if x > 0 {
                assert(w[x] == v[x - 1]);
            }
        }
        w
    }
}

/// What is above a node on a way down is above it in the tree.
proof fn lemma_way_is_above(t: Nodes, w: Seq<int>, b: int, k: nat)
    requires
        leads_down(t, w),
        0 < b < w.len(),
        1 <= k <= b,
    ensures
        up(t, t[w[b]], k) == Some(t[w[b - k]].id),
    decreases k,
{
    let c = w[b - k + 1];
    assert(shape_kids(t, w[b - k]).contains(c));
    let s = shape_kids(t, w[b - k]);
    lemma_shape_kids(t, w[b - k]);
    let m = choose|m: int| 0 <= m < s.len() && s[m] == c;
    assert(t[s[m]].parent == Some(t[w[b - k]].id));
    if k > 1 {
        lemma_way_is_above(t, w, b, (k - 1) as nat);
        let d = w[b - k + 2];
        assert(shape_kids(t, w[b - k + 1]).contains(d));
        let r = shape_kids(t, w[b - k + 1]);
        lemma_shape_kids(t, w[b - k + 1]);
        let x = choose|x: int| 0 <= x < r.len() && r[x] == d;
        assert(find_id(t, t[c].id) == Some(c) || t[r[x]].parent is None);
    }
}

/// Where no node is above itself, nothing of a tree is left out of its shape: it is made of
/// the shapes of the children.
pub proof fn shape_tree_is_whole(t: Nodes, i: int)
    requires
        acyclic(t),
        0 <= i < t.len(),
    ensures
        shape_tree(t, i) == (Shape {
            kids: Seq::new(
                shape_kids(t, i).len(),
                |j: int| shape_tree(t, shape_kids(t, i)[j]),
            ),
        }),
{
    let n = t.len();
    if tree_to(t, i, n) != tree_to(t, i, n + 1) {
        let w = lemma_way_down(t, i, n);
        if w.no_duplicates() {
            w.unique_seq_to_set();
            let range = vstd::set_lib::set_int_range(0, n as int);
            vstd::set_lib::lemma_int_range(0, n as int);
            assert(w.to_set().subset_of(range));
            vstd::set_lib::lemma_len_subset(w.to_set(), range);
            assert(false);
        }
        let (x, y) = choose|x: int, y: int|
            0 <= x < w.len() && 0 <= y < w.len() && x != y && w[x] == w[y];
        let (a, b) = if x < y {
            (x, y)
        } else {
            (y, x)
        };
        lemma_way_is_above(t, w, b, (b - a) as nat);
        assert(0 <= w[b] < t.len());
        assert(on_cycle(t, t[w[b]]));
        assert(false);
    }
    let k = shape_kids(t, i);
    assert(tree_to(t, i, n + 1).kids =~= Seq::new(k.len(), |j: int| shape_tree(t, k[j])));
}

// ---------------------------------------------------------------------------
// Finding the numbers
// ---------------------------------------------------------------------------

/// The order of numbers.
pub open spec fn num_le(a: u64, b: u64) -> bool {
    a <= b
}

fn merge_numbers(a: &Vec<u64>, b: &Vec<u64>) -> (r: Vec<u64>)
    requires
        sorted_by(a@, |x: u64, y: u64| num_le(x, y)),
        sorted_by(b@, |x: u64, y: u64| num_le(x, y)),
    ensures
        sorted_by(r@, |x: u64, y: u64| num_le(x, y)),
        r@.to_multiset() == a@.to_multiset().add(b@.to_multiset()),
{
    let ghost le = |x: u64, y: u64| num_le(x, y);
    let mut out: Vec<u64> = Vec::new();
    let mut i: usize = 0;
    let mut j: usize = 0;
    proof {
        assert(a@.take(0) =~= Seq::<u64>::empty());
        assert(b@.take(0) =~= Seq::<u64>::empty());
        assert(out@ =~= Seq::<u64>::empty());
        assert(Seq::<u64>::empty().to_multiset() =~= Multiset::<u64>::empty()) by {
            broadcast use vstd::seq_lib::group_to_multiset_ensures;
            Seq::<u64>::empty().to_multiset_ensures();
        }
        assert(out@.to_multiset() =~= a@.take(0).to_multiset().add(b@.take(0).to_multiset()));
    }
    while i < a.len() || j < b.len()
        invariant
            i <= a@.len(),
            j <= b@.len(),
            le == (|x: u64, y: u64| num_le(x, y)),
            sorted_by(a@, le),
            sorted_by(b@, le),
            sorted_by(out@, le),
            forall|k: int, l: int|
                0 <= k < out@.len() && i <= l < a@.len() ==> #[trigger] out@[k] <= #[trigger] a@[l],
            forall|k: int, l: int|
                0 <= k < out@.len() && j <= l < b@.len() ==> #[trigger] out@[k] <= #[trigger] b@[l],
            out@.to_multiset() == a@.take(i as int).to_multiset().add(
                b@.take(j as int).to_multiset(),
            ),
        decreases (a@.len() - i) + (b@.len() - j),
    {
        let take_a = if i >= a.len() {
            false
        } else if j >= b.len() {
            true
        } else {
            a[i] <= b[j]
        };
        let ghost o0 = out@;
        proof {
            broadcast use vstd::seq_lib::group_to_multiset_ensures;

            assert forall|k: int, l: int| 0 <= k < l < a@.len() implies #[trigger] a@[k]
                <= #[trigger] a@[l] by {
                assert(le(a@[k], a@[l]));
            }
            assert forall|k: int, l: int| 0 <= k < l < b@.len() implies #[trigger] b@[k]
                <= #[trigger] b@[l] by {
                assert(le(b@[k], b@[l]));
            }
        }
        if take_a {
            out.push(a[i]);
            proof {
                broadcast use vstd::seq_lib::group_to_multiset_ensures;

                assert(a@.take(i + 1) =~= a@.take(i as int).push(a@[i as int]));
                assert(out@.to_multiset() =~= a@.take(i + 1).to_multiset().add(
                    b@.take(j as int).to_multiset(),
                ));
                assert forall|k: int, l: int| 0 <= k < l < out@.len() implies #[trigger] le(
                    out@[k],
                    out@[l],
                ) by {
                    if l < o0.len() {
                        assert(le(o0[k], o0[l]));
                    }
                }
            }
            i = i + 1;
        } else {
            out.push(b[j]);
            proof {
                broadcast use vstd::seq_lib::group_to_multiset_ensures;

                assert(b@.take(j + 1) =~= b@.take(j as int).push(b@[j as int]));
                assert(out@.to_multiset() =~= a@.take(i as int).to_multiset().add(
                    b@.take(j + 1).to_multiset(),
                ));
                assert forall|k: int, l: int| 0 <= k < l < out@.len() implies #[trigger] le(
                    out@[k],
                    out@[l],
                ) by {
                    if l < o0.len() {
                        assert(le(o0[k], o0[l]));
                    }
                }
            }
            j = j + 1;
        }
    }
    assert(a@.take(a@.len() as int) =~= a@);
    assert(b@.take(b@.len() as int) =~= b@);
    out
}

/// The numbers of `v` from `lo` up to `hi` in order.
fn sort_numbers(v: &Vec<u64>, lo: usize, hi: usize) -> (r: Vec<u64>)
    requires
        lo <= hi <= v@.len(),
    ensures
        sorted_by(r@, |x: u64, y: u64| num_le(x, y)),
        r@.to_multiset() == v@.subrange(lo as int, hi as int).to_multiset(),
    decreases hi - lo,
{
    if hi - lo <= 1 {
        let mut r: Vec<u64> = Vec::new();
        if hi - lo == 1 {
            r.push(v[lo]);
        }
        assert(r@ =~= v@.subrange(lo as int, hi as int));
        r
    } else {
        let mid: usize = lo + (hi - lo) / 2;
        let a = sort_numbers(v, lo, mid);
        let b = sort_numbers(v, mid, hi);
        proof {
            let x = v@.subrange(lo as int, mid as int);
            let y = v@.subrange(mid as int, hi as int);
            vstd::seq_lib::lemma_multiset_commutative(x, y);
            assert(x + y =~= v@.subrange(lo as int, hi as int));
        }
        merge_numbers(&a, &b)
    }
}

proof fn lemma_num_le_total()
    ensures
        vstd::relations::total_ordering(|x: u64, y: u64| num_le(x, y)),
{
}

/// Whether the sorted lists stand for the shapes.
spec fn lists_stand_for(lists: Seq<Vec<u64>>, table: Seq<Multiset<u64>>) -> bool {
    &&& lists.len() == table.len()
    &&& forall|k: int|
        0 <= k < lists.len() ==> sorted_by((#[trigger] lists[k])@, |x: u64, y: u64| num_le(x, y))
            && lists[k]@.to_multiset() == table[k]
}

fn same_numbers(a: &Vec<u64>, b: &Vec<u64>) -> (r: bool)
    ensures
        r == (a@ == b@),
{
    if a.len() != b.len() {
        return false;
    }
    let mut i: usize = 0;
    while i < a.len()
        invariant
            i <= a@.len(),
            a@.len() == b@.len(),
            forall|j: int| 0 <= j < i ==> a@[j] == b@[j],
        decreases a@.len() - i,
    {
        if a[i] != b[i] {
            return false;
        }
        i = i + 1;
    }
    assert(a@ =~= b@);
    true
}

/// The number of a shape, if it has one.
fn find_shape(lists: &Vec<Vec<u64>>, key: &Vec<u64>, Ghost(table): Ghost<Seq<Multiset<u64>>>) -> (r:
    Option<usize>)
    requires
        lists_stand_for(lists@, table),
        table.no_duplicates(),
        sorted_by(key@, |x: u64, y: u64| num_le(x, y)),
    ensures
        match r {
            Some(k) => table.contains(key@.to_multiset()) && table.index_of(key@.to_multiset())
                == k && k < lists@.len(),
            None => !table.contains(key@.to_multiset()),
        },
{
    let ghost want = key@.to_multiset();
    let mut k: usize = 0;
    while k < lists.len()
        invariant
            k <= lists@.len(),
            lists_stand_for(lists@, table),
            table.no_duplicates(),
            sorted_by(key@, |x: u64, y: u64| num_le(x, y)),
            want == key@.to_multiset(),
            forall|j: int| 0 <= j < k ==> #[trigger] table[j] != want,
        decreases lists@.len() - k,
    {
        if same_numbers(&lists[k], key) {
            assert(table[k as int] == want);
            assert(table.contains(want));
            return Some(k);
        }
        proof {
            if table[k as int] == want {
                lemma_num_le_total();
                vstd::seq_lib::lemma_sorted_unique(
                    lists@[k as int]@,
                    key@,
                    |x: u64, y: u64| num_le(x, y),
                );
            }
        }
        k = k + 1;
    }
    None
}

/// The numbers of nodes by the numbers of their children.
fn next_numbers(store: &Store, shapes: &Vec<u64>) -> (r: Vec<u64>)
    requires
        store.wf(),
        shapes@.len() == store@.len(),
    ensures
        r@ == numbering(kid_keys(store@, shapes@)),
{
    let ghost t = store@;
    let ghost keys = kid_keys(t, shapes@);
    let n: usize = store.len();
    let mut out: Vec<u64> = zeros(n);
    let mut lists: Vec<Vec<u64>> = Vec::new();
    let ghost mut table: Seq<Multiset<u64>> = Seq::empty();
    let mut i: usize = n;
    while i > 0
        invariant
            i <= n,
            n == t.len(),
            t == store@,
            store.wf(),
            shapes@.len() == t.len(),
            keys == kid_keys(t, shapes@),
            table == distinct_from(keys, i as int),
            lists_stand_for(lists@, table),
            out@.len() == n,
            forall|j: int|
                i <= j < n ==> table.contains(keys[j]) && #[trigger] out@[j] == table.index_of(
                    keys[j],
                ) as u64,
        decreases i,
    {
        proof {
            lemma_distinct(keys, i as int);
            lemma_distinct(keys, i - 1);
        }
        i = i - 1;
        let list = kid_numbers(store, i, shapes);
        let key = sort_numbers(&list, 0, list.len());
        assert(list@.subrange(0, list@.len() as int) =~= list@);
        let ghost want = key@.to_multiset();
        let ghost before = table;
        assert(want == keys[i as int]);
        match find_shape(&lists, &key, Ghost(table)) {
            Some(k) => {
                out.set(i, k as u64);
            },
            None => {
                let next: u64 = lists.len() as u64;
                let ghost l0 = lists@;
                lists.push(key);
                proof {
                    table = table.push(want);
                    assert forall|k: int| 0 <= k < lists@.len() implies sorted_by(
                        (#[trigger] lists@[k])@,
                        |x: u64, y: u64| num_le(x, y),
                    ) && lists@[k]@.to_multiset() == table[k] by {
                        if k < l0.len() {
                            assert(lists@[k] == l0[k]);
                        }
                    }
                }
                out.set(i, next);
                assert(table[before.len() as int] == want);
            },
        }
        proof {
            assert forall|j: int| i <= j < n implies table.contains(keys[j])
                && #[trigger] out@[j] == table.index_of(keys[j]) as u64 by {
                if j > i {
                    let x = before.index_of(keys[j]);
                    assert(before[x] == keys[j]);
                    assert(table[x] == keys[j]);
                    assert(table.contains(keys[j]));
                    assert(table[table.index_of(keys[j])] == keys[j]);
                } else {
                    assert(table.contains(want));
                    assert(table[table.index_of(want)] == want);
                }
            }
        }
    }
    assert(out@ =~= numbering(keys));
    out
}

/// As many zeros as wanted.
fn zeros(n: usize) -> (r: Vec<u64>)
    ensures
        r@ == Seq::new(n as nat, |i: int| 0u64),
{
    let mut r: Vec<u64> = Vec::new();
    let mut z: usize = 0;
    while z < n
        invariant
            z <= n,
            r@ == Seq::new(z as nat, |j: int| 0u64),
        decreases n - z,
    {
        r.push(0);
        assert(r@ =~= Seq::new((z + 1) as nat, |j: int| 0u64));
        z = z + 1;
    }
    r
}

/// The shape number of every node. Two nodes have the same number if and only
/// if their trees have the same shape, the order of children and the `@` nodes
/// left out of account.
pub fn shape_ids(store: &Store) -> (r: Vec<u64>)
    requires
        store.wf(),
    ensures
        r@ == shape_numbers(store@),
        r@.len() == store@.len(),
{
    let ghost t = store@;
    let n: usize = store.len();
    let mut shapes: Vec<u64> = zeros(n);
    let mut depth: usize = 0;
    proof {
        lemma_shape_numbers(t);
    }
    while depth < n
        invariant
            depth <= n,
            n == t.len(),
            t == store@,
            store.wf(),
            shapes@.len() == n,
            shapes@ == numbers_to(t, depth as nat),
            numbers_to(t, n as nat) == shape_numbers(t),
        decreases n - depth,
    {
        let next = next_numbers(store, &shapes);
        assert(next@ == numbers_to(t, (depth + 1) as nat));
        if same_numbers(&next, &shapes) {
            proof {
                lemma_numbers_stay(t, depth as nat, n as nat);
            }
            return shapes;
        }
        shapes = next;
        depth = depth + 1;
    }
    shapes
}

/// The numbers of the children that make the shape of node `i`.
fn kid_numbers(store: &Store, i: usize, shapes: &Vec<u64>) -> (r: Vec<u64>)
    requires
        store.wf(),
        i < store@.len(),
        shapes@.len() == store@.len(),
    ensures
        r@.to_multiset() == kid_shapes(store@, shapes@, i as int),
{
    let ghost t = store@;
    let ghost p = |c: int| !begins(t[c].name, '@');
    let id = store.at(i).id;
    let mut out: Vec<u64> = Vec::new();
    let last = match store.position(id) {
        Some(l) => l == i,
        None => false,
    };
    if !last {
        assert(out@ =~= Seq::new(
            shape_kids(t, i as int).len(),
            |j: int| shapes@[shape_kids(t, i as int)[j]],
        ));
        return out;
    }
    let pos = store.child_positions(id);
    let ghost ks = kids(t, id);
    let mut k: usize = 0;
    assert(ks.take(0).filter(p) =~= Seq::<int>::empty()) by {
        reveal(Seq::filter);
    }
    assert(out@ =~= numbers_at(shapes@, ks.take(0).filter(p)));
    while k < pos.len()
        invariant
            k <= pos@.len(),
            t == store@,
            ks == kids(t, id),
            ints(pos@) == ks,
            shapes@.len() == t.len(),
            p == (|c: int| !begins(t[c].name, '@')),
            forall|j: int| 0 <= j < pos@.len() ==> #[trigger] pos@[j] < t.len(),
            out@ == numbers_at(shapes@, ks.take(k as int).filter(p)),
        decreases pos@.len() - k,
    {
        let c: usize = pos[k];
        proof {
            assert(ints(pos@)[k as int] == c);
            assert(ks.take(k + 1).drop_last() =~= ks.take(k as int));
            reveal(Seq::filter);
        }
        if !is_aux_name(store.at(c).name.as_str()) {
            let ghost o0 = out@;
            out.push(shapes[c]);
            assert(out@ =~= numbers_at(shapes@, ks.take(k as int).filter(p).push(c as int)));
        }
        k = k + 1;
    }
    assert(ks.take(ks.len() as int) =~= ks);
    out
}

/// The numbers at the given positions.
pub open spec fn numbers_at(shapes: Seq<u64>, k: Seq<int>) -> Seq<u64> {
    Seq::new(k.len(), |j: int| shapes[k[j]])
}

/// The positions with a number.
pub open spec fn positions_with(shapes: Seq<u64>, shape: u64) -> Seq<int>
    decreases shapes.len(),
{
    if shapes.len() == 0 {
        Seq::<int>::empty()
    } else if shapes.last() == shape {
        positions_with(shapes.drop_last(), shape).push(shapes.len() - 1)
    } else {
        positions_with(shapes.drop_last(), shape)
    }
}

/// The list of a number, empty where it has none.
pub open spec fn shape_list(m: Map<u64, Vec<usize>>, shape: u64) -> Seq<usize> {
    if m.contains_key(shape) {
        m[shape]@
    } else {
        Seq::<usize>::empty()
    }
}

/// The shape numbers of a store and the nodes of each.
#[derive(Debug)]
pub struct ShapeIndex {
    /// The number of every node.
    pub shapes: Vec<u64>,
    /// The positions of every number.
    pub by_shape: HashMap<u64, Vec<usize>>,
}

impl ShapeIndex {
    /// The lists agree with the numbers.
    pub open spec fn wf(&self) -> bool {
        forall|s: u64| #[trigger]
            ints(shape_list(self.by_shape@, s)) == positions_with(self.shapes@, s)
    }

    /// The index of a store.
    pub fn build(store: &Store) -> (r: Self)
        requires
            store.wf(),
        ensures
            r.wf(),
            r.shapes@ == shape_numbers(store@),
            r.shapes@.len() == store@.len(),
    {
        let shapes = shape_ids(store);
        let mut by_shape: HashMap<u64, Vec<usize>> = HashMap::new();
        let mut i: usize = 0;
        assert forall|s: u64| #[trigger] ints(shape_list(by_shape@, s)) == positions_with(
            shapes@.take(0),
            s,
        ) by {
            assert(ints(shape_list(by_shape@, s)) =~= positions_with(shapes@.take(0), s));
        }
        while i < shapes.len()
            invariant
                i <= shapes@.len(),
                forall|s: u64| #[trigger]
                    ints(shape_list(by_shape@, s)) == positions_with(shapes@.take(i as int), s),
            decreases shapes@.len() - i,
        {
            let s: u64 = shapes[i];
            let ghost m0 = by_shape@;
            let mut list: Vec<usize> = match by_shape.remove(&s) {
                Some(v) => v,
                None => Vec::new(),
            };
            list.push(i);
            by_shape.insert(s, list);
            proof {
                assert(shapes@.take(i + 1).drop_last() =~= shapes@.take(i as int));
                assert forall|x: u64| #[trigger] ints(shape_list(by_shape@, x)) == positions_with(
                    shapes@.take(i + 1),
                    x,
                ) by {
                    assert(ints(shape_list(m0, x)) == positions_with(shapes@.take(i as int), x));
                    if x == s {
                        assert(ints(shape_list(by_shape@, x)) =~= ints(shape_list(m0, x)).push(
                            i as int,
                        ));
                    }
                }
            }
            i = i + 1;
        }
        assert(shapes@.take(shapes@.len() as int) =~= shapes@);
        ShapeIndex { shapes, by_shape }
    }
}

/// The nodes with a shape number.
pub fn by_shape(sidx: &ShapeIndex, shape_id: u64) -> (r: Vec<usize>)
    requires
        sidx.wf(),
    ensures
        ints(r@) == positions_with(sidx.shapes@, shape_id),
{
    assert(ints(shape_list(sidx.by_shape@, shape_id)) == positions_with(sidx.shapes@, shape_id));
    let mut out: Vec<usize> = Vec::new();
    if let Some(list) = sidx.by_shape.get(&shape_id) {
        let mut i: usize = 0;
        while i < list.len()
            invariant
                i <= list@.len(),
                out@ == list@.take(i as int),
            decreases list@.len() - i,
        {
            out.push(list[i]);
            assert(list@.take(i + 1) =~= list@.take(i as int).push(list@[i as int]));
            i = i + 1;
        }
        assert(list@.take(list@.len() as int) =~= list@);
    }
    assert(out@ =~= shape_list(sidx.by_shape@, shape_id));
    out
}

// ---------------------------------------------------------------------------
// Names
// ---------------------------------------------------------------------------

/// The positions of a store's nodes in the order of their names.
#[derive(Debug)]
pub struct NameIndex {
    names: Vec<String>,
    sorted: Vec<usize>,
}

/// The bytes of names.
pub open spec fn name_bytes(names: Seq<Seq<char>>) -> Seq<Seq<u8>> {
    Seq::new(names.len(), |i: int| vstd::utf8::encode_utf8(names[i]))
}

impl NameIndex {
    /// The names that are indexed, by position.
    pub closed spec fn names(self) -> Seq<Seq<char>> {
        text_views(self.names@)
    }

    /// The positions are in the order of the names.
    pub closed spec fn wf(self) -> bool {
        &&& crate::sort::is_order(name_bytes(self.names()), ints(self.sorted@))
        &&& self.sorted@.len() == self.names@.len()
        &&& forall|k: int| 0 <= k < self.sorted@.len() ==> #[trigger] self.sorted@[k] < self.names@.len()
    }

    /// The positions of the nodes with the name, in order.
    pub fn get(&self, name: &str) -> (r: Vec<usize>)
        requires
            self.wf(),
        ensures
            forall|k: int|
                0 <= k < r@.len() ==> (#[trigger] r@[k]) < self.names().len()
                    && self.names()[r@[k] as int] == name@,
            forall|k: int, l: int| 0 <= k < l < r@.len() ==> #[trigger] r@[k] < #[trigger] r@[l],
            forall|i: int|
                0 <= i < self.names().len() && #[trigger] self.names()[i] == name@ ==> ints(
                    r@,
                ).contains(i),
    {
        let ghost keys = name_bytes(self.names());
        let ghost want = vstd::utf8::encode_utf8(name@);
        let ghost ps = ints(self.sorted@);
        let key = name.as_bytes();
        let mut lo: usize = 0;
        let mut hi: usize = self.sorted.len();
        while lo < hi
            invariant
                lo <= hi <= self.sorted@.len(),
                self.wf(),
                keys == name_bytes(self.names()),
                ps == ints(self.sorted@),
                want == vstd::utf8::encode_utf8(name@),
                key@ == want,
                forall|k: int|
                    0 <= k < lo ==> !crate::sort::bytes_le(want, #[trigger] keys[ps[k]]),
                forall|k: int|
                    hi <= k < ps.len() ==> crate::sort::bytes_le(want, #[trigger] keys[ps[k]]),
            decreases hi - lo,
        {
            let mid: usize = lo + (hi - lo) / 2;
            let at: usize = self.sorted[mid];
            assert(ps[mid as int] == at);
            let here = self.names[at].as_str().as_bytes();
            assert(here@ == keys[ps[mid as int]]);
            if crate::sort::bytes_before(key, here) {
                proof {
                    assert forall|k: int| mid <= k < ps.len() implies crate::sort::bytes_le(
                        want,
                        #[trigger] keys[ps[k]],
                    ) by {
                        if k > mid {
                            assert(crate::sort::goes_before(keys, ps[mid as int], ps[k]));
                            crate::sort::lemma_bytes_le_reflexive(keys[ps[k]]);
                            crate::sort::lemma_bytes_le_transitive(
                                want,
                                keys[ps[mid as int]],
                                keys[ps[k]],
                            );
                        }
                    }
                }
                hi = mid;
            } else {
                proof {
                    assert forall|k: int| 0 <= k < mid + 1 implies !crate::sort::bytes_le(
                        want,
                        #[trigger] keys[ps[k]],
                    ) by {
                        if k < mid && crate::sort::bytes_le(want, keys[ps[k]]) {
                            assert(crate::sort::goes_before(keys, ps[k], ps[mid as int]));
                            crate::sort::lemma_bytes_le_reflexive(keys[ps[k]]);
                            crate::sort::lemma_bytes_le_transitive(
                                want,
                                keys[ps[k]],
                                keys[ps[mid as int]],
                            );
                        }
                    }
                }
                lo = mid + 1;
            }
        }
        let ghost start = lo as int;
        let mut out: Vec<usize> = Vec::new();
        let mut k: usize = lo;
        while k < self.sorted.len() && same_text(self.names[self.sorted[k]].as_str(), name)
            invariant
                0 <= start <= k <= self.sorted@.len(),
                self.wf(),
                ps == ints(self.sorted@),
                out@ == self.sorted@.subrange(start, k as int),
                forall|j: int|
                    start <= j < k ==> self.names()[(#[trigger] self.sorted@[j]) as int] == name@,
            decreases self.sorted@.len() - k,
        {
            out.push(self.sorted[k]);
            assert(self.sorted@.subrange(start, k + 1) =~= self.sorted@.subrange(start, k as int).push(
                self.sorted@[k as int],
            ));
            k = k + 1;
        }
        proof {
            let end = k as int;
            assert forall|j: int| 0 <= j < out@.len() implies (#[trigger] out@[j])
                < self.names().len() && self.names()[out@[j] as int] == name@ by {
                assert(out@[j] == self.sorted@[start + j]);
            }
            assert forall|a: int, b: int| 0 <= a < b < out@.len() implies #[trigger] out@[a]
                < #[trigger] out@[b] by {
                assert(ps[start + a] == out@[a]);
                assert(ps[start + b] == out@[b]);
                assert(crate::sort::goes_before(keys, ps[start + a], ps[start + b]));
                assert(self.names()[out@[a] as int] == name@);
                assert(self.names()[out@[b] as int] == name@);
            }
            assert forall|i: int| 0 <= i < self.names().len() && #[trigger] self.names()[i]
                == name@ implies ints(out@).contains(i) by {
                assert(ps.contains(i));
                let j = choose|j: int| 0 <= j < ps.len() && ps[j] == i;
                assert(keys[ps[j]] == want);
                crate::sort::lemma_bytes_le_reflexive(want);
                assert(j >= start);
                if j >= end {
                    let e = self.sorted@[end];
                    assert(ps[end] == e);
                    assert(self.names()[e as int] != name@);
                    let ke = keys[ps[end]];
                    assert(crate::sort::bytes_le(want, ke));
                    if j > end {
                        assert(crate::sort::goes_before(keys, ps[end], ps[j]));
                        crate::sort::lemma_bytes_le_reflexive(want);
                        assert(crate::sort::bytes_le(ke, want));
                    }
                    crate::sort::lemma_bytes_le_antisymmetric(want, ke);
                    vstd::utf8::encode_utf8_decode_utf8(name@);
                    vstd::utf8::encode_utf8_decode_utf8(self.names()[e as int]);
                }
                assert(out@[j - start] == self.sorted@[j]);
                assert(ints(out@)[j - start] == i);
            }
        }
        out
    }
}

/// The names of a run of nodes.
pub open spec fn names_of(t: Nodes) -> Seq<Seq<char>> {
    Seq::new(t.len(), |i: int| t[i].name)
}

/// The index of a store's nodes by name.
pub fn name_index(store: &Store) -> (r: NameIndex)
    ensures
        r.wf(),
        r.names() == names_of(store@),
{
    let mut names: Vec<String> = Vec::new();
    let mut keys: Vec<Vec<u8>> = Vec::new();
    let mut i: usize = 0;
    while i < store.len()
        invariant
            i <= store@.len(),
            names@.len() == i,
            keys@.len() == i,
            forall|k: int| 0 <= k < i ==> (#[trigger] names@[k])@ == store@[k].name,
            forall|k: int|
                0 <= k < i ==> (#[trigger] keys@[k])@ == vstd::utf8::encode_utf8(store@[k].name),
        decreases store@.len() - i,
    {
        let n = store.at(i);
        names.push(n.name.clone());
        let b = n.name.as_str().as_bytes();
        let key = crate::bytes::sub_bytes(b, 0, b.len());
        assert(b@.subrange(0, b@.len() as int) =~= b@);
        keys.push(key);
        i = i + 1;
    }
    assert(text_views(names@) =~= names_of(store@));
    assert(crate::sort::key_views(keys@) =~= name_bytes(names_of(store@)));
    let sorted = crate::sort::order(&keys);
    NameIndex { names, sorted }
}

// ---------------------------------------------------------------------------
// Values
// ---------------------------------------------------------------------------

/// The id that a path of names leads to from `id`.
pub open spec fn descend(t: Nodes, id: Uuid, path: Seq<Seq<char>>) -> Option<Uuid>
    decreases path.len(),
{
    if path.len() == 0 {
        Some(id)
    } else {
        match descend(t, id, path.drop_last()) {
            None => None,
            Some(a) => if found(t, a) is None {
                None
            } else {
                match named_child(t, a, path.last()) {
                    Some(c) => Some(t[c].id),
                    None => None,
                }
            },
        }
    }
}

/// The value at the end of a path.
pub open spec fn path_value(t: Nodes, id: Uuid, path: Seq<Seq<char>>) -> Option<SpecValue> {
    match descend(t, id, path) {
        None => None,
        Some(a) => match found(t, a) {
            Some(n) => Some(n.value),
            None => None,
        },
    }
}

/// A value reference, as a model.
pub open spec fn value_model(r: Option<&Value>) -> Option<SpecValue> {
    match r {
        Some(v) => Some(v@),
        None => None,
    }
}

/// The id that a path of names leads to from `id`.
pub fn walk_path(store: &Store, id: Uuid, path: &Vec<String>) -> (r: Option<Uuid>)
    requires
        store.wf(),
    ensures
        r == descend(store@, id, text_views(path@)),
{
    let ghost p = text_views(path@);
    let mut cur = id;
    let mut i: usize = 0;
    assert(p.take(0) =~= Seq::<Seq<char>>::empty());
    while i < path.len()
        invariant
            i <= path@.len(),
            store.wf(),
            p == text_views(path@),
            descend(store@, id, p.take(i as int)) == Some(cur),
        decreases path@.len() - i,
    {
        proof {
            assert(p.take(i + 1).drop_last() =~= p.take(i as int));
        }
        let next = if store.get(cur).is_none() {
            None
        } else {
            match store.child_position(cur, path[i].as_str()) {
                Some(c) => Some(store.at(c).id),
                None => None,
            }
        };
        assert(next == descend(store@, id, p.take(i + 1)));
        match next {
            Some(c) => {
                cur = c;
            },
            None => {
                proof {
                    lemma_descend_stops(store@, id, p, i + 1);
                }
                return None;
            },
        }
        i = i + 1;
    }
    assert(p.take(p.len() as int) =~= p);
    Some(cur)
}

proof fn lemma_descend_stops(t: Nodes, id: Uuid, p: Seq<Seq<char>>, k: int)
    requires
        0 <= k <= p.len(),
        descend(t, id, p.take(k)) is None,
    ensures
        descend(t, id, p) is None,
    decreases p.len() - k,
{
    if k < p.len() {
        assert(p.take(k + 1).drop_last() =~= p.take(k));
        lemma_descend_stops(t, id, p, k + 1);
    } else {
        assert(p.take(k) =~= p);
    }
}

/// The value at the end of a path of names below a node.
pub fn value_at<'a>(store: &'a Store, root_id: Uuid, path: &Vec<String>) -> (r: Option<&'a Value>)
    requires
        store.wf(),
    ensures
        value_model(r) == path_value(store@, root_id, text_views(path@)),
{
    match walk_path(store, root_id, path) {
        None => None,
        Some(a) => match store.get(a) {
            Some(n) => Some(&n.value),
            None => None,
        },
    }
}

/// Whether the table says that the text denotes a number close to the bit
/// pattern.
pub open spec fn told_close(bits: u64, text: Seq<char>, close: Seq<(u64, String)>) -> bool {
    exists|i: int| 0 <= i < close.len() && (#[trigger] close[i]).0 == bits && close[i].1@ == text
}

/// Whether a value is what a text asks for.
pub open spec fn is_value(v: SpecValue, expected: Seq<char>, close: Seq<(u64, String)>) -> bool {
    match v {
        SpecValue::Int(n) => signed_number(expected) == Some(n as int),
        SpecValue::Float(b) => told_close(b, expected, close),
        SpecValue::Bool(b) => expected == (if b {
            "true"@
        } else {
            "false"@
        }),
        SpecValue::Text(s) => s == expected && expected != "true"@ && expected != "false"@,
        _ => false,
    }
}

/// Whether a value is what a text asks for. `close` lists the pairs of a
/// floating-point value and a text that denotes a number next to it.
pub fn value_matches(actual: &Value, expected: &str, close: &Vec<(u64, String)>) -> (r: bool)
    ensures
        r == is_value(actual@, expected@, close@),
{
    match actual {
        Value::Int(n) => match parse_i64(expected) {
            Some(i) => i == *n,
            None => false,
        },
        Value::Float(b) => {
            let mut i: usize = 0;
            while i < close.len()
                invariant
                    i <= close@.len(),
                    actual@ == SpecValue::Float(*b),
                    forall|j: int|
                        0 <= j < i ==> !((#[trigger] close@[j]).0 == *b && close@[j].1@
                            == expected@),
                decreases close@.len() - i,
            {
                if close[i].0 == *b && same_text(close[i].1.as_str(), expected) {
                    assert(close@[i as int].0 == *b);
                    return true;
                }
                i = i + 1;
            }
            false
        },
        Value::Bool(b) => {
            proof {
                reveal_strlit("true");
                reveal_strlit("false");
                assert("true"@.len() == 4);
                assert("false"@.len() == 5);
            }
            if *b {
                same_text(expected, "true")
            } else {
                same_text(expected, "false")
            }
        },
        Value::Text(s) => same_text(s.as_str(), expected) && !same_text(expected, "true")
            && !same_text(expected, "false"),
        _ => false,
    }
}

/// Whether all conditions hold at a node: each is a path of names, with `/`
/// between them, and the text that the value at its end must be.
pub open spec fn meets(
    t: Nodes,
    id: Uuid,
    wheres: Seq<(String, String)>,
    close: Seq<(u64, String)>,
) -> bool {
    forall|i: int| 0 <= i < wheres.len() ==> condition_holds(t, id, #[trigger] wheres[i], close)
}

/// Whether one condition holds at a node.
pub open spec fn condition_holds(
    t: Nodes,
    id: Uuid,
    c: (String, String),
    close: Seq<(u64, String)>,
) -> bool {
    match path_value(t, id, split_at_char(c.0@, '/')) {
        Some(v) => is_value(v, c.1@, close),
        None => false,
    }
}

/// Whether all conditions hold at the node at a position.
pub fn matches_where(
    store: &Store,
    idx: usize,
    wheres: &Vec<(String, String)>,
    close: &Vec<(u64, String)>,
) -> (r: bool)
    requires
        store.wf(),
        idx < store@.len(),
    ensures
        r == meets(store@, store@[idx as int].id, wheres@, close@),
{
    let id = store.at(idx).id;
    let mut i: usize = 0;
    while i < wheres.len()
        invariant
            i <= wheres@.len(),
            store.wf(),
            idx < store@.len(),
            id == store@[idx as int].id,
            forall|j: int|
                0 <= j < i ==> condition_holds(store@, id, #[trigger] wheres@[j], close@),
        decreases wheres@.len() - i,
    {
        let segs = split_char(wheres[i].0.as_str(), '/');
        let ok = match value_at(store, id, &segs) {
            Some(v) => value_matches(v, wheres[i].1.as_str(), close),
            None => false,
        };
        if !ok {
            assert(!condition_holds(store@, id, wheres@[i as int], close@));
            return false;
        }
        i = i + 1;
    }
    true
}

/// The nodes with a name at which all conditions hold.
pub fn find_roots(
    store: &Store,
    root_name: &str,
    where_conds: &Vec<(String, String)>,
    close: &Vec<(u64, String)>,
) -> (r: Vec<usize>)
    requires
        store.wf(),
    ensures
        ints(r@) == picks(
            store@,
            |n: SpecNode| n.name == root_name@ && meets(store@, n.id, where_conds@, close@),
        ),
{
    let ghost t = store@;
    let ghost p = |n: SpecNode| n.name == root_name@ && meets(t, n.id, where_conds@, close@);
    let names = name_index(store);
    let candidates = names.get(root_name);
    let mut out: Vec<usize> = Vec::new();
    let mut i: usize = 0;
    while i < candidates.len()
        invariant
            i <= candidates@.len(),
            store.wf(),
            t == store@,
            p == (|n: SpecNode| n.name == root_name@ && meets(t, n.id, where_conds@, close@)),
            forall|k: int|
                0 <= k < candidates@.len() ==> (#[trigger] candidates@[k]) < t.len()
                    && t[candidates@[k] as int].name == root_name@,
            forall|k: int, l: int|
                0 <= k < l < candidates@.len() ==> #[trigger] candidates@[k]
                    < #[trigger] candidates@[l],
            forall|k: int|
                0 <= k < out@.len() ==> (#[trigger] out@[k]) < t.len() && p(t[out@[k] as int]),
            forall|k: int, l: int|
                0 <= k < l < out@.len() ==> #[trigger] out@[k] < #[trigger] out@[l],
            forall|k: int, l: int|
                0 <= k < out@.len() && i <= l < candidates@.len() ==> #[trigger] out@[k]
                    < #[trigger] candidates@[l],
            forall|k: int|
                0 <= k < i && p(t[(#[trigger] candidates@[k]) as int]) ==> ints(out@).contains(
                    candidates@[k] as int,
                ),
        decreases candidates@.len() - i,
    {
        let ghost o0 = out@;
        let c: usize = candidates[i];
        if matches_where(store, c, where_conds, close) {
            out.push(c);
            proof {
                assert(ints(out@)[out@.len() - 1] == c);
                assert forall|k: int| 0 <= k < i && p(
                    t[(#[trigger] candidates@[k]) as int],
                ) implies ints(out@).contains(candidates@[k] as int) by {
                    let l = choose|l: int|
                        0 <= l < ints(o0).len() && ints(o0)[l] == candidates@[k] as int;
                    assert(ints(out@)[l] == candidates@[k] as int);
                }
            }
        }
        i = i + 1;
    }
    proof {
        let s = ints(out@);
        assert forall|k: int| 0 <= k < s.len() implies 0 <= #[trigger] s[k] < t.len() && p(
            t[s[k]],
        ) by {
            assert(s[k] == out@[k]);
        }
        assert forall|k: int, l: int| 0 <= k < l < s.len() implies #[trigger] s[k]
            < #[trigger] s[l] by {
            assert(s[k] == out@[k] && s[l] == out@[l]);
        }
        assert forall|j: int| 0 <= j < t.len() && p(#[trigger] t[j]) implies s.contains(j) by {
            assert(names.names()[j] == t[j].name);
            assert(ints(candidates@).contains(j));
            let l = choose|l: int| 0 <= l < ints(candidates@).len() && ints(candidates@)[l] == j;
            assert(candidates@[l] == j);
        }
        crate::model::lemma_picks_unique(t, p, s);
    }
    out
}

// ---------------------------------------------------------------------------
// Laws of conditions
// ---------------------------------------------------------------------------

/// A condition tells values apart. `true` and `false` ask for that boolean and for nothing
/// else; a text is asked for by itself, unless it is one of these two words; no two numbers
/// and no two texts are asked for by the same text, and a value of another kind by none.
pub proof fn conditions_tell_values_apart(v: SpecValue, w: SpecValue, e: Seq<char>, close: Seq<(u64, String)>)
    ensures
        !(is_value(SpecValue::Bool(true), e, close) && is_value(SpecValue::Bool(false), e, close)),
        is_value(v, "true"@, close) && !(v is Float) ==> v == SpecValue::Bool(true),
        is_value(v, "false"@, close) && !(v is Float) ==> v == SpecValue::Bool(false),
        is_value(SpecValue::Bool(true), "true"@, close),
        is_value(SpecValue::Bool(false), "false"@, close),
        v is Bool && is_value(v, e, close) ==> e == "true"@ || e == "false"@,
        is_value(SpecValue::Text(e), e, close) <==> e != "true"@ && e != "false"@,
        v is Text && is_value(v, e, close) ==> v == SpecValue::Text(e),
        v is Int && w is Int && is_value(v, e, close) && is_value(w, e, close) ==> v == w,
        v is Float ==> (is_value(v, e, close) <==> exists|i: int|
            0 <= i < close.len() && (#[trigger] close[i]).0 == v->Float_0 && close[i].1@ == e),
        v is Empty || v is Reference || v is Blob ==> !is_value(v, e, close),
{
    reveal_strlit("true");
    reveal_strlit("false");
    assert("true"@.len() == 4 && "false"@.len() == 5);
    assert(crate::text::after_sign("true"@) == "true"@ || "true"@[0] == '-' || "true"@[0] == '+');
    assert("true"@[0] == 't' && "false"@[0] == 'f');
    assert(!crate::text::is_digits("true"@));
    assert(!crate::text::is_digits("false"@));
}

/// A whole number is asked for by its decimal digits.
pub proof fn numbers_are_asked_for_by_their_digits(n: i64, m: i64, close: Seq<(u64, String)>)
    ensures
        is_value(SpecValue::Int(n), crate::text::signed_decimal(m as int), close) <==> n == m,
{
    crate::text::signed_decimal_is_read(m as int);
}

/// A path of one name leads to the first child with that name; a longer one leads where its
/// rest leads from where its front leads.
pub proof fn paths_go_step_by_step(t: Nodes, id: Uuid, front: Seq<Seq<char>>, rest: Seq<Seq<char>>)
    ensures
        descend(t, id, front + rest) == (match descend(t, id, front) {
            Some(a) => descend(t, a, rest),
            None => None,
        }),
    decreases rest.len(),
{
    if rest.len() == 0 {
        assert(front + rest =~= front);
    } else {
        let d = rest.drop_last();
        paths_go_step_by_step(t, id, front, d);
        assert((front + rest).drop_last() =~= front + d);
    }
}

/// One step down: to the first of the nodes that have the node for a parent and the name.
pub proof fn a_step_leads_to_the_first_child(t: Nodes, id: Uuid, name: Seq<char>)
    requires
        found(t, id) is Some,
    ensures
        match descend(t, id, seq![name]) {
            Some(c) => exists|i: int|
                {
                    &&& 0 <= i < t.len()
                    &&& (#[trigger] t[i]).id == c
                    &&& t[i].parent == Some(id)
                    &&& t[i].name == name
                    &&& forall|j: int|
                        0 <= j < i ==> !((#[trigger] t[j]).parent == Some(id) && t[j].name == name)
                },
            None => forall|j: int|
                0 <= j < t.len() ==> !((#[trigger] t[j]).parent == Some(id) && t[j].name == name),
        },
{
    let p = |n: SpecNode| n.parent == Some(id) && n.name == name;
    crate::model::lemma_first_pick(t, p);
    let path = seq![name];
    assert(path.drop_last() =~= Seq::<Seq<char>>::empty());
    reveal_with_fuel(descend, 2);
    if named_child(t, id, name) is None {
        assert forall|j: int| 0 <= j < t.len() implies !((#[trigger] t[j]).parent == Some(id)
            && t[j].name == name) by {
            assert(!p(t[j]));
        }
    } else {
        let i = named_child(t, id, name)->Some_0;
        assert(p(t[i]));
        assert forall|j: int| 0 <= j < i implies !((#[trigger] t[j]).parent == Some(id)
            && t[j].name == name) by {
            assert(!p(t[j]));
        }
    }
}

/// Conditions are met exactly if each is: at the end of its path, the names between the
/// slashes, stands a value that its text asks for.
pub proof fn conditions_are_met_one_by_one(
    t: Nodes,
    id: Uuid,
    wheres: Seq<(String, String)>,
    more: Seq<(String, String)>,
    close: Seq<(u64, String)>,
)
    ensures
        meets(t, id, Seq::empty(), close),
        meets(t, id, wheres + more, close) <==> meets(t, id, wheres, close) && meets(
            t,
            id,
            more,
            close,
        ),
        wheres.len() == 1 ==> (meets(t, id, wheres, close) <==> ({
            let v = path_value(t, id, split_at_char(wheres[0].0@, '/'));
            v is Some && is_value(v->Some_0, wheres[0].1@, close)
        })),
        meets(t, id, wheres, close) ==> forall|i: int|
            0 <= i < wheres.len() ==> path_value(
                t,
                id,
                split_at_char((#[trigger] wheres[i]).0@, '/'),
            ) is Some,
{
    let all = wheres + more;
    if meets(t, id, all, close) {
        assert forall|i: int| 0 <= i < wheres.len() implies condition_holds(
            t,
            id,
            #[trigger] wheres[i],
            close,
        ) by {
            assert(all[i] == wheres[i]);
        }
        assert forall|i: int| 0 <= i < more.len() implies condition_holds(
            t,
            id,
            #[trigger] more[i],
            close,
        ) by {
            assert(all[wheres.len() + i] == more[i]);
        }
    }
    if meets(t, id, wheres, close) {
        assert forall|i: int| 0 <= i < wheres.len() implies path_value(
            t,
            id,
            split_at_char((#[trigger] wheres[i]).0@, '/'),
        ) is Some by {
            assert(condition_holds(t, id, wheres[i], close));
        }
    }
    if wheres.len() == 1 {
        assert(meets(t, id, wheres, close) <==> condition_holds(t, id, wheres[0], close));
    }
}

/// The value at the end of a path is that of the node that the path leads to.
pub proof fn a_path_ends_at_a_value(t: Nodes, id: Uuid, path: Seq<Seq<char>>)
    ensures
        match descend(t, id, path) {
            None => path_value(t, id, path) is None,
            Some(a) => match path_value(t, id, path) {
                Some(v) => exists|i: int|
                    {
                        &&& 0 <= i < t.len()
                        &&& (#[trigger] t[i]).id == a
                        &&& t[i].value == v
                        &&& forall|j: int| i < j < t.len() ==> (#[trigger] t[j]).id != a
                    },
                None => forall|j: int| 0 <= j < t.len() ==> (#[trigger] t[j]).id != a,
            },
        },
        path.len() == 0 ==> descend(t, id, path) == Some(id),
{
    if let Some(a) = descend(t, id, path) {
        crate::model::lemma_find_id(t, a);
        if let Some(i) = crate::model::find_id(t, a) {
            assert(t[i].id == a);
        }
    }
}

/// The nodes with a number: all positions at which it stands, in order.
pub proof fn numbered_positions(shapes: Seq<u64>, s: u64)
    ensures
        forall|k: int|
            0 <= k < positions_with(shapes, s).len() ==> 0 <= #[trigger] positions_with(shapes, s)[k]
                < shapes.len() && shapes[positions_with(shapes, s)[k]] == s,
        forall|k: int, l: int|
            0 <= k < l < positions_with(shapes, s).len() ==> #[trigger] positions_with(shapes, s)[k]
                < #[trigger] positions_with(shapes, s)[l],
        forall|i: int|
            0 <= i < shapes.len() && #[trigger] shapes[i] == s ==> positions_with(
                shapes,
                s,
            ).contains(i),
    decreases shapes.len(),
{
    if shapes.len() > 0 {
        let d = shapes.drop_last();
        numbered_positions(d, s);
        let r = positions_with(d, s);
        let a = positions_with(shapes, s);
        assert forall|k: int| 0 <= k < a.len() implies 0 <= #[trigger] a[k] < shapes.len()
            && shapes[a[k]] == s by {
            if k < r.len() {
                assert(a[k] == r[k]);
                assert(d[r[k]] == shapes[r[k]]);
            }
        }
        assert forall|k: int, l: int| 0 <= k < l < a.len() implies #[trigger] a[k] < #[trigger] a[l] by {
            if l < r.len() {
                assert(a[k] == r[k] && a[l] == r[l]);
            } else {
                assert(a[k] == r[k]);
            }
        }
        assert forall|i: int| 0 <= i < shapes.len() && #[trigger] shapes[i] == s implies a.contains(
            i,
        ) by {
            if i < d.len() {
                assert(d[i] == s);
                let k = choose|k: int| 0 <= k < r.len() && r[k] == i;
                assert(a[k] == i);
            } else {
                assert(a[a.len() - 1] == i);
            }
        }
    }
}

} // verus!
