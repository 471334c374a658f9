//! Putting things in the order of their byte keys.
use crate::bytes::{be_value, pow256};
use vstd::prelude::*;

verus! {

/// The order of byte strings: the first byte that differs decides, and a
/// string comes before its continuations.
pub open spec fn bytes_le(a: Seq<u8>, b: Seq<u8>) -> bool
    decreases a.len(),
{
    if a.len() == 0 {
        true
    } else if b.len() == 0 {
        false
    } else if a[0] != b[0] {
        a[0] < b[0]
    } else {
        bytes_le(a.skip(1), b.skip(1))
    }
}

/// Whether `a` comes before `b` and is another string.
pub open spec fn bytes_lt(a: Seq<u8>, b: Seq<u8>) -> bool {
    bytes_le(a, b) && a != b
}

pub proof fn lemma_bytes_le_total(a: Seq<u8>, b: Seq<u8>)
    ensures
        bytes_le(a, b) || bytes_le(b, a),
    decreases a.len(),
{
    if a.len() > 0 && b.len() > 0 && a[0] == b[0] {
        lemma_bytes_le_total(a.skip(1), b.skip(1));
    }
}

pub proof fn lemma_bytes_le_antisymmetric(a: Seq<u8>, b: Seq<u8>)
    requires
        bytes_le(a, b),
        bytes_le(b, a),
    ensures
        a == b,
    decreases a.len(),
{
    if a.len() > 0 && b.len() > 0 && a[0] == b[0] {
        lemma_bytes_le_antisymmetric(a.skip(1), b.skip(1));
        assert forall|i: int| 0 <= i < a.len() implies a[i] == b[i] by {
            if i > 0 {
                assert(a.skip(1)[i - 1] == b.skip(1)[i - 1]);
            }
        }
        assert(a.skip(1).len() == b.skip(1).len());
        assert(a =~= b);
    } else {
        assert(a =~= b);
    }
}

pub proof fn lemma_bytes_le_transitive(a: Seq<u8>, b: Seq<u8>, c: Seq<u8>)
    requires
        bytes_le(a, b),
        bytes_le(b, c),
    ensures
        bytes_le(a, c),
    decreases a.len(),
{
    if a.len() > 0 && b.len() > 0 && c.len() > 0 && a[0] == b[0] && b[0] == c[0] {
        lemma_bytes_le_transitive(a.skip(1), b.skip(1), c.skip(1));
    }
}

/// Whether `a` comes before `b`, or is the same.
pub fn bytes_before(a: &[u8], b: &[u8]) -> (r: bool)
    ensures
        r == bytes_le(a@, b@),
{
    let mut i: usize = 0;
    assert(a@.skip(0) =~= a@);
    assert(b@.skip(0) =~= b@);
    while i < a.len()
        invariant
            i <= a@.len(),
            i <= b@.len(),
            bytes_le(a@, b@) == bytes_le(a@.skip(i as int), b@.skip(i as int)),
        decreases a@.len() - i,
    {
        if i >= b.len() {
            return false;
        }
        assert(a@.skip(i as int).skip(1) =~= a@.skip(i + 1));
        assert(b@.skip(i as int).skip(1) =~= b@.skip(i + 1));
        if a[i] != b[i] {
            return a[i] < b[i];
        }
        i = i + 1;
    }
    true
}

/// The byte strings of a vector.
pub open spec fn key_views(keys: Seq<Vec<u8>>) -> Seq<Seq<u8>> {
    Seq::new(keys.len(), |i: int| keys[i]@)
}

/// Whether position `x` goes before position `y`: by its key, and where the
/// keys are the same by its place.
pub open spec fn goes_before(keys: Seq<Seq<u8>>, x: int, y: int) -> bool {
    bytes_lt(keys[x], keys[y]) || (keys[x] == keys[y] && x < y)
}

proof fn lemma_goes_before_transitive(keys: Seq<Seq<u8>>, x: int, y: int, z: int)
    requires
        goes_before(keys, x, y),
        goes_before(keys, y, z),
    ensures
        goes_before(keys, x, z),
{
    lemma_bytes_le_reflexive(keys[x]);
    lemma_bytes_le_reflexive(keys[y]);
    lemma_bytes_le_reflexive(keys[z]);
    lemma_bytes_le_transitive(keys[x], keys[y], keys[z]);
    if keys[x] == keys[z] && keys[x] != keys[y] {
        lemma_bytes_le_antisymmetric(keys[x], keys[y]);
    }
}

pub proof fn lemma_bytes_le_reflexive(a: Seq<u8>)
    ensures
        bytes_le(a, a),
    decreases a.len(),
{
    if a.len() > 0 {
        lemma_bytes_le_reflexive(a.skip(1));
    }
}

/// Whether `p` lists the positions from `lo` up to `hi`, in order.
pub open spec fn ordered_part(keys: Seq<Seq<u8>>, p: Seq<int>, lo: int, hi: int) -> bool {
    &&& forall|k: int| 0 <= k < p.len() ==> lo <= #[trigger] p[k] < hi
    &&& forall|k: int, l: int|
        0 <= k < l < p.len() ==> goes_before(keys, #[trigger] p[k], #[trigger] p[l])
    &&& forall|x: int| lo <= x < hi ==> #[trigger] p.contains(x)
}

/// Whether `p` lists the positions of all keys in the order of the keys, those
/// with the same key in their given order.
pub open spec fn is_order(keys: Seq<Seq<u8>>, p: Seq<int>) -> bool {
    ordered_part(keys, p, 0, keys.len() as int)
}

/// The items at the given positions.
pub open spec fn arranged<A>(items: Seq<A>, p: Seq<int>) -> Seq<A> {
    Seq::new(p.len(), |k: int| items[p[k]])
}

/// Whether `r` holds the items in the order of their keys.
pub open spec fn in_order<A>(items: Seq<A>, keys: Seq<Seq<u8>>, r: Seq<A>) -> bool {
    exists|p: Seq<int>| #[trigger] is_order(keys, p) && r == arranged(items, p)
}

proof fn lemma_order_irreflexive(keys: Seq<Seq<u8>>, x: int, y: int)
    requires
        goes_before(keys, x, y),
    ensures
        !goes_before(keys, y, x),
        x != y,
{
    if bytes_lt(keys[x], keys[y]) && bytes_lt(keys[y], keys[x]) {
        lemma_bytes_le_antisymmetric(keys[x], keys[y]);
    }
}

/// There is one order only.
pub proof fn order_is_unique(keys: Seq<Seq<u8>>, p: Seq<int>, q: Seq<int>)
    requires
        is_order(keys, p),
        is_order(keys, q),
    ensures
        p == q,
{
    let n = keys.len() as int;
    lemma_order_len(keys, p, 0, n);
    lemma_order_len(keys, q, 0, n);
    assert forall|k: int| 0 <= k < n implies p[k] == q[k] by {
        lemma_order_agrees(keys, p, q, k);
    }
    assert(p =~= q);
}

proof fn lemma_order_len(keys: Seq<Seq<u8>>, p: Seq<int>, lo: int, hi: int)
    requires
        lo <= hi,
        ordered_part(keys, p, lo, hi),
    ensures
        p.len() == hi - lo,
{
    assert forall|k: int, l: int| 0 <= k < p.len() && 0 <= l < p.len() && k != l implies p[k]
        != p[l] by {
        if k < l {
            lemma_order_irreflexive(keys, p[k], p[l]);
        } else {
            lemma_order_irreflexive(keys, p[l], p[k]);
        }
    }
    assert(p.no_duplicates());
    p.unique_seq_to_set();
    vstd::set_lib::lemma_int_range(lo, hi);
    assert(p.to_set() =~= vstd::set_lib::set_int_range(lo, hi));
}

proof fn lemma_order_agrees(keys: Seq<Seq<u8>>, p: Seq<int>, q: Seq<int>, k: int)
    requires
        is_order(keys, p),
        is_order(keys, q),
        p.len() == keys.len(),
        q.len() == keys.len(),
        0 <= k < p.len(),
    ensures
        p[k] == q[k],
    decreases k,
{
    assert forall|j: int| 0 <= j < k implies p[j] == q[j] by {
        lemma_order_agrees(keys, p, q, j);
    }
    if p[k] != q[k] {
        let x = p[k];
        let y = q[k];
        assert(q.contains(x));
        assert(p.contains(y));
        let i = choose|i: int| 0 <= i < q.len() && q[i] == x;
        let j = choose|j: int| 0 <= j < p.len() && p[j] == y;
        if i < k {
            assert(p[i] == x);
            lemma_order_irreflexive(keys, p[i], p[k]);
        }
        if j < k {
            assert(q[j] == y);
            lemma_order_irreflexive(keys, q[j], q[k]);
        }
        assert(goes_before(keys, q[k], q[i]));
        assert(goes_before(keys, p[k], p[j]));
        lemma_order_irreflexive(keys, x, y);
    }
}

/// The items in the order of their keys, those with the same key in their given
/// order.
pub open spec fn sorted<A>(items: Seq<A>, keys: Seq<Seq<u8>>) -> Seq<A> {
    arranged(items, choose|p: Seq<int>| is_order(keys, p))
}

/// Items that were put in order are the sorted items.
pub proof fn lemma_sorted_is<A>(items: Seq<A>, keys: Seq<Seq<u8>>, p: Seq<int>)
    requires
        is_order(keys, p),
    ensures
        sorted(items, keys) == arranged(items, p),
{
    order_is_unique(keys, p, choose|q: Seq<int>| is_order(keys, q));
}

/// How many of the positions in front have a key that is not behind `key`.
spec fn front(keys: Seq<Seq<u8>>, q: Seq<int>, key: Seq<u8>) -> int
    decreases q.len(),
{
    if q.len() == 0 || !bytes_le(keys[q[0]], key) {
        0
    } else {
        1 + front(keys, q.skip(1), key)
    }
}

proof fn lemma_front(keys: Seq<Seq<u8>>, q: Seq<int>, key: Seq<u8>)
    requires
        forall|k: int, l: int|
            0 <= k < l < q.len() ==> goes_before(keys, #[trigger] q[k], #[trigger] q[l]),
    ensures
        0 <= front(keys, q, key) <= q.len(),
        forall|k: int| 0 <= k < front(keys, q, key) ==> bytes_le(keys[#[trigger] q[k]], key),
        forall|k: int|
            front(keys, q, key) <= k < q.len() ==> !bytes_le(keys[#[trigger] q[k]], key),
    decreases q.len(),
{
    if q.len() == 0 {
    } else if !bytes_le(keys[q[0]], key) {
        assert forall|k: int| 0 <= k < q.len() implies !bytes_le(keys[#[trigger] q[k]], key) by {
            if k > 0 && bytes_le(keys[q[k]], key) {
                assert(goes_before(keys, q[0], q[k]));
                lemma_bytes_le_reflexive(keys[q[0]]);
                lemma_bytes_le_transitive(keys[q[0]], keys[q[k]], key);
            }
        }
    } else {
        let s = q.skip(1);
        assert forall|k: int, l: int| 0 <= k < l < s.len() implies goes_before(
            keys,
            #[trigger] s[k],
            #[trigger] s[l],
        ) by {
            assert(goes_before(keys, q[k + 1], q[l + 1]));
        }
        lemma_front(keys, s, key);
        let f = front(keys, q, key);
        assert forall|k: int| 0 <= k < f implies bytes_le(keys[#[trigger] q[k]], key) by {
            if k > 0 {
                assert(s[k - 1] == q[k]);
            }
        }
        assert forall|k: int| f <= k < q.len() implies !bytes_le(keys[#[trigger] q[k]], key) by {
            assert(s[k - 1] == q[k]);
        }
    }
}

/// Every list of keys has an order.
pub proof fn order_exists(keys: Seq<Seq<u8>>) -> (p: Seq<int>)
    ensures
        is_order(keys, p),
        p.len() == keys.len(),
    decreases keys.len(),
{
    if keys.len() == 0 {
        Seq::<int>::empty()
    } else {
        let d = keys.drop_last();
        let q = order_exists(d);
        let n = d.len() as int;
        let key = keys.last();
        assert forall|k: int, l: int| 0 <= k < l < q.len() implies goes_before(
            keys,
            #[trigger] q[k],
            #[trigger] q[l],
        ) by {
            assert(goes_before(d, q[k], q[l]));
            assert(d[q[k]] == keys[q[k]] && d[q[l]] == keys[q[l]]);
        }
        lemma_front(keys, q, key);
        let f = front(keys, q, key);
        let p = q.insert(f, n);
        assert forall|k: int, l: int| 0 <= k < l < p.len() implies goes_before(
            keys,
            #[trigger] p[k],
            #[trigger] p[l],
        ) by {
            let a = if k < f {
                k
            } else {
                k - 1
            };
            let b = if l < f {
                l
            } else {
                l - 1
            };
            if k == f {
                assert(p[l] == q[b]);
                assert(!bytes_le(keys[q[b]], key));
                lemma_bytes_le_total(keys[q[b]], key);
                lemma_bytes_le_reflexive(key);
            } else if l == f {
                assert(p[k] == q[a]);
                assert(bytes_le(keys[q[a]], key));
            } else {
                assert(p[k] == q[a] && p[l] == q[b]);
                assert(goes_before(keys, q[a], q[b]));
            }
        }
        assert forall|x: int| 0 <= x < keys.len() implies #[trigger] p.contains(x) by {
            if x < n {
                assert(q.contains(x));
                let k = choose|k: int| 0 <= k < q.len() && q[k] == x;
                if k < f {
                    assert(p[k] == x);
                } else {
                    assert(p[k + 1] == x);
                }
            } else {
                assert(p[f] == x);
            }
        }
        assert forall|k: int| 0 <= k < p.len() implies 0 <= #[trigger] p[k] < keys.len() by {
            if k < f {
                assert(p[k] == q[k]);
            } else if k > f {
                assert(p[k] == q[k - 1]);
            }
        }
        p
    }
}

/// Sorted items are the items, in the order of their keys.
pub proof fn sorted_is_in_order<A>(items: Seq<A>, keys: Seq<Seq<u8>>) -> (p: Seq<int>)
    requires
        items.len() == keys.len(),
    ensures
        is_order(keys, p),
        p.len() == items.len(),
        sorted(items, keys) == arranged(items, p),
{
    let p = order_exists(keys);
    lemma_sorted_is(items, keys, p);
    p
}

/// Sorting keeps the items, and puts no key behind a greater one.
pub proof fn sorted_members<A>(items: Seq<A>, keys: Seq<Seq<u8>>) -> (p: Seq<int>)
    requires
        items.len() == keys.len(),
    ensures
        p.len() == items.len(),
        sorted(items, keys).len() == items.len(),
        forall|k: int| 0 <= k < p.len() ==> 0 <= #[trigger] p[k] < items.len(),
        forall|k: int| 0 <= k < p.len() ==> #[trigger] sorted(items, keys)[k] == items[p[k]],
        forall|k: int, l: int|
            0 <= k < l < p.len() ==> bytes_le(keys[#[trigger] p[k]], keys[#[trigger] p[l]]),
        forall|x: int| 0 <= x < items.len() ==> #[trigger] p.contains(x),
        forall|x: A| #[trigger] sorted(items, keys).contains(x) <==> items.contains(x),
{
    let p = sorted_is_in_order(items, keys);
    let r = sorted(items, keys);
    assert forall|k: int, l: int| 0 <= k < l < p.len() implies bytes_le(
        keys[#[trigger] p[k]],
        keys[#[trigger] p[l]],
    ) by {
        assert(goes_before(keys, p[k], p[l]));
        lemma_bytes_le_reflexive(keys[p[k]]);
    }
    assert forall|x: A| #[trigger] r.contains(x) <==> items.contains(x) by {
        if r.contains(x) {
            let k = choose|k: int| 0 <= k < r.len() && r[k] == x;
            assert(items[p[k]] == x);
        }
        if items.contains(x) {
            let i = choose|i: int| 0 <= i < items.len() && items[i] == x;
            assert(p.contains(i));
            let k = choose|k: int| 0 <= k < p.len() && p[k] == i;
            assert(r[k] == x);
        }
    }
    p
}

/// Where strings of one length are followed by others, the first parts decide,
/// and where they are the same the second.
pub proof fn lemma_bytes_le_parts(a: Seq<u8>, x: Seq<u8>, b: Seq<u8>, y: Seq<u8>)
    requires
        a.len() == b.len(),
    ensures
        bytes_le(a + x, b + y) == (bytes_lt(a, b) || (a == b && bytes_le(x, y))),
    decreases a.len(),
{
    if a.len() == 0 {
        assert(a =~= b);
        assert(a + x =~= x);
        assert(b + y =~= y);
    } else {
        assert((a + x).skip(1) =~= a.skip(1) + x);
        assert((b + y).skip(1) =~= b.skip(1) + y);
        lemma_bytes_le_parts(a.skip(1), x, b.skip(1), y);
        if a[0] == b[0] && a.skip(1) == b.skip(1) {
            assert(a =~= seq![a[0]] + a.skip(1));
            assert(b =~= seq![b[0]] + b.skip(1));
        }
    }
}

proof fn lemma_be_value_front(s: Seq<u8>)
    requires
        s.len() > 0,
    ensures
        be_value(s) == s[0] * pow256((s.len() - 1) as nat) + be_value(s.skip(1)),
    decreases s.len(),
{
    if s.len() == 1 {
        assert(s.drop_last() =~= Seq::<u8>::empty());
        assert(s.skip(1) =~= Seq::<u8>::empty());
        assert(be_value(s.drop_last()) == 0);
        assert(be_value(s.skip(1)) == 0);
        let q = pow256((s.len() - 1) as nat);
        assert(q == 1);
        assert(s[0] * q == s[0]) by (nonlinear_arith)
            requires
                q == 1,
        ;
    } else {
        let d = s.drop_last();
        lemma_be_value_front(d);
        assert(d.skip(1) =~= s.skip(1).drop_last());
        assert(s.skip(1).last() == s.last());
        let q = pow256((d.len() - 1) as nat);
        assert(pow256((s.len() - 1) as nat) == 256 * q);
        assert((s[0] * q + be_value(d.skip(1))) * 256 == s[0] * (256 * q) + be_value(d.skip(1)) * 256)
            by (nonlinear_arith);
    }
}

/// Numbers in big-endian bytes of one length sort as numbers.
pub proof fn lemma_bytes_le_numbers(a: Seq<u8>, b: Seq<u8>)
    requires
        a.len() == b.len(),
    ensures
        bytes_le(a, b) == (be_value(a) <= be_value(b)),
    decreases a.len(),
{
    if a.len() > 0 {
        lemma_be_value_front(a);
        lemma_be_value_front(b);
        lemma_bytes_le_numbers(a.skip(1), b.skip(1));
        crate::bytes::lemma_be_value_bound(a.skip(1));
        crate::bytes::lemma_be_value_bound(b.skip(1));
        let q = pow256((a.len() - 1) as nat) as int;
        let x = a[0] as int;
        let y = b[0] as int;
        if x < y {
            assert(x * q + q <= y * q) by (nonlinear_arith)
                requires
                    x < y,
                    q >= 0,
            ;
        } else if y < x {
            assert(y * q + q <= x * q) by (nonlinear_arith)
                requires
                    y < x,
                    q >= 0,
            ;
        }
    }
}

/// Merges two ordered lists of neighbouring ranges.
fn merge(keys: &Vec<Vec<u8>>, a: &Vec<usize>, b: &Vec<usize>, Ghost(lo): Ghost<int>, Ghost(
    mid,
): Ghost<int>, Ghost(hi): Ghost<int>) -> (r: Vec<usize>)
    requires
        0 <= lo <= mid <= hi <= keys@.len(),
        ordered_part(key_views(keys@), crate::model::ints(a@), lo, mid),
        ordered_part(key_views(keys@), crate::model::ints(b@), mid, hi),
    ensures
        ordered_part(key_views(keys@), crate::model::ints(r@), lo, hi),
{
    let ghost ks = key_views(keys@);
    let ghost pa = crate::model::ints(a@);
    let ghost pb = crate::model::ints(b@);
    let mut out: Vec<usize> = Vec::new();
    let mut i: usize = 0;
    let mut j: usize = 0;
    while i < a.len() || j < b.len()
        invariant
            0 <= lo <= mid <= hi <= keys@.len(),
            ks == key_views(keys@),
            pa == crate::model::ints(a@),
            pb == crate::model::ints(b@),
            ordered_part(ks, pa, lo, mid),
            ordered_part(ks, pb, mid, hi),
            i <= a@.len(),
            j <= b@.len(),
            forall|k: int| 0 <= k < out@.len() ==> lo <= #[trigger] out@[k] < hi,
            forall|k: int, l: int|
                0 <= k < l < out@.len() ==> goes_before(
                    ks,
                    #[trigger] out@[k] as int,
                    #[trigger] out@[l] as int,
                ),
            forall|k: int, l: int|
                0 <= k < out@.len() && i <= l < a@.len() ==> goes_before(
                    ks,
                    #[trigger] out@[k] as int,
                    #[trigger] pa[l],
                ),
            forall|k: int, l: int|
                0 <= k < out@.len() && j <= l < b@.len() ==> goes_before(
                    ks,
                    #[trigger] out@[k] as int,
                    #[trigger] pb[l],
                ),
            forall|l: int| 0 <= l < i ==> crate::model::ints(out@).contains(#[trigger] pa[l]),
            forall|l: int| 0 <= l < j ==> crate::model::ints(out@).contains(#[trigger] pb[l]),
        decreases (a@.len() - i) + (b@.len() - j),
    {
        let take_a = if i >= a.len() {
            false
        } else if j >= b.len() {
            true
        } else {
            assert(pa[i as int] == a@[i as int]);
            assert(pb[j as int] == b@[j as int]);
            bytes_before(keys[a[i]].as_slice(), keys[b[j]].as_slice())
        };
        let ghost o0 = crate::model::ints(out@);
        let ghost was = out@;
        proof {
            if i < a@.len() && j < b@.len() {
                let x = pa[i as int];
                let y = pb[j as int];
                if take_a {
                    assert(goes_before(ks, x, y));
                } else {
                    lemma_bytes_le_total(ks[x], ks[y]);
                    if ks[x] == ks[y] {
                        lemma_bytes_le_reflexive(ks[x]);
                    }
                    assert(goes_before(ks, y, x));
                }
            }
        }
        if take_a {
            let x: usize = a[i];
            out.push(x);
            proof {
                assert(pa[i as int] == x);
                assert forall|l: int| j <= l < b@.len() implies goes_before(
                    ks,
                    x as int,
                    #[trigger] pb[l],
                ) by {
                    if l > j {
                        lemma_goes_before_transitive(ks, x as int, pb[j as int], pb[l]);
                    }
                }
                let o1 = crate::model::ints(out@);
                assert forall|l: int| 0 <= l < i + 1 implies o1.contains(#[trigger] pa[l]) by {
                    if l < i {
                        let k = choose|k: int| 0 <= k < o0.len() && o0[k] == pa[l];
                        assert(o1[k] == pa[l]);
                    } else {
                        assert(o1[o1.len() - 1] == pa[l]);
                    }
                }
                assert forall|l: int| 0 <= l < j implies o1.contains(#[trigger] pb[l]) by {
                    let k = choose|k: int| 0 <= k < o0.len() && o0[k] == pb[l];
                    assert(o1[k] == pb[l]);
                }
            }
            i = i + 1;
        } else {
            let y: usize = b[j];
            out.push(y);
            proof {
                assert(pb[j as int] == y);
                assert forall|l: int| i <= l < a@.len() implies goes_before(
                    ks,
                    y as int,
                    #[trigger] pa[l],
                ) by {
                    if l > i {
                        lemma_goes_before_transitive(ks, y as int, pa[i as int], pa[l]);
                    }
                }
                let o1 = crate::model::ints(out@);
                assert forall|l: int| 0 <= l < j + 1 implies o1.contains(#[trigger] pb[l]) by {
                    if l < j {
                        let k = choose|k: int| 0 <= k < o0.len() && o0[k] == pb[l];
                        assert(o1[k] == pb[l]);
                    } else {
                        assert(o1[o1.len() - 1] == pb[l]);
                    }
                }
                assert forall|l: int| 0 <= l < i implies o1.contains(#[trigger] pa[l]) by {
                    let k = choose|k: int| 0 <= k < o0.len() && o0[k] == pa[l];
                    assert(o1[k] == pa[l]);
                }
            }
            j = j + 1;
        }
    }
    proof {
        let o = crate::model::ints(out@);
        assert forall|x: int| lo <= x < hi implies #[trigger] o.contains(x) by {
            if x < mid {
                assert(pa.contains(x));
                let l = choose|l: int| 0 <= l < pa.len() && pa[l] == x;
                assert(o.contains(pa[l]));
            } else {
                assert(pb.contains(x));
                let l = choose|l: int| 0 <= l < pb.len() && pb[l] == x;
                assert(o.contains(pb[l]));
            }
        }
    }
    out
}

fn order_range(keys: &Vec<Vec<u8>>, lo: usize, hi: usize) -> (r: Vec<usize>)
    requires
        lo <= hi <= keys@.len(),
    ensures
        ordered_part(key_views(keys@), crate::model::ints(r@), lo as int, hi as int),
    decreases hi - lo,
{
    if hi - lo == 0 {
        Vec::new()
    } else if hi - lo == 1 {
        let mut r: Vec<usize> = Vec::new();
        r.push(lo);
        assert(crate::model::ints(r@)[0] == lo);
        r
    } else {
        let mid: usize = lo + (hi - lo) / 2;
        let a = order_range(keys, lo, mid);
        let b = order_range(keys, mid, hi);
        merge(keys, &a, &b, Ghost(lo as int), Ghost(mid as int), Ghost(hi as int))
    }
}

/// The positions of the keys in their order.
pub fn order(keys: &Vec<Vec<u8>>) -> (r: Vec<usize>)
    ensures
        is_order(key_views(keys@), crate::model::ints(r@)),
        forall|k: int| 0 <= k < r@.len() ==> #[trigger] r@[k] < keys@.len(),
        r@.len() == keys@.len(),
{
    let r = order_range(keys, 0, keys.len());
    proof {
        lemma_order_len(key_views(keys@), crate::model::ints(r@), 0, keys@.len() as int);
        assert forall|k: int| 0 <= k < r@.len() implies #[trigger] r@[k] < keys@.len() by {
            assert(crate::model::ints(r@)[k] == r@[k]);
        }
    }
    r
}

/// The items in the order of their keys.
pub fn sort_by_keys<T: Copy>(items: &Vec<T>, keys: &Vec<Vec<u8>>) -> (r: Vec<T>)
    requires
        items@.len() == keys@.len(),
    ensures
        r@ == sorted(items@, key_views(keys@)),
{
    let pos = order(keys);
    let ghost p = crate::model::ints(pos@);
    let ghost want = arranged(items@, p);
    let mut out: Vec<T> = Vec::new();
    let mut k: usize = 0;
    while k < pos.len()
        invariant
            k <= pos@.len(),
            p == crate::model::ints(pos@),
            want == arranged(items@, p),
            forall|j: int| 0 <= j < pos@.len() ==> #[trigger] pos@[j] < items@.len(),
            out@ == want.take(k as int),
        decreases pos@.len() - k,
    {
        out.push(items[pos[k]]);
        assert(want.take(k + 1) =~= want.take(k as int).push(items@[p[k as int]]));
        k = k + 1;
    }
    proof {
        assert(want.take(want.len() as int) =~= want);
        lemma_sorted_is(items@, key_views(keys@), p);
    }
    out
}

/// Whether `p` has each of the numbers below `n` once.
pub open spec fn permutes(p: Seq<int>, n: int) -> bool {
    &&& p.no_duplicates()
    &&& forall|k: int| 0 <= k < p.len() ==> 0 <= #[trigger] p[k] < n
    &&& forall|x: int| 0 <= x < n ==> #[trigger] p.contains(x)
}

/// Arranging items keeps each as often as it comes.
proof fn lemma_arranged_multiset<A>(items: Seq<A>, p: Seq<int>)
    requires
        permutes(p, items.len() as int),
    ensures
        arranged(items, p).to_multiset() == items.to_multiset(),
    decreases items.len(),
{
    broadcast use vstd::seq_lib::group_to_multiset_ensures;

    let n = items.len() as int;
    if n == 0 {
        if p.len() > 0 {
            assert(0 <= p[0] < n);
        }
        assert(arranged(items, p) =~= items);
    } else {
        assert(p.contains(n - 1));
        let k = choose|k: int| 0 <= k < p.len() && p[k] == n - 1;
        let q = p.remove(k);
        let short = items.drop_last();
        assert forall|x: int| 0 <= x < n - 1 implies #[trigger] q.contains(x) by {
            assert(p.contains(x));
            let j = choose|j: int| 0 <= j < p.len() && p[j] == x;
            if j < k {
                assert(q[j] == x);
            } else {
                assert(q[j - 1] == x);
            }
        }
        assert forall|j: int| 0 <= j < q.len() implies 0 <= #[trigger] q[j] < n - 1 by {
            let m = if j < k {
                j
            } else {
                j + 1
            };
            assert(q[j] == p[m]);
            assert(p[m] != p[k]);
        }
        lemma_arranged_multiset(short, q);
        let a = arranged(items, p);
        assert(a.remove(k) =~= arranged(short, q));
        vstd::seq_lib::to_multiset_remove(a, k);
        assert(a[k] == items.last());
        assert(short.push(items.last()) =~= items);
        assert(a.to_multiset().contains(a[k]));
        assert(a.to_multiset() =~= a.to_multiset().remove(a[k]).insert(a[k]));
        assert(items.to_multiset() =~= short.to_multiset().insert(items.last()));
    }
}

/// What is in order has each of the items as often as they come.
pub proof fn ordered_members<A>(items: Seq<A>, keys: Seq<Seq<u8>>, r: Seq<A>)
    requires
        items.len() == keys.len(),
        in_order(items, keys, r),
    ensures
        r.to_multiset() == items.to_multiset(),
{
    let p = choose|p: Seq<int>| #[trigger] is_order(keys, p) && r == arranged(items, p);
    assert forall|k: int, l: int| 0 <= k < p.len() && 0 <= l < p.len() && k != l implies p[k]
        != p[l] by {
        if k < l {
            lemma_order_irreflexive(keys, p[k], p[l]);
        } else {
            lemma_order_irreflexive(keys, p[l], p[k]);
        }
    }
    lemma_arranged_multiset(items, p);
}

/// Byte strings go by the first byte in which they differ; a string comes before every longer
/// one that begins with it.
pub proof fn the_first_byte_that_differs_decides(a: Seq<u8>, b: Seq<u8>, i: int)
    requires
        0 <= i <= a.len() && i <= b.len(),
        a.take(i) == b.take(i),
    ensures
        i < a.len() && i < b.len() && a[i] != b[i] ==> (bytes_le(a, b) <==> a[i] < b[i]),
        i == a.len() ==> bytes_le(a, b),
        i == b.len() && i < a.len() ==> !bytes_le(a, b),
    decreases i,
{
    if i > 0 {
        assert(a.take(i)[0] == a[0] && b.take(i)[0] == b[0]);
        let x = a.skip(1);
        let y = b.skip(1);
        assert(x.take(i - 1) =~= a.take(i).skip(1));
        assert(y.take(i - 1) =~= b.take(i).skip(1));
        the_first_byte_that_differs_decides(x, y, i - 1);
        if i < a.len() && i < b.len() {
            assert(x[i - 1] == a[i] && y[i - 1] == b[i]);
        }
    }
}

} // verus!
