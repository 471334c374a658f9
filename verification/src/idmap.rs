//! Sets and maps keyed by node ids.
use crate::bytes::{lemma_be_value_bound, lemma_pow256_values};
use crate::codec::Uuid;
use std::collections::{HashMap, HashSet};
use vstd::prelude::*;

verus! {

/// The number under which an id is filed.
pub open spec fn filed(id: Uuid) -> u128 {
    id.key() as u128
}

/// Ids filed under one number are one id.
pub proof fn lemma_filed_injective(a: Uuid, b: Uuid)
    requires
        filed(a) == filed(b),
    ensures
        a == b,
{
    lemma_pow256_values();
    lemma_be_value_bound(a.0@);
    lemma_be_value_bound(b.0@);
    crate::codec::lemma_key_injective(a, b);
}

fn file_number(id: Uuid) -> (r: u128)
    ensures
        r == filed(id),
{
    id.to_key()
}

/// A set of ids.
#[derive(Debug)]
pub struct IdSet {
    inner: HashSet<u128>,
}

impl View for IdSet {
    type V = Set<Uuid>;

    closed spec fn view(&self) -> Set<Uuid> {
        Set::new(|id: Uuid| self.inner@.contains(filed(id)))
    }
}

impl IdSet {
    /// The empty set.
    pub fn new() -> (r: Self)
        ensures
            r@ == Set::<Uuid>::empty(),
    {
        let r = IdSet { inner: HashSet::new() };
        assert(r@ =~= Set::<Uuid>::empty());
        r
    }

    /// Puts an id in; `false` if it was there.
    pub fn insert(&mut self, id: Uuid) -> (r: bool)
        ensures
            final(self)@ == old(self)@.insert(id),
            r == !old(self)@.contains(id),
    {
        let k: u128 = file_number(id);
        let r = self.inner.insert(k);
        proof {
            assert forall|x: Uuid| self@.contains(x) <==> old(self)@.insert(id).contains(x) by {
                if filed(x) == filed(id) {
                    lemma_filed_injective(x, id);
                }
            }
            assert(self@ =~= old(self)@.insert(id));
        }
        r
    }

    /// Whether the id is in the set.
    pub fn contains(&self, id: Uuid) -> (r: bool)
        ensures
            r == self@.contains(id),
    {
        let k: u128 = file_number(id);
        self.inner.contains(&k)
    }
}

/// A map from ids.
#[derive(Debug)]
pub struct IdMap<V> {
    inner: HashMap<u128, V>,
}

impl<V> View for IdMap<V> {
    type V = Map<Uuid, V>;

    closed spec fn view(&self) -> Map<Uuid, V> {
        Map::new(|id: Uuid| self.inner@.contains_key(filed(id)), |id: Uuid| self.inner@[filed(id)])
    }
}

impl<V> IdMap<V> {
    /// The empty map.
    pub fn new() -> (r: Self)
        ensures
            r@ == Map::<Uuid, V>::empty(),
    {
        let r = IdMap { inner: HashMap::new() };
        assert(r@ =~= Map::<Uuid, V>::empty());
        r
    }

    /// Maps `id` to `v`.
    pub fn insert(&mut self, id: Uuid, v: V)
        ensures
            final(self)@ == old(self)@.insert(id, v),
    {
        let k: u128 = file_number(id);
        self.inner.insert(k, v);
        proof {
            assert forall|x: Uuid| filed(x) == filed(id) implies x == id by {
                lemma_filed_injective(x, id);
            }
            assert(self@ =~= old(self)@.insert(id, v));
        }
    }

    /// What `id` is mapped to.
    pub fn get(&self, id: Uuid) -> (r: Option<&V>)
        ensures
            match r {
                Some(v) => self@.contains_key(id) && *v == self@[id],
                None => !self@.contains_key(id),
            },
    {
        let k: u128 = file_number(id);
        self.inner.get(&k)
    }

    /// Whether `id` is mapped.
    pub fn contains_key(&self, id: Uuid) -> (r: bool)
        ensures
            r == self@.contains_key(id),
    {
        let k: u128 = file_number(id);
        self.inner.contains_key(&k)
    }
}

/// The list of `id`, empty where it has none.
pub open spec fn list_of<T>(m: Map<Uuid, Vec<T>>, id: Uuid) -> Seq<T> {
    if m.contains_key(id) {
        m[id]@
    } else {
        Seq::<T>::empty()
    }
}

impl<T> IdMap<Vec<T>> {
    /// Appends `v` to the list of `id`.
    pub fn push_to(&mut self, id: Uuid, v: T)
        ensures
            forall|x: Uuid| #[trigger]
                list_of(final(self)@, x) == (if x == id {
                    list_of(old(self)@, x).push(v)
                } else {
                    list_of(old(self)@, x)
                }),
            final(self)@.dom() == old(self)@.dom().insert(id),
    {
        let k: u128 = file_number(id);
        let mut list: Vec<T> = match self.inner.remove(&k) {
            Some(l) => l,
            None => Vec::new(),
        };
        list.push(v);
        self.inner.insert(k, list);
        proof {
            assert forall|x: Uuid| filed(x) == filed(id) implies x == id by {
                lemma_filed_injective(x, id);
            }
            assert forall|x: Uuid| #[trigger] list_of(self@, x) == (if x == id {
                list_of(old(self)@, x).push(v)
            } else {
                list_of(old(self)@, x)
            }) by {}
            assert(self@.dom() =~= old(self)@.dom().insert(id));
        }
    }
}

/// A map from ids that also lists its ids, in the order in which they came in.
#[derive(Debug)]
pub struct IdTable<V> {
    ids: Vec<Uuid>,
    map: IdMap<V>,
}

impl<V> View for IdTable<V> {
    type V = Map<Uuid, V>;

    closed spec fn view(&self) -> Map<Uuid, V> {
        self.map@
    }
}

impl<V> IdTable<V> {
    /// The ids, in the order in which they came in.
    pub closed spec fn order(&self) -> Seq<Uuid> {
        self.ids@
    }

    /// The list holds the ids of the map, each once.
    pub open spec fn wf(&self) -> bool {
        &&& forall|k: int, l: int|
            0 <= k < l < self.order().len() ==> #[trigger] self.order()[k] != #[trigger] self.order()[l]
        &&& forall|id: Uuid| #[trigger] self@.contains_key(id) <==> self.order().contains(id)
    }

    /// The empty map.
    pub fn new() -> (r: Self)
        ensures
            r.wf(),
            r@ == Map::<Uuid, V>::empty(),
            r.order() == Seq::<Uuid>::empty(),
    {
        IdTable { ids: Vec::new(), map: IdMap::new() }
    }

    /// Maps `id` to `v`.
    pub fn insert(&mut self, id: Uuid, v: V)
        requires
            old(self).wf(),
        ensures
            final(self).wf(),
            final(self)@ == old(self)@.insert(id, v),
            final(self).order() == (if old(self)@.contains_key(id) {
                old(self).order()
            } else {
                old(self).order().push(id)
            }),
    {
        let ghost o = self.ids@;
        if !self.map.contains_key(id) {
            self.ids.push(id);
        }
        self.map.insert(id, v);
        proof {
            lemma_order_grows(o, self.ids@, id, old(self)@.dom());
            assert(self@.dom() =~= old(self)@.dom().insert(id));
        }
    }

    /// What `id` is mapped to.
    pub fn get(&self, id: Uuid) -> (r: Option<&V>)
        ensures
            match r {
                Some(v) => self@.contains_key(id) && *v == self@[id],
                None => !self@.contains_key(id),
            },
    {
        self.map.get(id)
    }

    /// Whether `id` is mapped.
    pub fn contains_key(&self, id: Uuid) -> (r: bool)
        ensures
            r == self@.contains_key(id),
    {
        self.map.contains_key(id)
    }

    /// The ids, in the order in which they came in.
    pub fn ids(&self) -> (r: &Vec<Uuid>)
        ensures
            r@ == self.order(),
    {
        &self.ids
    }

    /// How many ids are mapped.
    pub fn len(&self) -> (r: usize)
        ensures
            r == self.order().len(),
    {
        self.ids.len()
    }
}

proof fn lemma_order_grows(o: Seq<Uuid>, u: Seq<Uuid>, id: Uuid, dom: Set<Uuid>)
    requires
        forall|k: int, l: int| 0 <= k < l < o.len() ==> #[trigger] o[k] != #[trigger] o[l],
        forall|x: Uuid| #[trigger] dom.contains(x) <==> o.contains(x),
        u == (if dom.contains(id) {
            o
        } else {
            o.push(id)
        }),
    ensures
        forall|k: int, l: int| 0 <= k < l < u.len() ==> #[trigger] u[k] != #[trigger] u[l],
        forall|x: Uuid| #[trigger] dom.insert(id).contains(x) <==> u.contains(x),
{
    if !dom.contains(id) {
        assert forall|k: int, l: int| 0 <= k < l < u.len() implies #[trigger] u[k]
            != #[trigger] u[l] by {
            if l == o.len() && u[k] == id {
                assert(o[k] == id);
                assert(o.contains(id));
            }
        }
        assert forall|x: Uuid| #[trigger] dom.insert(id).contains(x) <==> u.contains(x) by {
            if o.contains(x) {
                let k = choose|k: int| 0 <= k < o.len() && o[k] == x;
                assert(u[k] == x);
            }
            assert(u[o.len() as int] == id);
            if u.contains(x) && x != id {
                let k = choose|k: int| 0 <= k < u.len() && u[k] == x;
                assert(o[k] == x);
            }
        }
    }
}

impl<T> IdTable<Vec<T>> {
    /// Appends `v` to the list of `id`.
    pub fn push_to(&mut self, id: Uuid, v: T)
        requires
            old(self).wf(),
        ensures
            final(self).wf(),
            forall|x: Uuid| #[trigger]
                list_of(final(self)@, x) == (if x == id {
                    list_of(old(self)@, x).push(v)
                } else {
                    list_of(old(self)@, x)
                }),
            final(self)@.dom() == old(self)@.dom().insert(id),
            final(self).order() == (if old(self)@.contains_key(id) {
                old(self).order()
            } else {
                old(self).order().push(id)
            }),
    {
        let ghost o = self.ids@;
        if !self.map.contains_key(id) {
            self.ids.push(id);
        }
        self.map.push_to(id, v);
        proof {
            lemma_order_grows(o, self.ids@, id, old(self)@.dom());
        }
    }
}

/// All ids.
pub open spec fn all_ids() -> Set<Uuid> {
    Set::new(|id: Uuid| true)
}

/// There are finitely many ids.
pub proof fn lemma_all_ids_finite()
    ensures
        all_ids().finite(),
{
    let n = 0x1_0000_0000_0000_0000_0000_0000_0000_0000int;
    let range = vstd::set_lib::set_int_range(0, n);
    let f = |k: int| choose|u: Uuid| u.key() == k;
    vstd::set_lib::lemma_int_range(0, n);
    range.lemma_map_finite(f);
    lemma_pow256_values();
    assert forall|u: Uuid| #[trigger] range.map(f).contains(u) by {
        lemma_be_value_bound(u.0@);
        assert(range.contains(u.key() as int));
        assert(u.key() == u.key() as int);
        crate::codec::lemma_key_injective(f(u.key() as int), u);
    }
    vstd::set_lib::lemma_set_subset_finite(range.map(f), all_ids());
}

/// How many ids are not in the set.
pub open spec fn unmet(seen: Set<Uuid>) -> nat {
    all_ids().difference(seen).len()
}

/// A set that grows leaves fewer ids out.
pub proof fn lemma_unmet_shrinks(seen: Set<Uuid>, more: Set<Uuid>, id: Uuid)
    requires
        !seen.contains(id),
        more.contains(id),
        seen.subset_of(more),
    ensures
        unmet(more) < unmet(seen),
{
    lemma_all_ids_finite();
    let a = all_ids().difference(more);
    let b = all_ids().difference(seen);
    vstd::set_lib::lemma_set_subset_finite(all_ids(), b);
    assert(a.subset_of(b));
    a.lemma_subset_not_in_lt(b, id);
}

} // verus!
