//! Growing trees: what nodes a JSON value asks for is planned first, and then planted in
//! a store under fresh ids.
use crate::codec::{drawn, id_of_text, SpecNode, SpecValue, Uuid, Value};
use crate::json::{field_names, field_of, int_float_bits, object_names, ref_tree, ref_trees, JsonRef,
    SpecJson};
use crate::model::{first_pick, Nodes};
use crate::text::{decimal, decimal_text, owned, same_text};
use crate::tree::Store;
use vstd::prelude::*;

verus! {

// ---------------------------------------------------------------------------
// Plans
// ---------------------------------------------------------------------------

/// What a planned node hangs on: a given parent, or a node that is planned before it.
#[derive(Clone, Copy, Debug)]
pub enum Stem {
    Given(Option<Uuid>),
    Made(usize),
}

/// The value of a planned node: a given one, or a reference to a node that is planned
/// before it.
#[derive(Debug)]
pub enum Bud {
    Plain(Value),
    Refers(usize),
}

/// A planned node.
#[derive(Debug)]
pub struct Sprout {
    pub stem: Stem,
    pub name: String,
    pub bud: Bud,
}

/// The model of [`Bud`].
pub enum SpecBud {
    Plain(SpecValue),
    Refers(nat),
}

/// The model of [`Sprout`].
pub struct SpecSprout {
    pub stem: Stem,
    pub name: Seq<char>,
    pub bud: SpecBud,
}

impl View for Bud {
    type V = SpecBud;

    open spec fn view(&self) -> SpecBud {
        match self {
            Bud::Plain(v) => SpecBud::Plain(v@),
            Bud::Refers(k) => SpecBud::Refers(*k as nat),
        }
    }
}

impl View for Sprout {
    type V = SpecSprout;

    open spec fn view(&self) -> SpecSprout {
        SpecSprout { stem: self.stem, name: self.name@, bud: self.bud@ }
    }
}

/// A plan.
pub type Plan = Seq<SpecSprout>;

/// The model of a plan.
pub open spec fn plan_of(s: Seq<Sprout>) -> Plan {
    Seq::new(s.len(), |i: int| s[i]@)
}

/// Whether what is planned hangs on and refers to what is planned before it alone.
pub open spec fn sound_plan(p: Plan) -> bool {
    forall|i: int| 0 <= i < p.len() ==> sound_sprout(#[trigger] p[i], i as nat)
}

/// Whether a planned node hangs on and refers to one of the first `n` alone.
pub open spec fn sound_sprout(s: SpecSprout, n: nat) -> bool {
    &&& s.stem is Made ==> s.stem->Made_0 < n
    &&& s.bud is Refers ==> s.bud->Refers_0 < n
}

/// The parent of a planned node, where the planned nodes have the given ids.
pub open spec fn stem_id(s: Stem, ids: Seq<Uuid>) -> Option<Uuid> {
    match s {
        Stem::Given(p) => p,
        Stem::Made(k) => Some(ids[k as int]),
    }
}

/// The value of a planned node, where the planned nodes have the given ids.
pub open spec fn bud_value(b: SpecBud, ids: Seq<Uuid>) -> SpecValue {
    match b {
        SpecBud::Plain(v) => v,
        SpecBud::Refers(k) => SpecValue::Reference(ids[k as int]),
    }
}

/// A planned node, where the planned nodes have the given ids.
pub open spec fn planted_node(p: Plan, ids: Seq<Uuid>, i: int) -> SpecNode {
    SpecNode {
        id: ids[i],
        parent: stem_id(p[i].stem, ids),
        name: p[i].name,
        value: bud_value(p[i].bud, ids),
    }
}

/// The planned nodes, where they have the given ids.
pub open spec fn planted(p: Plan, ids: Seq<Uuid>) -> Nodes {
    Seq::new(p.len(), |i: int| planted_node(p, ids, i))
}

/// Whether `u` is `t` with the planned nodes behind, under the given ids, of which none is
/// nil.
pub open spec fn grown(t: Nodes, u: Nodes, p: Plan, ids: Seq<Uuid>) -> bool {
    &&& ids.len() == p.len()
    &&& u == t + planted(p, ids)
    &&& forall|i: int| 0 <= i < ids.len() ==> drawn(#[trigger] ids[i])
}

/// Plants the planned nodes. Gives the ids that they have.
pub fn plant(store: &mut Store, plan: &Vec<Sprout>) -> (r: Vec<Uuid>)
    requires
        old(store).wf(),
        sound_plan(plan_of(plan@)),
    ensures
        final(store).wf(),
        grown(old(store)@, final(store)@, plan_of(plan@), r@),
{
    let ghost t = store@;
    let ghost p = plan_of(plan@);
    let mut ids: Vec<Uuid> = Vec::new();
    let mut i: usize = 0;
    assert(planted(p.take(0), ids@) =~= Seq::<SpecNode>::empty());
    assert(t + planted(p.take(0), ids@) =~= t);
    while i < plan.len()
        invariant
            i <= plan@.len(),
            p == plan_of(plan@),
            sound_plan(p),
            store.wf(),
            ids@.len() == i,
            store@ == t + planted(p.take(i as int), ids@),
            forall|k: int| 0 <= k < ids@.len() ==> drawn(#[trigger] ids@[k]),
        decreases plan@.len() - i,
    {
        let s = &plan[i];
        let ghost u0 = store@;
        let ghost ids0 = ids@;
        assert(p[i as int] == s@);
        assert(sound_sprout(p[i as int], i as nat));
        let parent = match s.stem {
            Stem::Given(x) => x,
            Stem::Made(k) => Some(ids[k]),
        };
        let value = match &s.bud {
            Bud::Plain(v) => v.clone(),
            Bud::Refers(k) => Value::Reference(ids[*k]),
        };
        let n = store.create(parent, s.name.as_str(), value, false);
        ids.push(n.id);
        proof {
            let a = planted(p.take(i as int), ids0);
            let b = planted(p.take(i + 1), ids@);
            assert(b.len() == a.len() + 1);
            assert forall|k: int| 0 <= k < i implies #[trigger] a[k] == b[k] by {
                assert(sound_sprout(p[k], k as nat));
            }
            assert(b[i as int] == n@);
            assert(b =~= a.push(n@));
            assert(store@ =~= u0.push(n@)) by {
                assert(store@.take(u0.len() as int) == u0);
            }
            assert(t + b =~= (t + a).push(n@));
        }
        i = i + 1;
    }
    assert(p.take(p.len() as int) =~= p);
    ids
}

proof fn lemma_plan_push(s: Seq<Sprout>, x: Sprout)
    ensures
        plan_of(s.push(x)) == plan_of(s).push(x@),
        plan_of(s).len() == s.len(),
        sound_plan(plan_of(s)) && sound_sprout(x@, s.len()) ==> sound_plan(plan_of(s).push(x@)),
{
    assert(plan_of(s.push(x)) =~= plan_of(s).push(x@));
}

/// Plans one node more.
pub(crate) fn put_sprout(plan: &mut Vec<Sprout>, stem: Stem, name: &str, bud: Bud)
    requires
        sound_plan(plan_of(old(plan)@)),
        sound_sprout(SpecSprout { stem, name: name@, bud: bud@ }, old(plan)@.len()),
    ensures
        plan_of(final(plan)@) == plan_of(old(plan)@).push(
            SpecSprout { stem, name: name@, bud: bud@ },
        ),
        sound_plan(plan_of(final(plan)@)),
        final(plan)@.len() == old(plan)@.len() + 1,
{
    let s = Sprout { stem, name: owned(name), bud };
    proof {
        lemma_plan_push(plan@, s);
    }
    plan.push(s);
}

// ---------------------------------------------------------------------------
// JSON values
// ---------------------------------------------------------------------------

/// The value that a JSON value stands for. Lists and objects stand for the empty value:
/// they have nodes of their own.
pub open spec fn json_value(j: SpecJson) -> SpecValue {
    match j {
        SpecJson::Text(s) => SpecValue::Text(s),
        SpecJson::Int(n) => if i64::MIN <= n <= i64::MAX {
            SpecValue::Int(n as i64)
        } else {
            SpecValue::Float(int_float_bits(n))
        },
        SpecJson::Float(b) => SpecValue::Float(b),
        SpecJson::Bool(b) => SpecValue::Bool(b),
        _ => SpecValue::Empty,
    }
}

/// The value that a JSON value stands for; none stands for the empty value.
pub open spec fn json_value_or_empty(j: Option<SpecJson>) -> SpecValue {
    match j {
        Some(x) => json_value(x),
        None => SpecValue::Empty,
    }
}

/// What is referred to.
pub open spec fn ref_option(j: Option<&JsonRef>) -> Option<SpecJson> {
    match j {
        Some(x) => Some(ref_tree(*x)),
        None => None,
    }
}

/// The value that a JSON value stands for.
pub fn value_from_json(v: Option<&JsonRef<'_>>) -> (r: Value)
    ensures
        r@ == json_value_or_empty(ref_option(v)),
{
    match v {
        None => Value::Empty,
        Some(j) => {
            if let Some(s) = j.as_str() {
                return Value::Text(owned(s));
            }
            if let Some(n) = j.as_i64() {
                return Value::Int(n);
            }
            if let Some(b) = j.float_bits() {
                return Value::Float(b);
            }
            if let Some(b) = j.as_bool() {
                return Value::Bool(b);
            }
            Value::Empty
        },
    }
}

/// The first planned node with a name.
pub open spec fn first_planned(p: Plan, name: Seq<char>) -> Option<int>
    decreases p.len(),
{
    if p.len() == 0 {
        None
    } else {
        match first_planned(p.drop_last(), name) {
            Some(k) => Some(k),
            None => if p.last().name == name {
                Some(p.len() - 1)
            } else {
                None
            },
        }
    }
}

/// The name that a JSON value refers to: the text of its field `@ref`.
pub open spec fn ref_name(j: SpecJson) -> Option<Seq<char>> {
    match field_of(j, "@ref"@) {
        Some(SpecJson::Text(s)) => Some(s),
        _ => None,
    }
}

/// The plan with the node for one JSON value more. A value that refers to a name becomes
/// a reference: to the id that the name is, to the first node of the store or of the plan
/// that has the name, or else to a new empty node with the name.
pub open spec fn value_planned(
    t: Nodes,
    acc: Plan,
    stem: Stem,
    name: Seq<char>,
    v: SpecJson,
) -> Plan {
    match ref_name(v) {
        None => acc.push(SpecSprout { stem, name, bud: SpecBud::Plain(json_value(v)) }),
        Some(target) => match id_of_text(target) {
            Some(u) => acc.push(
                SpecSprout { stem, name, bud: SpecBud::Plain(SpecValue::Reference(u)) },
            ),
            None => match first_pick(t, |n: SpecNode| n.name == target) {
                Some(i) => acc.push(
                    SpecSprout { stem, name, bud: SpecBud::Plain(SpecValue::Reference(t[i].id)) },
                ),
                None => match first_planned(acc, target) {
                    Some(k) => acc.push(
                        SpecSprout { stem, name, bud: SpecBud::Refers(k as nat) },
                    ),
                    None => acc.push(
                        SpecSprout { stem, name: target, bud: SpecBud::Plain(SpecValue::Empty) },
                    ).push(SpecSprout { stem, name, bud: SpecBud::Refers(acc.len()) }),
                },
            },
        },
    }
}

/// The plan with the nodes for what is in a JSON value: of an object a node for each
/// field, of a list a node for each item with its number as its name.
pub open spec fn tree_planned(t: Nodes, acc: Plan, stem: Stem, j: SpecJson) -> Plan
    decreases j, 0nat,
{
    match j {
        SpecJson::Object(m) => fields_planned(t, acc, stem, m, object_names(m)),
        SpecJson::List(items) => items_planned(t, acc, stem, items, items.len()),
        _ => acc,
    }
}

/// The plan with the nodes for fields of an object, and what is in them.
pub open spec fn fields_planned(
    t: Nodes,
    acc: Plan,
    stem: Stem,
    m: Map<Seq<char>, SpecJson>,
    names: Seq<Seq<char>>,
) -> Plan
    decreases m, names.len(),
{
    if names.len() == 0 {
        acc
    } else {
        let before = fields_planned(t, acc, stem, m, names.drop_last());
        let k = names.last();
        let with = value_planned(t, before, stem, k, m[k]);
        if m.dom().finite() && m.dom().contains(k) && field_of(m[k], "@ref"@) is None {
            tree_planned(t, with, Stem::Made((with.len() - 1) as usize), m[k])
        } else {
            with
        }
    }
}

/// The plan with the nodes for the first `k` items of a list, and what is in them.
pub open spec fn items_planned(t: Nodes, acc: Plan, stem: Stem, items: Seq<SpecJson>, k: nat) -> Plan
    decreases items, k,
{
    if k == 0 || k > items.len() {
        acc
    } else {
        let before = items_planned(t, acc, stem, items, (k - 1) as nat);
        let v = items[k - 1];
        let with = value_planned(t, before, stem, decimal((k - 1) as nat), v);
        if field_of(v, "@ref"@) is None {
            tree_planned(t, with, Stem::Made((with.len() - 1) as usize), v)
        } else {
            with
        }
    }
}

/// The first node with a name.
fn first_named(store: &Store, name: &str) -> (r: Option<Uuid>)
    ensures
        match first_pick(store@, |n: SpecNode| n.name == name@) {
            Some(i) => r == Some(store@[i].id),
            None => r is None,
        },
{
    let ghost p = |n: SpecNode| n.name == name@;
    let nodes = store.nodes();
    let mut i: usize = 0;
    while i < nodes.len()
        invariant
            i <= nodes@.len(),
            crate::codec::models(nodes@) == store@,
            p == (|n: SpecNode| n.name == name@),
            forall|j: int| 0 <= j < i ==> !p(#[trigger] store@[j]),
        decreases nodes@.len() - i,
    {
        assert(store@[i as int] == nodes@[i as int]@);
        if same_text(nodes[i].name.as_str(), name) {
            proof {
                crate::model::lemma_first_pick_is(store@, p, i as int);
            }
            return Some(nodes[i].id);
        }
        i = i + 1;
    }
    proof {
        crate::model::lemma_first_pick_none(store@, p);
    }
    None
}

proof fn lemma_first_planned(p: Plan, name: Seq<char>, k: int)
    requires
        0 <= k <= p.len(),
        forall|j: int| 0 <= j < k ==> (#[trigger] p[j]).name != name,
    ensures
        k < p.len() && p[k].name == name ==> first_planned(p, name) == Some(k),
        k == p.len() ==> first_planned(p, name) is None,
    decreases p.len(),
{
    if p.len() > 0 {
        if k < p.len() - 1 {
            lemma_first_planned(p.drop_last(), name, k);
        } else {
            lemma_first_planned(p.drop_last(), name, p.len() - 1);
        }
    }
}

/// The first planned node with a name.
fn find_planned(plan: &Vec<Sprout>, name: &str) -> (r: Option<usize>)
    ensures
        match r {
            Some(k) => first_planned(plan_of(plan@), name@) == Some(k as int) && k < plan@.len(),
            None => first_planned(plan_of(plan@), name@) is None,
        },
{
    let ghost p = plan_of(plan@);
    let mut i: usize = 0;
    while i < plan.len()
        invariant
            i <= plan@.len(),
            p == plan_of(plan@),
            forall|j: int| 0 <= j < i ==> (#[trigger] p[j]).name != name@,
        decreases plan@.len() - i,
    {
        assert(p[i as int].name == plan@[i as int].name@);
        if same_text(plan[i].name.as_str(), name) {
            proof {
                lemma_first_planned(p, name@, i as int);
            }
            return Some(i);
        }
        i = i + 1;
    }
    proof {
        lemma_first_planned(p, name@, i as int);
    }
    None
}

/// Plans the node for one JSON value.
fn plan_value(store: &Store, plan: &mut Vec<Sprout>, stem: Stem, name: &str, v: &JsonRef<'_>)
    requires
        sound_plan(plan_of(old(plan)@)),
        stem is Made ==> stem->Made_0 < old(plan)@.len(),
    ensures
        plan_of(final(plan)@) == value_planned(
            store@,
            plan_of(old(plan)@),
            stem,
            name@,
            ref_tree(*v),
        ),
        sound_plan(plan_of(final(plan)@)),
        final(plan)@.len() > old(plan)@.len(),
{
    let target = match v.get("@ref") {
        Some(x) => x.as_str(),
        None => None,
    };
    match target {
        None => {
            put_sprout(plan, stem, name, Bud::Plain(value_from_json(Some(v))));
        },
        Some(target) => {
            let known = match Uuid::parse(target) {
                Some(u) => Some(u),
                None => first_named(store, target),
            };
            match known {
                Some(u) => {
                    put_sprout(plan, stem, name, Bud::Plain(Value::Reference(u)));
                },
                None => {
                    match find_planned(plan, target) {
                        Some(k) => {
                            put_sprout(plan, stem, name, Bud::Refers(k));
                        },
                        None => {
                            let k: usize = plan.len();
                            put_sprout(plan, stem, target, Bud::Plain(Value::Empty));
                            put_sprout(plan, stem, name, Bud::Refers(k));
                        },
                    }
                },
            }
        },
    }
}

/// Plans the nodes for what is in a JSON value.
fn plan_tree(store: &Store, plan: &mut Vec<Sprout>, stem: Stem, v: &JsonRef<'_>)
    requires
        sound_plan(plan_of(old(plan)@)),
        stem is Made ==> stem->Made_0 < old(plan)@.len(),
    ensures
        plan_of(final(plan)@) == tree_planned(
            store@,
            plan_of(old(plan)@),
            stem,
            ref_tree(*v),
        ),
        sound_plan(plan_of(final(plan)@)),
        final(plan)@.len() >= old(plan)@.len(),
    decreases ref_tree(*v),
{
    let ghost t = store@;
    let ghost acc = plan_of(plan@);
    let ghost n0 = plan@.len();
    let ghost j = ref_tree(*v);
    if let Some(fields) = v.fields() {
        let ghost m = j->Object_0;
        let ghost names = field_names(fields@);
        proof {
            crate::json::lemma_object_names(m, names);
            assert(names.take(0) =~= Seq::<Seq<char>>::empty());
        }
        let mut i: usize = 0;
        while i < fields.len()
            invariant
                i <= fields@.len(),
                n0 <= plan@.len(),
                t == store@,
                j == SpecJson::Object(m),
                j == ref_tree(*v),
                names == field_names(fields@),
                m.dom().finite(),
                forall|k: int| 0 <= k < names.len() ==> m.contains_key(#[trigger] names[k]),
                forall|k: int|
                    0 <= k < fields@.len() ==> ref_tree((#[trigger] fields@[k]).1) == m[fields@[k].0@],
                sound_plan(plan_of(plan@)),
                stem is Made ==> stem->Made_0 < n0,
                plan_of(plan@) == fields_planned(t, acc, stem, m, names.take(i as int)),
            decreases fields@.len() - i,
        {
            proof {
                assert(names.take(i + 1).drop_last() =~= names.take(i as int));
                assert(names.take(i + 1).last() == names[i as int]);
                assert(names[i as int] == fields@[i as int].0@);
                assert(m.contains_key(names[i as int]));
            }
            let f = &fields[i];
            plan_value(store, plan, stem, f.0.as_str(), &f.1);
            if f.1.get("@ref").is_none() {
                let made: usize = plan.len() - 1;
                proof {
                    assert(decreases_to!(j => j->Object_0));
                    assert(decreases_to!(m => m[names[i as int]]));
                }
                plan_tree(store, plan, Stem::Made(made), &f.1);
            }
            i = i + 1;
        }
        assert(names.take(names.len() as int) =~= names);
        return;
    }
    if let Some(items) = v.items() {
        let ghost js = ref_trees(items@);
        let mut i: usize = 0;
        while i < items.len()
            invariant
                i <= items@.len(),
                n0 <= plan@.len(),
                t == store@,
                j == SpecJson::List(js),
                j == ref_tree(*v),
                js == ref_trees(items@),
                sound_plan(plan_of(plan@)),
                stem is Made ==> stem->Made_0 < n0,
                plan_of(plan@) == items_planned(t, acc, stem, js, i as nat),
            decreases items@.len() - i,
        {
            let x = &items[i];
            assert(js[i as int] == ref_tree(*x));
            let name = decimal_text(i as u64);
            plan_value(store, plan, stem, name.as_str(), x);
            if x.get("@ref").is_none() {
                let made: usize = plan.len() - 1;
                proof {
                    assert(decreases_to!(j => j->List_0));
                    assert(decreases_to!(js => js[i as int]));
                }
                plan_tree(store, plan, Stem::Made(made), x);
            }
            i = i + 1;
        }
    }
}

/// Grows the nodes for what is in a JSON value below a parent.
pub fn build_json_tree(store: &mut Store, parent: Option<Uuid>, val: &JsonRef<'_>)
    requires
        old(store).wf(),
    ensures
        final(store).wf(),
        exists|ids: Seq<Uuid>| #[trigger]
            grown(
                old(store)@,
                final(store)@,
                tree_planned(old(store)@, Seq::empty(), Stem::Given(parent), ref_tree(*val)),
                ids,
            ),
{
    let mut plan: Vec<Sprout> = Vec::new();
    assert(plan_of(plan@) =~= Seq::<SpecSprout>::empty());
    plan_tree(store, &mut plan, Stem::Given(parent), val);
    let ids = plant(store, &plan);
    assert(grown(old(store)@, store@, plan_of(plan@), ids@));
}

// ---------------------------------------------------------------------------
// Laws of values
// ---------------------------------------------------------------------------

/// A JSON scalar becomes the value of its kind; null, lists, objects and nothing at all
/// become the empty value.
pub proof fn scalars_become_values(j: SpecJson)
    ensures
        j is Text ==> json_value(j) == SpecValue::Text(j->Text_0),
        j is Bool ==> json_value(j) == SpecValue::Bool(j->Bool_0),
        j is Float ==> json_value(j) == SpecValue::Float(j->Float_0),
        j is Int && i64::MIN <= j->Int_0 <= i64::MAX ==> json_value(j) == SpecValue::Int(
            j->Int_0 as i64,
        ),
        j is Int && !(i64::MIN <= j->Int_0 <= i64::MAX) ==> json_value(j) == SpecValue::Float(
            int_float_bits(j->Int_0),
        ),
        j is Null || j is List || j is Object ==> json_value(j) == SpecValue::Empty,
        json_value_or_empty(Some(j)) == json_value(j),
        json_value_or_empty(None) == SpecValue::Empty,
{
}

/// A value that refers to nothing becomes one node with its name and its value. One that
/// refers to an id becomes a reference to it; one that refers to a name, a reference to the
/// first node of the store with the name, or else to the first planned one, or else to an
/// empty node with the name that is planned before it.
pub proof fn values_become_nodes(t: Nodes, acc: Plan, stem: Stem, name: Seq<char>, v: SpecJson)
    ensures
        ({
            let p = value_planned(t, acc, stem, name, v);
            let l = p.last();
            let refers = v is Object && v->Object_0.contains_key("@ref"@)
                && v->Object_0["@ref"@] is Text;
            let to = v->Object_0["@ref"@]->Text_0;
            &&& p.len() > acc.len() && p.take(acc.len() as int) == acc
            &&& l.stem == stem && l.name == name
            &&& !refers ==> p.len() == acc.len() + 1 && l.bud == SpecBud::Plain(json_value(v))
            &&& refers && id_of_text(to) is Some ==> p.len() == acc.len() + 1 && l.bud
                == SpecBud::Plain(SpecValue::Reference(id_of_text(to)->Some_0))
            &&& forall|i: int|
                refers && id_of_text(to) is None && 0 <= i < t.len() && (#[trigger] t[i]).name == to
                    && (forall|h: int| 0 <= h < i ==> (#[trigger] t[h]).name != to) ==> p.len()
                    == acc.len() + 1 && l.bud == SpecBud::Plain(SpecValue::Reference(t[i].id))
            &&& refers && id_of_text(to) is None && (forall|h: int|
                0 <= h < t.len() ==> (#[trigger] t[h]).name != to) ==> ({
                &&& forall|i: int|
                    0 <= i < acc.len() && (#[trigger] acc[i]).name == to && (forall|h: int|
                        0 <= h < i ==> (#[trigger] acc[h]).name != to) ==> p.len() == acc.len() + 1
                        && l.bud == SpecBud::Refers(i as nat)
                &&& (forall|h: int| 0 <= h < acc.len() ==> (#[trigger] acc[h]).name != to)
                    ==> p.len() == acc.len() + 2 && l.bud == SpecBud::Refers(acc.len())
                    && p[acc.len() as int] == (SpecSprout {
                    stem,
                    name: to,
                    bud: SpecBud::Plain(SpecValue::Empty),
                })
            })
        }),
{
    let p = value_planned(t, acc, stem, name, v);
    assert(p.take(acc.len() as int) =~= acc);
    if let Some(to) = ref_name(v) {
        let q = |n: SpecNode| n.name == to;
        crate::model::lemma_first_pick(t, q);
        if id_of_text(to) is None {
            assert forall|i: int|
                0 <= i < t.len() && (#[trigger] t[i]).name == to && (forall|h: int|
                    0 <= h < i ==> (#[trigger] t[h]).name != to) implies first_pick(t, q) == Some(
                i,
            ) by {
                assert(q(t[i]));
                let f = first_pick(t, q)->Some_0;
                if f < i {
                    assert(t[f].name != to);
                } else if i < f {
                    assert(!q(t[i]));
                }
            }
            if forall|h: int| 0 <= h < t.len() ==> (#[trigger] t[h]).name != to {
                if let Some(f) = first_pick(t, q) {
                    assert(t[f].name == to);
                }
                assert(first_pick(t, q) is None);
            }
            assert forall|i: int|
                0 <= i < acc.len() && (#[trigger] acc[i]).name == to && (forall|h: int|
                    0 <= h < i ==> (#[trigger] acc[h]).name != to) implies first_planned(acc, to)
                == Some(i) by {
                lemma_first_planned(acc, to, i);
            }
            if forall|h: int| 0 <= h < acc.len() ==> (#[trigger] acc[h]).name != to {
                lemma_first_planned(acc, to, acc.len() as int);
            }
        }
    }
}

/// Whether a plan goes on from another.
pub open spec fn goes_on(a: Plan, p: Plan) -> bool {
    a.len() <= p.len() && p.take(a.len() as int) == a
}

/// Going on is transitive.
pub proof fn lemma_goes_on(a: Plan, b: Plan, c: Plan)
    requires
        goes_on(a, b),
        goes_on(b, c),
    ensures
        goes_on(a, c),
{
    assert(c.take(a.len() as int) =~= c.take(b.len() as int).take(a.len() as int));
}

proof fn lemma_tree_goes_on(t: Nodes, acc: Plan, stem: Stem, j: SpecJson)
    ensures
        goes_on(acc, tree_planned(t, acc, stem, j)),
    decreases j, 0nat,
{
    match j {
        SpecJson::Object(m) => lemma_fields_go_on(t, acc, stem, m, object_names(m)),
        SpecJson::List(items) => lemma_items_go_on(t, acc, stem, items, items.len()),
        _ => {
            assert(acc.take(acc.len() as int) =~= acc);
        },
    }
}

proof fn lemma_fields_go_on(
    t: Nodes,
    acc: Plan,
    stem: Stem,
    m: Map<Seq<char>, SpecJson>,
    names: Seq<Seq<char>>,
)
    ensures
        goes_on(acc, fields_planned(t, acc, stem, m, names)),
    decreases m, names.len(),
{
    if names.len() == 0 {
        assert(acc.take(acc.len() as int) =~= acc);
    } else {
        let before = fields_planned(t, acc, stem, m, names.drop_last());
        let k = names.last();
        lemma_fields_go_on(t, acc, stem, m, names.drop_last());
        let with = value_planned(t, before, stem, k, m[k]);
        values_become_nodes(t, before, stem, k, m[k]);
        lemma_goes_on(acc, before, with);
        if m.dom().finite() && m.dom().contains(k) && field_of(m[k], "@ref"@) is None {
            let s = Stem::Made((with.len() - 1) as usize);
            lemma_tree_goes_on(t, with, s, m[k]);
            lemma_goes_on(acc, with, tree_planned(t, with, s, m[k]));
        }
    }
}

proof fn lemma_items_go_on(t: Nodes, acc: Plan, stem: Stem, items: Seq<SpecJson>, k: nat)
    ensures
        goes_on(acc, items_planned(t, acc, stem, items, k)),
    decreases items, k,
{
    if k == 0 || k > items.len() {
        assert(acc.take(acc.len() as int) =~= acc);
    } else {
        let before = items_planned(t, acc, stem, items, (k - 1) as nat);
        lemma_items_go_on(t, acc, stem, items, (k - 1) as nat);
        let v = items[k - 1];
        let name = decimal((k - 1) as nat);
        let with = value_planned(t, before, stem, name, v);
        values_become_nodes(t, before, stem, name, v);
        lemma_goes_on(acc, before, with);
        if field_of(v, "@ref"@) is None {
            let s = Stem::Made((with.len() - 1) as usize);
            lemma_tree_goes_on(t, with, s, v);
            lemma_goes_on(acc, with, tree_planned(t, with, s, v));
        }
    }
}

/// Every field of an object has a node that hangs where the object does, with the name of the
/// field; what is in a field that refers to nothing hangs on the node of the field, right
/// behind it. What was planned before stays.
pub proof fn every_field_has_a_node(
    t: Nodes,
    acc: Plan,
    stem: Stem,
    m: Map<Seq<char>, SpecJson>,
    names: Seq<Seq<char>>,
    k: Seq<char>,
) -> (i: int)
    requires
        crate::json::names_in_order(m, names),
        m.contains_key(k),
    ensures
        ({
            let p = tree_planned(t, acc, stem, SpecJson::Object(m));
            &&& goes_on(acc, p)
            &&& acc.len() <= i < p.len()
            &&& p[i].stem == stem && p[i].name == k
            &&& field_of(m[k], "@ref"@) is None ==> p[i].bud == SpecBud::Plain(json_value(m[k]))
                && goes_on(tree_planned(t, p.take(i + 1), Stem::Made(i as usize), m[k]), p)
        }),
{
    crate::json::lemma_object_names(m, names);
    lemma_fields_go_on(t, acc, stem, m, names);
    let x = choose|x: int| 0 <= x < names.len() && names[x] == k;
    lemma_field_has_a_node(t, acc, stem, m, names, x)
}

proof fn lemma_field_has_a_node(
    t: Nodes,
    acc: Plan,
    stem: Stem,
    m: Map<Seq<char>, SpecJson>,
    names: Seq<Seq<char>>,
    x: int,
) -> (i: int)
    requires
        0 <= x < names.len(),
        m.dom().finite(),
        forall|y: int| 0 <= y < names.len() ==> m.contains_key(#[trigger] names[y]),
    ensures
        ({
            let p = fields_planned(t, acc, stem, m, names);
            let k = names[x];
            &&& acc.len() <= i < p.len()
            &&& p[i].stem == stem && p[i].name == k
            &&& field_of(m[k], "@ref"@) is None ==> p[i].bud == SpecBud::Plain(json_value(m[k]))
                && goes_on(tree_planned(t, p.take(i + 1), Stem::Made(i as usize), m[k]), p)
        }),
    decreases names.len(),
{
    let d = names.drop_last();
    let before = fields_planned(t, acc, stem, m, d);
    let k = names.last();
    let with = value_planned(t, before, stem, k, m[k]);
    let p = fields_planned(t, acc, stem, m, names);
    lemma_fields_go_on(t, acc, stem, m, d);
    values_become_nodes(t, before, stem, k, m[k]);
    assert(m.contains_key(names[names.len() - 1]));
    let s = Stem::Made((with.len() - 1) as usize);
    lemma_tree_goes_on(t, with, s, m[k]);
    assert(goes_on(with, p)) by {
        assert(with.take(with.len() as int) =~= with);
    }
    if x < d.len() {
        assert forall|y: int| 0 <= y < d.len() implies m.contains_key(#[trigger] d[y]) by {
            assert(d[y] == names[y]);
        }
        let i = lemma_field_has_a_node(t, acc, stem, m, d, x);
        lemma_goes_on(before, with, p);
        assert(p.take(before.len() as int)[i] == p[i]);
        assert(p.take(i + 1) =~= before.take(i + 1)) by {
            assert(p.take(before.len() as int).take(i + 1) =~= p.take(i + 1));
        }
        let v = m[names[x]];
        if field_of(v, "@ref"@) is None {
            lemma_goes_on(tree_planned(t, before.take(i + 1), Stem::Made(i as usize), v), before, p);
        }
        i
    } else {
        let i = with.len() - 1;
        assert(p.take(with.len() as int)[i] == p[i]);
        assert(p.take(i + 1) == with);
        assert(p.take(p.len() as int) =~= p);
        if field_of(m[k], "@ref"@) is None {
            assert(ref_name(m[k]) is None);
        }
        i
    }
}

/// Every item of a list has a node that hangs where the list does, with the number of the
/// item as its name; what is in an item that refers to nothing hangs on the node of the item,
/// right behind it. What was planned before stays.
pub proof fn every_item_has_a_node(
    t: Nodes,
    acc: Plan,
    stem: Stem,
    items: Seq<SpecJson>,
    x: int,
) -> (i: int)
    requires
        0 <= x < items.len(),
    ensures
        ({
            let p = tree_planned(t, acc, stem, SpecJson::List(items));
            &&& goes_on(acc, p)
            &&& acc.len() <= i < p.len()
            &&& p[i].stem == stem && p[i].name == decimal(x as nat)
            &&& field_of(items[x], "@ref"@) is None ==> p[i].bud == SpecBud::Plain(
                json_value(items[x]),
            ) && goes_on(tree_planned(t, p.take(i + 1), Stem::Made(i as usize), items[x]), p)
        }),
{
    lemma_items_go_on(t, acc, stem, items, items.len());
    lemma_item_has_a_node(t, acc, stem, items, items.len(), x)
}

proof fn lemma_item_has_a_node(
    t: Nodes,
    acc: Plan,
    stem: Stem,
    items: Seq<SpecJson>,
    n: nat,
    x: int,
) -> (i: int)
    requires
        0 <= x < n <= items.len(),
    ensures
        ({
            let p = items_planned(t, acc, stem, items, n);
            &&& acc.len() <= i < p.len()
            &&& p[i].stem == stem && p[i].name == decimal(x as nat)
            &&& field_of(items[x], "@ref"@) is None ==> p[i].bud == SpecBud::Plain(
                json_value(items[x]),
            ) && goes_on(tree_planned(t, p.take(i + 1), Stem::Made(i as usize), items[x]), p)
        }),
    decreases n,
{
    let before = items_planned(t, acc, stem, items, (n - 1) as nat);
    let v = items[n - 1];
    let name = decimal((n - 1) as nat);
    let with = value_planned(t, before, stem, name, v);
    let p = items_planned(t, acc, stem, items, n);
    lemma_items_go_on(t, acc, stem, items, (n - 1) as nat);
    values_become_nodes(t, before, stem, name, v);
    let s = Stem::Made((with.len() - 1) as usize);
    lemma_tree_goes_on(t, with, s, v);
    assert(goes_on(with, p)) by {
        assert(with.take(with.len() as int) =~= with);
    }
    if x < n - 1 {
        let i = lemma_item_has_a_node(t, acc, stem, items, (n - 1) as nat, x);
        lemma_goes_on(before, with, p);
        assert(p.take(before.len() as int)[i] == p[i]);
        assert(p.take(i + 1) =~= before.take(i + 1)) by {
            assert(p.take(before.len() as int).take(i + 1) =~= p.take(i + 1));
        }
        if field_of(items[x], "@ref"@) is None {
            lemma_goes_on(
                tree_planned(t, before.take(i + 1), Stem::Made(i as usize), items[x]),
                before,
                p,
            );
        }
        i
    } else {
        let i = with.len() - 1;
        assert(p.take(with.len() as int)[i] == p[i]);
        assert(p.take(i + 1) == with);
        assert(p.take(p.len() as int) =~= p);
        if field_of(v, "@ref"@) is None {
            assert(ref_name(v) is None);
        }
        i
    }
}

/// Planted nodes come behind all others, each with its name, its value and the parent that it
/// was planned on.
pub proof fn planted_nodes_are_as_planned(t: Nodes, u: Nodes, p: Plan, ids: Seq<Uuid>, i: int)
    requires
        grown(t, u, p, ids),
        0 <= i < p.len(),
    ensures
        u.len() == t.len() + p.len(),
        u.take(t.len() as int) == t,
        ({
            let n = u[t.len() + i];
            &&& n.id == ids[i] && n.name == p[i].name
            &&& p[i].stem is Given ==> n.parent == p[i].stem->Given_0
            &&& p[i].stem is Made ==> n.parent == Some(ids[p[i].stem->Made_0 as int])
            &&& p[i].bud is Plain ==> n.value == p[i].bud->Plain_0
            &&& p[i].bud is Refers ==> n.value == SpecValue::Reference(ids[p[i].bud->Refers_0 as int])
        }),
{
    assert(u.take(t.len() as int) =~= t);
}

} // verus!
