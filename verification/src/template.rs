//! Templates and their instances. The root of a template has an empty `@模板` child;
//! the root of an instance has an `@实例` child and a `@模板` child that refers to the
//! root of its template.
use crate::codec::{id_of_text, models, Node, SpecNode, SpecValue, Uuid, Value};
use crate::change::refused;
use crate::grow::{grown, json_value_or_empty, plan_of, plant, put_sprout, sound_plan,
    value_from_json, Bud, Plan, SpecBud, SpecSprout, Sprout, Stem};
use crate::json::{field_names, field_of, object_names, ref_tree, ref_trees, JsonRef, SpecJson};
use crate::lookup::{all_views, name_or_empty, node_name};
use crate::model::{ids_of, ints, picks, subtree_of, Nodes};
use crate::ops::{comes_to, guarded_error, plain_error, shown_below, ErrKind, OpError, OpResult,
    SpecOpError};
use crate::text::{begins, decimal, decimal_text, join2, join3, owned, same_text};
use crate::tree::{found, instance_root, ref_models, template_of, template_root, without_ids, Store};
use vstd::prelude::*;

verus! {

// ---------------------------------------------------------------------------
// Finding templates and instances
// ---------------------------------------------------------------------------

/// The roots of templates.
pub open spec fn template_roots(t: Nodes) -> Seq<int> {
    picks(t, |n: SpecNode| template_root(t, n.id))
}

/// The roots of the instances of a template.
pub open spec fn instances_of(t: Nodes, tid: Uuid) -> Seq<int> {
    picks(t, |n: SpecNode| instance_root(t, n.id) && template_of(t, n.id) == Some(tid))
}

/// The roots of templates with a name.
pub open spec fn templates_named(t: Nodes, name: Seq<char>) -> Seq<int> {
    picks(t, |n: SpecNode| n.name == name && template_root(t, n.id))
}

proof fn lemma_picks_step(t: Nodes, p: spec_fn(SpecNode) -> bool, i: int, out: Seq<usize>)
    requires
        0 <= i < t.len(),
        i <= usize::MAX,
        ints(out) == picks(t.take(i), p),
    ensures
        picks(t.take(i + 1), p) == (if p(t[i]) {
            ints(out.push(i as usize))
        } else {
            ints(out)
        }),
{
    assert(t.take(i + 1) =~= t.take(i).push(t[i]));
    crate::model::lemma_picks_push(t.take(i), t[i], p);
    assert(ints(out.push(i as usize)) =~= ints(out).push(i));
}

/// The positions of the roots of templates.
pub fn find_template_roots(store: &Store) -> (r: Vec<usize>)
    requires
        store.wf(),
    ensures
        ints(r@) == template_roots(store@),
{
    let ghost t = store@;
    let ghost p = |n: SpecNode| template_root(t, n.id);
    let nodes = store.nodes();
    let mut out: Vec<usize> = Vec::new();
    let mut i: usize = 0;
    assert(t.take(0) =~= Seq::<SpecNode>::empty());
    assert(ints(out@) =~= picks(t.take(0), p));
    while i < nodes.len()
        invariant
            i <= nodes@.len(),
            store.wf(),
            t == store@,
            models(nodes@) == t,
            p == (|n: SpecNode| template_root(t, n.id)),
            ints(out@) == picks(t.take(i as int), p),
        decreases nodes@.len() - i,
    {
        proof {
            lemma_picks_step(t, p, i as int, out@);
            assert(t[i as int] == nodes@[i as int]@);
        }
        if store.is_template_root(&nodes[i]) {
            out.push(i);
        }
        i = i + 1;
    }
    assert(t.take(t.len() as int) =~= t);
    out
}

/// The positions of the roots of the instances of a template.
pub fn find_instances_of(store: &Store, tpl_id: Uuid) -> (r: Vec<usize>)
    requires
        store.wf(),
    ensures
        ints(r@) == instances_of(store@, tpl_id),
{
    let ghost t = store@;
    let ghost p = |n: SpecNode| instance_root(t, n.id) && template_of(t, n.id) == Some(tpl_id);
    let nodes = store.nodes();
    let mut out: Vec<usize> = Vec::new();
    let mut i: usize = 0;
    assert(t.take(0) =~= Seq::<SpecNode>::empty());
    assert(ints(out@) =~= picks(t.take(0), p));
    while i < nodes.len()
        invariant
            i <= nodes@.len(),
            store.wf(),
            t == store@,
            models(nodes@) == t,
            p == (|n: SpecNode| instance_root(t, n.id) && template_of(t, n.id) == Some(tpl_id)),
            ints(out@) == picks(t.take(i as int), p),
        decreases nodes@.len() - i,
    {
        proof {
            lemma_picks_step(t, p, i as int, out@);
            assert(t[i as int] == nodes@[i as int]@);
        }
        if store.is_instance_root(&nodes[i]) {
            if let Some(u) = store.template_ref(&nodes[i]) {
                if u == tpl_id {
                    out.push(i);
                }
            }
        }
        i = i + 1;
    }
    assert(t.take(t.len() as int) =~= t);
    out
}

/// The positions of the roots of templates with a name.
fn find_templates_named(store: &Store, name: &str) -> (r: Vec<usize>)
    requires
        store.wf(),
    ensures
        ints(r@) == templates_named(store@, name@),
{
    let ghost t = store@;
    let ghost p = |n: SpecNode| n.name == name@ && template_root(t, n.id);
    let nodes = store.nodes();
    let mut out: Vec<usize> = Vec::new();
    let mut i: usize = 0;
    assert(t.take(0) =~= Seq::<SpecNode>::empty());
    assert(ints(out@) =~= picks(t.take(0), p));
    while i < nodes.len()
        invariant
            i <= nodes@.len(),
            store.wf(),
            t == store@,
            models(nodes@) == t,
            p == (|n: SpecNode| n.name == name@ && template_root(t, n.id)),
            ints(out@) == picks(t.take(i as int), p),
        decreases nodes@.len() - i,
    {
        proof {
            lemma_picks_step(t, p, i as int, out@);
            assert(t[i as int] == nodes@[i as int]@);
        }
        if same_text(nodes[i].name.as_str(), name) && store.is_template_root(&nodes[i]) {
            out.push(i);
        }
        i = i + 1;
    }
    assert(t.take(t.len() as int) =~= t);
    out
}

/// The template that a name or an id stands for.
pub open spec fn template_meant(t: Nodes, raw: Seq<char>) -> Result<Uuid, SpecOpError> {
    match id_of_text(raw) {
        Some(id) => match found(t, id) {
            None => Err(plain_error(ErrKind::NotFound, "模板不存在"@)),
            Some(n) => if template_root(t, n.id) {
                Ok(id)
            } else {
                Err(plain_error(ErrKind::InvalidArgument, "该节点不是模板定义（根上无 @模板 空标记）"@))
            },
        },
        None => {
            let hits = templates_named(t, raw);
            if hits.len() == 0 {
                Err(plain_error(ErrKind::NotFound, "模板不存在："@ + raw))
            } else if hits.len() == 1 {
                Ok(t[hits[0]].id)
            } else {
                Err(
                    plain_error(
                        ErrKind::InvalidArgument,
                        "模板名「"@ + raw + "」匹配到 "@ + decimal(hits.len()) + " 个，请改用编号"@,
                    ),
                )
            }
        },
    }
}

/// The template that a name or an id stands for.
pub fn resolve_template(store: &Store, name_or_id: &str) -> (r: OpResult<Uuid>)
    requires
        store.wf(),
    ensures
        comes_to(r, template_meant(store@, name_or_id@)),
{
    if let Some(id) = Uuid::parse(name_or_id) {
        return match store.get(id) {
            None => Err(OpError::not_found("模板不存在")),
            Some(n) => if store.is_template_root(n) {
                Ok(id)
            } else {
                Err(OpError::invalid("该节点不是模板定义（根上无 @模板 空标记）"))
            },
        };
    }
    let hits = find_templates_named(store, name_or_id);
    let ghost h = templates_named(store@, name_or_id@);
    proof {
        crate::model::lemma_picks(
            store@,
            |n: SpecNode| n.name == name_or_id@ && template_root(store@, n.id),
        );
        assert(ints(hits@).len() == hits@.len());
    }
    if hits.len() == 0 {
        Err(OpError::not_found(join2("模板不存在：", name_or_id).as_str()))
    } else if hits.len() == 1 {
        assert(ints(hits@)[0] == hits@[0]);
        Ok(store.at(hits[0]).id)
    } else {
        let mut m = join3("模板名「", name_or_id, "」匹配到 ");
        m.append(decimal_text(hits.len() as u64).as_str());
        m.append(" 个，请改用编号");
        Err(OpError::invalid(m.as_str()))
    }
}

// ---------------------------------------------------------------------------
// Defining a template
// ---------------------------------------------------------------------------

/// The plan with the structure that a sample gives: a node for each field of an object,
/// and below it the structure of what is in the field.
pub open spec fn sketched(acc: Plan, stem: Stem, j: SpecJson) -> Plan
    decreases j, 0nat,
{
    match j {
        SpecJson::Object(m) => sketched_fields(acc, stem, m, object_names(m)),
        _ => acc,
    }
}

/// The plan with the structure that fields of a sample give.
pub open spec fn sketched_fields(
    acc: Plan,
    stem: Stem,
    m: Map<Seq<char>, SpecJson>,
    names: Seq<Seq<char>>,
) -> Plan
    decreases m, names.len(),
{
    if names.len() == 0 {
        acc
    } else {
        let before = sketched_fields(acc, stem, m, names.drop_last());
        let k = names.last();
        let with = before.push(
            SpecSprout { stem, name: k, bud: SpecBud::Plain(SpecValue::Empty) },
        );
        if m.dom().finite() && m.dom().contains(k) {
            sketched(with, Stem::Made(before.len() as usize), m[k])
        } else {
            with
        }
    }
}

/// The plan of a template: its root, its mark, and its structure.
pub open spec fn template_plan(parent: Option<Uuid>, name: Seq<char>, sample: SpecJson) -> Plan {
    sketched(
        seq![
            SpecSprout {
                stem: Stem::Given(parent),
                name,
                bud: SpecBud::Plain(SpecValue::Empty),
            },
            SpecSprout {
                stem: Stem::Made(0),
                name: "@模板"@,
                bud: SpecBud::Plain(SpecValue::Empty),
            },
        ],
        Stem::Made(0),
        sample,
    )
}

/// Plans the structure that a sample gives.
fn sketch(plan: &mut Vec<Sprout>, stem: Stem, v: &JsonRef<'_>)
    requires
        sound_plan(plan_of(old(plan)@)),
        stem is Made ==> stem->Made_0 < old(plan)@.len(),
    ensures
        plan_of(final(plan)@) == sketched(plan_of(old(plan)@), stem, ref_tree(*v)),
        sound_plan(plan_of(final(plan)@)),
        final(plan)@.len() >= old(plan)@.len(),
    decreases ref_tree(*v),
{
    let ghost acc = plan_of(plan@);
    let ghost n0 = plan@.len();
    let ghost j = ref_tree(*v);
    if let Some(fields) = v.fields() {
        let ghost m = j->Object_0;
        let ghost names = field_names(fields@);
        proof {
            crate::json::lemma_object_names(m, names);
            assert(names.take(0) =~= Seq::<Seq<char>>::empty());
        }
        let mut i: usize = 0;
        while i < fields.len()
            invariant
                i <= fields@.len(),
                n0 <= plan@.len(),
                j == SpecJson::Object(m),
                j == ref_tree(*v),
                names == field_names(fields@),
                m.dom().finite(),
                forall|k: int| 0 <= k < names.len() ==> m.contains_key(#[trigger] names[k]),
                forall|k: int|
                    0 <= k < fields@.len() ==> ref_tree((#[trigger] fields@[k]).1) == m[fields@[k].0@],
                sound_plan(plan_of(plan@)),
                stem is Made ==> stem->Made_0 < n0,
                plan_of(plan@) == sketched_fields(acc, stem, m, names.take(i as int)),
            decreases fields@.len() - i,
        {
            proof {
                assert(names.take(i + 1).drop_last() =~= names.take(i as int));
                assert(names.take(i + 1).last() == names[i as int]);
                assert(names[i as int] == fields@[i as int].0@);
                assert(m.contains_key(names[i as int]));
                assert(plan_of(plan@).len() == plan@.len());
            }
            let f = &fields[i];
            let made: usize = plan.len();
            put_sprout(plan, stem, f.0.as_str(), Bud::Plain(Value::Empty));
            proof {
                assert(decreases_to!(j => j->Object_0));
                assert(decreases_to!(m => m[names[i as int]]));
            }
            sketch(plan, Stem::Made(made), &f.1);
            i = i + 1;
        }
        assert(names.take(names.len() as int) =~= names);
    }
}

/// What is said of a sample that is no object.
pub open spec fn no_sample() -> Seq<char> {
    "模板样例应为 JSON 对象"@
}

/// Grows the structure that a sample gives below a parent.
pub fn build_template_structure(store: &mut Store, parent: Uuid, val: &JsonRef<'_>) -> (r: Result<
    (),
    String,
>)
    requires
        old(store).wf(),
    ensures
        final(store).wf(),
        if ref_tree(*val) is Object {
            r is Ok && exists|ids: Seq<Uuid>| #[trigger]
                grown(
                    old(store)@,
                    final(store)@,
                    sketched(Seq::empty(), Stem::Given(Some(parent)), ref_tree(*val)),
                    ids,
                )
        } else {
            r is Err && r->Err_0@ == no_sample() && final(store)@ == old(store)@
        },
{
    if val.fields().is_none() {
        return Err(owned("模板样例应为 JSON 对象"));
    }
    let mut plan: Vec<Sprout> = Vec::new();
    assert(plan_of(plan@) =~= Seq::<SpecSprout>::empty());
    sketch(&mut plan, Stem::Given(Some(parent)), val);
    let ids = plant(store, &plan);
    assert(grown(old(store)@, store@, plan_of(plan@), ids@));
    Ok(())
}

/// Grows a template with the structure that a sample gives. Gives the id of its root.
pub fn build_template(
    store: &mut Store,
    parent: Option<Uuid>,
    name: &str,
    sample: &JsonRef<'_>,
) -> (r: Result<Uuid, String>)
    requires
        old(store).wf(),
    ensures
        final(store).wf(),
        if ref_tree(*sample) is Object {
            r is Ok && exists|ids: Seq<Uuid>|
                {
                    &&& #[trigger] grown(
                        old(store)@,
                        final(store)@,
                        template_plan(parent, name@, ref_tree(*sample)),
                        ids,
                    )
                    &&& r->Ok_0 == ids[0]
                    &&& ids.len() >= 2
                }
        } else {
            r is Err && r->Err_0@ == no_sample() && final(store)@ == old(store)@
        },
{
    if sample.fields().is_none() {
        return Err(owned("模板样例应为 JSON 对象"));
    }
    let mut plan: Vec<Sprout> = Vec::new();
    assert(plan_of(plan@) =~= Seq::<SpecSprout>::empty());
    put_sprout(&mut plan, Stem::Given(parent), name, Bud::Plain(Value::Empty));
    put_sprout(&mut plan, Stem::Made(0), "@模板", Bud::Plain(Value::Empty));
    assert(plan_of(plan@) =~= seq![
        SpecSprout {
            stem: Stem::Given(parent),
            name: name@,
            bud: SpecBud::Plain(SpecValue::Empty),
        },
        SpecSprout {
            stem: Stem::Made(0),
            name: "@模板"@,
            bud: SpecBud::Plain(SpecValue::Empty),
        },
    ]);
    sketch(&mut plan, Stem::Made(0), sample);
    assert(plan_of(plan@) == template_plan(parent, name@, ref_tree(*sample)));
    let ids = plant(store, &plan);
    assert(grown(
        old(store)@,
        store@,
        template_plan(parent, name@, ref_tree(*sample)),
        ids@,
    ));
    assert(plan_of(plan@).len() == plan@.len());
    Ok(ids[0])
}

/// What is said of a template that is there already.
pub open spec fn template_there(name: Seq<char>) -> SpecOpError {
    plain_error(ErrKind::InvalidArgument, "模板已存在："@ + name + "（先删再建）"@)
}

/// Defines a template under a name that no other template has.
pub fn template_define(store: &mut Store, name: &str, sample: &JsonRef<'_>) -> (r: OpResult<Uuid>)
    requires
        old(store).wf(),
    ensures
        final(store).wf(),
        if templates_named(old(store)@, name@).len() > 0 {
            refused(old(store)@, final(store)@, r, template_there(name@))
        } else if !(ref_tree(*sample) is Object) {
            refused(
                old(store)@,
                final(store)@,
                r,
                plain_error(ErrKind::InvalidArgument, no_sample()),
            )
        } else {
            r is Ok && exists|ids: Seq<Uuid>|
                {
                    &&& #[trigger] grown(
                        old(store)@,
                        final(store)@,
                        template_plan(None, name@, ref_tree(*sample)),
                        ids,
                    )
                    &&& r->Ok_0 == ids[0]
                }
        },
{
    let hits = find_templates_named(store, name);
    assert(ints(hits@).len() == hits@.len());
    if hits.len() > 0 {
        return Err(OpError::invalid(join3("模板已存在：", name, "（先删再建）").as_str()));
    }
    match build_template(store, None, name, sample) {
        Ok(id) => Ok(id),
        Err(e) => Err(OpError::invalid(e.as_str())),
    }
}

// ---------------------------------------------------------------------------
// Instances
// ---------------------------------------------------------------------------

/// Whether what is below nodes, `@` nodes left out, ends within `levels` levels.
pub open spec fn ends_within(t: Nodes, nodes: Nodes, levels: nat) -> bool
    decreases levels,
{
    nodes.len() == 0 || (levels > 0 && forall|i: int|
        0 <= i < nodes.len() ==> ends_within(
            t,
            shown_below(t, (#[trigger] nodes[i]).id, true),
            (levels - 1) as nat,
        ))
}

/// Whether the structure of a template ends: its parents form no cycle.
pub open spec fn template_ends(t: Nodes, tid: Uuid) -> bool {
    ends_within(t, shown_below(t, tid, true), t.len())
}

/// Whether instances of a template can be made, or there is no such template.
pub open spec fn template_usable(t: Nodes, tid: Uuid) -> bool {
    found(t, tid) is Some ==> template_ends(t, tid)
}

/// The value of a record that a node with a name gets.
pub open spec fn record_field(record: SpecJson, name: Seq<char>) -> SpecJson {
    match field_of(record, name) {
        Some(v) => v,
        None => SpecJson::Null,
    }
}

/// The plan with a copy of nodes and of what is below them, `@` nodes left out, with the
/// values that a record gives them by their names.
pub open spec fn mirrored(
    t: Nodes,
    acc: Plan,
    stem: Stem,
    nodes: Nodes,
    record: SpecJson,
    levels: nat,
) -> Plan
    decreases levels, nodes.len(),
{
    if nodes.len() == 0 || levels == 0 {
        acc
    } else {
        let before = mirrored(t, acc, stem, nodes.drop_last(), record, levels);
        let n = nodes.last();
        let with = before.push(
            SpecSprout {
                stem,
                name: n.name,
                bud: SpecBud::Plain(json_value_or_empty(field_of(record, n.name))),
            },
        );
        mirrored(
            t,
            with,
            Stem::Made(before.len() as usize),
            shown_below(t, n.id, true),
            record_field(record, n.name),
            (levels - 1) as nat,
        )
    }
}

/// The plan with an instance of a template: its root, its marks, and a copy of the
/// structure of the template with the values of a record.
pub open spec fn instance_planned(
    t: Nodes,
    acc: Plan,
    tid: Uuid,
    parent: Option<Uuid>,
    record: SpecJson,
) -> Plan {
    let root = Stem::Made(acc.len() as usize);
    mirrored(
        t,
        acc.push(
            SpecSprout {
                stem: Stem::Given(parent),
                name: name_or_empty(t, tid),
                bud: SpecBud::Plain(SpecValue::Empty),
            },
        ).push(
            SpecSprout { stem: root, name: "@实例"@, bud: SpecBud::Plain(SpecValue::Empty) },
        ).push(
            SpecSprout {
                stem: root,
                name: "@模板"@,
                bud: SpecBud::Plain(SpecValue::Reference(tid)),
            },
        ),
        root,
        shown_below(t, tid, true),
        record,
        t.len(),
    )
}

/// The plan with an instance for each of the first `k` records.
pub open spec fn instances_planned(
    t: Nodes,
    tid: Uuid,
    parent: Option<Uuid>,
    records: Seq<SpecJson>,
    k: nat,
) -> Plan
    decreases k,
{
    if k == 0 {
        Seq::empty()
    } else {
        instance_planned(
            t,
            instances_planned(t, tid, parent, records, (k - 1) as nat),
            tid,
            parent,
            records[k - 1],
        )
    }
}

/// Plans a copy of nodes and of what is below them. An absent record gives no values.
fn mirror(
    store: &Store,
    plan: &mut Vec<Sprout>,
    stem: Stem,
    nodes: &Vec<&Node>,
    record: Option<&JsonRef<'_>>,
    Ghost(levels): Ghost<nat>,
)
    requires
        store.wf(),
        sound_plan(plan_of(old(plan)@)),
        stem is Made ==> stem->Made_0 < old(plan)@.len(),
        ends_within(store@, ref_models(nodes@), levels),
    ensures
        plan_of(final(plan)@) == mirrored(
            store@,
            plan_of(old(plan)@),
            stem,
            ref_models(nodes@),
            match record {
                Some(x) => ref_tree(*x),
                None => SpecJson::Null,
            },
            levels,
        ),
        sound_plan(plan_of(final(plan)@)),
        final(plan)@.len() >= old(plan)@.len(),
    decreases levels,
{
    let ghost t = store@;
    let ghost acc = plan_of(plan@);
    let ghost n0 = plan@.len();
    let ghost ns = ref_models(nodes@);
    let ghost rec = match record {
        Some(x) => ref_tree(*x),
        None => SpecJson::Null,
    };
    let mut i: usize = 0;
    assert(ns.take(0) =~= Seq::<SpecNode>::empty());
    while i < nodes.len()
        invariant
            i <= nodes@.len(),
            n0 <= plan@.len(),
            store.wf(),
            t == store@,
            ns == ref_models(nodes@),
            rec == (match record {
                Some(x) => ref_tree(*x),
                None => SpecJson::Null,
            }),
            ends_within(t, ns, levels),
            sound_plan(plan_of(plan@)),
            stem is Made ==> stem->Made_0 < n0,
            plan_of(plan@) == mirrored(t, acc, stem, ns.take(i as int), rec, levels),
        decreases nodes@.len() - i,
    {
        let n = nodes[i];
        proof {
            assert(ns[i as int] == n@);
            assert(ns.take(i + 1).drop_last() =~= ns.take(i as int));
            assert(ns.take(i + 1).last() == n@);
            assert(plan_of(plan@).len() == plan@.len());
            assert(ends_within(t, shown_below(t, ns[i as int].id, true), (levels - 1) as nat));
        }
        let field = match record {
            Some(x) => x.get(n.name.as_str()),
            None => None,
        };
        let made: usize = plan.len();
        put_sprout(plan, stem, n.name.as_str(), Bud::Plain(value_from_json(field.as_ref())));
        let below = store.children_opt(n, true);
        mirror(
            store,
            plan,
            Stem::Made(made),
            &below,
            field.as_ref(),
            Ghost((levels - 1) as nat),
        );
        i = i + 1;
    }
    assert(ns.take(ns.len() as int) =~= ns);
}

/// Plans an instance of a template.
fn plan_instance(
    store: &Store,
    plan: &mut Vec<Sprout>,
    tpl: &Node,
    parent: Option<Uuid>,
    record: &JsonRef<'_>,
)
    requires
        store.wf(),
        found(store@, tpl.id) == Some(tpl@),
        template_ends(store@, tpl.id),
        sound_plan(plan_of(old(plan)@)),
    ensures
        plan_of(final(plan)@) == instance_planned(
            store@,
            plan_of(old(plan)@),
            tpl.id,
            parent,
            ref_tree(*record),
        ),
        sound_plan(plan_of(final(plan)@)),
        final(plan)@.len() > old(plan)@.len(),
{
    assert(plan_of(plan@).len() == plan@.len());
    let root = Stem::Made(plan.len());
    put_sprout(plan, Stem::Given(parent), tpl.name.as_str(), Bud::Plain(Value::Empty));
    put_sprout(plan, root, "@实例", Bud::Plain(Value::Empty));
    put_sprout(plan, root, "@模板", Bud::Plain(Value::Reference(tpl.id)));
    let below = store.children_opt(tpl, true);
    mirror(store, plan, root, &below, Some(record), Ghost(store@.len()));
}

/// Makes an instance of a template, whose structure ends, with the values of a record.
/// Gives the id of its root.
pub fn instantiate(
    store: &mut Store,
    tpl_id: Uuid,
    inst_parent: Option<Uuid>,
    record: &JsonRef<'_>,
) -> (r: Result<Uuid, String>)
    requires
        old(store).wf(),
        template_usable(old(store)@, tpl_id),
    ensures
        final(store).wf(),
        if found(old(store)@, tpl_id) is None {
            r is Err && r->Err_0@ == "模板不存在"@ && final(store)@ == old(store)@
        } else {
            r is Ok && exists|ids: Seq<Uuid>|
                {
                    &&& #[trigger] grown(
                        old(store)@,
                        final(store)@,
                        instance_planned(
                            old(store)@,
                            Seq::empty(),
                            tpl_id,
                            inst_parent,
                            ref_tree(*record),
                        ),
                        ids,
                    )
                    &&& r->Ok_0 == ids[0]
                }
        },
{
    let mut plan: Vec<Sprout> = Vec::new();
    assert(plan_of(plan@) =~= Seq::<SpecSprout>::empty());
    match store.get(tpl_id) {
        None => {
            return Err(owned("模板不存在"));
        },
        Some(tpl) => {
            proof {
                crate::model::lemma_find_id(store@, tpl_id);
            }
            plan_instance(store, &mut plan, tpl, inst_parent, record);
        },
    }
    let ids = plant(store, &plan);
    assert(grown(old(store)@, store@, plan_of(plan@), ids@));
    assert(plan_of(plan@).len() == plan@.len());
    Ok(ids[0])
}

/// Whether what is below nodes, `@` nodes left out, ends within `levels` levels.
fn check_ends(store: &Store, nodes: &Vec<&Node>, levels: usize) -> (r: bool)
    requires
        store.wf(),
    ensures
        r == ends_within(store@, ref_models(nodes@), levels as nat),
    decreases levels,
{
    let ghost t = store@;
    let ghost ns = ref_models(nodes@);
    if nodes.len() == 0 {
        return true;
    }
    if levels == 0 {
        return false;
    }
    let mut i: usize = 0;
    while i < nodes.len()
        invariant
            i <= nodes@.len(),
            levels > 0,
            store.wf(),
            t == store@,
            ns == ref_models(nodes@),
            ns.len() > 0,
            forall|k: int|
                0 <= k < i ==> ends_within(
                    t,
                    shown_below(t, (#[trigger] ns[k]).id, true),
                    (levels - 1) as nat,
                ),
        decreases nodes@.len() - i,
    {
        let below = store.children_opt(nodes[i], true);
        assert(ns[i as int] == nodes@[i as int]@);
        if !check_ends(store, &below, levels - 1) {
            return false;
        }
        i = i + 1;
    }
    true
}

/// Whether instances of a template can be made, or there is no such template.
pub fn has_end(store: &Store, tpl_id: Uuid) -> (r: bool)
    requires
        store.wf(),
    ensures
        r == template_usable(store@, tpl_id),
{
    match store.get(tpl_id) {
        None => true,
        Some(tpl) => {
            proof {
                crate::model::lemma_find_id(store@, tpl_id);
            }
            let below = store.children_opt(tpl, true);
            check_ends(store, &below, store.len())
        },
    }
}

/// Instances were made.
#[derive(Debug)]
pub struct ImportInstancesOutcome {
    pub template_id: Uuid,
    pub template_name: String,
    pub count: usize,
}

/// Makes an instance of a template for each record. The structure of the template ends.
pub fn import_instances(
    store: &mut Store,
    tpl_id: Uuid,
    inst_parent: Option<Uuid>,
    records: &Vec<JsonRef<'_>>,
) -> (r: OpResult<ImportInstancesOutcome>)
    requires
        old(store).wf(),
        template_usable(old(store)@, tpl_id),
    ensures
        final(store).wf(),
        if found(old(store)@, tpl_id) is None {
            refused(
                old(store)@,
                final(store)@,
                r,
                plain_error(ErrKind::InvalidArgument, "模板不存在"@),
            )
        } else {
            &&& r is Ok
            &&& r->Ok_0.template_id == tpl_id
            &&& r->Ok_0.template_name@ == name_or_empty(old(store)@, tpl_id)
            &&& r->Ok_0.count == records@.len()
            &&& exists|ids: Seq<Uuid>| #[trigger]
                grown(
                    old(store)@,
                    final(store)@,
                    instances_planned(
                        old(store)@,
                        tpl_id,
                        inst_parent,
                        ref_trees(records@),
                        records@.len(),
                    ),
                    ids,
                )
        },
{
    let ghost t = store@;
    let ghost rs = ref_trees(records@);
    let template_name = node_name(store, tpl_id);
    let mut plan: Vec<Sprout> = Vec::new();
    assert(plan_of(plan@) =~= Seq::<SpecSprout>::empty());
    match store.get(tpl_id) {
        None => {
            return Err(OpError::invalid("模板不存在"));
        },
        Some(tpl) => {
            proof {
                crate::model::lemma_find_id(store@, tpl_id);
            }
            let mut i: usize = 0;
            while i < records.len()
                invariant
                    i <= records@.len(),
                    store.wf(),
                    t == store@,
                    rs == ref_trees(records@),
                    tpl.id == tpl_id,
                    found(t, tpl_id) == Some(tpl@),
                    template_ends(t, tpl_id),
                    sound_plan(plan_of(plan@)),
                    plan_of(plan@) == instances_planned(t, tpl_id, inst_parent, rs, i as nat),
                decreases records@.len() - i,
            {
                assert(rs[i as int] == ref_tree(records@[i as int]));
                plan_instance(store, &mut plan, tpl, inst_parent, &records[i]);
                i = i + 1;
            }
        },
    }
    let ids = plant(store, &plan);
    assert(grown(old(store)@, store@, plan_of(plan@), ids@));
    Ok(ImportInstancesOutcome { template_id: tpl_id, template_name, count: records.len() })
}

// ---------------------------------------------------------------------------
// Listing and removing
// ---------------------------------------------------------------------------

/// A template, with how many instances it has.
#[derive(Debug)]
pub struct TemplateItem {
    pub id: Uuid,
    pub name: String,
    pub instances: usize,
}

/// The model of [`TemplateItem`].
pub struct SpecTemplate {
    pub id: Uuid,
    pub name: Seq<char>,
    pub instances: nat,
}

impl View for TemplateItem {
    type V = SpecTemplate;

    open spec fn view(&self) -> SpecTemplate {
        SpecTemplate { id: self.id, name: self.name@, instances: self.instances as nat }
    }
}

/// A template as it is listed.
pub open spec fn template_item(t: Nodes, i: int) -> SpecTemplate {
    SpecTemplate { id: t[i].id, name: t[i].name, instances: instances_of(t, t[i].id).len() }
}

/// The templates at positions, as they are listed.
pub open spec fn template_items(t: Nodes, pos: Seq<int>) -> Seq<SpecTemplate> {
    Seq::new(pos.len(), |k: int| template_item(t, pos[k]))
}

/// The templates of a store.
pub fn template_list(store: &Store) -> (r: Vec<TemplateItem>)
    requires
        store.wf(),
    ensures
        all_views(r@) == template_items(store@, template_roots(store@)),
{
    let ghost t = store@;
    let roots = find_template_roots(store);
    let ghost pos = ints(roots@);
    proof {
        crate::model::lemma_picks(t, |n: SpecNode| template_root(t, n.id));
    }
    let mut out: Vec<TemplateItem> = Vec::new();
    let mut i: usize = 0;
    assert(all_views(out@) =~= template_items(t, pos).take(0));
    while i < roots.len()
        invariant
            i <= roots@.len(),
            store.wf(),
            t == store@,
            pos == ints(roots@),
            forall|k: int| 0 <= k < pos.len() ==> 0 <= #[trigger] pos[k] < t.len(),
            all_views(out@) == template_items(t, pos).take(i as int),
        decreases roots@.len() - i,
    {
        assert(pos[i as int] == roots@[i as int]);
        let n = store.at(roots[i]);
        let made = find_instances_of(store, n.id);
        let item = TemplateItem { id: n.id, name: n.name.clone(), instances: made.len() };
        let ghost iv = item@;
        let ghost o0 = out@;
        out.push(item);
        proof {
            assert(ints(made@).len() == made@.len());
            assert(iv == template_item(t, pos[i as int]));
            assert(all_views(out@) =~= all_views(o0).push(iv));
            assert(template_items(t, pos).take(i + 1) =~= template_items(t, pos).take(
                i as int,
            ).push(iv));
        }
        i = i + 1;
    }
    assert(template_items(t, pos).take(pos.len() as int) =~= template_items(t, pos));
    out
}

/// A template was removed.
#[derive(Debug)]
pub struct TemplateRemoveOutcome {
    pub name: String,
    pub id: Uuid,
    pub removed_instances: usize,
}

/// The nodes without the subtrees of the first `k` ids, taken out in turn; and whether
/// each was there when its turn came.
pub open spec fn subtrees_out(t: Nodes, ids: Seq<Uuid>, k: nat) -> (Nodes, bool)
    decreases k,
{
    if k == 0 {
        (t, true)
    } else {
        let (u, ok) = subtrees_out(t, ids, (k - 1) as nat);
        match found(u, ids[k - 1]) {
            Some(n) => if ok {
                (without_ids(u, ids_of(subtree_of(u, n))), true)
            } else {
                (u, false)
            },
            None => (u, false),
        }
    }
}

/// The ids at positions.
pub open spec fn ids_at(t: Nodes, pos: Seq<int>) -> Seq<Uuid> {
    Seq::new(pos.len(), |k: int| t[pos[k]].id)
}

/// What is said before a template is removed.
pub open spec fn remove_guard(name: Seq<char>) -> SpecOpError {
    guarded_error(
        "删除模板「"@ + name + "」会连同其结构 + 所有实例一并移除"@,
        "确认要删请显式强制（CLI：--yes，MCP：force）"@,
    )
}

proof fn lemma_out_stops(t: Nodes, ids: Seq<Uuid>, k: nat, n: nat)
    requires
        k <= n,
        !subtrees_out(t, ids, k).1,
    ensures
        !subtrees_out(t, ids, n).1,
    decreases n,
{
    if k < n {
        lemma_out_stops(t, ids, k, (n - 1) as nat);
    }
}

/// Removes the template that a name or an id stands for, with all its instances, where
/// the caller insists. An instance that lies in another one is gone when its turn comes,
/// which is an error.
pub fn template_remove(store: &mut Store, force: bool, name: &str) -> (r: OpResult<
    TemplateRemoveOutcome,
>)
    requires
        old(store).wf(),
    ensures
        final(store).wf(),
        match template_meant(old(store)@, name@) {
            Err(e) => refused(old(store)@, final(store)@, r, e),
            Ok(tid) => if !force {
                refused(
                    old(store)@,
                    final(store)@,
                    r,
                    remove_guard(name_or_empty(old(store)@, tid)),
                )
            } else {
                let made = ids_at(old(store)@, instances_of(old(store)@, tid));
                let (u, ok) = subtrees_out(old(store)@, made.push(tid), made.len() + 1);
                if ok {
                    &&& final(store)@ == u
                    &&& r is Ok
                    &&& r->Ok_0.name@ == name_or_empty(old(store)@, tid)
                    &&& r->Ok_0.id == tid
                    &&& r->Ok_0.removed_instances == made.len()
                } else {
                    refused(
                        old(store)@,
                        final(store)@,
                        r,
                        plain_error(ErrKind::Internal, "根节点不存在"@),
                    )
                }
            },
        },
{
    let tid = match resolve_template(store, name) {
        Ok(tid) => tid,
        Err(e) => {
            return Err(e);
        },
    };
    let tpl_name = node_name(store, tid);
    if !force {
        return Err(
            OpError::guarded(
                join3("删除模板「", tpl_name.as_str(), "」会连同其结构 + 所有实例一并移除").as_str(),
                "确认要删请显式强制（CLI：--yes，MCP：force）",
            ),
        );
    }
    let ghost t = store@;
    let found_at = find_instances_of(store, tid);
    let ghost pos = ints(found_at@);
    let ghost made = ids_at(t, pos);
    proof {
        crate::model::lemma_picks(
            t,
            |n: SpecNode| instance_root(t, n.id) && template_of(t, n.id) == Some(tid),
        );
    }
    let mut ids: Vec<Uuid> = Vec::new();
    let mut i: usize = 0;
    assert(ids@ =~= made.take(0));
    while i < found_at.len()
        invariant
            i <= found_at@.len(),
            store.wf(),
            t == store@,
            pos == ints(found_at@),
            made == ids_at(t, pos),
            forall|k: int| 0 <= k < pos.len() ==> 0 <= #[trigger] pos[k] < t.len(),
            ids@ == made.take(i as int),
        decreases found_at@.len() - i,
    {
        assert(pos[i as int] == found_at@[i as int]);
        ids.push(store.at(found_at[i]).id);
        assert(made.take(i + 1) =~= made.take(i as int).push(made[i as int]));
        i = i + 1;
    }
    assert(made.take(made.len() as int) =~= made);
    ids.push(tid);
    let ghost all = made.push(tid);
    let spare = store.clone();
    let mut k: usize = 0;
    while k < ids.len()
        invariant
            k <= ids@.len(),
            store.wf(),
            spare.wf(),
            spare@ == t,
            t == old(store)@,
            force,
            template_meant(t, name@) == Ok::<Uuid, SpecOpError>(tid),
            all == ids_at(t, instances_of(t, tid)).push(tid),
            ids@ == all,
            subtrees_out(t, all, k as nat) == (store@, true),
        decreases ids@.len() - k,
    {
        if let Err(e) = store.remove_subtree(ids[k]) {
            proof {
                assert(!subtrees_out(t, all, (k + 1) as nat).1);
                lemma_out_stops(t, all, (k + 1) as nat, all.len());
            }
            *store = spare;
            return Err(OpError::internal(e.as_str()));
        }
        k = k + 1;
    }
    Ok(TemplateRemoveOutcome { name: tpl_name, id: tid, removed_instances: ids.len() - 1 })
}

// ---------------------------------------------------------------------------
// What is made is found
// ---------------------------------------------------------------------------

proof fn lemma_mirrored_extends(
    t: Nodes,
    acc: Plan,
    stem: Stem,
    nodes: Nodes,
    record: SpecJson,
    levels: nat,
)
    ensures
        acc.len() <= mirrored(t, acc, stem, nodes, record, levels).len(),
        mirrored(t, acc, stem, nodes, record, levels).take(acc.len() as int) == acc,
    decreases levels, nodes.len(),
{
    let r = mirrored(t, acc, stem, nodes, record, levels);
    if nodes.len() == 0 || levels == 0 {
        assert(r.take(acc.len() as int) =~= acc);
    } else {
        lemma_mirrored_extends(t, acc, stem, nodes.drop_last(), record, levels);
        let before = mirrored(t, acc, stem, nodes.drop_last(), record, levels);
        let n = nodes.last();
        let with = before.push(
            SpecSprout {
                stem,
                name: n.name,
                bud: SpecBud::Plain(json_value_or_empty(field_of(record, n.name))),
            },
        );
        lemma_mirrored_extends(
            t,
            with,
            Stem::Made(before.len() as usize),
            shown_below(t, n.id, true),
            record_field(record, n.name),
            (levels - 1) as nat,
        );
        assert(r.take(acc.len() as int) =~= r.take(with.len() as int).take(acc.len() as int));
        assert(with.take(acc.len() as int) =~= before.take(acc.len() as int));
    }
}

proof fn lemma_sketched_extends(acc: Plan, stem: Stem, j: SpecJson)
    ensures
        acc.len() <= sketched(acc, stem, j).len(),
        sketched(acc, stem, j).take(acc.len() as int) == acc,
    decreases j, 0nat,
{
    match j {
        SpecJson::Object(m) => {
            lemma_fields_extend(acc, stem, m, object_names(m));
        },
        _ => {
            assert(acc.take(acc.len() as int) =~= acc);
        },
    }
}

proof fn lemma_fields_extend(
    acc: Plan,
    stem: Stem,
    m: Map<Seq<char>, SpecJson>,
    names: Seq<Seq<char>>,
)
    ensures
        acc.len() <= sketched_fields(acc, stem, m, names).len(),
        sketched_fields(acc, stem, m, names).take(acc.len() as int) == acc,
    decreases m, names.len(),
{
    let r = sketched_fields(acc, stem, m, names);
    if names.len() == 0 {
        assert(r.take(acc.len() as int) =~= acc);
    } else {
        lemma_fields_extend(acc, stem, m, names.drop_last());
        let before = sketched_fields(acc, stem, m, names.drop_last());
        let k = names.last();
        let with = before.push(
            SpecSprout { stem, name: k, bud: SpecBud::Plain(SpecValue::Empty) },
        );
        assert(with.take(acc.len() as int) =~= before.take(acc.len() as int));
        if m.dom().finite() && m.dom().contains(k) {
            lemma_sketched_extends(with, Stem::Made(before.len() as usize), m[k]);
            assert(r.take(acc.len() as int) =~= r.take(with.len() as int).take(acc.len() as int));
        }
    }
}

/// Whether ids are new to nodes: they differ from each other, and no node has one of them
/// or hangs on one of them.
pub open spec fn ids_are_new(t: Nodes, parent: Option<Uuid>, ids: Seq<Uuid>) -> bool {
    &&& forall|i: int, j: int| 0 <= i < j < ids.len() ==> #[trigger] ids[i] != #[trigger] ids[j]
    &&& forall|i: int, k: int|
        0 <= i < t.len() && 0 <= k < ids.len() ==> (#[trigger] t[i]).id != #[trigger] ids[k]
            && t[i].parent != Some(ids[k])
    &&& forall|k: int| 0 <= k < ids.len() ==> parent != Some(#[trigger] ids[k])
}

/// A child with a name that is planned at `k` is found, where none before it has the name.
proof fn lemma_planted_child(t: Nodes, p: Plan, ids: Seq<Uuid>, parent: Option<Uuid>, k: int)
    requires
        ids.len() == p.len(),
        1 <= k < p.len(),
        ids_are_new(t, parent, ids),
        p[0].stem == Stem::Given(parent),
        p[k].stem == Stem::Made(0),
        forall|j: int| 0 < j < k ==> (#[trigger] p[j]).name != p[k].name,
    ensures
        crate::model::named_child(t + crate::grow::planted(p, ids), ids[0], p[k].name) == Some(
            t.len() + k,
        ),
{
    let u = t + crate::grow::planted(p, ids);
    let q = |n: SpecNode| n.parent == Some(ids[0]) && n.name == p[k].name;
    assert forall|j: int| 0 <= j < t.len() + k implies !q(#[trigger] u[j]) by {
        if j < t.len() {
            assert(u[j] == t[j]);
            assert(t[j].parent != Some(ids[0]));
        } else {
            assert(u[j] == crate::grow::planted_node(p, ids, j - t.len()));
            if j == t.len() {
                assert(parent != Some(ids[0]));
            }
        }
    }
    assert(u[t.len() + k] == crate::grow::planted_node(p, ids, k));
    crate::model::lemma_first_pick_is(u, q, t.len() + k);
}

/// A template that was made is the root of a template, where its ids are new.
pub proof fn made_template_is_found(
    t: Nodes,
    u: Nodes,
    parent: Option<Uuid>,
    name: Seq<char>,
    sample: SpecJson,
    ids: Seq<Uuid>,
)
    requires
        grown(t, u, template_plan(parent, name, sample), ids),
        ids_are_new(t, parent, ids),
    ensures
        template_root(u, ids[0]),
        u[t.len() as int].id == ids[0],
        u[t.len() as int].name == name,
{
    let start = seq![
        SpecSprout { stem: Stem::Given(parent), name, bud: SpecBud::Plain(SpecValue::Empty) },
        SpecSprout {
            stem: Stem::Made(0),
            name: "@模板"@,
            bud: SpecBud::Plain(SpecValue::Empty),
        },
    ];
    let p = template_plan(parent, name, sample);
    lemma_sketched_extends(start, Stem::Made(0), sample);
    assert(p.take(2)[0] == start[0]);
    assert(p.take(2)[1] == start[1]);
    lemma_planted_child(t, p, ids, parent, 1);
    assert(u[t.len() as int + 1] == crate::grow::planted_node(p, ids, 1));
    assert(u[t.len() as int] == crate::grow::planted_node(p, ids, 0));
}

/// An instance that was made is an instance of its template, where its ids are new.
pub proof fn made_instance_is_found(
    t: Nodes,
    u: Nodes,
    tid: Uuid,
    parent: Option<Uuid>,
    record: SpecJson,
    ids: Seq<Uuid>,
)
    requires
        grown(t, u, instance_planned(t, Seq::empty(), tid, parent, record), ids),
        ids_are_new(t, parent, ids),
    ensures
        instance_root(u, ids[0]),
        template_of(u, ids[0]) == Some(tid),
        instances_of(u, tid).contains(t.len() as int),
{
    reveal_strlit("@实例");
    reveal_strlit("@模板");
    let root = Stem::Made(0);
    let start = Seq::<SpecSprout>::empty().push(
        SpecSprout {
            stem: Stem::Given(parent),
            name: name_or_empty(t, tid),
            bud: SpecBud::Plain(SpecValue::Empty),
        },
    ).push(
        SpecSprout { stem: root, name: "@实例"@, bud: SpecBud::Plain(SpecValue::Empty) },
    ).push(
        SpecSprout { stem: root, name: "@模板"@, bud: SpecBud::Plain(SpecValue::Reference(tid)) },
    );
    let p = instance_planned(t, Seq::empty(), tid, parent, record);
    lemma_mirrored_extends(t, start, root, shown_below(t, tid, true), record, t.len());
    assert(p.take(3)[0] == start[0]);
    assert(p.take(3)[1] == start[1]);
    assert(p.take(3)[2] == start[2]);
    assert("@实例"@[1] != "@模板"@[1]);
    lemma_planted_child(t, p, ids, parent, 1);
    lemma_planted_child(t, p, ids, parent, 2);
    assert(u[t.len() as int + 2] == crate::grow::planted_node(p, ids, 2));
    assert(u[t.len() as int] == crate::grow::planted_node(p, ids, 0));
    let q = |n: SpecNode| instance_root(u, n.id) && template_of(u, n.id) == Some(tid);
    crate::model::lemma_picks(u, q);
    assert(q(u[t.len() as int]));
}

// ---------------------------------------------------------------------------
// What an instance holds
// ---------------------------------------------------------------------------

/// What a record holds along a path of names: the field of the field, and so on.
pub open spec fn held_along(record: SpecJson, path: Seq<Seq<char>>) -> Option<SpecJson>
    decreases path.len(),
{
    if path.len() == 0 {
        Some(record)
    } else {
        match record {
            SpecJson::Object(m) => if m.contains_key(path[0]) {
                held_along(m[path[0]], path.skip(1))
            } else {
                None
            },
            _ => None,
        }
    }
}

/// Whether nodes lead down: each is a child of the one before it, the first of `from`, and
/// none is an `@` node.
pub open spec fn leads_down(t: Nodes, from: Uuid, way: Seq<SpecNode>) -> bool {
    forall|i: int|
        0 <= i < way.len() ==> t.contains(#[trigger] way[i]) && !begins(way[i].name, '@')
            && way[i].parent == Some(
            if i == 0 {
                from
            } else {
                way[i - 1].id
            },
        )
}

/// The names of nodes.
pub open spec fn way_names(way: Seq<SpecNode>) -> Seq<Seq<char>> {
    Seq::new(way.len(), |i: int| way[i].name)
}

/// Whether the planned nodes at `pos` copy nodes that lead down: each hangs on the one before
/// it, the first on the stem, and each has the name and what the record holds for it.
spec fn copies_way(p: Plan, stem: Stem, way: Seq<SpecNode>, record: SpecJson, pos: Seq<int>) -> bool {
    &&& pos.len() == way.len()
    &&& forall|i: int|
        0 <= i < pos.len() ==> 0 <= #[trigger] pos[i] < p.len() && p[pos[i]].name == way[i].name
            && p[pos[i]].stem == (if i == 0 {
            stem
        } else {
            Stem::Made(pos[i - 1] as usize)
        }) && p[pos[i]].bud == SpecBud::Plain(
            json_value_or_empty(held_along(record, way_names(way).take(i + 1))),
        )
}

proof fn lemma_shown(t: Nodes, id: Uuid, n: SpecNode)
    ensures
        shown_below(t, id, true).contains(n) <==> t.contains(n) && n.parent == Some(id) && !begins(
            n.name,
            '@',
        ),
{
    let pos = crate::ops::shown_children(t, id, true);
    let s = shown_below(t, id, true);
    if s.contains(n) {
        let k = choose|k: int| 0 <= k < s.len() && s[k] == n;
        assert(t[pos[k]] == n);
    }
    if t.contains(n) && n.parent == Some(id) && !begins(n.name, '@') {
        let j = choose|j: int| 0 <= j < t.len() && t[j] == n;
        assert(t[j].parent == Some(id));
        let k = choose|k: int| 0 <= k < pos.len() && pos[k] == j;
        assert(0 <= pos[k]);
        assert(s[k] == n);
    }
}

/// Plans that start with the same nodes copy the same way.
proof fn lemma_longer_copies(
    p: Plan,
    q: Plan,
    stem: Stem,
    way: Seq<SpecNode>,
    record: SpecJson,
    pos: Seq<int>,
)
    requires
        copies_way(p, stem, way, record, pos),
        p.len() <= q.len(),
        q.take(p.len() as int) == p,
    ensures
        copies_way(q, stem, way, record, pos),
{
    assert forall|i: int| 0 <= i < pos.len() implies 0 <= #[trigger] pos[i] < q.len() && q[pos[i]]
        == p[pos[i]] by {
        assert(q.take(p.len() as int)[pos[i]] == q[pos[i]]);
    }
}

/// A way that starts with a node behind its copy, and goes on behind it.
proof fn lemma_way_goes_on(
    p: Plan,
    stem: Stem,
    n: SpecNode,
    at: int,
    rest: Seq<SpecNode>,
    record: SpecJson,
    pos: Seq<int>,
)
    requires
        0 <= at < p.len(),
        p[at] == (SpecSprout {
            stem,
            name: n.name,
            bud: SpecBud::Plain(json_value_or_empty(field_of(record, n.name))),
        }),
        copies_way(p, Stem::Made(at as usize), rest, record_field(record, n.name), pos),
    ensures
        copies_way(p, stem, seq![n] + rest, record, seq![at] + pos),
{
    let way = seq![n] + rest;
    let all = seq![at] + pos;
    let names = way_names(way);
    assert forall|i: int| 0 <= i < all.len() implies 0 <= #[trigger] all[i] < p.len()
        && p[all[i]].name == way[i].name && p[all[i]].stem == (if i == 0 {
        stem
    } else {
        Stem::Made(all[i - 1] as usize)
    }) && p[all[i]].bud == SpecBud::Plain(
        json_value_or_empty(held_along(record, names.take(i + 1))),
    ) by {
        lemma_held_along(n, rest, record, i);
        if i > 0 {
            let k = i - 1;
            assert(0 <= pos[k] < p.len());
            assert(all[i] == pos[k]);
            assert(way[i] == rest[k]);
            if k > 0 {
                assert(all[i - 1] == pos[k - 1]);
            }
        }
    }
}

proof fn lemma_held_along(n: SpecNode, rest: Seq<SpecNode>, record: SpecJson, i: int)
    requires
        0 <= i <= rest.len(),
    ensures
        held_along(record, way_names(seq![n] + rest).take(i + 1)) == (if i == 0 {
            field_of(record, n.name)
        } else {
            held_along(record_field(record, n.name), way_names(rest).take(i))
        }),
{
    let path = way_names(seq![n] + rest).take(i + 1);
    assert(path[0] == n.name);
    assert(path.skip(1) =~= way_names(rest).take(i));
    if i == 0 {
        assert(path.skip(1).len() == 0);
        if let Some(v) = field_of(record, n.name) {
            assert(held_along(v, path.skip(1)) == Some(v));
        }
    } else {
        assert(path.skip(1).len() > 0);
        if field_of(record, n.name) is None {
            assert(held_along(SpecJson::Null, path.skip(1)) is None);
        }
    }
}

/// Every way down from the nodes is copied.
proof fn lemma_mirror_copies(
    t: Nodes,
    acc: Plan,
    stem: Stem,
    nodes: Nodes,
    record: SpecJson,
    levels: nat,
    way: Seq<SpecNode>,
) -> (pos: Seq<int>)
    requires
        way.len() > 0,
        nodes.contains(way[0]),
        leads_down(t, way[0].parent->Some_0, way),
        ends_within(t, nodes, levels),
    ensures
        copies_way(mirrored(t, acc, stem, nodes, record, levels), stem, way, record, pos),
    decreases levels, nodes.len(),
{
    let p = mirrored(t, acc, stem, nodes, record, levels);
    let d = nodes.drop_last();
    let n = nodes.last();
    let before = mirrored(t, acc, stem, d, record, levels);
    let with = before.push(
        SpecSprout {
            stem,
            name: n.name,
            bud: SpecBud::Plain(json_value_or_empty(field_of(record, n.name))),
        },
    );
    let at = before.len() as int;
    let below = shown_below(t, n.id, true);
    let inner = record_field(record, n.name);
    lemma_mirrored_extends(
        t,
        with,
        Stem::Made(before.len() as usize),
        below,
        inner,
        (levels - 1) as nat,
    );
    assert(p.take(with.len() as int) == with);
    assert(p[at] == with[at]) by {
        assert(p.take(with.len() as int)[at] == p[at]);
    }
    if d.contains(way[0]) {
        assert(ends_within(t, d, levels)) by {
            assert forall|i: int| 0 <= i < d.len() implies ends_within(
                t,
                shown_below(t, (#[trigger] d[i]).id, true),
                (levels - 1) as nat,
            ) by {
                assert(d[i] == nodes[i]);
            }
        }
        let pos = lemma_mirror_copies(t, acc, stem, d, record, levels, way);
        assert(p.take(before.len() as int) =~= with.take(before.len() as int)) by {
            assert(p.take(before.len() as int) =~= p.take(with.len() as int).take(
                before.len() as int,
            ));
        }
        assert(with.take(before.len() as int) =~= before);
        lemma_longer_copies(before, p, stem, way, record, pos);
        pos
    } else {
        let k = choose|k: int| 0 <= k < nodes.len() && nodes[k] == way[0];
        assert(k == nodes.len() - 1) by {
            if k < d.len() {
                assert(d[k] == way[0]);
            }
        }
        assert(ends_within(t, shown_below(t, nodes[k].id, true), (levels - 1) as nat));
        let rest = way.skip(1);
        assert(way =~= seq![n] + rest);
        let pos = if rest.len() == 0 {
            Seq::<int>::empty()
        } else {
            assert(way[1].parent == Some(way[0].id));
            assert(rest[0] == way[1]);
            lemma_shown(t, n.id, way[1]);
            assert forall|i: int| 0 <= i < rest.len() implies t.contains(#[trigger] rest[i])
                && !begins(rest[i].name, '@') && rest[i].parent == Some(
                if i == 0 {
                    rest[0].parent->Some_0
                } else {
                    rest[i - 1].id
                },
            ) by {
                assert(rest[i] == way[i + 1]);
            }
            lemma_mirror_copies(
                t,
                with,
                Stem::Made(before.len() as usize),
                below,
                inner,
                (levels - 1) as nat,
                rest,
            )
        };
        assert(copies_way(p, Stem::Made(at as usize), rest, inner, pos));
        lemma_way_goes_on(p, stem, n, at, rest, record, pos);
        seq![at] + pos
    }
}

/// Whatever is planned for nodes copies a way down from them.
proof fn lemma_mirror_only_copies(
    t: Nodes,
    acc: Plan,
    stem: Stem,
    from: Uuid,
    nodes: Nodes,
    record: SpecJson,
    levels: nat,
    at: int,
) -> (r: (Seq<SpecNode>, Seq<int>))
    requires
        acc.len() <= at < mirrored(t, acc, stem, nodes, record, levels).len(),
        forall|i: int|
            0 <= i < nodes.len() ==> t.contains(#[trigger] nodes[i]) && nodes[i].parent == Some(from)
                && !begins(nodes[i].name, '@'),
    ensures
        r.0.len() > 0,
        leads_down(t, from, r.0),
        copies_way(mirrored(t, acc, stem, nodes, record, levels), stem, r.0, record, r.1),
        r.1.last() == at,
    decreases levels, nodes.len(),
{
    let p = mirrored(t, acc, stem, nodes, record, levels);
    let d = nodes.drop_last();
    let n = nodes.last();
    let before = mirrored(t, acc, stem, d, record, levels);
    let with = before.push(
        SpecSprout {
            stem,
            name: n.name,
            bud: SpecBud::Plain(json_value_or_empty(field_of(record, n.name))),
        },
    );
    let mid = before.len() as int;
    let below = shown_below(t, n.id, true);
    let inner = record_field(record, n.name);
    lemma_mirrored_extends(
        t,
        with,
        Stem::Made(before.len() as usize),
        below,
        inner,
        (levels - 1) as nat,
    );
    assert(p.take(with.len() as int) == with);
    assert(p[mid] == with[mid]) by {
        assert(p.take(with.len() as int)[mid] == p[mid]);
    }
    assert(nodes[nodes.len() - 1] == n);
    if at < mid {
        assert forall|i: int| 0 <= i < d.len() implies t.contains(#[trigger] d[i]) && d[i].parent
            == Some(from) && !begins(d[i].name, '@') by {
            assert(d[i] == nodes[i]);
        }
        let (way, pos) = lemma_mirror_only_copies(t, acc, stem, from, d, record, levels, at);
        assert(p.take(mid) =~= p.take(with.len() as int).take(mid));
        assert(with.take(mid) =~= before);
        lemma_longer_copies(before, p, stem, way, record, pos);
        (way, pos)
    } else if at == mid {
        let none = Seq::<SpecNode>::empty();
        let here = Seq::<int>::empty();
        assert(copies_way(p, Stem::Made(mid as usize), none, inner, here));
        lemma_way_goes_on(p, stem, n, mid, none, record, here);
        assert(seq![n] + none =~= seq![n]);
        (seq![n] + none, seq![mid] + here)
    } else {
        assert forall|i: int| 0 <= i < below.len() implies t.contains(#[trigger] below[i])
            && below[i].parent == Some(n.id) && !begins(below[i].name, '@') by {
            assert(below.contains(below[i]));
            lemma_shown(t, n.id, below[i]);
        }
        let (way, pos) = lemma_mirror_only_copies(
            t,
            with,
            Stem::Made(before.len() as usize),
            n.id,
            below,
            inner,
            (levels - 1) as nat,
            at,
        );
        lemma_way_goes_on(p, stem, n, mid, way, record, pos);
        let all = seq![n] + way;
        assert forall|i: int| 0 <= i < all.len() implies t.contains(#[trigger] all[i]) && !begins(
            all[i].name,
            '@',
        ) && all[i].parent == Some(
            if i == 0 {
                from
            } else {
                all[i - 1].id
            },
        ) by {
            if i > 0 {
                assert(all[i] == way[i - 1]);
            }
        }
        (all, seq![mid] + pos)
    }
}

/// Whether the nodes of `u` at `pos` are an instance's copy of nodes of a template that lead
/// down: below the instance's root each hangs on the one before it, has the name, and has
/// the scalar that the record holds along the names up to it, or nothing.
pub open spec fn instance_holds(
    u: Nodes,
    root: Uuid,
    way: Seq<SpecNode>,
    record: SpecJson,
    pos: Seq<int>,
) -> bool {
    &&& pos.len() == way.len()
    &&& forall|i: int|
        0 <= i < pos.len() ==> 0 <= #[trigger] pos[i] < u.len() && u[pos[i]].name == way[i].name
            && u[pos[i]].parent == Some(
            if i == 0 {
                root
            } else {
                u[pos[i - 1]].id
            },
        ) && u[pos[i]].value == json_value_or_empty(
            held_along(record, way_names(way).take(i + 1)),
        )
}

proof fn lemma_planted_way(
    t: Nodes,
    u: Nodes,
    p: Plan,
    ids: Seq<Uuid>,
    way: Seq<SpecNode>,
    record: SpecJson,
    pos: Seq<int>,
)
    requires
        grown(t, u, p, ids),
        p.len() <= usize::MAX,
        p.len() > 0,
        copies_way(p, Stem::Made(0), way, record, pos),
    ensures
        instance_holds(
            u,
            ids[0],
            way,
            record,
            Seq::new(pos.len(), |i: int| t.len() + pos[i]),
        ),
{
    let all = Seq::new(pos.len(), |i: int| t.len() + pos[i]);
    assert forall|i: int| 0 <= i < all.len() implies 0 <= #[trigger] all[i] < u.len()
        && u[all[i]].name == way[i].name && u[all[i]].parent == Some(
        if i == 0 {
            ids[0]
        } else {
            u[all[i - 1]].id
        },
    ) && u[all[i]].value == json_value_or_empty(held_along(record, way_names(way).take(i + 1))) by {
        assert(0 <= pos[i] < p.len());
        assert(u[all[i]] == crate::grow::planted_node(p, ids, pos[i]));
        if i > 0 {
            assert(0 <= pos[i - 1] < p.len());
            assert(u[all[i - 1]] == crate::grow::planted_node(p, ids, pos[i - 1]));
        }
    }
}

/// The start of an instance: its root and its marks.
spec fn instance_start(t: Nodes, tid: Uuid, parent: Option<Uuid>) -> Plan {
    Seq::<SpecSprout>::empty().push(
        SpecSprout {
            stem: Stem::Given(parent),
            name: name_or_empty(t, tid),
            bud: SpecBud::Plain(SpecValue::Empty),
        },
    ).push(
        SpecSprout { stem: Stem::Made(0), name: "@实例"@, bud: SpecBud::Plain(SpecValue::Empty) },
    ).push(
        SpecSprout {
            stem: Stem::Made(0),
            name: "@模板"@,
            bud: SpecBud::Plain(SpecValue::Reference(tid)),
        },
    )
}

/// An instance has, for every way down in its template, nodes with the same names one below
/// the other, each with the scalar that the record holds when its fields are followed along
/// the same names, and empty where the record holds nothing there.
pub proof fn instance_follows_record(
    t: Nodes,
    u: Nodes,
    tid: Uuid,
    parent: Option<Uuid>,
    record: SpecJson,
    ids: Seq<Uuid>,
    way: Seq<SpecNode>,
) -> (pos: Seq<int>)
    requires
        template_ends(t, tid),
        grown(t, u, instance_planned(t, Seq::empty(), tid, parent, record), ids),
        ids.len() <= usize::MAX,
        leads_down(t, tid, way),
    ensures
        instance_holds(u, ids[0], way, record, pos),
        forall|i: int| 0 <= i < pos.len() ==> t.len() + 3 <= #[trigger] pos[i],
{
    let start = instance_start(t, tid, parent);
    let top = shown_below(t, tid, true);
    let p = instance_planned(t, Seq::empty(), tid, parent, record);
    assert(p == mirrored(t, start, Stem::Made(0), top, record, t.len()));
    lemma_mirrored_extends(t, start, Stem::Made(0), top, record, t.len());
    if way.len() == 0 {
        Seq::<int>::empty()
    } else {
        assert(way[0].parent == Some(tid));
        lemma_shown(t, tid, way[0]);
        let pos = lemma_mirror_copies(t, start, Stem::Made(0), top, record, t.len(), way);
        lemma_planted_way(t, u, p, ids, way, record, pos);
        assert forall|i: int| 0 <= i < pos.len() implies 3 <= #[trigger] pos[i] by {
            if pos[i] < 3 {
                let z = pos[i];
                assert(p.take(3)[z] == start[z]);
                assert(p[z] == start[z]);
                assert(t.contains(way[i]) && !begins(way[i].name, '@'));
                reveal_strlit("@实例");
                reveal_strlit("@模板");
                assert("@实例"@[0] == '@' && "@模板"@[0] == '@');
                if z == 0 {
                    assert(p[z].stem is Given);
                    assert(p[z].stem is Made);
                }
            }
        }
        Seq::new(pos.len(), |i: int| t.len() + pos[i])
    }
}

/// Nothing else is made for an instance: behind its root and its marks every node is the end
/// of such a copy of a way down in the template.
pub proof fn instance_holds_nothing_else(
    t: Nodes,
    u: Nodes,
    tid: Uuid,
    parent: Option<Uuid>,
    record: SpecJson,
    ids: Seq<Uuid>,
    at: int,
) -> (r: (Seq<SpecNode>, Seq<int>))
    requires
        grown(t, u, instance_planned(t, Seq::empty(), tid, parent, record), ids),
        ids.len() <= usize::MAX,
        t.len() + 3 <= at < u.len(),
    ensures
        u.take(t.len() as int) == t,
        u[t.len() as int] == (SpecNode {
            id: ids[0],
            parent,
            name: name_or_empty(t, tid),
            value: SpecValue::Empty,
        }),
        u[t.len() as int + 1].name == "@实例"@ && u[t.len() as int + 1].parent == Some(ids[0]),
        u[t.len() as int + 2].name == "@模板"@ && u[t.len() as int + 2].parent == Some(ids[0])
            && u[t.len() as int + 2].value == SpecValue::Reference(tid),
        leads_down(t, tid, r.0),
        instance_holds(u, ids[0], r.0, record, r.1),
        r.1.len() > 0,
        r.1.last() == at,
{
    let start = instance_start(t, tid, parent);
    let top = shown_below(t, tid, true);
    let p = instance_planned(t, Seq::empty(), tid, parent, record);
    assert(p == mirrored(t, start, Stem::Made(0), top, record, t.len()));
    lemma_mirrored_extends(t, start, Stem::Made(0), top, record, t.len());
    assert(p.take(3)[0] == start[0] && p.take(3)[1] == start[1] && p.take(3)[2] == start[2]);
    assert(u.take(t.len() as int) =~= t);
    assert(u[t.len() as int] == crate::grow::planted_node(p, ids, 0));
    assert(u[t.len() as int + 1] == crate::grow::planted_node(p, ids, 1));
    assert(u[t.len() as int + 2] == crate::grow::planted_node(p, ids, 2));
    assert forall|i: int| 0 <= i < top.len() implies t.contains(#[trigger] top[i]) && top[i].parent
        == Some(tid) && !begins(top[i].name, '@') by {
        assert(top.contains(top[i]));
        lemma_shown(t, tid, top[i]);
    }
    let (way, pos) = lemma_mirror_only_copies(
        t,
        start,
        Stem::Made(0),
        tid,
        top,
        record,
        t.len(),
        at - t.len(),
    );
    lemma_planted_way(t, u, p, ids, way, record, pos);
    (way, Seq::new(pos.len(), |i: int| t.len() + pos[i]))
}

// ---------------------------------------------------------------------------
// Laws of templates
// ---------------------------------------------------------------------------

/// A template is meant by its id, or by its name where exactly one template has it.
pub proof fn templates_are_meant_by_id_or_name(t: Nodes, raw: Seq<char>, u: Uuid)
    ensures
        id_of_text(raw) is Some ==> (template_meant(t, raw) == Ok::<Uuid, SpecOpError>(u) <==> u
            == id_of_text(raw)->Some_0 && found(t, u) is Some && template_root(t, u)),
        id_of_text(raw) is None ==> (template_meant(t, raw) == Ok::<Uuid, SpecOpError>(u) <==> exists|
            i: int,
        | #[trigger] only_template_named(t, raw, i) && t[i].id == u),
        template_meant(t, raw) is Err ==> template_meant(t, raw)->Err_0.kind == ErrKind::NotFound
            || template_meant(t, raw)->Err_0.kind == ErrKind::InvalidArgument,
{
    match id_of_text(raw) {
        Some(id) => {
            crate::model::lemma_find_id(t, id);
        },
        None => {
            let p = |n: SpecNode| n.name == raw && template_root(t, n.id);
            crate::model::lemma_picks(t, p);
            let h = templates_named(t, raw);
            if h.len() == 1 {
                assert(p(t[h[0]]));
                assert forall|j: int|
                    0 <= j < t.len() && (#[trigger] t[j]).name == raw && template_root(t, t[j].id) implies j
                    == h[0] by {
                    assert(p(t[j]));
                    let k = choose|k: int| 0 <= k < h.len() && h[k] == j;
                }
                assert(only_template_named(t, raw, h[0]));
            }
            assert forall|i: int| #[trigger] only_template_named(t, raw, i) implies h.len() == 1
                && h[0] == i by {
                assert(p(t[i]));
                let k = choose|k: int| 0 <= k < h.len() && h[k] == i;
                assert forall|l: int| 0 <= l < h.len() implies #[trigger] h[l] == i by {
                    assert(p(t[h[l]]));
                }
                if h.len() > 1 {
                    assert(h[0] < h[1]);
                }
            }
        },
    }
}

/// Whether a position holds the root of a template with the name, and no other does.
pub open spec fn only_template_named(t: Nodes, name: Seq<char>, i: int) -> bool {
    &&& 0 <= i < t.len() && t[i].name == name && template_root(t, t[i].id)
    &&& forall|j: int|
        0 <= j < t.len() && (#[trigger] t[j]).name == name && template_root(t, t[j].id) ==> j == i
}

/// The templates that are listed are all roots of templates, in order, each with its name and
/// with the number of nodes that are instances of it.
pub proof fn templates_are_all_listed(t: Nodes, i: int)
    ensures
        ({
            let pos = template_roots(t);
            let items = template_items(t, pos);
            &&& items.len() == pos.len()
            &&& 0 <= i < t.len() ==> (pos.contains(i) <==> template_root(t, t[i].id))
            &&& forall|k: int| 0 <= k < pos.len() ==> 0 <= #[trigger] pos[k] < t.len()
            &&& forall|k: int, l: int| 0 <= k < l < pos.len() ==> #[trigger] pos[k] < #[trigger] pos[l]
            &&& forall|k: int|
                0 <= k < items.len() ==> (#[trigger] items[k]).id == t[pos[k]].id && items[k].name
                    == t[pos[k]].name && items[k].instances == instances_of(t, t[pos[k]].id).len()
        }),
        forall|tid: Uuid|
            0 <= i < t.len() ==> (#[trigger] instances_of(t, tid).contains(i) <==> instance_root(
                t,
                t[i].id,
            ) && template_of(t, t[i].id) == Some(tid)),
        forall|tid: Uuid| (#[trigger] instances_of(t, tid)).no_duplicates(),
{
    let p = |n: SpecNode| template_root(t, n.id);
    crate::model::lemma_picks(t, p);
    let pos = template_roots(t);
    if 0 <= i < t.len() {
        if p(t[i]) {
            assert(pos.contains(i));
        }
        if pos.contains(i) {
            let k = choose|k: int| 0 <= k < pos.len() && pos[k] == i;
            assert(p(t[pos[k]]));
        }
    }
    assert forall|tid: Uuid| 0 <= i < t.len() implies (#[trigger] instances_of(t, tid).contains(i)
        <==> instance_root(t, t[i].id) && template_of(t, t[i].id) == Some(tid)) by {
        let q = |n: SpecNode| instance_root(t, n.id) && template_of(t, n.id) == Some(tid);
        crate::model::lemma_picks(t, q);
        let h = instances_of(t, tid);
        if h.contains(i) {
            let k = choose|k: int| 0 <= k < h.len() && h[k] == i;
            assert(q(t[h[k]]));
        }
        if q(t[i]) {
            assert(h.contains(i));
        }
    }
    assert forall|tid: Uuid| (#[trigger] instances_of(t, tid)).no_duplicates() by {
        let q = |n: SpecNode| instance_root(t, n.id) && template_of(t, n.id) == Some(tid);
        crate::model::lemma_picks(t, q);
    }
}

proof fn lemma_sketch_goes_on(acc: Plan, stem: Stem, j: SpecJson)
    ensures
        crate::grow::goes_on(acc, sketched(acc, stem, j)),
    decreases j, 0nat,
{
    match j {
        SpecJson::Object(m) => lemma_sketch_fields_go_on(acc, stem, m, object_names(m)),
        _ => {
            assert(acc.take(acc.len() as int) =~= acc);
        },
    }
}

proof fn lemma_sketch_fields_go_on(
    acc: Plan,
    stem: Stem,
    m: Map<Seq<char>, SpecJson>,
    names: Seq<Seq<char>>,
)
    ensures
        crate::grow::goes_on(acc, sketched_fields(acc, stem, m, names)),
    decreases m, names.len(),
{
    if names.len() == 0 {
        assert(acc.take(acc.len() as int) =~= acc);
    } else {
        let before = sketched_fields(acc, stem, m, names.drop_last());
        let k = names.last();
        lemma_sketch_fields_go_on(acc, stem, m, names.drop_last());
        let with = before.push(
            SpecSprout { stem, name: k, bud: SpecBud::Plain(SpecValue::Empty) },
        );
        assert(with.take(before.len() as int) =~= before);
        crate::grow::lemma_goes_on(acc, before, with);
        if m.dom().finite() && m.dom().contains(k) {
            let s = Stem::Made(before.len() as usize);
            lemma_sketch_goes_on(with, s, m[k]);
            crate::grow::lemma_goes_on(acc, with, sketched(with, s, m[k]));
        }
    }
}

/// Every field of a sample has an empty node that hangs where the sample does, with the name
/// of the field; what is in the field hangs on that node, right behind it.
pub proof fn every_field_is_sketched(
    acc: Plan,
    stem: Stem,
    m: Map<Seq<char>, SpecJson>,
    names: Seq<Seq<char>>,
    k: Seq<char>,
) -> (i: int)
    requires
        crate::json::names_in_order(m, names),
        m.contains_key(k),
    ensures
        ({
            let p = sketched(acc, stem, SpecJson::Object(m));
            &&& crate::grow::goes_on(acc, p)
            &&& acc.len() <= i < p.len()
            &&& p[i].stem == stem && p[i].name == k && p[i].bud == SpecBud::Plain(SpecValue::Empty)
            &&& crate::grow::goes_on(sketched(p.take(i + 1), Stem::Made(i as usize), m[k]), p)
        }),
{
    crate::json::lemma_object_names(m, names);
    lemma_sketch_fields_go_on(acc, stem, m, names);
    let x = choose|x: int| 0 <= x < names.len() && names[x] == k;
    lemma_field_is_sketched(acc, stem, m, names, x)
}

proof fn lemma_field_is_sketched(
    acc: Plan,
    stem: Stem,
    m: Map<Seq<char>, SpecJson>,
    names: Seq<Seq<char>>,
    x: int,
) -> (i: int)
    requires
        0 <= x < names.len(),
        m.dom().finite(),
        forall|y: int| 0 <= y < names.len() ==> m.contains_key(#[trigger] names[y]),
    ensures
        ({
            let p = sketched_fields(acc, stem, m, names);
            let k = names[x];
            &&& acc.len() <= i < p.len()
            &&& p[i].stem == stem && p[i].name == k && p[i].bud == SpecBud::Plain(SpecValue::Empty)
            &&& crate::grow::goes_on(sketched(p.take(i + 1), Stem::Made(i as usize), m[k]), p)
        }),
    decreases names.len(),
{
    let d = names.drop_last();
    let before = sketched_fields(acc, stem, m, d);
    let k = names.last();
    let with = before.push(SpecSprout { stem, name: k, bud: SpecBud::Plain(SpecValue::Empty) });
    let p = sketched_fields(acc, stem, m, names);
    lemma_sketch_fields_go_on(acc, stem, m, d);
    assert(m.contains_key(names[names.len() - 1]));
    lemma_sketch_goes_on(with, Stem::Made(before.len() as usize), m[k]);
    assert(with.take(before.len() as int) =~= before);
    if x < d.len() {
        assert forall|y: int| 0 <= y < d.len() implies m.contains_key(#[trigger] d[y]) by {
            assert(d[y] == names[y]);
        }
        let i = lemma_field_is_sketched(acc, stem, m, d, x);
        crate::grow::lemma_goes_on(before, with, p);
        assert(p.take(before.len() as int)[i] == p[i]);
        assert(p.take(i + 1) =~= before.take(i + 1)) by {
            assert(p.take(before.len() as int).take(i + 1) =~= p.take(i + 1));
        }
        crate::grow::lemma_goes_on(
            sketched(before.take(i + 1), Stem::Made(i as usize), m[names[x]]),
            before,
            p,
        );
        i
    } else {
        let i = before.len() as int;
        assert(p.take(with.len() as int)[i] == p[i]);
        assert(p.take(i + 1) == with);
        assert(p.take(p.len() as int) =~= p);
        i
    }
}

/// Every record has an instance: a node with the name of the template below the parent, an
/// empty `@实例` child and a `@模板` child that refers to the template, in the order of the
/// records; what follows is as if the instance came last.
pub proof fn every_record_has_an_instance(
    t: Nodes,
    tid: Uuid,
    parent: Option<Uuid>,
    records: Seq<SpecJson>,
    n: nat,
    x: int,
) -> (i: int)
    requires
        0 <= x < n <= records.len(),
    ensures
        ({
            let p = instances_planned(t, tid, parent, records, n);
            &&& 0 <= i && i + 2 < p.len()
            &&& p[i] == (SpecSprout {
                stem: Stem::Given(parent),
                name: name_or_empty(t, tid),
                bud: SpecBud::Plain(SpecValue::Empty),
            })
            &&& p[i + 1].stem == Stem::Made(i as usize) && p[i + 1].name == "@实例"@ && p[i + 1].bud
                == SpecBud::Plain(SpecValue::Empty)
            &&& p[i + 2].stem == Stem::Made(i as usize) && p[i + 2].name == "@模板"@ && p[i + 2].bud
                == SpecBud::Plain(SpecValue::Reference(tid))
            &&& crate::grow::goes_on(
                instance_planned(t, p.take(i), tid, parent, records[x]),
                p,
            )
        }),
    decreases n,
{
    let before = instances_planned(t, tid, parent, records, (n - 1) as nat);
    let p = instances_planned(t, tid, parent, records, n);
    lemma_instance_goes_on(t, before, tid, parent, records[n - 1]);
    if x < n - 1 {
        let i = every_record_has_an_instance(t, tid, parent, records, (n - 1) as nat, x);
        let b = p.take(before.len() as int);
        assert(b[i] == p[i] && b[i + 1] == p[i + 1] && b[i + 2] == p[i + 2]);
        assert(before.take(i) =~= p.take(i)) by {
            assert(b.take(i) =~= p.take(i));
        }
        crate::grow::lemma_goes_on(
            instance_planned(t, before.take(i), tid, parent, records[x]),
            before,
            p,
        );
        i
    } else {
        assert(p.take(before.len() as int) =~= before);
        assert(p.take(p.len() as int) =~= p);
        before.len() as int
    }
}

proof fn lemma_instance_goes_on(
    t: Nodes,
    acc: Plan,
    tid: Uuid,
    parent: Option<Uuid>,
    record: SpecJson,
)
    ensures
        ({
            let p = instance_planned(t, acc, tid, parent, record);
            let n = acc.len() as int;
            &&& crate::grow::goes_on(acc, p)
            &&& n + 2 < p.len()
            &&& p[n] == (SpecSprout {
                stem: Stem::Given(parent),
                name: name_or_empty(t, tid),
                bud: SpecBud::Plain(SpecValue::Empty),
            })
            &&& p[n + 1].stem == Stem::Made(n as usize) && p[n + 1].name == "@实例"@ && p[n + 1].bud
                == SpecBud::Plain(SpecValue::Empty)
            &&& p[n + 2].stem == Stem::Made(n as usize) && p[n + 2].name == "@模板"@ && p[n + 2].bud
                == SpecBud::Plain(SpecValue::Reference(tid))
        }),
{
    let n = acc.len() as int;
    let root = Stem::Made(acc.len() as usize);
    let a = acc.push(
        SpecSprout {
            stem: Stem::Given(parent),
            name: name_or_empty(t, tid),
            bud: SpecBud::Plain(SpecValue::Empty),
        },
    ).push(
        SpecSprout { stem: root, name: "@实例"@, bud: SpecBud::Plain(SpecValue::Empty) },
    ).push(
        SpecSprout { stem: root, name: "@模板"@, bud: SpecBud::Plain(SpecValue::Reference(tid)) },
    );
    let p = instance_planned(t, acc, tid, parent, record);
    lemma_mirror_goes_on(t, a, root, shown_below(t, tid, true), record, t.len());
    let b = p.take(a.len() as int);
    assert(b[n] == p[n] && b[n + 1] == p[n + 1] && b[n + 2] == p[n + 2]);
    assert(a.take(n) =~= acc);
    crate::grow::lemma_goes_on(acc, a, p);
}

proof fn lemma_mirror_goes_on(
    t: Nodes,
    acc: Plan,
    stem: Stem,
    nodes: Nodes,
    record: SpecJson,
    levels: nat,
)
    ensures
        crate::grow::goes_on(acc, mirrored(t, acc, stem, nodes, record, levels)),
    decreases levels, nodes.len(),
{
    if nodes.len() == 0 || levels == 0 {
        assert(acc.take(acc.len() as int) =~= acc);
    } else {
        let before = mirrored(t, acc, stem, nodes.drop_last(), record, levels);
        lemma_mirror_goes_on(t, acc, stem, nodes.drop_last(), record, levels);
        let n = nodes.last();
        let with = before.push(
            SpecSprout {
                stem,
                name: n.name,
                bud: SpecBud::Plain(json_value_or_empty(field_of(record, n.name))),
            },
        );
        assert(with.take(before.len() as int) =~= before);
        crate::grow::lemma_goes_on(acc, before, with);
        let s = Stem::Made(before.len() as usize);
        let sub = shown_below(t, n.id, true);
        let rec = record_field(record, n.name);
        lemma_mirror_goes_on(t, with, s, sub, rec, (levels - 1) as nat);
        crate::grow::lemma_goes_on(acc, with, mirrored(t, with, s, sub, rec, (levels - 1) as nat));
    }
}

/// Whether nodes lead down from one of the given ones, each a child of the one before that is
/// no `@` node.
pub open spec fn leads_on(t: Nodes, nodes: Nodes, way: Nodes) -> bool {
    &&& way.len() > 0 && nodes.contains(way[0])
    &&& forall|k: int|
        0 <= k < way.len() - 1 ==> shown_below(t, (#[trigger] way[k]).id, true).contains(way[k + 1])
}

/// What is below nodes ends within a number of levels exactly if no way down is longer.
pub proof fn structures_end_unless_a_way_goes_on(t: Nodes, nodes: Nodes, levels: nat) -> (way: Nodes)
    ensures
        ends_within(t, nodes, levels) || (way.len() == levels + 1 && leads_on(t, nodes, way)),
    decreases levels,
{
    if ends_within(t, nodes, levels) {
        Seq::empty()
    } else if levels == 0 {
        let way = seq![nodes[0]];
        assert(nodes.contains(way[0]));
        way
    } else {
        let i = choose|i: int|
            0 <= i < nodes.len() && !ends_within(
                t,
                shown_below(t, (#[trigger] nodes[i]).id, true),
                (levels - 1) as nat,
            );
        let sub = shown_below(t, nodes[i].id, true);
        let rest = structures_end_unless_a_way_goes_on(t, sub, (levels - 1) as nat);
        let way = seq![nodes[i]] + rest;
        assert(nodes.contains(way[0]));
        assert forall|k: int| 0 <= k < way.len() - 1 implies shown_below(
            t,
            (#[trigger] way[k]).id,
            true,
        ).contains(way[k + 1]) by {
            if k > 0 {
                assert(way[k] == rest[k - 1] && way[k + 1] == rest[k]);
            } else {
                assert(way[1] == rest[0]);
            }
        }
        way
    }
}

/// Where a way down is longer than a number of levels, what is below does not end within it.
pub proof fn a_longer_way_does_not_end(t: Nodes, nodes: Nodes, levels: nat, way: Nodes)
    requires
        leads_on(t, nodes, way),
        way.len() > levels,
    ensures
        !ends_within(t, nodes, levels),
    decreases levels,
{
    let i = choose|i: int| 0 <= i < nodes.len() && nodes[i] == way[0];
    if levels > 0 {
        let rest = way.skip(1);
        let sub = shown_below(t, nodes[i].id, true);
        assert(way[0].id == nodes[i].id);
        assert(rest[0] == way[1]);
        assert forall|k: int| 0 <= k < rest.len() - 1 implies shown_below(
            t,
            (#[trigger] rest[k]).id,
            true,
        ).contains(rest[k + 1]) by {
            assert(rest[k] == way[k + 1] && rest[k + 1] == way[k + 1 + 1]);
        }
        a_longer_way_does_not_end(t, sub, (levels - 1) as nat, rest);
    }
}

proof fn lemma_out_in_turn(t: Nodes, ids: Seq<Uuid>, k: nat)
    ensures
        subtrees_out(t, ids, k) == crate::tree::taken_out(t, ids, k),
    decreases k,
{
    if k > 0 {
        lemma_out_in_turn(t, ids, (k - 1) as nat);
    }
}

/// Where subtrees are taken out, their roots are gone, and what is left stands as it was, in
/// order.
pub proof fn subtrees_out_leave_the_rest(t: Nodes, ids: Seq<Uuid>, k: nat) -> (at: Seq<int>)
    requires
        k <= ids.len(),
        subtrees_out(t, ids, k).1,
    ensures
        at.len() == subtrees_out(t, ids, k).0.len(),
        forall|x: int|
            0 <= x < at.len() ==> 0 <= #[trigger] at[x] < t.len() && subtrees_out(t, ids, k).0[x]
                == t[at[x]],
        forall|x: int, y: int| 0 <= x < y < at.len() ==> #[trigger] at[x] < #[trigger] at[y],
        forall|j: int| 0 <= j < k ==> found(subtrees_out(t, ids, k).0, #[trigger] ids[j]) is None,
{
    lemma_out_in_turn(t, ids, k);
    crate::tree::taking_out_spares_the_rest(t, ids, k)
}

} // verus!
