//! Structural checks on a run of nodes.
use crate::codec::{models, nil_id, uuid_text, Node, SpecNode, Uuid, Value};
use crate::idmap::{IdMap, IdSet};
use crate::model::{find_id, ids_of, Nodes};
use crate::text::{join3, owned};
use crate::tree::found;
use vstd::prelude::*;

verus! {

/// A fault of a node.
#[derive(Debug, PartialEq)]
pub struct Error {
    pub code: &'static str,
    pub node_id: Uuid,
    pub message: String,
}

/// What a fault is: the model of [`Error`].
pub struct SpecFault {
    pub code: Seq<char>,
    pub node: Uuid,
    pub message: Seq<char>,
}

impl View for Error {
    type V = SpecFault;

    open spec fn view(&self) -> SpecFault {
        SpecFault { code: self.code@, node: self.node_id, message: self.message@ }
    }
}

/// The models of faults.
pub open spec fn fault_models(s: Seq<Error>) -> Seq<SpecFault> {
    Seq::new(s.len(), |i: int| s[i]@)
}

/// A node without an id.
pub open spec fn fault_nil(id: Uuid) -> SpecFault {
    SpecFault { code: "E001"@, node: id, message: "节点编号缺失（为 nil）"@ }
}

/// An id that occurs again.
pub open spec fn fault_duplicate(id: Uuid) -> SpecFault {
    SpecFault { code: "E002"@, node: id, message: "编号冲突（与另一节点相同）"@ }
}

/// A node that is its own parent.
pub open spec fn fault_own_parent(id: Uuid) -> SpecFault {
    SpecFault { code: "E005"@, node: id, message: "父节点指向自己"@ }
}

/// A node on a cycle of parents.
pub open spec fn fault_cycle(id: Uuid) -> SpecFault {
    SpecFault { code: "E006"@, node: id, message: "父节点成环"@ }
}

/// A parent that does not exist.
pub open spec fn fault_parent(id: Uuid, parent: Uuid) -> SpecFault {
    SpecFault {
        code: "E011"@,
        node: id,
        message: "父节点断裂："@ + uuid_text(parent) + " 不存在"@,
    }
}

/// A target that does not exist.
pub open spec fn fault_target(id: Uuid, target: Uuid) -> SpecFault {
    SpecFault {
        code: "R001"@,
        node: id,
        message: "引用断裂：目标 "@ + uuid_text(target) + " 不存在"@,
    }
}

/// One fault if the condition holds.
pub open spec fn fault_if(c: bool, f: SpecFault) -> Seq<SpecFault> {
    if c {
        seq![f]
    } else {
        Seq::<SpecFault>::empty()
    }
}

/// The faults of node `i` on its own and against those before it.
pub open spec fn own_faults(t: Nodes, i: int) -> Seq<SpecFault> {
    let n = t[i];
    fault_if(n.id == nil_id(), fault_nil(n.id)) + fault_if(
        find_id(t.take(i), n.id) is Some,
        fault_duplicate(n.id),
    ) + fault_if(n.parent == Some(n.id), fault_own_parent(n.id))
}

/// The faults of the edges of node `i`: its parent and its reference.
pub open spec fn edge_faults(t: Nodes, i: int) -> Seq<SpecFault> {
    let n = t[i];
    fault_if(
        n.parent is Some && find_id(t, n.parent->Some_0) is None,
        fault_parent(n.id, n.parent->Some_0),
    ) + fault_if(
        n.value is Reference && find_id(t, n.value->Reference_0) is None,
        fault_target(n.id, n.value->Reference_0),
    )
}

/// The own faults of the first `k` nodes.
pub open spec fn all_own_faults(t: Nodes, k: nat) -> Seq<SpecFault>
    decreases k,
{
    if k == 0 {
        Seq::<SpecFault>::empty()
    } else {
        all_own_faults(t, (k - 1) as nat) + own_faults(t, k - 1)
    }
}

/// The edge faults of the first `k` nodes.
pub open spec fn all_edge_faults(t: Nodes, k: nat) -> Seq<SpecFault>
    decreases k,
{
    if k == 0 {
        Seq::<SpecFault>::empty()
    } else {
        all_edge_faults(t, (k - 1) as nat) + edge_faults(t, k - 1)
    }
}

/// The parent of a node, if it exists.
pub open spec fn step_up(t: Nodes, n: SpecNode) -> Option<Uuid> {
    match n.parent {
        Some(p) => if find_id(t, p) is Some {
            Some(p)
        } else {
            None
        },
        None => None,
    }
}

/// The ancestor of `n` that is `k` steps up.
pub open spec fn up(t: Nodes, n: SpecNode, k: nat) -> Option<Uuid>
    decreases k,
{
    if k == 0 {
        Some(n.id)
    } else if k == 1 {
        step_up(t, n)
    } else {
        match up(t, n, (k - 1) as nat) {
            Some(a) => match found(t, a) {
                Some(m) => step_up(t, m),
                None => None,
            },
            None => None,
        }
    }
}

/// Whether the steps up from `n` lead back to its id.
pub open spec fn on_cycle(t: Nodes, n: SpecNode) -> bool {
    exists|k: nat| k >= 1 && #[trigger] up(t, n, k) == Some(n.id)
}

/// Whether `id` is met on the way up from `n` before its own id comes again.
pub open spec fn met_before_return(t: Nodes, n: SpecNode, id: Uuid) -> bool {
    exists|k: nat|
        #[trigger] up(t, n, k) == Some(id) && forall|j: nat|
            1 <= j <= k ==> #[trigger] up(t, n, j) != Some(n.id)
}

/// The ids of the cycle through `n`.
pub open spec fn cycle_members(t: Nodes, n: SpecNode) -> Set<Uuid> {
    Set::new(|id: Uuid| met_before_return(t, n, id))
}

/// Whether a cycle is reported at node `n`: it has a parent other than itself,
/// it is on a cycle, and on none that was reported before.
pub open spec fn reports_cycle(t: Nodes, n: SpecNode, done: Set<Uuid>) -> bool {
    n.parent is Some && n.parent != Some(n.id) && !done.contains(n.id) && on_cycle(t, n)
}

/// The cycle faults of the first `k` nodes, and the ids of the cycles that they
/// report.
pub open spec fn cycle_faults(t: Nodes, k: nat) -> (Seq<SpecFault>, Set<Uuid>)
    decreases k,
{
    if k == 0 {
        (Seq::<SpecFault>::empty(), Set::empty())
    } else {
        let (fs, done) = cycle_faults(t, (k - 1) as nat);
        let n = t[k - 1];
        if reports_cycle(t, n, done) {
            (fs.push(fault_cycle(n.id)), done.union(cycle_members(t, n)))
        } else {
            (fs, done)
        }
    }
}

/// All faults of a run of nodes.
pub open spec fn faults(t: Nodes) -> Seq<SpecFault> {
    all_own_faults(t, t.len()) + all_edge_faults(t, t.len()) + cycle_faults(t, t.len()).0
}

/// How many nodes have an id that is not in `seen`.
pub open spec fn unseen(t: Nodes, seen: Set<Uuid>) -> nat
    decreases t.len(),
{
    if t.len() == 0 {
        0
    } else {
        unseen(t.drop_last(), seen) + (if seen.contains(t.last().id) {
            0nat
        } else {
            1nat
        })
    }
}

pub proof fn lemma_unseen_insert(t: Nodes, seen: Set<Uuid>, x: Uuid)
    ensures
        unseen(t, seen.insert(x)) <= unseen(t, seen),
        !seen.contains(x) && find_id(t, x) is Some ==> unseen(t, seen.insert(x)) < unseen(t, seen),
    decreases t.len(),
{
    if t.len() > 0 {
        lemma_unseen_insert(t.drop_last(), seen, x);
    }
}

/// Where the way up has met an id twice without meeting its start, it never
/// meets its start.
proof fn lemma_no_return(t: Nodes, n: SpecNode, j: nat, m: nat, k: nat)
    requires
        1 <= j < m,
        up(t, n, m) == up(t, n, j),
        forall|i: nat| 1 <= i < m ==> #[trigger] up(t, n, i) != Some(n.id),
        k >= 1,
    ensures
        up(t, n, k) != Some(n.id),
        exists|i: nat| 1 <= i < m && #[trigger] up(t, n, i) == up(t, n, k),
    decreases k,
{
    if k >= m {
        lemma_no_return(t, n, j, m, (k - 1) as nat);
        let i = choose|i: nat| 1 <= i < m && #[trigger] up(t, n, i) == up(t, n, (k - 1) as nat);
        assert(up(t, n, k) == up(t, n, i + 1));
        if i + 1 < m {
            assert(up(t, n, i + 1) != Some(n.id));
        } else {
            assert(up(t, n, k) == up(t, n, j));
        }
    }
}

/// Where the way up has ended, it stays ended.
proof fn lemma_ended(t: Nodes, n: SpecNode, m: nat, k: nat)
    requires
        1 <= m <= k,
        up(t, n, m) is None,
    ensures
        up(t, n, k) is None,
    decreases k,
{
    if m < k {
        lemma_ended(t, n, m, (k - 1) as nat);
    }
}

/// A fault, from its parts.
fn fault(code: &'static str, node_id: Uuid, message: String) -> (r: Error)
    ensures
        r@ == (SpecFault { code: code@, node: node_id, message: message@ }),
{
    Error { code, node_id, message }
}

/// The index of a run of nodes by id.
pub fn index_of(nodes: &Vec<Node>) -> (r: IdMap<usize>)
    ensures
        forall|id: Uuid| #[trigger]
            find_id(models(nodes@), id) == (if r@.contains_key(id) {
                Some(r@[id] as int)
            } else {
                None
            }),
{
    let ghost t = models(nodes@);
    let mut index: IdMap<usize> = IdMap::new();
    let mut i: usize = 0;
    while i < nodes.len()
        invariant
            i <= nodes@.len(),
            t == models(nodes@),
            forall|id: Uuid| #[trigger]
                find_id(t.take(i as int), id) == (if index@.contains_key(id) {
                    Some(index@[id] as int)
                } else {
                    None
                }),
        decreases nodes@.len() - i,
    {
        let ghost m0 = index@;
        index.insert(nodes[i].id, i);
        proof {
            let d = t.take(i as int);
            let n = t[i as int];
            assert(t.take(i + 1) =~= d.push(n));
            assert forall|id: Uuid| #[trigger]
                find_id(t.take(i + 1), id) == (if index@.contains_key(id) {
                    Some(index@[id] as int)
                } else {
                    None
                }) by {
                crate::model::lemma_find_id_push(d, n, id);
                assert(find_id(d, id) == (if m0.contains_key(id) {
                    Some(m0[id] as int)
                } else {
                    None
                }));
            }
        }
        i = i + 1;
    }
    assert(t.take(t.len() as int) =~= t);
    index
}

/// The ids on the way up from node `s` until its own id comes again, if it
/// does.
fn cycle_through(nodes: &Vec<Node>, index: &IdMap<usize>, s: usize) -> (r: Option<IdSet>)
    requires
        s < nodes@.len(),
        forall|id: Uuid| #[trigger]
            find_id(models(nodes@), id) == (if index@.contains_key(id) {
                Some(index@[id] as int)
            } else {
                None
            }),
    ensures
        match r {
            Some(m) => on_cycle(models(nodes@), nodes@[s as int]@) && m@ == cycle_members(
                models(nodes@),
                nodes@[s as int]@,
            ),
            None => !on_cycle(models(nodes@), nodes@[s as int]@),
        },
{
    let ghost t = models(nodes@);
    let ghost n = nodes@[s as int]@;
    let start = nodes[s].id;
    let mut met = IdSet::new();
    met.insert(start);
    let mut cur: Option<Uuid> = nodes[s].parent;
    let ghost mut k: nat = 1;
    assert(met@ =~= set![start]);
    assert(up(t, n, 0) == Some(start));
    loop
        invariant
            t == models(nodes@),
            n == nodes@[s as int]@,
            start == n.id,
            k >= 1,
            forall|id: Uuid| #[trigger]
                find_id(t, id) == (if index@.contains_key(id) {
                    Some(index@[id] as int)
                } else {
                    None
                }),
            up(t, n, k) == (match cur {
                Some(p) => if find_id(t, p) is Some {
                    Some(p)
                } else {
                    None
                },
                None => None,
            }),
            forall|j: nat| 1 <= j < k ==> #[trigger] up(t, n, j) != Some(start),
            forall|j: nat| j < k ==> #[trigger] up(t, n, j) is Some && met@.contains(
                up(t, n, j)->Some_0,
            ),
            forall|x: Uuid|
                met@.contains(x) ==> exists|j: nat| j < k && #[trigger] up(t, n, j) == Some(x),
        decreases unseen(t, met@),
    {
        let p = match cur {
            Some(p) => p,
            None => {
                proof {
                    assert forall|l: nat| l >= 1 implies #[trigger] up(t, n, l) != Some(start) by {
                        if l >= k {
                            lemma_ended(t, n, k, l);
                        }
                    }
                }
                return None;
            },
        };
        assert(find_id(t, p) == (if index@.contains_key(p) {
            Some(index@[p] as int)
        } else {
            None
        }));
        let i: usize = match index.get(p) {
            Some(i) => *i,
            None => {
                proof {
                    assert forall|l: nat| l >= 1 implies #[trigger] up(t, n, l) != Some(start) by {
                        if l >= k {
                            lemma_ended(t, n, k, l);
                        }
                    }
                }
                return None;
            },
        };
        proof {
            crate::model::lemma_find_id(t, p);
        }
        if p == start {
            proof {
                assert(up(t, n, k) == Some(start));
                assert forall|x: Uuid| met@.contains(x) <==> cycle_members(t, n).contains(x) by {
                    if met@.contains(x) {
                        let j = choose|j: nat| j < k && #[trigger] up(t, n, j) == Some(x);
                        assert(met_before_return(t, n, x));
                    }
                    if cycle_members(t, n).contains(x) {
                        let j = choose|j: nat|
                            #[trigger] up(t, n, j) == Some(x) && forall|i: nat|
                                1 <= i <= j ==> #[trigger] up(t, n, i) != Some(n.id);
                        if j >= k {
                            assert(up(t, n, k) != Some(n.id));
                        }
                    }
                }
                assert(met@ =~= cycle_members(t, n));
            }
            return Some(met);
        }
        let ghost before = met@;
        proof {
            lemma_unseen_insert(t, before, p);
        }
        if !met.insert(p) {
            proof {
                let j = choose|j: nat| j < k && #[trigger] up(t, n, j) == Some(p);
                assert(j >= 1);
                assert(up(t, n, k) == up(t, n, j));
                assert forall|l: nat| l >= 1 implies #[trigger] up(t, n, l) != Some(start) by {
                    lemma_no_return(t, n, j, k, l);
                }
            }
            return None;
        }
        cur = nodes[i].parent;
        proof {
            assert(nodes@[i as int]@ == t[i as int]);
            assert(found(t, p) == Some(t[i as int]));
            assert(up(t, n, k + 1) == step_up(t, t[i as int]));
            assert forall|x: Uuid| met@.contains(x) implies exists|j: nat|
                j < k + 1 && #[trigger] up(t, n, j) == Some(x) by {
                if before.contains(x) {
                    let j = choose|j: nat| j < k && #[trigger] up(t, n, j) == Some(x);
                    assert(j < k + 1);
                } else {
                    assert(up(t, n, k) == Some(x));
                }
            }
            k = k + 1;
        }
    }
}

/// Checks a run of nodes and lists all faults: first those of single nodes,
/// then broken edges, then cycles of parents, each cycle once.
pub fn validate(nodes: &Vec<Node>) -> (r: Vec<Error>)
    ensures
        fault_models(r@) == faults(models(nodes@)),
{
    let ghost t = models(nodes@);
    let index = index_of(nodes);
    let mut out: Vec<Error> = Vec::new();
    let mut seen = IdSet::new();
    let mut i: usize = 0;
    assert(fault_models(out@) =~= all_own_faults(t, 0));
    assert(seen@ =~= ids_of(t.take(0)));
    while i < nodes.len()
        invariant
            i <= nodes@.len(),
            t == models(nodes@),
            seen@ == ids_of(t.take(i as int)),
            fault_models(out@) == all_own_faults(t, i as nat),
        decreases nodes@.len() - i,
    {
        let id = nodes[i].id;
        let ghost f0 = fault_models(out@);
        proof {
            lemma_seen_is_found(t, i as int);
            assert(t[i as int] == nodes@[i as int]@);
        }
        if id.is_nil() {
            out.push(fault("E001", id, owned("节点编号缺失（为 nil）")));
        }
        let ghost f1 = fault_models(out@);
        assert(f1 =~= f0 + fault_if(id == nil_id(), fault_nil(id)));
        if !seen.insert(id) {
            out.push(fault("E002", id, owned("编号冲突（与另一节点相同）")));
        }
        let ghost f2 = fault_models(out@);
        assert(f2 =~= f1 + fault_if(find_id(t.take(i as int), id) is Some, fault_duplicate(id)));
        if let Some(p) = nodes[i].parent {
            if p == id {
                out.push(fault("E005", id, owned("父节点指向自己")));
            }
        }
        assert(fault_models(out@) =~= f2 + fault_if(
            t[i as int].parent == Some(id),
            fault_own_parent(id),
        ));
        assert(fault_models(out@) =~= f0 + own_faults(t, i as int));
        i = i + 1;
    }
    let ghost part1 = all_own_faults(t, t.len());
    let mut j: usize = 0;
    assert(part1 + all_edge_faults(t, 0) =~= part1);
    while j < nodes.len()
        invariant
            j <= nodes@.len(),
            t == models(nodes@),
            forall|id: Uuid| #[trigger]
                find_id(t, id) == (if index@.contains_key(id) {
                    Some(index@[id] as int)
                } else {
                    None
                }),
            fault_models(out@) == part1 + all_edge_faults(t, j as nat),
        decreases nodes@.len() - j,
    {
        let id = nodes[j].id;
        let ghost f0 = fault_models(out@);
        assert(t[j as int] == nodes@[j as int]@);
        if let Some(p) = nodes[j].parent {
            assert(find_id(t, p) == find_id(t, p));
            if !index.contains_key(p) {
                let text = p.to_string();
                out.push(fault("E011", id, join3("父节点断裂：", text.as_str(), " 不存在")));
            }
        }
        let ghost n = t[j as int];
        let ghost f1 = fault_models(out@);
        assert(f1 =~= f0 + fault_if(
            n.parent is Some && find_id(t, n.parent->Some_0) is None,
            fault_parent(n.id, n.parent->Some_0),
        ));
        if let Value::Reference(target) = &nodes[j].value {
            assert(find_id(t, *target) == find_id(t, *target));
            if !index.contains_key(*target) {
                let text = target.to_string();
                out.push(fault("R001", id, join3("引用断裂：目标 ", text.as_str(), " 不存在")));
            }
        }
        assert(fault_models(out@) =~= f1 + fault_if(
            n.value is Reference && find_id(t, n.value->Reference_0) is None,
            fault_target(n.id, n.value->Reference_0),
        ));
        assert(fault_models(out@) =~= part1 + (all_edge_faults(t, j as nat) + edge_faults(
            t,
            j as int,
        )));
        j = j + 1;
    }
    let ghost part2 = part1 + all_edge_faults(t, t.len());
    let mut done = IdSet::new();
    let mut k: usize = 0;
    assert(part2 + cycle_faults(t, 0).0 =~= part2);
    while k < nodes.len()
        invariant
            k <= nodes@.len(),
            t == models(nodes@),
            forall|id: Uuid| #[trigger]
                find_id(t, id) == (if index@.contains_key(id) {
                    Some(index@[id] as int)
                } else {
                    None
                }),
            done@ == cycle_faults(t, k as nat).1,
            fault_models(out@) == part2 + cycle_faults(t, k as nat).0,
        decreases nodes@.len() - k,
    {
        let id = nodes[k].id;
        let ghost n = t[k as int];
        let ghost f0 = fault_models(out@);
        assert(n == nodes@[k as int]@);
        let skip = match nodes[k].parent {
            Some(p) => p == id,
            None => true,
        };
        if !skip && !done.contains(id) {
            match cycle_through(nodes, &index, k) {
                Some(members) => {
                    out.push(fault("E006", id, owned("父节点成环")));
                    add_cycle(nodes, &index, k, &mut done, &members);
                    assert(fault_models(out@) =~= f0.push(fault_cycle(id)));
                    assert(fault_models(out@) =~= part2 + cycle_faults(t, (k + 1) as nat).0);
                },
                None => {},
            }
        }
        k = k + 1;
    }
    out
}

/// Adds the ids of the cycle through node `s`.
fn add_cycle(nodes: &Vec<Node>, index: &IdMap<usize>, s: usize, done: &mut IdSet, members: &IdSet)
    requires
        s < nodes@.len(),
        members@ == cycle_members(models(nodes@), nodes@[s as int]@),
        on_cycle(models(nodes@), nodes@[s as int]@),
        forall|id: Uuid| #[trigger]
            find_id(models(nodes@), id) == (if index@.contains_key(id) {
                Some(index@[id] as int)
            } else {
                None
            }),
    ensures
        final(done)@ == old(done)@.union(members@),
{
    let ghost t = models(nodes@);
    let ghost n = nodes@[s as int]@;
    let ghost d0 = done@;
    let mut i: usize = 0;
    while i < nodes.len()
        invariant
            i <= nodes@.len(),
            t == models(nodes@),
            done@.subset_of(d0.union(members@)),
            d0.subset_of(done@),
            forall|j: int|
                0 <= j < i && members@.contains((#[trigger] t[j]).id) ==> done@.contains(t[j].id),
        decreases nodes@.len() - i,
    {
        assert(t[i as int] == nodes@[i as int]@);
        if members.contains(nodes[i].id) {
            done.insert(nodes[i].id);
        }
        i = i + 1;
    }
    proof {
        assert forall|x: Uuid| members@.contains(x) implies done@.contains(x) by {
            let k = choose|k: nat|
                #[trigger] up(t, n, k) == Some(x) && forall|j: nat|
                    1 <= j <= k ==> #[trigger] up(t, n, j) != Some(n.id);
            if k == 0 {
                assert(t[s as int].id == x);
            } else {
                lemma_up_exists(t, n, k);
                crate::model::lemma_find_id(t, x);
                assert(t[find_id(t, x)->Some_0].id == x);
            }
        }
        assert(done@ =~= d0.union(members@));
    }
}

proof fn lemma_up_exists(t: Nodes, n: SpecNode, k: nat)
    requires
        k >= 1,
        up(t, n, k) is Some,
    ensures
        find_id(t, up(t, n, k)->Some_0) is Some,
{
}

pub proof fn lemma_seen_is_found(t: Nodes, i: int)
    requires
        0 <= i < t.len(),
    ensures
        ids_of(t.take(i)).contains(t[i].id) == (find_id(t.take(i), t[i].id) is Some),
        ids_of(t.take(i + 1)) == ids_of(t.take(i)).insert(t[i].id),
{
    crate::model::lemma_find_id(t.take(i), t[i].id);
    if find_id(t.take(i), t[i].id) is Some {
        assert(t.take(i)[find_id(t.take(i), t[i].id)->Some_0].id == t[i].id);
    }
    crate::tree::lemma_ids_of_push(t, i);
}

/// Whether a run of nodes has no structural fault: every id is given and
/// occurs once, parents and targets exist, and no way up leads back.
pub open spec fn sound(t: Nodes) -> bool {
    &&& forall|i: int| 0 <= i < t.len() ==> (#[trigger] t[i]).id != nil_id()
    &&& crate::model::distinct_ids(t)
    &&& forall|i: int|
        0 <= i < t.len() && (#[trigger] t[i]).parent is Some ==> find_id(
            t,
            t[i].parent->Some_0,
        ) is Some
    &&& forall|i: int|
        0 <= i < t.len() && (#[trigger] t[i]).value is Reference ==> find_id(
            t,
            t[i].value->Reference_0,
        ) is Some
    &&& forall|i: int| 0 <= i < t.len() ==> !on_cycle(t, #[trigger] t[i])
}

proof fn lemma_own_empty(t: Nodes, k: nat)
    requires
        k <= t.len(),
    ensures
        all_own_faults(t, k).len() == 0 <==> forall|i: int|
            0 <= i < k ==> (#[trigger] own_faults(t, i)).len() == 0,
    decreases k,
{
    if k > 0 {
        lemma_own_empty(t, (k - 1) as nat);
        if all_own_faults(t, k).len() == 0 {
            assert(own_faults(t, k - 1).len() == 0);
        }
    }
}

proof fn lemma_edge_empty(t: Nodes, k: nat)
    requires
        k <= t.len(),
    ensures
        all_edge_faults(t, k).len() == 0 <==> forall|i: int|
            0 <= i < k ==> (#[trigger] edge_faults(t, i)).len() == 0,
    decreases k,
{
    if k > 0 {
        lemma_edge_empty(t, (k - 1) as nat);
        if all_edge_faults(t, k).len() == 0 {
            assert(edge_faults(t, k - 1).len() == 0);
        }
    }
}

proof fn lemma_cycle_empty(t: Nodes, k: nat)
    requires
        k <= t.len(),
    ensures
        cycle_faults(t, k).0.len() == 0 <==> forall|i: int|
            0 <= i < k ==> !reports_cycle(t, #[trigger] t[i], Set::empty()),
        cycle_faults(t, k).0.len() == 0 ==> cycle_faults(t, k).1 == Set::<Uuid>::empty(),
    decreases k,
{
    if k > 0 {
        lemma_cycle_empty(t, (k - 1) as nat);
        assert(reports_cycle(t, t[k - 1], Set::empty()) || !reports_cycle(
            t,
            t[k - 1],
            Set::empty(),
        ));
    }
}

/// No fault is listed exactly for sound runs of nodes.
pub proof fn no_faults_iff_sound(t: Nodes)
    ensures
        faults(t).len() == 0 <==> sound(t),
{
    lemma_own_empty(t, t.len());
    lemma_edge_empty(t, t.len());
    lemma_cycle_empty(t, t.len());
    if faults(t).len() == 0 {
        assert(all_own_faults(t, t.len()).len() == 0);
        assert(all_edge_faults(t, t.len()).len() == 0);
        assert forall|i: int| 0 <= i < t.len() implies (#[trigger] t[i]).id != nil_id() by {
            assert(own_faults(t, i).len() == 0);
        }
        assert forall|i: int, j: int| 0 <= i < j < t.len() implies (#[trigger] t[i]).id != (
        #[trigger] t[j]).id by {
            assert(own_faults(t, j).len() == 0);
            crate::model::lemma_find_id(t.take(j), t[j].id);
            assert(t.take(j)[i] == t[i]);
        }
        assert forall|i: int| 0 <= i < t.len() && (#[trigger] t[i]).parent is Some implies find_id(
            t,
            t[i].parent->Some_0,
        ) is Some by {
            assert(edge_faults(t, i).len() == 0);
        }
        assert forall|i: int| 0 <= i < t.len() && (#[trigger] t[i]).value is Reference implies find_id(
            t,
            t[i].value->Reference_0,
        ) is Some by {
            assert(edge_faults(t, i).len() == 0);
        }
        assert forall|i: int| 0 <= i < t.len() implies !on_cycle(t, #[trigger] t[i]) by {
            assert(own_faults(t, i).len() == 0);
            assert(!reports_cycle(t, t[i], Set::empty()));
            if t[i].parent is None && on_cycle(t, t[i]) {
                let k = choose|k: nat| k >= 1 && #[trigger] up(t, t[i], k) == Some(t[i].id);
                assert(up(t, t[i], 1) is None);
                lemma_ended(t, t[i], 1, k);
            }
        }
    }
    if sound(t) {
        assert forall|i: int| 0 <= i < t.len() implies (#[trigger] own_faults(t, i)).len() == 0 by {
            assert(t[i].id != nil_id());
            crate::model::lemma_find_id(t.take(i), t[i].id);
            if find_id(t.take(i), t[i].id) is Some {
                let j = find_id(t.take(i), t[i].id)->Some_0;
                assert(t.take(i)[j] == t[j]);
                assert(t[j].id != t[i].id);
            }
            if t[i].parent == Some(t[i].id) {
                assert(up(t, t[i], 1) == Some(t[i].id));
                assert(on_cycle(t, t[i]));
            }
        }
        assert forall|i: int| 0 <= i < t.len() implies (#[trigger] edge_faults(t, i)).len() == 0 by {
            assert(t[i].parent is Some ==> find_id(t, t[i].parent->Some_0) is Some);
            assert(t[i].value is Reference ==> find_id(t, t[i].value->Reference_0) is Some);
        }
    }
}

// ---------------------------------------------------------------------------
// Which fault is told of what
// ---------------------------------------------------------------------------

/// Whether a fault with the code is listed at the node.
pub open spec fn tells(fs: Seq<SpecFault>, code: Seq<char>, id: Uuid) -> bool {
    exists|k: int| 0 <= k < fs.len() && (#[trigger] fs[k]).code == code && fs[k].node == id
}

proof fn lemma_tells_in(fs: Seq<SpecFault>, part: Seq<SpecFault>, at: int, code: Seq<char>, id: Uuid)
    requires
        tells(part, code, id),
        0 <= at && at + part.len() <= fs.len(),
        fs.subrange(at, at + part.len()) == part,
    ensures
        tells(fs, code, id),
{
    let k = choose|k: int| 0 <= k < part.len() && (#[trigger] part[k]).code == code && part[k].node == id;
    assert(fs.subrange(at, at + part.len())[k] == fs[at + k]);
}

proof fn lemma_own_part(t: Nodes, k: nat, i: int) -> (at: int)
    requires
        0 <= i < k,
    ensures
        0 <= at && at + own_faults(t, i).len() <= all_own_faults(t, k).len(),
        all_own_faults(t, k).subrange(at, at + own_faults(t, i).len()) == own_faults(t, i),
    decreases k,
{
    let a = all_own_faults(t, (k - 1) as nat);
    if i < k - 1 {
        let at = lemma_own_part(t, (k - 1) as nat, i);
        let n = own_faults(t, i).len();
        assert(all_own_faults(t, k).subrange(at, at + n) =~= a.subrange(at, at + n));
        at
    } else {
        let at = a.len() as int;
        assert(all_own_faults(t, k).subrange(at, at + own_faults(t, i).len()) =~= own_faults(t, i));
        at
    }
}

proof fn lemma_edge_part(t: Nodes, k: nat, i: int) -> (at: int)
    requires
        0 <= i < k,
    ensures
        0 <= at && at + edge_faults(t, i).len() <= all_edge_faults(t, k).len(),
        all_edge_faults(t, k).subrange(at, at + edge_faults(t, i).len()) == edge_faults(t, i),
    decreases k,
{
    let a = all_edge_faults(t, (k - 1) as nat);
    if i < k - 1 {
        let at = lemma_edge_part(t, (k - 1) as nat, i);
        let n = edge_faults(t, i).len();
        assert(all_edge_faults(t, k).subrange(at, at + n) =~= a.subrange(at, at + n));
        at
    } else {
        let at = a.len() as int;
        assert(all_edge_faults(t, k).subrange(at, at + edge_faults(t, i).len()) =~= edge_faults(
            t,
            i,
        ));
        at
    }
}

proof fn lemma_cycle_told(t: Nodes, k: nat, i: int) -> (j: int)
    requires
        0 <= i < k <= t.len(),
        t[i].parent is Some && t[i].parent != Some(t[i].id) && on_cycle(t, t[i]),
    ensures
        0 <= j <= i,
        tells(cycle_faults(t, k).0, "E006"@, t[j].id),
        j == i || met_before_return(t, t[j], t[i].id),
    decreases k,
{
    let n = (k - 1) as nat;
    let (fs, done) = cycle_faults(t, n);
    let all = cycle_faults(t, k).0;
    if i < n {
        let j = lemma_cycle_told(t, n, i);
        assert(all.subrange(0, fs.len() as int) =~= fs);
        lemma_tells_in(all, fs, 0, "E006"@, t[j].id);
        j
    } else if done.contains(t[i].id) {
        let j = lemma_cycle_met(t, n, t[i].id);
        assert(all.subrange(0, fs.len() as int) =~= fs);
        lemma_tells_in(all, fs, 0, "E006"@, t[j].id);
        j
    } else {
        assert(all[fs.len() as int] == fault_cycle(t[i].id));
        i
    }
}

proof fn lemma_cycle_met(t: Nodes, k: nat, id: Uuid) -> (j: int)
    requires
        k <= t.len(),
        cycle_faults(t, k).1.contains(id),
    ensures
        0 <= j < k,
        tells(cycle_faults(t, k).0, "E006"@, t[j].id),
        met_before_return(t, t[j], id),
    decreases k,
{
    let n = (k - 1) as nat;
    let (fs, done) = cycle_faults(t, n);
    let all = cycle_faults(t, k).0;
    if done.contains(id) {
        let j = lemma_cycle_met(t, n, id);
        assert(all.subrange(0, fs.len() as int) =~= fs);
        lemma_tells_in(all, fs, 0, "E006"@, t[j].id);
        j
    } else {
        assert(all[fs.len() as int] == fault_cycle(t[n as int].id));
        n as int
    }
}

/// Every fault is told at its node with its code: a missing id by E001, one that came before
/// by E002, a node that is its own parent by E005, a parent that is not there by E011, a
/// target that is not there by R001; of the nodes on a cycle of parents, one by E006.
pub proof fn every_fault_is_told(t: Nodes, i: int)
    requires
        0 <= i < t.len(),
    ensures
        ({
            let fs = faults(t);
            let n = t[i];
            &&& n.id == nil_id() ==> tells(fs, "E001"@, n.id)
            &&& (exists|j: int| 0 <= j < i && (#[trigger] t[j]).id == n.id) ==> tells(
                fs,
                "E002"@,
                n.id,
            )
            &&& n.parent == Some(n.id) ==> tells(fs, "E005"@, n.id)
            &&& (n.parent is Some && forall|j: int|
                0 <= j < t.len() ==> (#[trigger] t[j]).id != n.parent->Some_0) ==> tells(
                fs,
                "E011"@,
                n.id,
            )
            &&& (n.value is Reference && forall|j: int|
                0 <= j < t.len() ==> (#[trigger] t[j]).id != n.value->Reference_0) ==> tells(
                fs,
                "R001"@,
                n.id,
            )
            &&& n.parent is Some && n.parent != Some(n.id) && on_cycle(t, n) ==> exists|j: int|
                0 <= j <= i && tells(fs, "E006"@, (#[trigger] t[j]).id) && (j == i
                    || met_before_return(t, t[j], n.id))
        }),
{
    let fs = faults(t);
    let n = t[i];
    let own = own_faults(t, i);
    let edge = edge_faults(t, i);
    let a = all_own_faults(t, t.len());
    let b = all_edge_faults(t, t.len());
    let c = cycle_faults(t, t.len()).0;
    let x = lemma_own_part(t, t.len(), i);
    let y = lemma_edge_part(t, t.len(), i);
    assert(fs.subrange(x, x + own.len()) =~= a.subrange(x, x + own.len()));
    assert(fs.subrange(a.len() + y, a.len() + y + edge.len()) =~= b.subrange(y, y + edge.len()));
    let f1 = fault_if(n.id == nil_id(), fault_nil(n.id));
    let f2 = fault_if(find_id(t.take(i), n.id) is Some, fault_duplicate(n.id));
    let f3 = fault_if(n.parent == Some(n.id), fault_own_parent(n.id));
    if n.id == nil_id() {
        assert(own[0] == f1[0]);
        assert(tells(own, "E001"@, n.id));
        lemma_tells_in(fs, own, x, "E001"@, n.id);
    }
    if exists|j: int| 0 <= j < i && (#[trigger] t[j]).id == n.id {
        let j = choose|j: int| 0 <= j < i && (#[trigger] t[j]).id == n.id;
        crate::model::lemma_find_id(t.take(i), n.id);
        assert(t.take(i)[j] == t[j]);
        assert(own[f1.len() as int] == f2[0]);
        assert(tells(own, "E002"@, n.id));
        lemma_tells_in(fs, own, x, "E002"@, n.id);
    }
    if n.parent == Some(n.id) {
        assert(own[(f1.len() + f2.len()) as int] == f3[0]);
        assert(tells(own, "E005"@, n.id));
        lemma_tells_in(fs, own, x, "E005"@, n.id);
    }
    let missing = n.parent is Some && find_id(t, n.parent->Some_0) is None;
    if n.parent is Some {
        crate::model::lemma_find_id(t, n.parent->Some_0);
        if missing {
            assert(edge[0] == fault_parent(n.id, n.parent->Some_0));
            assert(tells(edge, "E011"@, n.id));
            lemma_tells_in(fs, edge, a.len() + y, "E011"@, n.id);
        }
    }
    if n.value is Reference {
        crate::model::lemma_find_id(t, n.value->Reference_0);
        if find_id(t, n.value->Reference_0) is None {
            let f4 = fault_if(missing, fault_parent(n.id, n.parent->Some_0));
            assert(edge[f4.len() as int] == fault_target(n.id, n.value->Reference_0));
            assert(tells(edge, "R001"@, n.id));
            lemma_tells_in(fs, edge, a.len() + y, "R001"@, n.id);
        }
    }
    if n.parent is Some && n.parent != Some(n.id) && on_cycle(t, n) {
        let j = lemma_cycle_told(t, t.len(), i);
        let at = a.len() + b.len();
        assert(fs.subrange(at as int, (at + c.len()) as int) =~= c);
        lemma_tells_in(fs, c, at as int, "E006"@, t[j].id);
        assert(tells(fs, "E006"@, t[j].id));
    }
}

} // verus!
