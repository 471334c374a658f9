//! Splitting a store into shards, and the records that keep a shard up to date.
use crate::bytes::put_slice;
use crate::codec::{encode_node, models, node_fits, same_node, same_value, uuid_text, Node, SpecNode, SpecValue,
    Uuid, Value};
use crate::idmap::{IdMap, IdSet};
use crate::model::{children_of, find_id, first_pick, folded, ids_of, named_child, picked, picks,
    Nodes};
use crate::scan::scan_error;
use crate::text::{begins, decimal, decimal_text, is_aux_name, join2, join3, owned, parse_usize,
    same_text, strip_prefix, unsigned_number};
use crate::tree::{all_bytes, file_nodes, found, lemma_picked_step, name_too_long, ref_model,
    ref_models, Store};
use vstd::prelude::*;
use vstd::utf8::encode_utf8;

verus! {

/// The protocol that a manifest declares.
pub const PROTOCOL: &'static str = "shard-v1";

/// The file name of a manifest.
pub const MANIFEST_NAME: &'static str = "manifest.xirang";

/// The name of a manifest's root.
pub const ROOT_NAME: &'static str = "分片清单";

/// The name of the node that holds the entries of a manifest.
pub const SHARDS_NODE: &'static str = "分片";

/// Which nodes are the roots of shards.
#[derive(Debug, PartialEq)]
pub enum ShardRule {
    /// Those without a parent.
    Root,
    /// Those with the name.
    Name(String),
    /// Those so many steps below a root.
    Depth(usize),
    /// Those with a child of the name.
    Marker(String),
}

/// What a rule is: the model of [`ShardRule`].
pub enum SpecRule {
    Root,
    Name(Seq<char>),
    Depth(usize),
    Marker(Seq<char>),
}

impl View for ShardRule {
    type V = SpecRule;

    open spec fn view(&self) -> SpecRule {
        match self {
            ShardRule::Root => SpecRule::Root,
            ShardRule::Name(n) => SpecRule::Name(n@),
            ShardRule::Depth(d) => SpecRule::Depth(*d),
            ShardRule::Marker(m) => SpecRule::Marker(m@),
        }
    }
}

impl Clone for ShardRule {
    fn clone(&self) -> (r: Self)
        ensures
            r@ == self@,
    {
        match self {
            ShardRule::Root => ShardRule::Root,
            ShardRule::Name(n) => ShardRule::Name(n.clone()),
            ShardRule::Depth(d) => ShardRule::Depth(*d),
            ShardRule::Marker(m) => ShardRule::Marker(m.clone()),
        }
    }
}

/// Whether a text starts with another.
pub open spec fn starts(s: Seq<char>, p: Seq<char>) -> bool {
    p.len() <= s.len() && s.take(p.len() as int) == p
}

/// The rule that a text stands for.
pub open spec fn rule_of(s: Seq<char>) -> Option<SpecRule> {
    if s == "root"@ {
        Some(SpecRule::Root)
    } else if starts(s, "name:"@) {
        Some(SpecRule::Name(s.skip("name:"@.len() as int)))
    } else if starts(s, "depth:"@) {
        match unsigned_number(s.skip("depth:"@.len() as int)) {
            Some(n) => if n <= usize::MAX {
                Some(SpecRule::Depth(n as usize))
            } else {
                None
            },
            None => None,
        }
    } else if starts(s, "marker:"@) {
        Some(SpecRule::Marker(s.skip("marker:"@.len() as int)))
    } else {
        None
    }
}

/// The text of a rule.
pub open spec fn rule_text(r: SpecRule) -> Seq<char> {
    match r {
        SpecRule::Root => "root"@,
        SpecRule::Name(n) => "name:"@ + n,
        SpecRule::Depth(d) => "depth:"@ + decimal(d as nat),
        SpecRule::Marker(m) => "marker:"@ + m,
    }
}

/// The message for a text that is no rule.
pub open spec fn bad_rule(s: Seq<char>) -> Seq<char> {
    "W005：分片根判定器非法（"@ + s + "）"@
}

proof fn lemma_stripped(s: Seq<char>, p: Seq<char>, rest: Seq<char>)
    requires
        s == p + rest,
    ensures
        starts(s, p),
        s.skip(p.len() as int) == rest,
{
    assert(s.take(p.len() as int) =~= p);
    assert(s.skip(p.len() as int) =~= rest);
}

/// How many steps a node is below the end of its parents, counted from `d` and
/// at most `cap + 1`.
pub open spec fn depth_of(t: Nodes, cur: Option<Uuid>, d: nat, cap: nat) -> nat
    decreases cap + 1 - d,
{
    match cur {
        None => d,
        Some(p) => if d > cap {
            d
        } else {
            match found(t, p) {
                Some(n) => depth_of(t, n.parent, d + 1, cap),
                None => d,
            }
        },
    }
}

/// Whether a rule picks a node.
pub open spec fn picks_node(t: Nodes, rule: SpecRule, n: SpecNode) -> bool {
    match rule {
        SpecRule::Root => n.parent is None,
        SpecRule::Name(name) => n.name == name,
        SpecRule::Depth(k) => depth_of(t, n.parent, 0, t.len() + 1) == k,
        SpecRule::Marker(m) => named_child(t, n.id, m) is Some,
    }
}

/// The ids of the nodes that a rule picks.
pub open spec fn picked_ids(t: Nodes, rule: SpecRule) -> Set<Uuid> {
    ids_of(picked(t, |n: SpecNode| picks_node(t, rule, n)))
}

/// Whether, from `cur` upwards within `left` steps, an id of the set is met.
pub open spec fn meets_above(t: Nodes, cur: Option<Uuid>, ids: Set<Uuid>, left: nat) -> bool
    decreases left,
{
    match cur {
        None => false,
        Some(p) => if left == 0 {
            false
        } else if ids.contains(p) {
            true
        } else {
            match found(t, p) {
                Some(n) => meets_above(t, n.parent, ids, (left - 1) as nat),
                None => false,
            }
        },
    }
}

/// Whether a node is the root of a shard: the rule picks its id, and none above.
pub open spec fn heads_shard(t: Nodes, ids: Set<Uuid>, n: SpecNode) -> bool {
    ids.contains(n.id) && !meets_above(t, n.parent, ids, t.len() + 2)
}

/// The ids of the roots of shards.
pub open spec fn head_ids(t: Nodes, rule: SpecRule) -> Set<Uuid> {
    ids_of(picked(t, |n: SpecNode| heads_shard(t, picked_ids(t, rule), n)))
}

/// The shard that a node belongs to: the first head from it upwards within
/// `left` steps, or else the node where the way ends.
pub open spec fn home(t: Nodes, n: SpecNode, heads: Set<Uuid>, left: nat) -> Uuid
    decreases left,
{
    if heads.contains(n.id) || left == 0 || n.parent is None {
        n.id
    } else {
        match found(t, n.parent->Some_0) {
            Some(p) => home(t, p, heads, (left - 1) as nat),
            None => n.id,
        }
    }
}

/// The shard that an id belongs to.
pub open spec fn home_of(t: Nodes, id: Uuid, heads: Set<Uuid>) -> Uuid {
    match found(t, id) {
        Some(n) => home(t, n, heads, t.len() + 2),
        None => id,
    }
}

/// The shards of the first `k` nodes, in the order in which they come up.
pub open spec fn homes(t: Nodes, heads: Set<Uuid>, k: nat) -> Seq<Uuid>
    decreases k,
{
    if k == 0 {
        Seq::<Uuid>::empty()
    } else {
        let r = homes(t, heads, (k - 1) as nat);
        let h = home_of(t, t[k - 1].id, heads);
        if r.contains(h) {
            r
        } else {
            r.push(h)
        }
    }
}

/// The nodes of a shard.
pub open spec fn shard_nodes(t: Nodes, heads: Set<Uuid>, root: Uuid) -> Nodes {
    picked(t, |n: SpecNode| home_of(t, n.id, heads) == root)
}

impl ShardRule {
    /// Reads a rule: `root`, `name:…`, `depth:…` or `marker:…`.
    pub fn parse(s: &str) -> (r: Result<ShardRule, String>)
        ensures
            match rule_of(s@) {
                Some(rule) => r is Ok && r->Ok_0@ == rule,
                None => r is Err && r->Err_0@ == bad_rule(s@),
            },
    {
        if same_text(s, "root") {
            return Ok(ShardRule::Root);
        }
        if let Some(v) = strip_prefix(s, "name:") {
            proof {
                lemma_stripped(s@, "name:"@, v@);
            }
            return Ok(ShardRule::Name(v));
        }
        if let Some(v) = strip_prefix(s, "depth:") {
            proof {
                lemma_stripped(s@, "depth:"@, v@);
            }
            return match parse_usize(v.as_str()) {
                Some(d) => Ok(ShardRule::Depth(d)),
                None => Err(join3("W005：分片根判定器非法（", s, "）")),
            };
        }
        if let Some(v) = strip_prefix(s, "marker:") {
            proof {
                lemma_stripped(s@, "marker:"@, v@);
            }
            return Ok(ShardRule::Marker(v));
        }
        Err(join3("W005：分片根判定器非法（", s, "）"))
    }

    /// The text of a rule.
    pub fn as_str(&self) -> (r: String)
        ensures
            r@ == rule_text(self@),
    {
        match self {
            ShardRule::Root => owned("root"),
            ShardRule::Name(n) => join2("name:", n.as_str()),
            ShardRule::Depth(d) => {
                let text = decimal_text(*d as u64);
                join2("depth:", text.as_str())
            },
            ShardRule::Marker(m) => join2("marker:", m.as_str()),
        }
    }

    /// Whether the rule picks the node.
    pub fn matches(&self, store: &Store, node: &Node) -> (r: bool)
        requires
            store.wf(),
        ensures
            r == picks_node(store@, self@, node@),
    {
        match self {
            ShardRule::Root => node.parent.is_none(),
            ShardRule::Name(n) => same_text(node.name.as_str(), n.as_str()),
            ShardRule::Depth(k) => depth(store, node) == *k as u128,
            ShardRule::Marker(m) => store.child_position(node.id, m.as_str()).is_some(),
        }
    }
}

proof fn lemma_decimal_reads_back(n: nat)
    ensures
        crate::text::is_digits(decimal(n)),
        decimal(n).len() > 0,
        crate::text::digits_number(decimal(n)) == n,
    decreases n,
{
    if n >= 10 {
        lemma_decimal_reads_back(n / 10);
        let d = decimal(n);
        assert(d.drop_last() =~= decimal(n / 10));
        assert forall|i: int| 0 <= i < d.len() implies '0' <= #[trigger] d[i] <= '9' by {
            if i < d.len() - 1 {
                assert(d[i] == decimal(n / 10)[i]);
            }
        }
    } else {
        let d = decimal(n);
        assert(d.drop_last() =~= Seq::<char>::empty());
        assert(crate::text::digits_number(d.drop_last()) == 0);
    }
}

/// Reading the text of a rule gives the rule back.
pub proof fn rule_round_trip(r: SpecRule)
    ensures
        rule_of(rule_text(r)) == Some(r),
{
    reveal_strlit("root");
    reveal_strlit("name:");
    reveal_strlit("depth:");
    reveal_strlit("marker:");
    let s = rule_text(r);
    match r {
        SpecRule::Root => {},
        SpecRule::Name(n) => {
            lemma_stripped(s, "name:"@, n);
            assert(s[0] == 'n');
            assert("root"@[0] == 'r');
        },
        SpecRule::Depth(d) => {
            lemma_stripped(s, "depth:"@, decimal(d as nat));
            lemma_decimal_reads_back(d as nat);
            assert(s[0] == 'd');
            assert("root"@[0] == 'r');
            assert("name:"@[0] == 'n');
            assert(!starts(s, "name:"@)) by {
                if starts(s, "name:"@) {
                    assert(s.take("name:"@.len() as int)[0] == s[0]);
                }
            }
            let e = decimal(d as nat);
            assert('0' <= e[0] <= '9');
        },
        SpecRule::Marker(m) => {
            lemma_stripped(s, "marker:"@, m);
            assert(s[0] == 'm');
            assert("root"@[0] == 'r');
            assert("name:"@[0] == 'n');
            assert("depth:"@[0] == 'd');
            assert(!starts(s, "name:"@)) by {
                if starts(s, "name:"@) {
                    assert(s.take("name:"@.len() as int)[0] == s[0]);
                }
            }
            assert(!starts(s, "depth:"@)) by {
                if starts(s, "depth:"@) {
                    assert(s.take("depth:"@.len() as int)[0] == s[0]);
                }
            }
        },
    }
}

/// How many steps a node is below the end of its parents; a cycle of parents
/// counts two steps more than there are nodes.
pub fn depth(store: &Store, node: &Node) -> (r: u128)
    requires
        store.wf(),
    ensures
        r == depth_of(store@, node.parent, 0, store@.len() + 1),
{
    let cap: u128 = store.len() as u128 + 1;
    let mut d: u128 = 0;
    let mut cur = node.parent;
    loop
        invariant
            store.wf(),
            cap == store@.len() + 1,
            d <= cap + 1,
            store@.len() <= usize::MAX,
            depth_of(store@, node.parent, 0, store@.len() + 1) == depth_of(
                store@,
                cur,
                d as nat,
                store@.len() + 1,
            ),
        decreases cap + 1 - d,
    {
        let p = match cur {
            Some(p) => p,
            None => return d,
        };
        if d > cap {
            return d;
        }
        cur = match store.get(p) {
            Some(n) => n.parent,
            None => return d,
        };
        d = d + 1;
    }
}

/// Whether a node of the set is met above the node.
fn has_matching_ancestor(store: &Store, node: &Node, matching: &IdSet) -> (r: bool)
    requires
        store.wf(),
    ensures
        r == meets_above(store@, node.parent, matching@, store@.len() + 2),
{
    let mut left: u128 = store.len() as u128 + 2;
    let mut cur = node.parent;
    loop
        invariant
            store.wf(),
            meets_above(store@, node.parent, matching@, store@.len() + 2) == meets_above(
                store@,
                cur,
                matching@,
                left as nat,
            ),
        decreases left,
    {
        let p = match cur {
            Some(p) => p,
            None => return false,
        };
        if left == 0 {
            return false;
        }
        if matching.contains(p) {
            return true;
        }
        cur = match store.get(p) {
            Some(n) => n.parent,
            None => return false,
        };
        left = left - 1;
    }
}

proof fn lemma_ids_push(s: Nodes, n: SpecNode)
    ensures
        ids_of(s.push(n)) == ids_of(s).insert(n.id),
{
    let u = s.push(n);
    assert(u.take(s.len() as int) =~= s);
    assert(u.take(s.len() as int + 1) =~= u);
    crate::tree::lemma_ids_of_push(u, s.len() as int);
}

/// The roots of shards: the topmost nodes that the rule picks.
fn select_set(store: &Store, rule: &ShardRule) -> (r: IdSet)
    requires
        store.wf(),
    ensures
        r@ == head_ids(store@, rule@),
{
    let ghost t = store@;
    let ghost p = |n: SpecNode| picks_node(t, rule@, n);
    let mut matching = IdSet::new();
    let mut i: usize = 0;
    assert(t.take(0) =~= Seq::<SpecNode>::empty());
    assert(matching@ =~= ids_of(picked(t.take(0), p)));
    while i < store.len()
        invariant
            i <= t.len(),
            t == store@,
            store.wf(),
            p == (|n: SpecNode| picks_node(t, rule@, n)),
            matching@ == ids_of(picked(t.take(i as int), p)),
        decreases t.len() - i,
    {
        proof {
            lemma_picked_step(t, p, i as int);
        }
        if rule.matches(store, store.at(i)) {
            proof {
                lemma_ids_push(picked(t.take(i as int), p), t[i as int]);
            }
            matching.insert(store.at(i).id);
        }
        i = i + 1;
    }
    assert(t.take(t.len() as int) =~= t);
    let ghost m = picked_ids(t, rule@);
    let ghost q = |n: SpecNode| heads_shard(t, m, n);
    let mut heads = IdSet::new();
    let mut j: usize = 0;
    assert(heads@ =~= ids_of(picked(t.take(0), q)));
    while j < store.len()
        invariant
            j <= t.len(),
            t == store@,
            store.wf(),
            matching@ == m,
            q == (|n: SpecNode| heads_shard(t, m, n)),
            heads@ == ids_of(picked(t.take(j as int), q)),
        decreases t.len() - j,
    {
        proof {
            lemma_picked_step(t, q, j as int);
        }
        let n = store.at(j);
        if matching.contains(n.id) && !has_matching_ancestor(store, n, &matching) {
            proof {
                lemma_ids_push(picked(t.take(j as int), q), t[j as int]);
            }
            heads.insert(n.id);
        }
        j = j + 1;
    }
    assert(t.take(t.len() as int) =~= t);
    heads
}

/// The shard that a node belongs to.
fn shard_root(store: &Store, node: &Node, selected: &IdSet) -> (r: Uuid)
    requires
        store.wf(),
    ensures
        r == home(store@, node@, selected@, store@.len() + 2),
{
    let mut left: u128 = store.len() as u128 + 2;
    let mut cur: &Node = node;
    loop
        invariant
            store.wf(),
            home(store@, node@, selected@, store@.len() + 2) == home(
                store@,
                cur@,
                selected@,
                left as nat,
            ),
        decreases left,
    {
        if selected.contains(cur.id) || left == 0 {
            return cur.id;
        }
        let p = match cur.parent {
            Some(p) => p,
            None => return cur.id,
        };
        cur = match store.get(p) {
            Some(n) => n,
            None => return cur.id,
        };
        left = left - 1;
    }
}

/// Whether stores hold the shards of the first `i` nodes.
pub open spec fn shards_so_far(
    t: Nodes,
    heads: Set<Uuid>,
    i: int,
    roots: Seq<Uuid>,
    stores: Seq<Store>,
) -> bool {
    &&& roots == homes(t, heads, i as nat)
    &&& stores.len() == roots.len()
    &&& forall|g: int|
        0 <= g < roots.len() ==> (#[trigger] stores[g]).wf() && stores[g]@ == picked(
            t.take(i),
            |n: SpecNode| home_of(t, n.id, heads) == roots[g],
        )
}

/// Splits a store: every node goes to the shard of its root, with its parent as
/// it is.
pub fn split(store: &Store, rule: &ShardRule) -> (r: Result<Vec<(Uuid, Store)>, String>)
    requires
        store.wf(),
    ensures
        ({
            let t = store@;
            let heads = head_ids(t, rule@);
            let roots = homes(t, heads, t.len());
            &&& r is Ok
            &&& r->Ok_0@.len() == roots.len()
            &&& forall|g: int|
                0 <= g < roots.len() ==> (#[trigger] r->Ok_0@[g]).0 == roots[g]
                    && r->Ok_0@[g].1.wf() && r->Ok_0@[g].1@ == shard_nodes(t, heads, roots[g])
        }),
{
    let ghost t = store@;
    let selected = select_set(store, rule);
    let ghost heads = head_ids(t, rule@);
    let mut roots: Vec<Uuid> = Vec::new();
    let mut stores: Vec<Store> = Vec::new();
    let mut slots: IdMap<usize> = IdMap::new();
    let mut i: usize = 0;
    while i < store.len()
        invariant
            i <= t.len(),
            t == store@,
            store.wf(),
            selected@ == heads,
            shards_so_far(t, heads, i as int, roots@, stores@),
            forall|x: Uuid| #[trigger]
                slots@.contains_key(x) <==> roots@.contains(x),
            forall|x: Uuid| #[trigger]
                slots@.contains_key(x) ==> slots@[x] < roots@.len() && roots@[slots@[x] as int]
                    == x,
            roots@.no_duplicates(),
        decreases t.len() - i,
    {
        let n = store.at(i);
        proof {
            crate::model::lemma_find_id(t, n.id);
            assert(t[i as int].id == n.id);
        }
        let h = match store.get(n.id) {
            Some(last) => shard_root(store, last, &selected),
            None => n.id,
        };
        assert(h == home_of(t, t[i as int].id, heads));
        let ghost r0 = roots@;
        let ghost s0 = stores@;
        let slot: usize = match slots.get(h) {
            Some(s) => *s,
            None => {
                let s: usize = roots.len();
                roots.push(h);
                stores.push(Store::new());
                slots.insert(h, s);
                proof {
                    lemma_new_shard(t, heads, i as int, h, r0);
                    assert forall|x: Uuid| #[trigger] slots@.contains_key(x) <==> roots@.contains(
                        x,
                    ) by {
                        if r0.contains(x) {
                            let k = choose|k: int| 0 <= k < r0.len() && r0[k] == x;
                            assert(roots@[k] == x);
                        }
                        if roots@.contains(x) && x != h {
                            let k = choose|k: int| 0 <= k < roots@.len() && roots@[k] == x;
                            assert(r0[k] == x);
                        }
                        assert(roots@[r0.len() as int] == h);
                    }
                }
                s
            },
        };
        assert(roots@[slot as int] == h);
        let ghost s1 = stores@;
        stores[slot].add(n.clone());
        proof {
            assert forall|g: int| 0 <= g < roots@.len() implies (#[trigger] stores@[g]).wf()
                && stores@[g]@ == picked(
                t.take(i + 1),
                |m: SpecNode| home_of(t, m.id, heads) == roots@[g],
            ) by {
                let q = |m: SpecNode| home_of(t, m.id, heads) == roots@[g];
                lemma_picked_step(t, q, i as int);
                if g < r0.len() {
                    assert(roots@[g] == r0[g]);
                    assert(s0[g]@ == picked(t.take(i as int), q));
                } else {
                    assert(s1[g]@ == picked(t.take(i as int), q));
                }
                if g != slot {
                    assert(stores@[g] == s1[g]);
                    assert(roots@[g] != roots@[slot as int]);
                }
            }
        }
        i = i + 1;
    }
    assert(t.take(t.len() as int) =~= t);
    let ghost final_stores = stores@;
    let mut out: Vec<(Uuid, Store)> = Vec::new();
    for s in it: stores
        invariant
            it.seq() == final_stores,
            final_stores.len() == roots@.len(),
            out@.len() == it.index(),
            forall|g: int|
                0 <= g < out@.len() ==> (#[trigger] out@[g]).0 == roots@[g] && out@[g].1
                    == final_stores[g],
    {
        out.push((roots[out.len()], s));
    }
    Ok(out)
}

proof fn lemma_new_shard(t: Nodes, heads: Set<Uuid>, i: int, h: Uuid, roots: Seq<Uuid>)
    requires
        0 <= i < t.len(),
        roots == homes(t, heads, i as nat),
        !roots.contains(h),
    ensures
        picked(t.take(i), |m: SpecNode| home_of(t, m.id, heads) == h) == Seq::<SpecNode>::empty(),
{
    let q = |m: SpecNode| home_of(t, m.id, heads) == h;
    crate::model::lemma_picks(t.take(i), q);
    if picks(t.take(i), q).len() > 0 {
        let k = picks(t.take(i), q)[0];
        assert(q(t.take(i)[k]));
        lemma_homes_contain(t, heads, k, i as nat);
    }
    assert(picked(t.take(i), q) =~= Seq::<SpecNode>::empty());
}

proof fn lemma_homes_contain(t: Nodes, heads: Set<Uuid>, i: int, k: nat)
    requires
        0 <= i < k <= t.len(),
    ensures
        homes(t, heads, k).contains(home_of(t, t[i].id, heads)),
    decreases k,
{
    let r = homes(t, heads, (k - 1) as nat);
    let h = home_of(t, t[i].id, heads);
    if i < k - 1 {
        lemma_homes_contain(t, heads, i, (k - 1) as nat);
        let j = choose|j: int| 0 <= j < r.len() && r[j] == h;
        assert(homes(t, heads, k)[j] == h);
    } else if !r.contains(h) {
        assert(homes(t, heads, k)[r.len() as int] == h);
    }
}

proof fn lemma_homes_distinct(t: Nodes, heads: Set<Uuid>, k: nat)
    requires
        k <= t.len(),
    ensures
        homes(t, heads, k).no_duplicates(),
    decreases k,
{
    if k > 0 {
        lemma_homes_distinct(t, heads, (k - 1) as nat);
    }
}

/// A split loses nothing and doubles nothing: every node is in the shard of its
/// root, and in no other.
pub proof fn split_is_a_partition(t: Nodes, rule: SpecRule, i: int)
    requires
        0 <= i < t.len(),
    ensures
        ({
            let heads = head_ids(t, rule);
            let roots = homes(t, heads, t.len());
            let h = home_of(t, t[i].id, heads);
            &&& roots.no_duplicates()
            &&& roots.contains(h)
            &&& shard_nodes(t, heads, h).contains(t[i])
            &&& forall|g: int|
                0 <= g < roots.len() && #[trigger] roots[g] != h ==> !shard_nodes(
                    t,
                    heads,
                    roots[g],
                ).contains(t[i])
        }),
{
    let heads = head_ids(t, rule);
    let roots = homes(t, heads, t.len());
    let h = home_of(t, t[i].id, heads);
    lemma_homes_distinct(t, heads, t.len());
    lemma_homes_contain(t, heads, i, t.len());
    let q = |n: SpecNode| home_of(t, n.id, heads) == h;
    crate::model::lemma_picks(t, q);
    assert(q(t[i]));
    let s = picks(t, q);
    let k = choose|k: int| 0 <= k < s.len() && s[k] == i;
    assert(shard_nodes(t, heads, h)[k] == t[i]);
    assert forall|g: int| 0 <= g < roots.len() && #[trigger] roots[g] != h implies !shard_nodes(
        t,
        heads,
        roots[g],
    ).contains(t[i]) by {
        let p = |n: SpecNode| home_of(t, n.id, heads) == roots[g];
        crate::model::lemma_picks(t, p);
        let f = shard_nodes(t, heads, roots[g]);
        if f.contains(t[i]) {
            let j = choose|j: int| 0 <= j < f.len() && f[j] == t[i];
            assert(p(t[picks(t, p)[j]]));
        }
    }
}

/// The folded view of a store.
pub fn fold(store: &Store) -> (r: Store)
    requires
        store.wf(),
    ensures
        r.wf(),
        r@ == folded(store@),
{
    crate::tree::fold(store)
}

// ---------------------------------------------------------------------------
// Changes as records
// ---------------------------------------------------------------------------

/// Whether a node is new, or other than before.
pub open spec fn is_changed(before: Nodes, n: SpecNode) -> bool {
    match found(before, n.id) {
        Some(b) => !same_node(b, n),
        None => true,
    }
}

/// The record that empties an id.
pub open spec fn emptied(n: SpecNode) -> SpecNode {
    SpecNode { id: n.id, parent: None, name: Seq::<char>::empty(), value: SpecValue::Empty }
}

/// The nodes of `s`, each emptied.
pub open spec fn all_emptied(s: Nodes) -> Nodes {
    Seq::new(s.len(), |i: int| emptied(s[i]))
}

/// The records that lead from one state of a shard to another: the nodes that
/// are new or changed, and an empty record for each that is gone.
pub open spec fn change_records(before: Nodes, after: Nodes) -> Nodes {
    picked(after, |n: SpecNode| is_changed(before, n)) + all_emptied(
        picked(before, |n: SpecNode| found(after, n.id) is None),
    )
}

/// The records that lead from one state of a shard to another.
pub fn changed_nodes(before: &Store, after: &Store) -> (r: Vec<Node>)
    requires
        before.wf(),
        after.wf(),
    ensures
        models(r@) == change_records(before@, after@),
{
    let ghost b = before@;
    let ghost a = after@;
    let ghost p = |n: SpecNode| is_changed(b, n);
    let ghost q = |n: SpecNode| found(a, n.id) is None;
    let mut out: Vec<Node> = Vec::new();
    let mut i: usize = 0;
    assert(a.take(0) =~= Seq::<SpecNode>::empty());
    assert(models(out@) =~= picked(a.take(0), p));
    while i < after.len()
        invariant
            i <= a.len(),
            a == after@,
            b == before@,
            before.wf(),
            p == (|n: SpecNode| is_changed(b, n)),
            models(out@) == picked(a.take(i as int), p),
        decreases a.len() - i,
    {
        proof {
            lemma_picked_step(a, p, i as int);
        }
        let n = after.at(i);
        let changed = match before.get(n.id) {
            Some(m) => !(*m == *n),
            None => true,
        };
        if changed {
            let ghost o0 = out@;
            out.push(n.clone());
            assert(models(out@) =~= models(o0).push(a[i as int]));
        }
        i = i + 1;
    }
    assert(a.take(a.len() as int) =~= a);
    let ghost first = picked(a, p);
    let mut j: usize = 0;
    assert(b.take(0) =~= Seq::<SpecNode>::empty());
    assert(models(out@) =~= first + all_emptied(picked(b.take(0), q)));
    while j < before.len()
        invariant
            j <= b.len(),
            a == after@,
            b == before@,
            after.wf(),
            q == (|n: SpecNode| found(a, n.id) is None),
            models(out@) == first + all_emptied(picked(b.take(j as int), q)),
        decreases b.len() - j,
    {
        proof {
            lemma_picked_step(b, q, j as int);
        }
        let id = before.at(j).id;
        if after.get(id).is_none() {
            let ghost o0 = out@;
            out.push(Node { id, parent: None, name: String::new(), value: Value::Empty });
            proof {
                assert(models(out@) =~= models(o0).push(emptied(b[j as int])));
                assert(models(out@) =~= first + all_emptied(picked(b.take(j + 1), q)));
            }
        }
        j = j + 1;
    }
    assert(b.take(b.len() as int) =~= b);
    out
}

/// The bytes of records; the message of the first whose name is too long.
pub fn record_bytes(records: &Vec<Node>) -> (r: Result<Vec<u8>, String>)
    ensures
        match first_pick(models(records@), |n: SpecNode| name_too_long(n)) {
            None => r is Ok && r->Ok_0@ == all_bytes(models(records@)),
            Some(i) => r is Err && r->Err_0@ == "NameTooLong("@ + decimal(
                encode_utf8(models(records@)[i].name).len(),
            ) + ")"@,
        },
{
    let ghost t = models(records@);
    let ghost p = |n: SpecNode| name_too_long(n);
    let mut out: Vec<u8> = Vec::new();
    let mut i: usize = 0;
    while i < records.len()
        invariant
            i <= records@.len(),
            t == models(records@),
            p == (|n: SpecNode| name_too_long(n)),
            out@ == all_bytes(t.take(i as int)),
            forall|j: int| 0 <= j < i ==> !p(#[trigger] t[j]),
        decreases records@.len() - i,
    {
        assert(t[i as int] == records@[i as int]@);
        match encode_node(&records[i]) {
            Ok(b) => {
                put_slice(&mut out, b.as_slice());
            },
            Err(e) => {
                proof {
                    assert(p(t[i as int]));
                    crate::model::lemma_first_pick_is(t, p, i as int);
                }
                return Err(scan_error(e));
            },
        }
        assert(t.take(i + 1).drop_last() =~= t.take(i as int));
        i = i + 1;
    }
    proof {
        crate::model::lemma_first_pick_none(t, p);
        assert(t.take(t.len() as int) =~= t);
    }
    Ok(out)
}

pub proof fn lemma_found_append(t: Nodes, u: Nodes, id: Uuid)
    ensures
        found(t + u, id) == (if found(u, id) is Some {
            found(u, id)
        } else {
            found(t, id)
        }),
    decreases u.len(),
{
    if u.len() == 0 {
        assert(t + u =~= t);
    } else {
        lemma_found_append(t, u.drop_last(), id);
        crate::model::lemma_find_id_push(t + u.drop_last(), u.last(), id);
        assert(t + u =~= (t + u.drop_last()).push(u.last()));
        crate::model::lemma_find_id(u.drop_last(), id);
        crate::model::lemma_find_id(t + u.drop_last(), id);
        assert(u.drop_last().push(u.last()) =~= u);
    }
}

proof fn lemma_found_picked(t: Nodes, p: spec_fn(SpecNode) -> bool, id: Uuid)
    requires
        crate::model::distinct_ids(t),
    ensures
        found(picked(t, p), id) == (match found(t, id) {
            Some(n) => if p(n) {
                Some(n)
            } else {
                None
            },
            None => None,
        }),
{
    let s = picks(t, p);
    let f = picked(t, p);
    crate::model::lemma_picks(t, p);
    crate::model::lemma_find_id(t, id);
    crate::model::lemma_find_id(f, id);
    if find_id(f, id) is Some {
        let k = find_id(f, id)->Some_0;
        let i = s[k];
        assert(f[k] == t[i]);
        assert(p(t[i]));
        if find_id(t, id)->Some_0 != i {
            assert(t[i].id != t[find_id(t, id)->Some_0].id);
        }
    } else if find_id(t, id) is Some {
        let i = find_id(t, id)->Some_0;
        if p(t[i]) {
            assert(s.contains(i));
            let k = choose|k: int| 0 <= k < s.len() && s[k] == i;
            assert(f[k].id == id);
        }
    }
}

proof fn lemma_found_emptied(s: Nodes, id: Uuid)
    ensures
        found(all_emptied(s), id) == (match found(s, id) {
            Some(n) => Some(emptied(n)),
            None => None,
        }),
{
    let e = all_emptied(s);
    crate::model::lemma_find_id(s, id);
    crate::model::lemma_find_id(e, id);
    if find_id(s, id) is Some {
        let k = find_id(s, id)->Some_0;
        assert(e[k].id == id);
        assert forall|j: int| k < j < e.len() implies e[j].id != id by {
            assert(s[j].id != id);
        }
        crate::model::lemma_find_id_is(e, id, k);
    } else if find_id(e, id) is Some {
        let k = find_id(e, id)->Some_0;
        assert(s[k].id == id);
    }
}

/// Appending the records of a change to a shard and reading it folded gives the
/// new state: every node of it is found as it is (or as a node equal to it), and
/// every node that is gone is found empty.
pub proof fn appended_changes_read_back(before: Nodes, after: Nodes, id: Uuid)
    requires
        crate::model::distinct_ids(before),
        crate::model::distinct_ids(after),
    ensures
        ({
            let now = found(folded(before + change_records(before, after)), id);
            match found(after, id) {
                Some(n) => now is Some && (now == Some(n) || same_node(now->Some_0, n)),
                None => match found(before, id) {
                    Some(b) => now == Some(emptied(b)),
                    None => now is None,
                },
            }
        }),
{
    let c = change_records(before, after);
    let p = |n: SpecNode| is_changed(before, n);
    let q = |n: SpecNode| found(after, n.id) is None;
    let a = picked(after, p);
    let g = picked(before, q);
    crate::model::fold_keeps_lookup(before + c, id);
    lemma_found_append(before, c, id);
    lemma_found_append(a, all_emptied(g), id);
    lemma_found_picked(after, p, id);
    lemma_found_picked(before, q, id);
    lemma_found_emptied(g, id);
    crate::model::lemma_find_id(after, id);
    crate::model::lemma_find_id(before, id);
}

proof fn lemma_change_fits(before: Nodes, after: Nodes)
    requires
        forall|i: int| 0 <= i < after.len() ==> node_fits(#[trigger] after[i]),
    ensures
        forall|i: int|
            0 <= i < change_records(before, after).len() ==> node_fits(
                #[trigger] change_records(before, after)[i],
            ),
{
    let c = change_records(before, after);
    let p = |n: SpecNode| is_changed(before, n);
    let s = picks(after, p);
    crate::model::lemma_picks(after, p);
    assert forall|i: int| 0 <= i < c.len() implies node_fits(#[trigger] c[i]) by {
        if i < s.len() {
            assert(c[i] == after[s[i]]);
        } else {
            let g = picked(before, |n: SpecNode| found(after, n.id) is None);
            assert(c[i] == emptied(g[i - s.len()]));
            vstd::utf8::encode_utf8_decode_utf8(Seq::<char>::empty());
            assert(encode_utf8(Seq::<char>::empty()).len() == 0);
        }
    }
}

/// The bytes of a file, with the bytes of the records of a change behind them, load and
/// fold to the new state: every node of it is found as it is (or as a node equal to it),
/// and every node that is gone is found empty.
pub proof fn appended_bytes_read_back(data: Seq<u8>, after: Nodes, id: Uuid)
    requires
        file_nodes(data) is Ok,
        crate::model::distinct_ids(after),
        forall|i: int| 0 <= i < after.len() ==> node_fits(#[trigger] after[i]),
    ensures
        ({
            let before = folded(file_nodes(data)->Ok_0);
            let now = file_nodes(data + all_bytes(change_records(before, after)));
            let got = found(folded(now->Ok_0), id);
            &&& now is Ok
            &&& match found(after, id) {
                Some(n) => got is Some && (got == Some(n) || same_node(got->Some_0, n)),
                None => match found(before, id) {
                    Some(b) => got == Some(emptied(b)),
                    None => got is None,
                },
            }
        }),
{
    let t = file_nodes(data)->Ok_0;
    let before = folded(t);
    let c = change_records(before, after);
    lemma_change_fits(before, after);
    crate::tree::appended_records_load(data, c);
    crate::model::fold_keeps_lookup(t, id);
    appended_changes_read_back(before, after, id);
    crate::model::fold_keeps_lookup(before + c, id);
    crate::model::fold_keeps_lookup(t + c, id);
    lemma_found_append(before, c, id);
    lemma_found_append(t, c, id);
}

// ---------------------------------------------------------------------------
// Manifests
// ---------------------------------------------------------------------------

/// One shard in a manifest.
#[derive(Debug)]
pub struct ShardEntry {
    /// The name of the shard's root.
    pub name: String,
    /// The name of the shard's file.
    pub filename: String,
}

/// What an entry is: the model of [`ShardEntry`].
pub struct SpecEntry {
    pub name: Seq<char>,
    pub filename: Seq<char>,
}

impl View for ShardEntry {
    type V = SpecEntry;

    open spec fn view(&self) -> SpecEntry {
        SpecEntry { name: self.name@, filename: self.filename@ }
    }
}

/// The models of entries.
pub open spec fn entry_models(s: Seq<ShardEntry>) -> Seq<SpecEntry> {
    Seq::new(s.len(), |i: int| s[i]@)
}

/// The rule of a split and its shards.
#[derive(Debug)]
pub struct Manifest {
    pub rule: ShardRule,
    pub shards: Vec<ShardEntry>,
}

/// Whether `n` is a node below `parent` with the name and the value.
pub open spec fn is_node(
    n: SpecNode,
    parent: Option<Uuid>,
    name: Seq<char>,
    value: SpecValue,
) -> bool {
    crate::codec::drawn(n.id) && n.parent == parent && n.name == name && n.value == value
}

/// Whether nodes are those of a manifest: the root, its `@protocol` and `@rule`
/// children, the node that holds the entries, and the entries.
pub open spec fn manifest_nodes(t: Nodes, rule: SpecRule, entries: Seq<SpecEntry>) -> bool {
    &&& t.len() == 4 + entries.len()
    &&& is_node(t[0], None, ROOT_NAME@, SpecValue::Empty)
    &&& is_node(t[1], Some(t[0].id), "@protocol"@, SpecValue::Text(PROTOCOL@))
    &&& is_node(t[2], Some(t[0].id), "@rule"@, SpecValue::Text(rule_text(rule)))
    &&& is_node(t[3], Some(t[0].id), SHARDS_NODE@, SpecValue::Empty)
    &&& forall|k: int|
        0 <= k < entries.len() ==> is_node(
            #[trigger] t[4 + k],
            Some(t[3].id),
            entries[k].name,
            SpecValue::Text(entries[k].filename),
        )
}

/// Whether the node declares a split.
pub open spec fn declares_split(t: Nodes, id: Uuid) -> bool {
    match named_child(t, id, "@protocol"@) {
        Some(c) => t[c].value == SpecValue::Text(PROTOCOL@),
        None => false,
    }
}

/// The position of a manifest's root: the first node that declares a split.
pub open spec fn manifest_root(t: Nodes) -> Option<int> {
    first_pick(t, |n: SpecNode| declares_split(t, n.id))
}

/// The text of the rule below a manifest's root; `root` where there is none.
pub open spec fn stated_rule(t: Nodes, root: Uuid) -> Seq<char> {
    match named_child(t, root, "@rule"@) {
        Some(c) => match t[c].value {
            SpecValue::Text(s) => s,
            _ => "root"@,
        },
        None => "root"@,
    }
}

/// The entries that nodes give: those with a text value, which is the file name.
pub open spec fn entries_of(s: Nodes, skip_aux: bool) -> Seq<SpecEntry>
    decreases s.len(),
{
    if s.len() == 0 {
        Seq::<SpecEntry>::empty()
    } else {
        let r = entries_of(s.drop_last(), skip_aux);
        let n = s.last();
        if n.value is Text && !(skip_aux && begins(n.name, '@')) {
            r.push(SpecEntry { name: n.name, filename: n.value->Text_0 })
        } else {
            r
        }
    }
}

/// The entries of a manifest: below its container, or where it has none below
/// its root without the `@` nodes.
pub open spec fn stated_entries(t: Nodes, root: Uuid) -> Seq<SpecEntry> {
    match named_child(t, root, SHARDS_NODE@) {
        Some(c) => entries_of(children_of(t, t[c].id), false),
        None => entries_of(children_of(t, root), true),
    }
}

impl Manifest {
    /// A store of the manifest, under fresh ids.
    pub fn to_store(&self) -> (r: Store)
        ensures
            r.wf(),
            manifest_nodes(r@, self.rule@, entry_models(self.shards@)),
    {
        let mut s = Store::new();
        let root = s.create(None, ROOT_NAME, Value::Empty, false);
        let ghost t1 = s@;
        s.create(Some(root.id), "@protocol", Value::Text(owned(PROTOCOL)), false);
        let ghost t2 = s@;
        assert(t2[0] == t2.take(1)[0]);
        s.create(Some(root.id), "@rule", Value::Text(self.rule.as_str()), false);
        let ghost t3 = s@;
        assert(t3[0] == t3.take(2)[0]);
        assert(t3[1] == t3.take(2)[1]);
        let shards = s.create(Some(root.id), SHARDS_NODE, Value::Empty, false);
        let ghost t4 = s@;
        assert(t4[0] == t4.take(3)[0]);
        assert(t4[1] == t4.take(3)[1]);
        assert(t4[2] == t4.take(3)[2]);
        let ghost e = entry_models(self.shards@);
        let mut i: usize = 0;
        while i < self.shards.len()
            invariant
                i <= self.shards@.len(),
                s.wf(),
                e == entry_models(self.shards@),
                s@.len() == 4 + i,
                shards.id == s@[3].id,
                manifest_nodes(s@, self.rule@, e.take(i as int)),
            decreases self.shards@.len() - i,
        {
            let ghost t0 = s@;
            s.create(
                Some(shards.id),
                self.shards[i].name.as_str(),
                Value::Text(self.shards[i].filename.clone()),
                false,
            );
            proof {
                let n = t0.len() as int;
                assert forall|j: int| 0 <= j < n implies s@[j] == t0[j] by {
                    assert(s@.take(n)[j] == t0[j]);
                }
                assert forall|k: int| 0 <= k < i + 1 implies is_node(
                    #[trigger] s@[4 + k],
                    Some(s@[3].id),
                    e.take(i + 1)[k].name,
                    SpecValue::Text(e.take(i + 1)[k].filename),
                ) by {
                    if k < i {
                        assert(e.take(i + 1)[k] == e.take(i as int)[k]);
                        assert(s@[4 + k] == t0[4 + k]);
                    }
                }
            }
            i = i + 1;
        }
        assert(e.take(e.len() as int) =~= e);
        s
    }

    /// Reads a manifest from a store.
    pub fn from_store(store: &Store) -> (r: Result<Manifest, String>)
        requires
            store.wf(),
        ensures
            reads_manifest(store@, r),
    {
        let at: usize = match root_position(store) {
            Some(i) => i,
            None => return Err(owned("W001：分片清单缺失")),
        };
        let ghost t = store@;
        let root = store.at(at);
        let rule_str = match store.child_position(root.id, "@rule") {
            Some(c) => match &store.at(c).value {
                Value::Text(s) => s.clone(),
                _ => owned("root"),
            },
            None => owned("root"),
        };
        let rule = match ShardRule::parse(rule_str.as_str()) {
            Ok(r) => r,
            Err(e) => return Err(e),
        };
        let shards = match store.child_position(root.id, SHARDS_NODE) {
            Some(c) => read_entries(&store.children(store.at(c)), false),
            None => read_entries(&store.children(root), true),
        };
        Ok(Manifest { rule, shards })
    }
}

/// The position of the first node that declares a split.
fn root_position(store: &Store) -> (r: Option<usize>)
    requires
        store.wf(),
    ensures
        match r {
            Some(i) => manifest_root(store@) == Some(i as int) && i < store@.len(),
            None => manifest_root(store@) is None,
        },
{
    let ghost t = store@;
    let ghost p = |n: SpecNode| declares_split(t, n.id);
    let mut i: usize = 0;
    while i < store.len()
        invariant
            i <= t.len(),
            t == store@,
            store.wf(),
            p == (|n: SpecNode| declares_split(t, n.id)),
            forall|j: int| 0 <= j < i ==> !p(#[trigger] t[j]),
        decreases t.len() - i,
    {
        let hit = match store.child_position(store.at(i).id, "@protocol") {
            Some(c) => match &store.at(c).value {
                Value::Text(s) => same_text(s.as_str(), PROTOCOL),
                _ => false,
            },
            None => false,
        };
        if hit {
            proof {
                assert(p(t[i as int]));
                crate::model::lemma_first_pick_is(t, p, i as int);
            }
            return Some(i);
        }
        i = i + 1;
    }
    proof {
        crate::model::lemma_first_pick_none(t, p);
    }
    None
}

/// The entries that nodes give.
fn read_entries(nodes: &Vec<&Node>, skip_aux: bool) -> (r: Vec<ShardEntry>)
    ensures
        entry_models(r@) == entries_of(ref_models(nodes@), skip_aux),
{
    let ghost s = ref_models(nodes@);
    let mut out: Vec<ShardEntry> = Vec::new();
    let mut i: usize = 0;
    assert(s.take(0) =~= Seq::<SpecNode>::empty());
    assert(entry_models(out@) =~= entries_of(s.take(0), skip_aux));
    while i < nodes.len()
        invariant
            i <= nodes@.len(),
            s == ref_models(nodes@),
            entry_models(out@) == entries_of(s.take(i as int), skip_aux),
        decreases nodes@.len() - i,
    {
        proof {
            assert(s.take(i + 1).drop_last() =~= s.take(i as int));
            assert(s[i as int] == nodes@[i as int]@);
        }
        let n = nodes[i];
        if let Value::Text(f) = &n.value {
            if !(skip_aux && is_aux_name(n.name.as_str())) {
                let ghost o0 = out@;
                out.push(ShardEntry { name: n.name.clone(), filename: f.clone() });
                assert(entry_models(out@) =~= entry_models(o0).push(
                    SpecEntry { name: n.name@, filename: f@ },
                ));
            }
        }
        i = i + 1;
    }
    assert(s.take(s.len() as int) =~= s);
    out
}

proof fn lemma_entries_all(s: Nodes, e: Seq<SpecEntry>)
    requires
        s.len() == e.len(),
        forall|k: int|
            0 <= k < s.len() ==> (#[trigger] s[k]).name == e[k].name && s[k].value
                == SpecValue::Text(e[k].filename),
    ensures
        entries_of(s, false) == e,
    decreases s.len(),
{
    if s.len() > 0 {
        let d = s.drop_last();
        assert forall|k: int| 0 <= k < d.len() implies (#[trigger] d[k]).name == e.drop_last()[k].name
            && d[k].value == SpecValue::Text(e.drop_last()[k].filename) by {
            assert(s[k].name == e[k].name);
        }
        lemma_entries_all(d, e.drop_last());
        assert(s[s.len() - 1].name == e[s.len() - 1].name);
        assert(entries_of(s, false) =~= e);
    } else {
        assert(entries_of(s, false) =~= e);
    }
}

/// Reading the store of a manifest gives the manifest back, provided that the
/// ids made for it differ.
pub proof fn manifest_round_trip(t: Nodes, rule: SpecRule, entries: Seq<SpecEntry>)
    requires
        manifest_nodes(t, rule, entries),
        crate::model::distinct_ids(t),
    ensures
        manifest_root(t) == Some(0int),
        rule_of(stated_rule(t, t[0].id)) == Some(rule),
        stated_entries(t, t[0].id) == entries,
{
    let root = t[0].id;
    let box_id = t[3].id;
    assert(t[0].id != t[3].id);
    reveal_strlit("@protocol");
    reveal_strlit("@rule");
    reveal_strlit("分片");
    assert("@protocol"@.len() == 9);
    assert("@rule"@.len() == 5);
    assert(SHARDS_NODE@.len() == 2);
    assert forall|k: int| 4 <= k < t.len() implies (#[trigger] t[k]).parent == Some(box_id) by {
        assert(is_node(
            t[4 + (k - 4)],
            Some(t[3].id),
            entries[k - 4].name,
            SpecValue::Text(entries[k - 4].filename),
        ));
    }
    let p1 = |n: SpecNode| n.parent == Some(root) && n.name == "@protocol"@;
    assert(!p1(t[0]));
    crate::model::lemma_first_pick_is(t, p1, 1);
    let p0 = |n: SpecNode| declares_split(t, n.id);
    assert(p0(t[0]));
    crate::model::lemma_first_pick_is(t, p0, 0);
    let p2 = |n: SpecNode| n.parent == Some(root) && n.name == "@rule"@;
    assert(!p2(t[0]) && !p2(t[1]));
    crate::model::lemma_first_pick_is(t, p2, 2);
    rule_round_trip(rule);
    let p3 = |n: SpecNode| n.parent == Some(root) && n.name == SHARDS_NODE@;
    assert(!p3(t[0]) && !p3(t[1]) && !p3(t[2]));
    crate::model::lemma_first_pick_is(t, p3, 3);
    let q = |n: SpecNode| n.parent == Some(box_id);
    let s = Seq::new(entries.len(), |k: int| 4 + k);
    assert forall|i: int| 0 <= i < t.len() && q(#[trigger] t[i]) implies s.contains(i) by {
        assert(i >= 4);
        assert(s[i - 4] == i);
    }
    assert forall|k: int| 0 <= k < s.len() implies 0 <= #[trigger] s[k] < t.len() && q(t[s[k]]) by {
        assert(t[4 + k].parent == Some(box_id));
    }
    crate::model::lemma_picks_unique(t, q, s);
    let c = children_of(t, box_id);
    assert forall|k: int| 0 <= k < c.len() implies (#[trigger] c[k]).name == entries[k].name
        && c[k].value == SpecValue::Text(entries[k].filename) by {
        assert(c[k] == t[4 + k]);
        assert(is_node(
            t[4 + k],
            Some(t[3].id),
            entries[k].name,
            SpecValue::Text(entries[k].filename),
        ));
    }
    lemma_entries_all(c, entries);
}

/// The outcome of reading the store of a manifest.
pub open spec fn reads_manifest(t: Nodes, r: Result<Manifest, String>) -> bool {
    match manifest_root(t) {
        None => r is Err && r->Err_0@ == "W001：分片清单缺失"@,
        Some(i) => {
            let root = t[i].id;
            match rule_of(stated_rule(t, root)) {
                None => r is Err && r->Err_0@ == bad_rule(stated_rule(t, root)),
                Some(rule) => r is Ok && r->Ok_0.rule@ == rule && entry_models(r->Ok_0.shards@)
                    == stated_entries(t, root),
            }
        },
    }
}

/// Reads a manifest from the bytes of its file.
pub fn read_manifest(data: &[u8]) -> (r: Result<Manifest, String>)
    ensures
        match file_nodes(data@) {
            Ok(t) => reads_manifest(t, r),
            Err(e) => r is Err && r->Err_0@ == "W001：分片清单缺失（"@ + e + "）"@,
        },
{
    match Store::load(data) {
        Ok(s) => Manifest::from_store(&s),
        Err(e) => Err(join3("W001：分片清单缺失（", e.as_str(), "）")),
    }
}

/// Adds an entry to the store of a manifest; all its nodes stay as they are. Where the
/// entries stand right below the root, the container is made and takes them up first.
pub fn add_shard_entry(mstore: &mut Store, entry: ShardEntry) -> (r: Result<(), String>)
    requires
        old(mstore).wf(),
    ensures
        final(mstore).wf(),
        match manifest_root(old(mstore)@) {
            None => r is Err && r->Err_0@ == "W001：分片清单缺失"@ && final(mstore)@ == old(mstore)@,
            Some(i) => r is Ok && entry_added(old(mstore)@, final(mstore)@, old(mstore)@[i].id, entry@),
        },
{
    let ghost t = mstore@;
    let at: usize = match root_position(mstore) {
        Some(i) => i,
        None => return Err(owned("W001：分片清单缺失")),
    };
    let root = mstore.at(at).id;
    match mstore.child_position(root, SHARDS_NODE) {
        Some(c) => {
            let holder = mstore.at(c).id;
            mstore.create(Some(holder), entry.name.as_str(), Value::Text(entry.filename), false);
        },
        None => {
            let mut entries = read_entries(&mstore.children(mstore.at(at)), true);
            let ghost es = entry_models(entries@).push(entry@);
            entries.push(entry);
            assert(entry_models(entries@) =~= es);
            let holder = mstore.create(Some(root), SHARDS_NODE, Value::Empty, false);
            put_entries(mstore, holder.id, &entries);
            proof {
                let n = t.len() as int;
                assert(mstore@.take(n) =~= mstore@.take(n + 1).take(n));
                assert(mstore@[n] == mstore@.take(n + 1)[n]);
            }
        },
    }
    Ok(())
}

/// Puts entries below a node, behind all others.
fn put_entries(s: &mut Store, holder: Uuid, entries: &Vec<ShardEntry>)
    requires
        old(s).wf(),
    ensures
        final(s).wf(),
        final(s)@.take(old(s)@.len() as int) == old(s)@,
        entries_below(
            final(s)@,
            old(s)@.len() as int,
            holder,
            entry_models(entries@),
        ),
{
    let ghost t = s@;
    let ghost n = t.len() as int;
    let ghost es = entry_models(entries@);
    let mut i: usize = 0;
    assert(s@.take(n) =~= t);
    while i < entries.len()
        invariant
            i <= entries@.len(),
            s.wf(),
            n == t.len(),
            es == entry_models(entries@),
            s@.take(n) == t,
            entries_below(s@, n, holder, es.take(i as int)),
        decreases entries@.len() - i,
    {
        let ghost before = s@;
        s.create(
            Some(holder),
            entries[i].name.as_str(),
            Value::Text(entries[i].filename.clone()),
            false,
        );
        proof {
            assert forall|j: int| 0 <= j < before.len() implies s@[j] == before[j] by {
                assert(s@.take(before.len() as int)[j] == before[j]);
            }
            assert(s@.take(n) =~= before.take(n));
            assert forall|k: int| 0 <= k < i + 1 implies is_node(
                #[trigger] s@[n + k],
                Some(holder),
                es.take(i + 1)[k].name,
                SpecValue::Text(es.take(i + 1)[k].filename),
            ) by {
                if k < i {
                    assert(es.take(i + 1)[k] == es.take(i as int)[k]);
                    assert(s@[n + k] == before[n + k]);
                }
            }
        }
        i = i + 1;
    }
    assert(es.take(es.len() as int) =~= es);
}

/// Whether the nodes from position `n` on are those of entries below a node.
pub open spec fn entries_below(u: Nodes, n: int, holder: Uuid, es: Seq<SpecEntry>) -> bool {
    &&& u.len() == n + es.len()
    &&& forall|k: int|
        0 <= k < es.len() ==> is_node(
            #[trigger] u[n + k],
            Some(holder),
            es[k].name,
            SpecValue::Text(es[k].filename),
        )
}

/// Whether `u` is `t` with an entry added below the manifest's container. Where there is
/// none, it is made, and has the entries that stood below the root in it as well.
pub open spec fn entry_added(t: Nodes, u: Nodes, root: Uuid, e: SpecEntry) -> bool {
    let n = t.len() as int;
    match named_child(t, root, SHARDS_NODE@) {
        Some(c) => {
            &&& u.len() == n + 1
            &&& u.take(n) == t
            &&& is_node(u[n], Some(t[c].id), e.name, SpecValue::Text(e.filename))
        },
        None => {
            &&& u.take(n) == t
            &&& is_node(u[n], Some(root), SHARDS_NODE@, SpecValue::Empty)
            &&& entries_below(u, n + 1, u[n].id, stated_entries(t, root).push(e))
        },
    }
}

/// Whether the nodes of `u` behind those of `t` have ids that nothing else has or names as
/// its parent.
pub open spec fn ids_are_new(t: Nodes, u: Nodes) -> bool {
    &&& forall|i: int, j: int|
        0 <= i < j < u.len() && j >= t.len() ==> (#[trigger] u[i]).id != (#[trigger] u[j]).id
    &&& forall|i: int, j: int|
        0 <= i < t.len() && t.len() <= j < u.len() ==> (#[trigger] u[i]).parent != Some(
            (#[trigger] u[j]).id,
        )
}

/// What is picked first of a run stays so where more follows, unless it is picked of that
/// only.
proof fn lemma_first_pick_longer(t: Nodes, u: Nodes, p: spec_fn(SpecNode) -> bool)
    requires
        t.len() <= u.len(),
        u.take(t.len() as int) == t,
    ensures
        first_pick(t, p) is Some ==> first_pick(u, p) == first_pick(t, p),
        (forall|j: int| t.len() <= j < u.len() ==> !p(#[trigger] u[j])) ==> first_pick(u, p)
            == first_pick(t, p),
{
    crate::model::lemma_first_pick(t, p);
    assert forall|j: int| 0 <= j < t.len() implies u[j] == t[j] by {
        assert(u.take(t.len() as int)[j] == u[j]);
    }
    match first_pick(t, p) {
        Some(i) => {
            assert forall|j: int| 0 <= j < i implies !p(#[trigger] u[j]) by {
                assert(!p(t[j]));
            }
            crate::model::lemma_first_pick_is(u, p, i);
        },
        None => {
            if forall|j: int| t.len() <= j < u.len() ==> !p(#[trigger] u[j]) {
                assert forall|j: int| 0 <= j < u.len() implies !p(#[trigger] u[j]) by {
                    if j < t.len() {
                        assert(!p(t[j]));
                    }
                }
                crate::model::lemma_first_pick_none(u, p);
            }
        },
    }
}

/// Whether an entry added to a manifest would be read as something else: as the mark of a
/// manifest where its container stands before the root, or as the rule where its container
/// is the root.
pub open spec fn entry_misread(t: Nodes, e: SpecEntry) -> bool {
    let at = manifest_root(t)->Some_0;
    let root = t[at].id;
    match named_child(t, root, SHARDS_NODE@) {
        None => false,
        Some(c) => {
            ||| {
                &&& e.name == "@protocol"@
                &&& e.filename == PROTOCOL@
                &&& named_child(t, t[c].id, "@protocol"@) is None
                &&& exists|j: int| 0 <= j < at && (#[trigger] t[j]).id == t[c].id
            }
            ||| {
                &&& e.name == "@rule"@
                &&& e.filename != "root"@
                &&& named_child(t, root, "@rule"@) is None
                &&& t[c].id == root
            }
        },
    }
}

/// A manifest with an entry added is read as it was, with the entry behind the others,
/// provided that the ids drawn for it differ from all others and that it is not taken for
/// something else.
pub proof fn added_entry_is_read(t: Nodes, u: Nodes, e: SpecEntry)
    requires
        manifest_root(t) is Some,
        entry_added(t, u, t[manifest_root(t)->Some_0].id, e),
        ids_are_new(t, u),
        !entry_misread(t, e),
    ensures
        manifest_root(u) == manifest_root(t),
        u.take(t.len() as int) == t,
        ({
            let root = t[manifest_root(t)->Some_0].id;
            &&& stated_rule(u, root) == stated_rule(t, root)
            &&& stated_entries(u, root) == stated_entries(t, root).push(e)
        }),
{
    let n = t.len() as int;
    let is_root = |x: SpecNode| declares_split(t, x.id);
    crate::model::lemma_first_pick(t, is_root);
    let at = manifest_root(t)->Some_0;
    let root = t[at].id;
    let q = |x: SpecNode| x.parent == Some(root) && x.name == SHARDS_NODE@;
    crate::model::lemma_first_pick(t, q);
    reveal_strlit("@protocol");
    reveal_strlit("@rule");
    reveal_strlit("分片");
    assert("@protocol"@.len() == 9 && "@rule"@.len() == 5 && SHARDS_NODE@.len() == 2);
    assert forall|j: int| 0 <= j < n implies u[j] == t[j] by {
        assert(u.take(n)[j] == u[j]);
    }
    let fresh_box = named_child(t, root, SHARDS_NODE@) is None;
    let box_id = if fresh_box {
        u[n].id
    } else {
        t[named_child(t, root, SHARDS_NODE@)->Some_0].id
    };
    assert forall|j: int| n <= j < u.len() implies (#[trigger] u[j]).parent == Some(box_id) || (
    fresh_box && j == n) by {
        if fresh_box && j > n {
            assert(u[n + 1 + (j - n - 1)] == u[j]);
        }
    }
    assert(fresh_box ==> box_id != root) by {
        if fresh_box {
            assert(u[at].id != u[n].id);
        }
    }
    // the root
    assert forall|j: int| 0 <= j <= at implies declares_split(u, (#[trigger] t[j]).id)
        == declares_split(t, t[j].id) by {
        let id = t[j].id;
        let p = |x: SpecNode| x.parent == Some(id) && x.name == "@protocol"@;
        crate::model::lemma_first_pick(t, p);
        if named_child(t, id, "@protocol"@) is Some {
            let k = named_child(t, id, "@protocol"@)->Some_0;
            assert(u[k] == t[k]);
            assert forall|x: int| 0 <= x < k implies !p(#[trigger] u[x]) by {
                assert(!p(t[x]));
            }
            crate::model::lemma_first_pick_is(u, p, k);
        } else if fresh_box || id != box_id || e.name != "@protocol"@ {
            assert forall|k: int| n <= k < u.len() implies !p(#[trigger] u[k]) by {
                if fresh_box {
                    assert(u[j].id != u[n].id);
                }
            }
            lemma_first_pick_longer(t, u, p);
        } else {
            assert(j < at) by {
                if j == at {
                    assert(is_root(t[at]));
                }
            }
            assert forall|x: int| 0 <= x < n implies !p(#[trigger] u[x]) by {
                assert(!p(t[x]));
            }
            crate::model::lemma_first_pick_is(u, p, n);
        }
    }
    let is_root_now = |x: SpecNode| declares_split(u, x.id);
    assert(is_root(t[at]));
    assert(is_root_now(u[at]));
    assert forall|j: int| 0 <= j < at implies !is_root_now(#[trigger] u[j]) by {
        assert(!is_root(t[j]));
        assert(declares_split(u, t[j].id) == declares_split(t, t[j].id));
    }
    crate::model::lemma_first_pick_is(u, is_root_now, at);
    // the rule
    let pr = |x: SpecNode| x.parent == Some(root) && x.name == "@rule"@;
    crate::model::lemma_first_pick(t, pr);
    if named_child(t, root, "@rule"@) is Some {
        let k = named_child(t, root, "@rule"@)->Some_0;
        assert forall|x: int| 0 <= x < k implies !pr(#[trigger] u[x]) by {
            assert(!pr(t[x]));
        }
        crate::model::lemma_first_pick_is(u, pr, k);
    } else if box_id != root || e.name != "@rule"@ {
        lemma_first_pick_longer(t, u, pr);
    } else {
        assert forall|x: int| 0 <= x < n implies !pr(#[trigger] u[x]) by {
            assert(!pr(t[x]));
        }
        crate::model::lemma_first_pick_is(u, pr, n);
    }
    // the entries
    let qb = |x: SpecNode| x.parent == Some(box_id);
    if fresh_box {
        let es = stated_entries(t, root).push(e);
        crate::model::lemma_first_pick_is(u, q, n);
        let s = Seq::new(es.len(), |k: int| n + 1 + k);
        assert forall|i: int| 0 <= i < u.len() && qb(#[trigger] u[i]) implies s.contains(i) by {
            if i < n {
                assert(u[i].parent != Some(u[n].id));
            }
            assert(i != n);
            assert(s[i - n - 1] == i);
        }
        assert forall|k: int| 0 <= k < s.len() implies 0 <= #[trigger] s[k] < u.len() && qb(
            u[s[k]],
        ) by {
            assert(u[n + 1 + k].parent == Some(box_id));
        }
        crate::model::lemma_picks_unique(u, qb, s);
        let c = children_of(u, box_id);
        assert forall|k: int| 0 <= k < c.len() implies (#[trigger] c[k]).name == es[k].name
            && c[k].value == SpecValue::Text(es[k].filename) by {
            assert(c[k] == u[n + 1 + k]);
        }
        lemma_entries_all(c, es);
    } else {
        let k = named_child(t, root, SHARDS_NODE@)->Some_0;
        assert forall|x: int| 0 <= x < k implies !q(#[trigger] u[x]) by {
            assert(!q(t[x]));
        }
        crate::model::lemma_first_pick_is(u, q, k);
        assert(u =~= t.push(u[n]));
        crate::model::lemma_picks_push(t, u[n], qb);
        crate::model::lemma_picks(t, qb);
        let c = children_of(t, box_id);
        assert(children_of(u, box_id) =~= c.push(u[n]));
        assert(c.push(u[n]).drop_last() =~= c);
    }
}

/// The file name of a shard.
pub open spec fn shard_file_name(root: Uuid) -> Seq<char> {
    uuid_text(root) + ".xirang"@
}

/// The entry of a shard in the manifest of a split.
pub open spec fn entry_of(t: Nodes, root: Uuid) -> SpecEntry {
    SpecEntry {
        name: match found(t, root) {
            Some(n) => n.name,
            None => Seq::<char>::empty(),
        },
        filename: shard_file_name(root),
    }
}

/// The files of a split: the shards with their names, and the manifest.
pub fn split_files(store: &Store, rule: &ShardRule) -> (r: (Vec<(String, Store)>, Manifest))
    requires
        store.wf(),
    ensures
        ({
            let t = store@;
            let heads = head_ids(t, rule@);
            let roots = homes(t, heads, t.len());
            &&& r.0@.len() == roots.len()
            &&& r.1.rule@ == rule@
            &&& entry_models(r.1.shards@) == Seq::new(roots.len(), |g: int| entry_of(t, roots[g]))
            &&& forall|g: int|
                0 <= g < roots.len() ==> (#[trigger] r.0@[g]).0@ == shard_file_name(roots[g])
                    && r.0@[g].1.wf() && r.0@[g].1@ == shard_nodes(t, heads, roots[g])
        }),
{
    let ghost t = store@;
    let ghost heads = head_ids(t, rule@);
    let ghost roots = homes(t, heads, t.len());
    let mut files: Vec<(String, Store)> = Vec::new();
    let mut entries: Vec<ShardEntry> = Vec::new();
    let shards = match split(store, rule) {
        Ok(s) => s,
        Err(_) => Vec::new(),
    };
    let ghost parts = shards@;
    for s in it: shards
        invariant
            it.seq() == parts,
            store.wf(),
            t == store@,
            parts.len() == roots.len(),
            forall|g: int|
                0 <= g < roots.len() ==> (#[trigger] parts[g]).0 == roots[g] && parts[g].1.wf()
                    && parts[g].1@ == shard_nodes(t, heads, roots[g]),
            files@.len() == it.index(),
            entries@.len() == it.index(),
            forall|g: int|
                0 <= g < it.index() ==> (#[trigger] entries@[g])@ == entry_of(t, roots[g]),
            forall|g: int|
                0 <= g < it.index() ==> (#[trigger] files@[g]).0@ == shard_file_name(roots[g])
                    && files@[g].1.wf() && files@[g].1@ == shard_nodes(t, heads, roots[g]),
    {
        let ghost g = it.index() as int;
        assert(s == parts[g]);
        let id = s.0;
        let text = id.to_string();
        let filename = join2(text.as_str(), ".xirang");
        let name = match store.get(id) {
            Some(n) => n.name.clone(),
            None => String::new(),
        };
        entries.push(ShardEntry { name, filename: filename.clone() });
        files.push((filename, s.1));
    }
    let m = Manifest { rule: rule.clone(), shards: entries };
    assert(entry_models(m.shards@) =~= Seq::new(roots.len(), |g: int| entry_of(t, roots[g])));
    (files, m)
}

// ---------------------------------------------------------------------------
// Collections
// ---------------------------------------------------------------------------

/// The shards of a split, folded, with an index by id.
#[derive(Debug)]
pub struct Collection {
    pub manifest: Manifest,
    pub shards: Vec<(String, Store)>,
    pub index: IdMap<usize>,
}

/// What a shard in a collection is: its file name and its nodes.
pub struct SpecShard {
    pub file: Seq<char>,
    pub nodes: Nodes,
}

/// The last shard that has the id.
pub open spec fn slot_of(w: Seq<SpecShard>, id: Uuid) -> Option<int>
    decreases w.len(),
{
    if w.len() == 0 {
        None
    } else if found(w.last().nodes, id) is Some {
        Some(w.len() - 1)
    } else {
        slot_of(w.drop_last(), id)
    }
}

impl View for Collection {
    type V = Seq<SpecShard>;

    closed spec fn view(&self) -> Seq<SpecShard> {
        shard_models(self.shards@)
    }
}

/// The models of shards.
pub open spec fn shard_models(s: Seq<(String, Store)>) -> Seq<SpecShard> {
    Seq::new(s.len(), |i: int| SpecShard { file: s[i].0@, nodes: s[i].1@ })
}

/// The first entry whose file is missing.
pub open spec fn first_missing(raw: Seq<Option<Store>>) -> Option<int>
    decreases raw.len(),
{
    if raw.len() == 0 {
        None
    } else {
        match first_missing(raw.drop_last()) {
            Some(i) => Some(i),
            None => if raw.last() is None {
                Some(raw.len() - 1)
            } else {
                None
            },
        }
    }
}

proof fn lemma_first_missing(raw: Seq<Option<Store>>, i: int)
    requires
        0 <= i < raw.len(),
        raw[i] is None,
        forall|j: int| 0 <= j < i ==> (#[trigger] raw[j]) is Some,
    ensures
        first_missing(raw) == Some(i),
    decreases raw.len(),
{
    if i < raw.len() - 1 {
        lemma_first_missing(raw.drop_last(), i);
    } else {
        lemma_none_missing(raw.drop_last());
    }
}

proof fn lemma_none_missing(raw: Seq<Option<Store>>)
    requires
        forall|j: int| 0 <= j < raw.len() ==> (#[trigger] raw[j]) is Some,
    ensures
        first_missing(raw) is None,
    decreases raw.len(),
{
    if raw.len() > 0 {
        assert(raw[raw.len() - 1] is Some);
        lemma_none_missing(raw.drop_last());
    }
}

proof fn lemma_slot(w: Seq<SpecShard>, id: Uuid)
    ensures
        match slot_of(w, id) {
            Some(s) => 0 <= s < w.len() && found(w[s].nodes, id) is Some,
            None => true,
        },
    decreases w.len(),
{
    if w.len() > 0 {
        lemma_slot(w.drop_last(), id);
    }
}

impl Collection {
    /// The index agrees with the shards.
    pub closed spec fn wf(&self) -> bool {
        &&& forall|i: int| 0 <= i < self.shards@.len() ==> (#[trigger] self.shards@[i]).1.wf()
        &&& forall|id: Uuid| #[trigger]
            slot_of(self@, id) == (if self.index@.contains_key(id) {
                Some(self.index@[id] as int)
            } else {
                None
            })
    }

    /// Puts a collection together from its manifest and what its files hold,
    /// one for each entry (`None` where the file is missing).
    pub fn open(manifest: Manifest, raw: Vec<Option<Store>>) -> (r: Result<Collection, String>)
        requires
            raw@.len() == manifest.shards@.len(),
            forall|i: int|
                0 <= i < raw@.len() && (#[trigger] raw@[i]) is Some ==> raw@[i]->Some_0.wf(),
        ensures
            match first_missing(raw@) {
                Some(i) => r is Err && r->Err_0@ == "W002：分片文件缺失（"@
                    + manifest.shards@[i].filename@ + "）"@,
                None => r is Ok && r->Ok_0.wf() && r->Ok_0.manifest == manifest && r->Ok_0@
                    == Seq::new(
                    raw@.len(),
                    |i: int|
                        SpecShard {
                            file: manifest.shards@[i].filename@,
                            nodes: folded(raw@[i]->Some_0@),
                        },
                ),
            },
    {
        let ghost all = raw@;
        let ghost goal = Seq::new(
            all.len(),
            |i: int|
                SpecShard { file: manifest.shards@[i].filename@, nodes: folded(all[i]->Some_0@) },
        );
        let mut shards: Vec<(String, Store)> = Vec::new();
        let mut index: IdMap<usize> = IdMap::new();
        let mut i: usize = 0;
        assert(shard_models(shards@) =~= goal.take(0));
        while i < raw.len()
            invariant
                i <= raw@.len(),
                all == raw@,
                all.len() == manifest.shards@.len(),
                goal == Seq::new(
                    all.len(),
                    |i: int|
                        SpecShard {
                            file: manifest.shards@[i].filename@,
                            nodes: folded(all[i]->Some_0@),
                        },
                ),
                forall|k: int|
                    0 <= k < all.len() && (#[trigger] all[k]) is Some ==> all[k]->Some_0.wf(),
                forall|k: int| 0 <= k < i ==> (#[trigger] all[k]) is Some,
                shards@.len() == i,
                forall|k: int| 0 <= k < shards@.len() ==> (#[trigger] shards@[k]).1.wf(),
                shard_models(shards@) == goal.take(i as int),
                forall|id: Uuid| #[trigger]
                    slot_of(goal.take(i as int), id) == (if index@.contains_key(id) {
                        Some(index@[id] as int)
                    } else {
                        None
                    }),
            decreases raw@.len() - i,
        {
            match &raw[i] {
                None => {
                    proof {
                        lemma_first_missing(all, i as int);
                    }
                    return Err(
                        join3(
                            "W002：分片文件缺失（",
                            manifest.shards[i].filename.as_str(),
                            "）",
                        ),
                    );
                },
                Some(store) => {
                    let f = fold(store);
                    let ghost m0 = index@;
                    index_shard(&mut index, &f, i);
                    let ghost s0 = shards@;
                    let ghost nodes = f@;
                    shards.push((manifest.shards[i].filename.clone(), f));
                    proof {
                        assert(goal.take(i + 1).drop_last() =~= goal.take(i as int));
                        assert(shard_models(shards@) =~= shard_models(s0).push(goal[i as int]));
                        assert(goal.take(i + 1) =~= goal.take(i as int).push(goal[i as int]));
                        assert forall|id: Uuid| #[trigger]
                            slot_of(goal.take(i + 1), id) == (if index@.contains_key(id) {
                                Some(index@[id] as int)
                            } else {
                                None
                            }) by {
                            assert(slot_of(goal.take(i as int), id) == (if m0.contains_key(id) {
                                Some(m0[id] as int)
                            } else {
                                None
                            }));
                        }
                    }
                },
            }
            i = i + 1;
        }
        proof {
            lemma_none_missing(all);
            assert(goal.take(goal.len() as int) =~= goal);
        }
        Ok(Collection { manifest, shards, index })
    }

    /// The node with the id, from the shard that has it.
    pub fn find(&self, id: Uuid) -> (r: Option<&Node>)
        requires
            self.wf(),
        ensures
            ref_model(r) == (match slot_of(self@, id) {
                Some(s) => found(self@[s].nodes, id),
                None => None,
            }),
    {
        assert(slot_of(self@, id) == slot_of(self@, id));
        proof {
            lemma_slot(self@, id);
        }
        match self.index.get(id) {
            Some(s) => {
                assert(self.shards@[*s as int].1.wf());
                self.shards[*s].1.get(id)
            },
            None => None,
        }
    }

    /// The node that a reference points to.
    pub fn resolve(&self, node: &Node) -> (r: Option<&Node>)
        requires
            self.wf(),
        ensures
            ref_model(r) == (match node@.value {
                SpecValue::Reference(u) => match slot_of(self@, u) {
                    Some(s) => found(self@[s].nodes, u),
                    None => None,
                },
                _ => None,
            }),
    {
        match &node.value {
            Value::Reference(t) => self.find(*t),
            _ => None,
        }
    }

    /// The file of the shard that has the id.
    pub fn shard_file_for(&self, id: Uuid) -> (r: Option<&str>)
        requires
            self.wf(),
        ensures
            match r {
                Some(f) => slot_of(self@, id) is Some && f@ == self@[slot_of(
                    self@,
                    id,
                )->Some_0].file,
                None => slot_of(self@, id) is None,
            },
    {
        assert(slot_of(self@, id) == slot_of(self@, id));
        proof {
            lemma_slot(self@, id);
        }
        match self.index.get(id) {
            Some(s) => Some(self.shards[*s].0.as_str()),
            None => None,
        }
    }

    /// All shards, in the order of the manifest.
    pub fn shards(&self) -> (r: &Vec<(String, Store)>)
        ensures
            shard_models(r@) == self@,
    {
        &self.shards
    }
}

/// Files the ids of a shard under its slot.
fn index_shard(index: &mut IdMap<usize>, store: &Store, slot: usize)
    ensures
        forall|id: Uuid| #[trigger]
            final(index)@.contains_key(id) <==> old(index)@.contains_key(id) || found(
                store@,
                id,
            ) is Some,
        forall|id: Uuid| #[trigger]
            final(index)@.contains_key(id) ==> final(index)@[id] == (if found(
                store@,
                id,
            ) is Some {
                slot
            } else {
                old(index)@[id]
            }),
{
    let ghost t = store@;
    let ghost m0 = index@;
    let mut i: usize = 0;
    assert(t.take(0) =~= Seq::<SpecNode>::empty());
    while i < store.len()
        invariant
            i <= t.len(),
            t == store@,
            forall|id: Uuid| #[trigger]
                index@.contains_key(id) <==> m0.contains_key(id) || found(
                    t.take(i as int),
                    id,
                ) is Some,
            forall|id: Uuid| #[trigger]
                index@.contains_key(id) ==> index@[id] == (if found(t.take(i as int), id) is Some {
                    slot
                } else {
                    m0[id]
                }),
        decreases t.len() - i,
    {
        let ghost m1 = index@;
        let id = store.at(i).id;
        index.insert(id, slot);
        proof {
            assert(t.take(i + 1) =~= t.take(i as int).push(t[i as int]));
            assert forall|x: Uuid| true implies (found(t.take(i + 1), x) is Some) == (x == id
                || found(t.take(i as int), x) is Some) by {
                crate::model::lemma_find_id_push(t.take(i as int), t[i as int], x);
            }
            assert forall|x: Uuid| #[trigger] index@.contains_key(x) <==> m0.contains_key(x)
                || found(t.take(i + 1), x) is Some by {
                assert(m1.contains_key(x) <==> m0.contains_key(x) || found(
                    t.take(i as int),
                    x,
                ) is Some);
                crate::model::lemma_find_id_push(t.take(i as int), t[i as int], x);
            }
            assert forall|x: Uuid| #[trigger] index@.contains_key(x) implies index@[x] == (
            if found(t.take(i + 1), x) is Some {
                slot
            } else {
                m0[x]
            }) by {
                crate::model::lemma_find_id_push(t.take(i as int), t[i as int], x);
                if x != id {
                    assert(m1.contains_key(x));
                }
            }
        }
        i = i + 1;
    }
    assert(t.take(t.len() as int) =~= t);
}

/// The records of a change: a node of `after` is among them exactly if it is new or differs
/// from what it was; each node of `before` that is gone has a record that empties it; there
/// are no others.
pub proof fn only_changes_are_recorded(before: Nodes, after: Nodes, i: int)
    requires
        0 <= i < after.len(),
    ensures
        ({
            let rs = change_records(before, after);
            let was = found(before, after[i].id);
            &&& (was is None || was->Some_0.parent != after[i].parent || was->Some_0.name
                != after[i].name || !same_value(was->Some_0.value, after[i].value)) ==> rs.contains(
                after[i],
            )
            &&& forall|x: int|
                0 <= x < rs.len() ==> recorded_as_new(before, after, #[trigger] rs[x])
                    || recorded_as_gone(before, after, rs[x])
            &&& forall|j: int|
                0 <= j < before.len() && found(after, (#[trigger] before[j]).id) is None
                    ==> exists|x: int|
                    0 <= x < rs.len() && (#[trigger] rs[x]).id == before[j].id && rs[x].name.len()
                        == 0 && rs[x].value == SpecValue::Empty
        }),
{
    let p = |n: SpecNode| is_changed(before, n);
    let q = |n: SpecNode| found(after, n.id) is None;
    let a = picked(after, p);
    let g = picked(before, q);
    let b = all_emptied(g);
    let rs = change_records(before, after);
    crate::model::lemma_picks(after, p);
    crate::model::lemma_picks(before, q);
    let pa = crate::model::picks(after, p);
    let pb = crate::model::picks(before, q);
    crate::model::lemma_find_id(before, after[i].id);
    if p(after[i]) {
        let k = choose|k: int| 0 <= k < pa.len() && pa[k] == i;
        assert(rs[k] == after[i]);
    }
    assert forall|x: int| 0 <= x < rs.len() implies recorded_as_new(
        before,
        after,
        #[trigger] rs[x],
    ) || recorded_as_gone(before, after, rs[x]) by {
        if x < a.len() {
            assert(rs[x] == after[pa[x]]);
            assert(p(after[pa[x]]));
            crate::model::lemma_find_id(before, rs[x].id);
            assert(after.contains(rs[x]));
        } else {
            let y = x - a.len();
            assert(q(before[pb[y]]));
            assert(rs[x] == emptied(before[pb[y]]));
            assert(before[pb[y]].id == rs[x].id);
        }
    }
    assert forall|j: int|
        0 <= j < before.len() && found(after, (#[trigger] before[j]).id) is None implies exists|
        x: int,
    |
        0 <= x < rs.len() && (#[trigger] rs[x]).id == before[j].id && rs[x].name.len() == 0
            && rs[x].value == SpecValue::Empty by {
        assert(q(before[j]));
        let k = choose|k: int| 0 <= k < pb.len() && pb[k] == j;
        assert(g[k] == before[j]);
        assert(rs[a.len() + k] == emptied(before[j]));
    }
}

/// Whether a record is a node of `after` that is new or differs from what it was.
pub open spec fn recorded_as_new(before: Nodes, after: Nodes, n: SpecNode) -> bool {
    after.contains(n) && (match found(before, n.id) {
        None => true,
        Some(b) => b.parent != n.parent || b.name != n.name || !same_value(b.value, n.value),
    })
}

/// Whether a record empties a node of `before` that is gone.
pub open spec fn recorded_as_gone(before: Nodes, after: Nodes, n: SpecNode) -> bool {
    &&& found(after, n.id) is None
    &&& n.name.len() == 0 && n.value == SpecValue::Empty && n.parent is None
    &&& exists|j: int| 0 <= j < before.len() && (#[trigger] before[j]).id == n.id
}

/// What a rule picks: a node without a parent; one with the name; one that has as many nodes
/// above it; one that has a child with the name.
pub proof fn rules_pick_by_place_or_name(t: Nodes, n: SpecNode, name: Seq<char>)
    ensures
        picks_node(t, SpecRule::Root, n) <==> n.parent is None,
        picks_node(t, SpecRule::Name(name), n) <==> n.name == name,
        picks_node(t, SpecRule::Marker(name), n) <==> exists|i: int|
            0 <= i < t.len() && (#[trigger] t[i]).parent == Some(n.id) && t[i].name == name,
{
    let _ = crate::model::children_stand_in_order(t, n.id, name);
    if let Some(i) = named_child(t, n.id, name) {
        assert(t[i].parent == Some(n.id));
    }
}

/// The depth of a node is the number of nodes above it: each is found as the parent of the
/// one before, and the last has none that is there, unless there are too many.
pub proof fn depth_counts_what_is_above(t: Nodes, cur: Option<Uuid>, d: nat, cap: nat) -> (way: Nodes)
    requires
        d <= cap + 1,
    ensures
        depth_of(t, cur, d, cap) == d + way.len(),
        way.len() > 0 ==> cur is Some && found(t, cur->Some_0) == Some(way[0]),
        way.len() == 0 ==> d > cap || cur is None || found(t, cur->Some_0) is None,
        forall|k: int|
            0 <= k < way.len() - 1 ==> (#[trigger] way[k]).parent is Some && found(
                t,
                way[k].parent->Some_0,
            ) == Some(way[k + 1]),
        way.len() > 0 ==> d + way.len() > cap || way.last().parent is None || found(
            t,
            way.last().parent->Some_0,
        ) is None,
    decreases cap + 1 - d,
{
    if cur is None || d > cap || found(t, cur->Some_0) is None {
        Seq::empty()
    } else {
        let n = found(t, cur->Some_0)->Some_0;
        let rest = depth_counts_what_is_above(t, n.parent, d + 1, cap);
        let way = seq![n] + rest;
        assert forall|k: int| 0 <= k < way.len() - 1 implies (#[trigger] way[k]).parent is Some
            && found(t, way[k].parent->Some_0) == Some(way[k + 1]) by {
            if k > 0 {
                assert(way[k] == rest[k - 1] && way[k + 1] == rest[k]);
            } else {
                assert(way[1] == rest[0]);
            }
        }
        if rest.len() > 0 {
            assert(way.last() == rest.last());
        } else {
            assert(way.last() == n);
        }
        way
    }
}

/// Whether a way of ids goes up from one to a first one in a set.
pub open spec fn climbs_to(t: Nodes, cur: Option<Uuid>, ids: Set<Uuid>, way: Seq<Uuid>) -> bool {
    &&& way.len() > 0 && cur == Some(way[0])
    &&& ids.contains(way.last())
    &&& forall|k: int|
        0 <= k < way.len() - 1 ==> !ids.contains(#[trigger] way[k]) && found(t, way[k]) is Some
            && found(t, way[k])->Some_0.parent == Some(way[k + 1])
}

/// An id of a set is met above exactly if a way up leads to it within the steps.
pub proof fn a_way_up_meets(t: Nodes, cur: Option<Uuid>, ids: Set<Uuid>, left: nat) -> (way: Seq<Uuid>)
    ensures
        meets_above(t, cur, ids, left) ==> way.len() <= left && climbs_to(t, cur, ids, way),
    decreases left,
{
    if !meets_above(t, cur, ids, left) {
        Seq::empty()
    } else {
        let p = cur->Some_0;
        if ids.contains(p) {
            seq![p]
        } else {
            let rest = a_way_up_meets(t, found(t, p)->Some_0.parent, ids, (left - 1) as nat);
            let way = seq![p] + rest;
            assert(way.last() == rest.last());
            assert forall|k: int| 0 <= k < way.len() - 1 implies !ids.contains(#[trigger] way[k])
                && found(t, way[k]) is Some && found(t, way[k])->Some_0.parent == Some(
                way[k + 1],
            ) by {
                if k > 0 {
                    assert(way[k] == rest[k - 1] && way[k + 1] == rest[k]);
                } else {
                    assert(way[1] == rest[0]);
                }
            }
            way
        }
    }
}

/// Where a way up leads to an id of a set within the steps, it is met.
pub proof fn what_a_way_leads_to_is_met(
    t: Nodes,
    cur: Option<Uuid>,
    ids: Set<Uuid>,
    left: nat,
    way: Seq<Uuid>,
)
    requires
        climbs_to(t, cur, ids, way),
        way.len() <= left,
    ensures
        meets_above(t, cur, ids, left),
    decreases left,
{
    if way.len() > 1 {
        let rest = way.skip(1);
        assert(rest.last() == way.last());
        assert(!ids.contains(way[0]) && rest[0] == way[1]);
        assert forall|k: int| 0 <= k < rest.len() - 1 implies !ids.contains(#[trigger] rest[k])
            && found(t, rest[k]) is Some && found(t, rest[k])->Some_0.parent == Some(
            rest[k + 1],
        ) by {
            assert(rest[k] == way[k + 1] && rest[k + 1] == way[k + 1 + 1]);
        }
        what_a_way_leads_to_is_met(
            t,
            found(t, way[0])->Some_0.parent,
            ids,
            (left - 1) as nat,
            rest,
        );
    }
}

/// The shard of a node is the first head that is met from it upwards; where none is met, the
/// node at the end of the way.
pub proof fn the_nearest_head_is_home(t: Nodes, n: SpecNode, heads: Set<Uuid>, left: nat) -> (way: Nodes)
    ensures
        1 <= way.len() <= left + 1,
        way[0] == n,
        home(t, n, heads, left) == way.last().id,
        forall|k: int|
            0 <= k < way.len() - 1 ==> !heads.contains((#[trigger] way[k]).id) && way[k].parent
                is Some && found(t, way[k].parent->Some_0) == Some(way[k + 1]),
        heads.contains(way.last().id) || way.last().parent is None || found(
            t,
            way.last().parent->Some_0,
        ) is None || way.len() == left + 1,
    decreases left,
{
    if heads.contains(n.id) || left == 0 || n.parent is None || found(t, n.parent->Some_0) is None {
        seq![n]
    } else {
        let p = found(t, n.parent->Some_0)->Some_0;
        let rest = the_nearest_head_is_home(t, p, heads, (left - 1) as nat);
        let way = seq![n] + rest;
        assert(way.last() == rest.last());
        assert forall|k: int| 0 <= k < way.len() - 1 implies !heads.contains(
            (#[trigger] way[k]).id,
        ) && way[k].parent is Some && found(t, way[k].parent->Some_0) == Some(way[k + 1]) by {
            if k > 0 {
                assert(way[k] == rest[k - 1] && way[k + 1] == rest[k]);
            } else {
                assert(way[1] == rest[0]);
            }
        }
        way
    }
}

/// The heads of shards are the ids of the nodes that the rule picks and above which it picks
/// none.
pub proof fn heads_are_picked_with_none_above(t: Nodes, rule: SpecRule, id: Uuid)
    ensures
        head_ids(t, rule).contains(id) <==> exists|i: int|
            0 <= i < t.len() && (#[trigger] t[i]).id == id && picked_ids(t, rule).contains(id)
                && !meets_above(t, t[i].parent, picked_ids(t, rule), t.len() + 2),
        picked_ids(t, rule).contains(id) <==> exists|i: int|
            0 <= i < t.len() && (#[trigger] t[i]).id == id && picks_node(t, rule, t[i]),
{
    let p = |n: SpecNode| picks_node(t, rule, n);
    lemma_picked_holds(t, p, id);
    if exists|i: int| 0 <= i < t.len() && (#[trigger] t[i]).id == id && p(t[i]) {
        let i = choose|i: int| 0 <= i < t.len() && (#[trigger] t[i]).id == id && p(t[i]);
        assert(picks_node(t, rule, t[i]));
    }
    if exists|i: int| 0 <= i < t.len() && (#[trigger] t[i]).id == id && picks_node(t, rule, t[i]) {
        let i = choose|i: int|
            0 <= i < t.len() && (#[trigger] t[i]).id == id && picks_node(t, rule, t[i]);
        assert(p(t[i]));
    }
    let q = |n: SpecNode| heads_shard(t, picked_ids(t, rule), n);
    lemma_picked_holds(t, q, id);
    if exists|i: int| 0 <= i < t.len() && (#[trigger] t[i]).id == id && q(t[i]) {
        let i = choose|i: int| 0 <= i < t.len() && (#[trigger] t[i]).id == id && q(t[i]);
        assert(heads_shard(t, picked_ids(t, rule), t[i]));
    }
    if exists|i: int|
        0 <= i < t.len() && (#[trigger] t[i]).id == id && picked_ids(t, rule).contains(id)
            && !meets_above(t, t[i].parent, picked_ids(t, rule), t.len() + 2) {
        let i = choose|i: int|
            0 <= i < t.len() && (#[trigger] t[i]).id == id && picked_ids(t, rule).contains(id)
                && !meets_above(t, t[i].parent, picked_ids(t, rule), t.len() + 2);
        assert(q(t[i]));
    }
}

proof fn lemma_picked_holds(t: Nodes, p: spec_fn(SpecNode) -> bool, id: Uuid)
    ensures
        ids_of(picked(t, p)).contains(id) <==> exists|i: int|
            0 <= i < t.len() && (#[trigger] t[i]).id == id && p(t[i]),
{
    crate::model::lemma_picks(t, p);
    let ks = crate::model::picks(t, p);
    let s = picked(t, p);
    if ids_of(s).contains(id) {
        let k = choose|k: int| 0 <= k < s.len() && (#[trigger] s[k]).id == id;
        assert(p(t[ks[k]]));
        assert(t[ks[k]].id == id);
    }
    if exists|i: int| 0 <= i < t.len() && (#[trigger] t[i]).id == id && p(t[i]) {
        let i = choose|i: int| 0 <= i < t.len() && (#[trigger] t[i]).id == id && p(t[i]);
        let k = choose|k: int| 0 <= k < ks.len() && ks[k] == i;
        assert(s[k].id == id);
    }
}

/// An id is in the last shard that has it.
pub proof fn the_last_shard_counts(w: Seq<SpecShard>, id: Uuid)
    ensures
        match slot_of(w, id) {
            Some(g) => 0 <= g < w.len() && found(w[g].nodes, id) is Some && forall|h: int|
                g < h < w.len() ==> found((#[trigger] w[h]).nodes, id) is None,
            None => forall|h: int|
                0 <= h < w.len() ==> found((#[trigger] w[h]).nodes, id) is None,
        },
    decreases w.len(),
{
    if w.len() > 0 {
        let d = w.drop_last();
        the_last_shard_counts(d, id);
        if found(w.last().nodes, id) is None {
            assert forall|h: int|
                (slot_of(w, id) matches Some(g) ==> g < h) && 0 <= h < w.len() implies found(
                (#[trigger] w[h]).nodes,
                id,
            ) is None by {
                if h < d.len() {
                    assert(d[h] == w[h]);
                }
            }
        }
    }
}

/// A shard is entered with the name of its root and a file named by its id.
pub proof fn shards_are_entered_by_their_root(t: Nodes, root: Uuid, i: int)
    requires
        crate::model::counts(t, i),
        t[i].id == root,
    ensures
        entry_of(t, root).name == t[i].name,
        entry_of(t, root).filename == uuid_text(root) + ".xirang"@,
{
    crate::model::lookup_finds_what_counts(t, root);
}

/// The entries of a manifest are its nodes with a text, which is the file, all of them in
/// order; where `@` nodes are left out, those do not count.
pub proof fn every_text_is_an_entry(s: Nodes, skip_aux: bool) -> (at: Seq<int>)
    ensures
        at.len() == entries_of(s, skip_aux).len(),
        forall|x: int|
            0 <= x < at.len() ==> 0 <= #[trigger] at[x] < s.len() && s[at[x]].value
                == SpecValue::Text(entries_of(s, skip_aux)[x].filename) && entries_of(
                s,
                skip_aux,
            )[x].name == s[at[x]].name && !(skip_aux && s[at[x]].name.len() > 0
                && s[at[x]].name[0] == '@'),
        forall|x: int, y: int| 0 <= x < y < at.len() ==> #[trigger] at[x] < #[trigger] at[y],
        forall|i: int|
            0 <= i < s.len() && (#[trigger] s[i]).value is Text && !(skip_aux && s[i].name.len() > 0
                && s[i].name[0] == '@') ==> at.contains(i),
    decreases s.len(),
{
    if s.len() == 0 {
        Seq::empty()
    } else {
        let d = s.drop_last();
        let rest = every_text_is_an_entry(d, skip_aux);
        let l = s.len() - 1;
        let at = if s[l].value is Text && !(skip_aux && begins(s[l].name, '@')) {
            rest.push(l)
        } else {
            rest
        };
        assert forall|i: int|
            0 <= i < s.len() && (#[trigger] s[i]).value is Text && !(skip_aux && s[i].name.len() > 0
                && s[i].name[0] == '@') implies at.contains(i) by {
            if i < l {
                assert(d[i] == s[i]);
                let x = choose|x: int| 0 <= x < rest.len() && rest[x] == i;
                assert(at[x] == i);
            } else {
                assert(at[rest.len() as int] == i);
            }
        }
        assert forall|x: int| 0 <= x < at.len() implies 0 <= #[trigger] at[x] < s.len()
            && s[at[x]].value == SpecValue::Text(entries_of(s, skip_aux)[x].filename) && entries_of(
            s,
            skip_aux,
        )[x].name == s[at[x]].name && !(skip_aux && s[at[x]].name.len() > 0 && s[at[x]].name[0]
            == '@') by {
            if x < rest.len() {
                assert(at[x] == rest[x]);
                assert(d[rest[x]] == s[rest[x]]);
            }
        }
        at
    }
}

} // verus!
