//! Reading nodes piece by piece, searching them, and checking them as a stream
//! of records.
use crate::bytes::{put_slice, sub_bytes};
use crate::codec::{decode_node, models, nil_id, node_at, uuid_text, Error, Node, SpecNode,
    SpecValue, Uuid, Value};
use crate::floats::{float_text_for, float_text_of};
use crate::idmap::IdSet;
use crate::model::{distinct_ids, find_id, firsts, folded, picked, Nodes};
use crate::sort::{arranged, in_order, is_order, key_views, order};
use crate::text::{chars_of, contains_text, decimal, decimal_text, holds_text, join2, join3, owned,
    same_text, signed_decimal, signed_decimal_text, string_of};
use crate::tree::{fold, found, Store, PROTOCOL_APPEND};
use crate::validator::{all_edge_faults, all_own_faults, cycle_faults, fault_cycle, fault_duplicate,
    fault_if, fault_nil, fault_own_parent,
    fault_parent, fault_target, faults, on_cycle, own_faults, unseen, up, SpecFault};
use vstd::prelude::*;
use vstd::utf8::encode_utf8;

verus! {

// ---------------------------------------------------------------------------
// Pieces
// ---------------------------------------------------------------------------

/// What the bytes hold from their start: the whole nodes, the bytes behind
/// them (the start of a node that has not all come), and the error that stops
/// reading, if there is one.
pub struct Taken {
    pub nodes: Nodes,
    pub rest: Seq<u8>,
    pub error: Option<Error>,
}

/// Reads whole nodes as long as the bytes reach.
pub open spec fn taken(data: Seq<u8>) -> Taken
    decreases data.len(),
{
    if data.len() == 0 {
        Taken { nodes: Seq::<SpecNode>::empty(), rest: data, error: None }
    } else {
        match node_at(data, 0) {
            (Ok(n), end) => {
                proof {
                    crate::codec::lemma_node_at_progress(data, 0);
                }
                let more = taken(data.skip(end));
                Taken { nodes: seq![n] + more.nodes, ..more }
            },
            (Err(e), _) => Taken {
                nodes: Seq::<SpecNode>::empty(),
                rest: data,
                error: if e == Error::Truncated {
                    None
                } else {
                    Some(e)
                },
            },
        }
    }
}

/// Nodes in front of what was taken.
pub open spec fn after_nodes(before: Nodes, t: Taken) -> Taken {
    Taken { nodes: before + t.nodes, ..t }
}

/// Taking pieces one after the other gives the same nodes as taking them at
/// once, wherever the pieces are cut.
pub proof fn pieces_make_no_difference(a: Seq<u8>, b: Seq<u8>)
    requires
        taken(a).error is None,
    ensures
        taken(a + b) == after_nodes(taken(a).nodes, taken(taken(a).rest + b)),
    decreases a.len(),
{
    let none = Seq::<SpecNode>::empty();
    if a.len() == 0 {
        assert(a + b =~= b);
        assert(none + taken(b).nodes =~= taken(b).nodes);
    } else {
        match node_at(a, 0) {
            (Ok(n), end) => {
                crate::codec::lemma_node_at_progress(a, 0);
                crate::codec::lemma_node_at_prefix(a, b, 0);
                assert((a + b).skip(end) =~= a.skip(end) + b);
                pieces_make_no_difference(a.skip(end), b);
                let m = taken(taken(a).rest + b).nodes;
                assert(seq![n] + (taken(a.skip(end)).nodes + m) =~= (seq![n] + taken(
                    a.skip(end),
                ).nodes) + m);
            },
            (Err(e), _) => {
                assert(none + taken(a + b).nodes =~= taken(a + b).nodes);
            },
        }
    }
}

/// Reads a stream of nodes piece by piece.
pub struct Scanner {
    carry: Vec<u8>,
}

impl Scanner {
    /// The bytes that have come and belong to no whole node yet.
    pub closed spec fn pending_bytes(self) -> Seq<u8> {
        self.carry@
    }

    /// At the start of a stream.
    pub fn new() -> (r: Self)
        ensures
            r.pending_bytes() == Seq::<u8>::empty(),
    {
        Scanner { carry: Vec::new() }
    }

    /// Takes the next piece: the nodes that it completes. A half node waits
    /// for the next piece; any other fault ends the scan.
    pub fn feed(&mut self, piece: &[u8]) -> (r: Result<Vec<Node>, Error>)
        ensures
            match taken(old(self).pending_bytes() + piece@).error {
                Some(e) => r == Err::<Vec<Node>, Error>(e) && final(self).pending_bytes() == old(
                    self,
                ).pending_bytes(),
                None => r is Ok && models(r->Ok_0@) == taken(
                    old(self).pending_bytes() + piece@,
                ).nodes && final(self).pending_bytes() == taken(
                    old(self).pending_bytes() + piece@,
                ).rest,
            },
    {
        let mut data = sub_bytes(self.carry.as_slice(), 0, self.carry.len());
        assert(self.carry@.subrange(0, self.carry@.len() as int) =~= self.carry@);
        put_slice(&mut data, piece);
        let ghost all = self.carry@ + piece@;
        let mut out: Vec<Node> = Vec::new();
        let mut off: usize = 0;
        assert(all.skip(0) =~= all);
        assert(models(out@) + taken(all).nodes =~= taken(all).nodes);
        loop
            invariant
                data@ == all,
                all == old(self).carry@ + piece@,
                *self == *old(self),
                off <= all.len(),
                taken(all) == after_nodes(models(out@), taken(all.skip(off as int))),
            decreases all.len() - off,
        {
            if off >= data.len() {
                self.carry = Vec::new();
                assert(all.skip(off as int) =~= Seq::<u8>::empty());
                assert(models(out@) + Seq::<SpecNode>::empty() =~= models(out@));
                return Ok(out);
            }
            let start: usize = off;
            let ghost rest = all.skip(start as int);
            proof {
                crate::codec::lemma_node_at_skip(all, start as int);
            }
            match decode_node(data.as_slice(), &mut off) {
                Ok(n) => {
                    let ghost before = models(out@);
                    let ghost m = n@;
                    proof {
                        crate::codec::lemma_node_at_progress(all, start as int);
                        assert(rest.skip(off - start) =~= all.skip(off as int));
                    }
                    out.push(n);
                    proof {
                        assert(models(out@) =~= before.push(m));
                        let t = taken(all.skip(off as int)).nodes;
                        assert(before + (seq![m] + t) =~= models(out@) + t);
                    }
                },
                Err(e) => {
                    let whole = match e {
                        Error::Truncated => true,
                        _ => false,
                    };
                    if whole {
                        self.carry = sub_bytes(data.as_slice(), start, data.len());
                        assert(all.subrange(start as int, all.len() as int) =~= rest);
                        assert(models(out@) + Seq::<SpecNode>::empty() =~= models(out@));
                        return Ok(out);
                    }
                    return Err(e);
                },
            }
        }
    }
}

/// The text of a fault that ends a scan.
pub open spec fn scan_message(e: Error) -> Seq<char> {
    match e {
        Error::Truncated => "Truncated"@,
        Error::InvalidTag(t) => "InvalidTag("@ + decimal(t as nat) + ")"@,
        Error::InvalidUtf8 => "InvalidUtf8"@,
        Error::NameTooLong(n) => "NameTooLong("@ + decimal(n as nat) + ")"@,
    }
}

/// The text of a fault that ends a scan.
pub fn scan_error(e: Error) -> (r: String)
    ensures
        r@ == scan_message(e),
{
    match e {
        Error::Truncated => owned("Truncated"),
        Error::InvalidTag(t) => {
            let d = decimal_text(t as u64);
            join3("InvalidTag(", d.as_str(), ")")
        },
        Error::InvalidUtf8 => owned("InvalidUtf8"),
        Error::NameTooLong(n) => {
            let d = decimal_text(n as u64);
            join3("NameTooLong(", d.as_str(), ")")
        },
    }
}

// ---------------------------------------------------------------------------
// Searching
// ---------------------------------------------------------------------------

/// What is searched for.
#[derive(Debug)]
pub enum Query {
    /// A name that holds the text.
    Name(String),
    /// A text value that holds the text.
    Value(String),
    /// A kind of value, by its name.
    Kind(String),
    /// A name or a text value that holds the text.
    NameOrText(String),
}

/// The name of a value's kind.
pub open spec fn kind_of(v: SpecValue) -> Seq<char> {
    match v {
        SpecValue::Empty => "空"@,
        SpecValue::Int(_) => "整数"@,
        SpecValue::Float(_) => "浮点数"@,
        SpecValue::Bool(_) => "布尔"@,
        SpecValue::Text(_) => "文本"@,
        SpecValue::Reference(_) => "引用"@,
        SpecValue::Blob(_) => "二进制块"@,
    }
}

/// The name of a value's kind.
pub fn kind_name(v: &Value) -> (r: &'static str)
    ensures
        r@ == kind_of(v@),
{
    match v {
        Value::Empty => "空",
        Value::Int(_) => "整数",
        Value::Float(_) => "浮点数",
        Value::Bool(_) => "布尔",
        Value::Text(_) => "文本",
        Value::Reference(_) => "引用",
        Value::Blob(_) => "二进制块",
    }
}

/// Whether a value is a text that holds `s`.
pub open spec fn text_holds(v: SpecValue, s: Seq<char>) -> bool {
    v is Text && holds_text(v->Text_0, s)
}

/// Whether a node is what is searched for. The empty text is found nowhere.
pub open spec fn is_match(n: SpecNode, q: Query) -> bool {
    match q {
        Query::Name(s) => s@.len() > 0 && holds_text(n.name, s@),
        Query::Value(s) => s@.len() > 0 && text_holds(n.value, s@),
        Query::Kind(k) => kind_of(n.value) == k@,
        Query::NameOrText(s) => s@.len() > 0 && (holds_text(n.name, s@) || text_holds(
            n.value,
            s@,
        )),
    }
}

fn value_holds(v: &Value, s: &str) -> (r: bool)
    ensures
        r == text_holds(v@, s@),
{
    match v {
        Value::Text(t) => contains_text(t.as_str(), s),
        _ => false,
    }
}

/// Whether a node is what is searched for.
pub fn matches(node: &Node, q: &Query) -> (r: bool)
    ensures
        r == is_match(node@, *q),
{
    match q {
        Query::Name(s) => !s.as_str().is_empty() && contains_text(node.name.as_str(), s.as_str()),
        Query::Value(s) => !s.as_str().is_empty() && value_holds(&node.value, s.as_str()),
        Query::Kind(k) => same_text(kind_name(&node.value), k.as_str()),
        Query::NameOrText(s) => !s.as_str().is_empty() && (contains_text(
            node.name.as_str(),
            s.as_str(),
        ) || value_holds(&node.value, s.as_str())),
    }
}

/// A byte string that sorts by a first part and then by a second: each byte of
/// the first part behind a `1`, then a `0`, then the second part.
pub open spec fn pair_key(a: Seq<u8>, b: Seq<u8>) -> Seq<u8>
    decreases a.len(),
{
    if a.len() == 0 {
        seq![0u8] + b
    } else {
        seq![1u8, a[0]] + pair_key(a.skip(1), b)
    }
}

/// Keys of pairs sort by the first part, then by the second.
pub proof fn pair_keys_sort_by_parts(a: Seq<u8>, b: Seq<u8>, c: Seq<u8>, d: Seq<u8>)
    ensures
        crate::sort::bytes_le(pair_key(a, b), pair_key(c, d)) == (crate::sort::bytes_lt(a, c) || (a
            == c && crate::sort::bytes_le(b, d))),
    decreases a.len(),
{
    let x = pair_key(a, b);
    let y = pair_key(c, d);
    if a.len() == 0 && c.len() == 0 {
        assert(a =~= c);
        assert(x.skip(1) =~= b);
        assert(y.skip(1) =~= d);
    } else if a.len() > 0 && c.len() > 0 {
        assert(x.skip(1) =~= seq![a[0]] + pair_key(a.skip(1), b));
        assert(y.skip(1) =~= seq![c[0]] + pair_key(c.skip(1), d));
        assert(x.skip(1).skip(1) =~= pair_key(a.skip(1), b));
        assert(y.skip(1).skip(1) =~= pair_key(c.skip(1), d));
        reveal_with_fuel(crate::sort::bytes_le, 3);
        if a[0] == c[0] {
            pair_keys_sort_by_parts(a.skip(1), b, c.skip(1), d);
            if a.skip(1) == c.skip(1) {
                assert(a =~= seq![a[0]] + a.skip(1));
                assert(c =~= seq![c[0]] + c.skip(1));
            }
        }
    }
}

/// The key of a pair.
pub fn make_pair_key(a: &[u8], b: &[u8]) -> (r: Vec<u8>)
    ensures
        r@ == pair_key(a@, b@),
{
    let mut out: Vec<u8> = Vec::new();
    let mut i: usize = 0;
    assert(a@.skip(0) =~= a@);
    assert(out@ + pair_key(a@, b@) =~= pair_key(a@, b@));
    while i < a.len()
        invariant
            i <= a@.len(),
            out@ + pair_key(a@.skip(i as int), b@) == pair_key(a@, b@),
        decreases a@.len() - i,
    {
        let ghost before = out@;
        out.push(1);
        out.push(a[i]);
        proof {
            let s = a@.skip(i as int);
            assert(s.skip(1) =~= a@.skip(i + 1));
            assert(out@ + pair_key(s.skip(1), b@) =~= before + pair_key(s, b@));
        }
        i = i + 1;
    }
    out.push(0);
    put_slice(&mut out, b);
    assert(a@.skip(a@.len() as int) =~= Seq::<u8>::empty());
    assert(out@ =~= pair_key(a@, b@));
    out
}

/// The key by which hits are listed: the name, then the id.
pub open spec fn hit_key(n: SpecNode) -> Seq<u8> {
    pair_key(encode_utf8(n.name), n.id.0@)
}

/// The keys of a run of nodes.
pub open spec fn hit_keys(t: Nodes) -> Seq<Seq<u8>> {
    Seq::new(t.len(), |i: int| hit_key(t[i]))
}

/// The nodes that a search finds: the last records of their ids that match.
pub open spec fn found_by(t: Nodes, q: Query) -> Nodes {
    picked(folded(t), |n: SpecNode| is_match(n, q))
}

/// The nodes that match, of each id its last record, by name and then by id.
pub fn collect(records: Vec<Node>, query: &Query) -> (r: Vec<Node>)
    ensures
        in_order(
            found_by(models(records@), *query),
            hit_keys(found_by(models(records@), *query)),
            models(r@),
        ),
{
    let store = fold(&Store::from_nodes(records));
    let ghost f = store@;
    let ghost p = |n: SpecNode| is_match(n, *query);
    let mut hits: Vec<Node> = Vec::new();
    let mut keys: Vec<Vec<u8>> = Vec::new();
    let mut i: usize = 0;
    assert(f.take(0) =~= Seq::<SpecNode>::empty());
    assert(models(hits@) =~= picked(f.take(0), p));
    assert(key_views(keys@) =~= hit_keys(models(hits@)));
    while i < store.len()
        invariant
            i <= f.len(),
            f == store@,
            p == (|n: SpecNode| is_match(n, *query)),
            models(hits@) == picked(f.take(i as int), p),
            key_views(keys@) == hit_keys(models(hits@)),
        decreases f.len() - i,
    {
        proof {
            crate::tree::lemma_picked_step(f, p, i as int);
        }
        let n = store.at(i);
        if matches(n, query) {
            let ghost h0 = hits@;
            let ghost k0 = keys@;
            let key = make_pair_key(n.name.as_str().as_bytes(), n.id.0.as_slice());
            keys.push(key);
            hits.push(n.clone());
            assert(models(hits@) =~= models(h0).push(f[i as int]));
            assert(key_views(keys@) =~= key_views(k0).push(hit_key(f[i as int])));
            assert(hit_keys(models(hits@)) =~= hit_keys(models(h0)).push(hit_key(f[i as int])));
        }
        i = i + 1;
    }
    assert(f.take(f.len() as int) =~= f);
    let ghost h = models(hits@);
    let pos = order(&keys);
    let mut out: Vec<Node> = Vec::new();
    let ghost ps = crate::model::ints(pos@);
    let mut k: usize = 0;
    assert(key_views(keys@).len() == keys@.len());
    assert(hit_keys(h).len() == h.len());
    while k < pos.len()
        invariant
            k <= pos@.len(),
            ps == crate::model::ints(pos@),
            h == models(hits@),
            pos@.len() == hits@.len(),
            forall|j: int| 0 <= j < pos@.len() ==> #[trigger] pos@[j] < hits@.len(),
            models(out@) == arranged(h, ps).take(k as int),
        decreases pos@.len() - k,
    {
        let ghost o0 = out@;
        out.push(hits[pos[k]].clone());
        proof {
            let a = arranged(h, ps);
            assert(ps[k as int] == pos@[k as int]);
            assert(a.take(k + 1) =~= a.take(k as int).push(a[k as int]));
            assert(models(out@) =~= models(o0).push(a[k as int]));
        }
        k = k + 1;
    }
    assert(arranged(h, ps).take(pos@.len() as int) =~= arranged(h, ps));
    assert(is_order(hit_keys(h), ps));
    out
}

/// A found node with its value in short.
#[derive(Debug)]
pub struct Hit {
    pub id: Uuid,
    pub name: String,
    pub value: String,
}

/// A value in short: a text up to 60 characters, the size of a blob.
pub open spec fn brief(v: SpecValue, float: Seq<char>) -> Seq<char> {
    match v {
        SpecValue::Empty => Seq::<char>::empty(),
        SpecValue::Int(n) => signed_decimal(n as int),
        SpecValue::Float(_) => float,
        SpecValue::Bool(b) => if b {
            "true"@
        } else {
            "false"@
        },
        SpecValue::Text(t) => if t.len() > 60 {
            t.take(60).push('…')
        } else {
            t
        },
        SpecValue::Reference(u) => "→ "@ + uuid_text(u),
        SpecValue::Blob(b) => "[blob "@ + decimal(b.len()) + " 字节]"@,
    }
}

/// A value in short. `float_text` is the text of a floating-point value.
pub fn value_brief(v: &Value, float_text: &str) -> (r: String)
    ensures
        r@ == brief(v@, float_text@),
{
    match v {
        Value::Empty => String::new(),
        Value::Int(n) => signed_decimal_text(*n),
        Value::Float(_) => owned(float_text),
        Value::Bool(b) => if *b {
            owned("true")
        } else {
            owned("false")
        },
        Value::Text(t) => {
            let chars = chars_of(t.as_str());
            if chars.len() > 60 {
                let mut s = string_of(&chars, 0, 60);
                crate::text::push_char(&mut s, '…');
                assert(t@.subrange(0, 60) =~= t@.take(60));
                s
            } else {
                t.clone()
            }
        },
        Value::Reference(u) => {
            let text = u.to_string();
            join2("→ ", text.as_str())
        },
        Value::Blob(b) => {
            let d = decimal_text(b.len() as u64);
            join3("[blob ", d.as_str(), " 字节]")
        },
    }
}

/// The hits of a search, of each id its last record, by name and then by id.
/// `float_text` gives the text of a floating-point value.
pub fn search(records: Vec<Node>, query: &Query, float_texts: &Vec<(u64, String)>) -> (r:
    Vec<Hit>)
    ensures
        exists|nodes: Nodes| #[trigger]
            in_order(
                found_by(models(records@), *query),
                hit_keys(found_by(models(records@), *query)),
                nodes,
            ) && hits_show(r@, nodes, float_texts@),
{
    let nodes = collect(records, query);
    let ghost ns = models(nodes@);
    let mut out: Vec<Hit> = Vec::new();
    let mut i: usize = 0;
    while i < nodes.len()
        invariant
            i <= nodes@.len(),
            ns == models(nodes@),
            hits_show(out@, ns.take(i as int), float_texts@),
        decreases nodes@.len() - i,
    {
        let text = match &nodes[i].value {
            Value::Float(b) => float_text_for(*b, float_texts),
            _ => String::new(),
        };
        out.push(
            Hit {
                id: nodes[i].id,
                name: nodes[i].name.clone(),
                value: value_brief(&nodes[i].value, text.as_str()),
            },
        );
        proof {
            assert(ns[i as int] == nodes@[i as int]@);
            assert(ns.take(i + 1)[i as int] == ns[i as int]);
            assert forall|k: int| 0 <= k < i + 1 implies hit_shows(
                #[trigger] out@[k],
                ns.take(i + 1)[k],
                float_texts@,
            ) by {
                if k < i {
                    assert(ns.take(i as int)[k] == ns.take(i + 1)[k]);
                }
            }
        }
        i = i + 1;
    }
    assert(ns.take(ns.len() as int) =~= ns);
    out
}

/// Whether a hit shows a node.
pub open spec fn hit_shows(h: Hit, n: SpecNode, table: Seq<(u64, String)>) -> bool {
    &&& h.id == n.id
    &&& h.name@ == n.name
    &&& h.value@ == brief(
        n.value,
        if n.value is Float {
            float_text_of(n.value->Float_0, table)
        } else {
            Seq::<char>::empty()
        },
    )
}

/// Whether hits show nodes, one each.
pub open spec fn hits_show(hits: Seq<Hit>, nodes: Nodes, table: Seq<(u64, String)>) -> bool {
    &&& hits.len() == nodes.len()
    &&& forall|k: int| 0 <= k < hits.len() ==> hit_shows(#[trigger] hits[k], nodes[k], table)
}

// ---------------------------------------------------------------------------
// Checking
// ---------------------------------------------------------------------------

/// A fault that a check of a stream of records found.
#[derive(Debug, PartialEq)]
pub struct Issue {
    pub code: &'static str,
    pub node_id: Uuid,
    pub message: String,
}

impl View for Issue {
    type V = SpecFault;

    open spec fn view(&self) -> SpecFault {
        SpecFault { code: self.code@, node: self.node_id, message: self.message@ }
    }
}

impl Clone for Issue {
    fn clone(&self) -> (r: Self)
        ensures
            r@ == self@,
    {
        Issue { code: self.code, node_id: self.node_id, message: self.message.clone() }
    }
}

/// The models of issues.
pub open spec fn issue_models(s: Seq<Issue>) -> Seq<SpecFault> {
    Seq::new(s.len(), |i: int| s[i]@)
}

/// The parent that the last record of an id gives.
pub open spec fn last_parent(t: Nodes, id: Uuid) -> Option<Uuid> {
    match found(t, id) {
        Some(n) => n.parent,
        None => None,
    }
}

/// The faults of record `i` on its own.
pub open spec fn record_faults(t: Nodes, i: int) -> Seq<SpecFault> {
    fault_if(t[i].id == nil_id(), fault_nil(t[i].id)) + fault_if(
        t[i].parent == Some(t[i].id),
        fault_own_parent(t[i].id),
    )
}

/// The own faults of the first `k` records.
pub open spec fn all_record_faults(t: Nodes, k: nat) -> Seq<SpecFault>
    decreases k,
{
    if k == 0 {
        Seq::<SpecFault>::empty()
    } else {
        all_record_faults(t, (k - 1) as nat) + record_faults(t, k - 1)
    }
}

/// Goes up from `cur`, past the ids of `path`, until the way ends, meets a
/// settled id, or closes: the id at which it closed, and all ids on the way.
pub open spec fn chase(
    t: Nodes,
    cur: Option<Uuid>,
    path: Set<Uuid>,
    settled: Set<Uuid>,
) -> (Option<Uuid>, Set<Uuid>)
    decreases
            unseen(t, path),
            (if cur is Some {
                1nat
            } else {
                0nat
            }),
{
    match cur {
        None => (None, path),
        Some(id) => if path.contains(id) {
            (Some(id), path)
        } else if settled.contains(id) {
            (None, path)
        } else {
            proof {
                crate::validator::lemma_unseen_insert(t, path, id);
            }
            chase(t, last_parent(t, id), path.insert(id), settled)
        },
    }
}

/// The id that occurs first in the `k`-th place.
pub open spec fn nth_id(t: Nodes, k: int) -> Uuid {
    t[firsts(t)[k]].id
}

/// The cycles of two ids or more that the ids in the first `k` places lead into, each
/// where it closes first, and all ids met.
pub open spec fn closings(t: Nodes, k: nat) -> (Seq<SpecFault>, Set<Uuid>)
    decreases k,
{
    if k == 0 {
        (Seq::<SpecFault>::empty(), Set::empty())
    } else {
        let (fs, settled) = closings(t, (k - 1) as nat);
        let start = nth_id(t, k - 1);
        if settled.contains(start) {
            (fs, settled)
        } else {
            let (at, path) = chase(t, Some(start), Set::empty(), settled);
            (
                match at {
                    Some(id) => if last_parent(t, id) == Some(id) {
                        fs
                    } else {
                        fs.push(fault_cycle(id))
                    },
                    None => fs,
                },
                settled.union(path),
            )
        }
    }
}

/// The ids that a `@protocol` record declares to take revisions.
pub open spec fn declared_ids(t: Nodes) -> Set<Uuid>
    decreases t.len(),
{
    if t.len() == 0 {
        Set::empty()
    } else {
        let d = declared_ids(t.drop_last());
        let n = t.last();
        if n.name == "@protocol"@ && n.value == SpecValue::Text(PROTOCOL_APPEND@) && n.parent is Some {
            d.insert(n.parent->Some_0)
        } else {
            d
        }
    }
}

/// The last id that is met upwards from `id` within `steps` steps, by last
/// records.
pub open spec fn top_of(t: Nodes, id: Uuid, steps: nat) -> Uuid
    decreases steps,
{
    match last_parent(t, id) {
        Some(p) => if steps > 0 && find_id(t, p) is Some {
            top_of(t, p, (steps - 1) as nat)
        } else {
            id
        },
        None => id,
    }
}

/// Whether records of one id are a conflict: there are several, and the tree
/// they belong to does not take revisions.
pub open spec fn conflict(t: Nodes, id: Uuid, first: int) -> bool {
    find_id(t, id) != Some(first) && !declared_ids(t).contains(top_of(t, id, 4096))
}

/// The conflicts among the ids in the first `k` places.
pub open spec fn conflicts(t: Nodes, k: nat) -> Seq<SpecFault>
    decreases k,
{
    if k == 0 {
        Seq::<SpecFault>::empty()
    } else {
        let id = nth_id(t, k - 1);
        conflicts(t, (k - 1) as nat) + fault_if(
            conflict(t, id, firsts(t)[k - 1]),
            fault_duplicate(id),
        )
    }
}

/// The faults of the edges of record `i`: the parent that its id has last, and
/// its own reference.
pub open spec fn record_edges(t: Nodes, i: int) -> Seq<SpecFault> {
    let id = t[i].id;
    let p = last_parent(t, id);
    fault_if(
        p is Some && find_id(t, p->Some_0) is None,
        fault_parent(id, p->Some_0),
    ) + fault_if(
        t[i].value is Reference && find_id(t, t[i].value->Reference_0) is None,
        fault_target(id, t[i].value->Reference_0),
    )
}

/// The edge faults of the first `k` records.
pub open spec fn all_record_edges(t: Nodes, k: nat) -> Seq<SpecFault>
    decreases k,
{
    if k == 0 {
        Seq::<SpecFault>::empty()
    } else {
        all_record_edges(t, (k - 1) as nat) + record_edges(t, k - 1)
    }
}

/// All faults of a stream of records, in the order in which they are found.
pub open spec fn stream_faults(t: Nodes) -> Seq<SpecFault> {
    all_record_faults(t, t.len()) + closings(t, firsts(t).len()).0 + conflicts(
        t,
        firsts(t).len(),
    ) + all_record_edges(t, t.len())
}

/// The key by which faults are listed: the code, then the id.
pub open spec fn fault_key(f: SpecFault) -> Seq<u8> {
    pair_key(encode_utf8(f.code), f.node.0@)
}

/// The keys of faults.
pub open spec fn fault_keys(s: Seq<SpecFault>) -> Seq<Seq<u8>> {
    Seq::new(s.len(), |i: int| fault_key(s[i]))
}

fn issue(code: &'static str, node_id: Uuid, message: String) -> (r: Issue)
    ensures
        r@ == (SpecFault { code: code@, node: node_id, message: message@ }),
{
    Issue { code, node_id, message }
}

/// Adds a fault if the condition holds.
fn add_issue(out: &mut Vec<Issue>, c: bool, i: Issue)
    ensures
        issue_models(final(out)@) == issue_models(old(out)@) + fault_if(c, i@),
{
    let ghost m = i@;
    if c {
        out.push(i);
    }
    assert(issue_models(out@) =~= issue_models(old(out)@) + fault_if(c, m));
}

/// Goes up from `start` and settles all ids on the way; the id at which the
/// way closes, if it does.
fn chase_up(store: &Store, start: Uuid, settled: &mut IdSet) -> (r: Option<Uuid>)
    requires
        store.wf(),
        !old(settled)@.contains(start),
    ensures
        ({
            let (at, path) = chase(store@, Some(start), Set::empty(), old(settled)@);
            r == at && final(settled)@ == old(settled)@.union(path)
        }),
{
    let ghost t = store@;
    let ghost s0 = settled@;
    let ghost goal = chase(t, Some(start), Set::empty(), s0);
    let mut path = IdSet::new();
    let mut cur: Option<Uuid> = Some(start);
    assert(s0.union(path@) =~= s0);
    loop
        invariant
            store.wf(),
            t == store@,
            goal == chase(t, Some(start), Set::empty(), s0),
            goal == chase(t, cur, path@, s0),
            settled@ == s0.union(path@),
            s0 == old(settled)@,
        decreases
                unseen(t, path@),
                (if cur is Some {
                    1nat
                } else {
                    0nat
                }),
    {
        let id = match cur {
            None => return None,
            Some(id) => id,
        };
        if path.contains(id) {
            return Some(id);
        }
        if settled.contains(id) {
            return None;
        }
        proof {
            crate::validator::lemma_unseen_insert(t, path@, id);
        }
        let ghost p0 = path@;
        path.insert(id);
        settled.insert(id);
        assert(settled@ =~= s0.union(path@));
        cur = match store.get(id) {
            Some(n) => n.parent,
            None => None,
        };
    }
}

/// The last id that is met upwards from `id` within 4096 steps.
fn top_id(store: &Store, id: Uuid) -> (r: Uuid)
    requires
        store.wf(),
    ensures
        r == top_of(store@, id, 4096),
{
    let mut cur = id;
    let mut steps: usize = 4096;
    loop
        invariant
            store.wf(),
            top_of(store@, id, 4096) == top_of(store@, cur, steps as nat),
        decreases steps,
    {
        let p = match store.get(cur) {
            Some(n) => match n.parent {
                Some(p) => p,
                None => return cur,
            },
            None => return cur,
        };
        if steps == 0 || store.get(p).is_none() {
            return cur;
        }
        cur = p;
        steps = steps - 1;
    }
}

/// The ids that records declare to take revisions.
fn declared_set(records: &Vec<Node>) -> (r: IdSet)
    ensures
        r@ == declared_ids(models(records@)),
{
    let ghost t = models(records@);
    let mut out = IdSet::new();
    let mut i: usize = 0;
    assert(t.take(0) =~= Seq::<SpecNode>::empty());
    while i < records.len()
        invariant
            i <= records@.len(),
            t == models(records@),
            out@ == declared_ids(t.take(i as int)),
        decreases records@.len() - i,
    {
        proof {
            assert(t.take(i + 1).drop_last() =~= t.take(i as int));
            assert(t[i as int] == records@[i as int]@);
        }
        let n = &records[i];
        let takes = match &n.value {
            Value::Text(s) => same_text(s.as_str(), PROTOCOL_APPEND),
            _ => false,
        };
        if takes && same_text(n.name.as_str(), "@protocol") {
            if let Some(p) = n.parent {
                out.insert(p);
            }
        }
        i = i + 1;
    }
    assert(t.take(t.len() as int) =~= t);
    out
}

/// The positions at which ids occur first.
fn first_positions(records: &Vec<Node>) -> (r: Vec<usize>)
    ensures
        crate::model::ints(r@) == firsts(models(records@)),
{
    let ghost t = models(records@);
    let mut out: Vec<usize> = Vec::new();
    let mut seen = IdSet::new();
    let mut i: usize = 0;
    assert(t.take(0) =~= Seq::<SpecNode>::empty());
    assert(crate::model::ints(out@) =~= firsts(t.take(0)));
    assert(seen@ =~= crate::model::ids_of(t.take(0)));
    while i < records.len()
        invariant
            i <= records@.len(),
            t == models(records@),
            seen@ == crate::model::ids_of(t.take(i as int)),
            crate::model::ints(out@) == firsts(t.take(i as int)),
        decreases records@.len() - i,
    {
        let ghost o0 = out@;
        proof {
            assert(t.take(i + 1).drop_last() =~= t.take(i as int));
            assert(t[i as int] == records@[i as int]@);
            crate::validator::lemma_seen_is_found(t, i as int);
        }
        if seen.insert(records[i].id) {
            out.push(i);
            assert(crate::model::ints(out@) =~= crate::model::ints(o0).push(i as int));
        }
        i = i + 1;
    }
    assert(t.take(t.len() as int) =~= t);
    out
}

/// Checks a stream of records, in which records of one id may follow each
/// other: lists all faults, by code and then by id. Several records of one id
/// are no conflict below a root that declares to take revisions.
pub fn validate_stream(records: &Vec<Node>) -> (r: Vec<Issue>)
    ensures
        in_order(
            stream_faults(models(records@)),
            fault_keys(stream_faults(models(records@))),
            issue_models(r@),
        ),
{
    let ghost t = models(records@);
    let store = store_of(records);
    let mut out: Vec<Issue> = Vec::new();
    let mut i: usize = 0;
    assert(issue_models(out@) =~= all_record_faults(t, 0));
    while i < records.len()
        invariant
            i <= records@.len(),
            t == models(records@),
            issue_models(out@) == all_record_faults(t, i as nat),
        decreases records@.len() - i,
    {
        assert(t[i as int] == records@[i as int]@);
        let id = records[i].id;
        let own = match records[i].parent {
            Some(p) => p == id,
            None => false,
        };
        let ghost f0 = issue_models(out@);
        add_issue(&mut out, id.is_nil(), issue("E001", id, owned("节点编号缺失（为 nil）")));
        add_issue(&mut out, own, issue("E005", id, owned("父节点指向自己")));
        assert(issue_models(out@) =~= f0 + record_faults(t, i as int));
        i = i + 1;
    }
    let ghost part1 = all_record_faults(t, t.len());
    let first = first_positions(records);
    let ghost fs = firsts(t);
    proof {
        crate::model::lemma_firsts(t);
        assert(crate::model::ints(first@) == fs);
        assert forall|k: int| 0 <= k < first@.len() implies #[trigger] first@[k] < records@.len() by {
            assert(crate::model::ints(first@)[k] == first@[k]);
            assert(fs[k] < t.len());
        }
    }
    let mut settled = IdSet::new();
    let mut j: usize = 0;
    assert(part1 + closings(t, 0).0 =~= part1);
    while j < first.len()
        invariant
            j <= first@.len(),
            store.wf(),
            store@ == t,
            t == models(records@),
            fs == firsts(t),
            crate::model::ints(first@) == fs,
            forall|k: int| 0 <= k < first@.len() ==> #[trigger] first@[k] < records@.len(),
            settled@ == closings(t, j as nat).1,
            issue_models(out@) == part1 + closings(t, j as nat).0,
        decreases first@.len() - j,
    {
        assert(crate::model::ints(first@)[j as int] == first@[j as int]);
        let start = records[first[j]].id;
        assert(start == nth_id(t, j as int));
        let ghost o0 = issue_models(out@);
        if !settled.contains(start) {
            if let Some(id) = chase_up(&store, start, &mut settled) {
                let own = match store.get(id) {
                    Some(n) => match n.parent {
                        Some(p) => p == id,
                        None => false,
                    },
                    None => false,
                };
                if !own {
                    out.push(issue("E006", id, owned("父节点成环")));
                    assert(issue_models(out@) =~= o0.push(fault_cycle(id)));
                }
                assert(issue_models(out@) =~= part1 + closings(t, (j + 1) as nat).0);
            }
        }
        j = j + 1;
    }
    let ghost part2 = part1 + closings(t, fs.len()).0;
    let declared = declared_set(records);
    let mut d: usize = 0;
    assert(part2 + conflicts(t, 0) =~= part2);
    while d < first.len()
        invariant
            d <= first@.len(),
            store.wf(),
            store@ == t,
            t == models(records@),
            fs == firsts(t),
            crate::model::ints(first@) == fs,
            forall|k: int| 0 <= k < first@.len() ==> #[trigger] first@[k] < records@.len(),
            declared@ == declared_ids(t),
            issue_models(out@) == part2 + conflicts(t, d as nat),
        decreases first@.len() - d,
    {
        assert(crate::model::ints(first@)[d as int] == first@[d as int]);
        let at: usize = first[d];
        let id = records[at].id;
        assert(id == nth_id(t, d as int));
        let several = match store.position(id) {
            Some(l) => l != at,
            None => true,
        };
        let clash = several && !declared.contains(top_id(&store, id));
        let ghost o0 = issue_models(out@);
        add_issue(&mut out, clash, issue("E002", id, owned("编号冲突（与另一节点相同）")));
        assert(issue_models(out@) =~= part2 + (conflicts(t, d as nat) + fault_if(
            conflict(t, id, at as int),
            fault_duplicate(id),
        )));
        d = d + 1;
    }
    let ghost part3 = part2 + conflicts(t, fs.len());
    let mut e: usize = 0;
    assert(part3 + all_record_edges(t, 0) =~= part3);
    while e < records.len()
        invariant
            e <= records@.len(),
            store.wf(),
            store@ == t,
            t == models(records@),
            issue_models(out@) == part3 + all_record_edges(t, e as nat),
        decreases records@.len() - e,
    {
        assert(t[e as int] == records@[e as int]@);
        let id = records[e].id;
        let ghost o0 = issue_models(out@);
        let parent = match store.get(id) {
            Some(n) => n.parent,
            None => None,
        };
        if let Some(p) = parent {
            if store.get(p).is_none() {
                let text = p.to_string();
                out.push(issue("E011", id, join3("父节点断裂：", text.as_str(), " 不存在")));
            }
        }
        let ghost lp = last_parent(t, id);
        let ghost o1 = issue_models(out@);
        assert(o1 =~= o0 + fault_if(
            lp is Some && find_id(t, lp->Some_0) is None,
            fault_parent(id, lp->Some_0),
        ));
        if let Value::Reference(target) = &records[e].value {
            if store.get(*target).is_none() {
                let text = target.to_string();
                out.push(issue("R001", id, join3("引用断裂：目标 ", text.as_str(), " 不存在")));
            }
        }
        let ghost v = t[e as int].value;
        assert(issue_models(out@) =~= o1 + fault_if(
            v is Reference && find_id(t, v->Reference_0) is None,
            fault_target(id, v->Reference_0),
        ));
        assert(issue_models(out@) =~= part3 + (all_record_edges(t, e as nat) + record_edges(
            t,
            e as int,
        )));
        e = e + 1;
    }
    sort_issues(out)
}

/// The records as a store.
fn store_of(records: &Vec<Node>) -> (r: Store)
    ensures
        r.wf(),
        r@ == models(records@),
{
    let ghost t = models(records@);
    let mut out = Store::new();
    let mut i: usize = 0;
    while i < records.len()
        invariant
            i <= records@.len(),
            t == models(records@),
            out.wf(),
            out@ == t.take(i as int),
        decreases records@.len() - i,
    {
        out.add(records[i].clone());
        assert(t.take(i + 1) =~= t.take(i as int).push(t[i as int]));
        i = i + 1;
    }
    assert(t.take(t.len() as int) =~= t);
    out
}

/// Lists issues by code and then by id.
fn sort_issues(issues: Vec<Issue>) -> (r: Vec<Issue>)
    ensures
        in_order(
            issue_models(issues@),
            fault_keys(issue_models(issues@)),
            issue_models(r@),
        ),
{
    let ghost h = issue_models(issues@);
    let mut keys: Vec<Vec<u8>> = Vec::new();
    let mut i: usize = 0;
    while i < issues.len()
        invariant
            i <= issues@.len(),
            h == issue_models(issues@),
            keys@.len() == i,
            forall|k: int| 0 <= k < i ==> (#[trigger] keys@[k])@ == fault_key(h[k]),
        decreases issues@.len() - i,
    {
        let key = make_pair_key(issues[i].code.as_bytes(), issues[i].node_id.0.as_slice());
        keys.push(key);
        i = i + 1;
    }
    assert(key_views(keys@) =~= fault_keys(h));
    let pos = order(&keys);
    let ghost ps = crate::model::ints(pos@);
    let mut out: Vec<Issue> = Vec::new();
    let mut k: usize = 0;
    while k < pos.len()
        invariant
            k <= pos@.len(),
            ps == crate::model::ints(pos@),
            h == issue_models(issues@),
            forall|j: int| 0 <= j < pos@.len() ==> #[trigger] pos@[j] < issues@.len(),
            issue_models(out@) == arranged(h, ps).take(k as int),
        decreases pos@.len() - k,
    {
        let ghost o0 = out@;
        out.push(issues[pos[k]].clone());
        proof {
            let a = arranged(h, ps);
            assert(ps[k as int] == pos@[k as int]);
            assert(a.take(k + 1) =~= a.take(k as int).push(a[k as int]));
            assert(issue_models(out@) =~= issue_models(o0).push(a[k as int]));
        }
        k = k + 1;
    }
    assert(arranged(h, ps).take(pos@.len() as int) =~= arranged(h, ps));
    assert(is_order(fault_keys(h), ps));
    out
}

// ---------------------------------------------------------------------------
// The check of a stream and the check of nodes
// ---------------------------------------------------------------------------

/// Whether `w` is a way up: each id exists, and the next one is its parent.
spec fn goes_up(t: Nodes, w: Seq<Uuid>) -> bool {
    &&& forall|i: int| 0 <= i < w.len() ==> find_id(t, #[trigger] w[i]) is Some
    &&& forall|i: int, j: int|
        0 <= i && j == i + 1 && j < w.len() ==> last_parent(t, #[trigger] w[i]) == Some(
            #[trigger] w[j],
        )
}

/// The steps of a way up are the ancestors of the node that it starts from.
proof fn lemma_way_is_up(t: Nodes, w: Seq<Uuid>, n: SpecNode, k: nat)
    requires
        goes_up(t, w),
        k < w.len(),
        found(t, w[0]) == Some(n),
    ensures
        up(t, n, k) == Some(w[k as int]),
    decreases k,
{
    crate::model::lemma_find_id(t, w[0]);
    if k > 0 {
        lemma_way_is_up(t, w, n, (k - 1) as nat);
        assert(last_parent(t, w[k - 1]) == Some(w[k as int]));
        assert(find_id(t, w[k as int]) is Some);
        crate::model::lemma_find_id(t, w[k - 1]);
    }
}

/// Where a chase closes, it closes on a cycle.
proof fn lemma_chase_closes(t: Nodes, w: Seq<Uuid>, cur: Option<Uuid>, settled: Set<Uuid>)
    requires
        goes_up(t, w),
        w.len() > 0 ==> cur == last_parent(t, w.last()),
        chase(t, cur, w.to_set(), settled).0 is Some,
    ensures
        ({
            let id = chase(t, cur, w.to_set(), settled).0->Some_0;
            found(t, id) is Some && on_cycle(t, found(t, id)->Some_0)
        }),
    decreases
            unseen(t, w.to_set()),
            (if cur is Some {
                1nat
            } else {
                0nat
            }),
{
    let id = cur->Some_0;
    if w.to_set().contains(id) {
        let m = choose|m: int| 0 <= m < w.len() && w[m] == id;
        let v = w.skip(m).push(id);
        assert forall|i: int, j: int| 0 <= i && j == i + 1 && j < v.len() implies last_parent(
            t,
            #[trigger] v[i],
        ) == Some(#[trigger] v[j]) by {
            assert(v[i] == w[m + i]);
            if j < v.len() - 1 {
                assert(v[j] == w[m + j]);
            } else {
                assert(w[m + i] == w.last());
            }
        }
        assert forall|i: int| 0 <= i < v.len() implies find_id(t, #[trigger] v[i]) is Some by {
            if i < v.len() - 1 {
                assert(v[i] == w[m + i]);
            } else {
                assert(v[i] == w[m]);
            }
        }
        let n = found(t, id)->Some_0;
        assert(v[0] == id);
        lemma_way_is_up(t, v, n, (v.len() - 1) as nat);
        crate::model::lemma_find_id(t, id);
        assert(up(t, n, (v.len() - 1) as nat) == Some(n.id));
    } else {
        crate::validator::lemma_unseen_insert(t, w.to_set(), id);
        let next = last_parent(t, id);
        assert(w.push(id).to_set() =~= w.to_set().insert(id)) by {
            assert forall|x: Uuid| w.push(id).contains(x) <==> w.contains(x) || x == id by {
                if w.contains(x) {
                    let k = choose|k: int| 0 <= k < w.len() && w[k] == x;
                    assert(w.push(id)[k] == x);
                }
                assert(w.push(id)[w.len() as int] == id);
            }
        }
        if find_id(t, id) is Some {
            assert forall|i: int, j: int|
                0 <= i && j == i + 1 && j < w.push(id).len() implies last_parent(
                t,
                #[trigger] w.push(id)[i],
            ) == Some(#[trigger] w.push(id)[j]) by {
                assert(w.push(id)[i] == w[i]);
                if j < w.len() {
                    assert(w.push(id)[j] == w[j]);
                }
            }
            lemma_chase_closes(t, w.push(id), next, settled);
        } else {
            assert(next is None);
        }
    }
}

/// Whether no node is on a cycle of two or more.
pub open spec fn no_long_cycle(t: Nodes) -> bool {
    forall|i: int| 0 <= i < t.len() && on_cycle(t, #[trigger] t[i]) ==> t[i].parent == Some(t[i].id)
}

proof fn lemma_nothing_closes(t: Nodes, k: nat)
    requires
        no_long_cycle(t),
        k <= firsts(t).len(),
    ensures
        closings(t, k).0 == Seq::<SpecFault>::empty(),
    decreases k,
{
    if k > 0 {
        lemma_nothing_closes(t, (k - 1) as nat);
        let settled = closings(t, (k - 1) as nat).1;
        let start = nth_id(t, k - 1);
        if !settled.contains(start) {
            let w = Seq::<Uuid>::empty();
            assert(w.to_set() =~= Set::empty());
            if chase(t, Some(start), Set::empty(), settled).0 is Some {
                lemma_chase_closes(t, w, Some(start), settled);
                let id = chase(t, Some(start), Set::empty(), settled).0->Some_0;
                crate::model::lemma_find_id(t, id);
                let i = find_id(t, id)->Some_0;
                assert(on_cycle(t, t[i]));
                assert(last_parent(t, id) == Some(id));
            }
        }
    }
}

proof fn lemma_nothing_reported(t: Nodes, k: nat)
    requires
        no_long_cycle(t),
        k <= t.len(),
    ensures
        cycle_faults(t, k) == (Seq::<SpecFault>::empty(), Set::<Uuid>::empty()),
    decreases k,
{
    if k > 0 {
        lemma_nothing_reported(t, (k - 1) as nat);
        let n = t[k - 1];
        assert(on_cycle(t, n) ==> n.parent == Some(n.id));
    }
}

proof fn lemma_nothing_clashes(t: Nodes, k: nat)
    requires
        distinct_ids(t),
        k <= firsts(t).len(),
    ensures
        conflicts(t, k) == Seq::<SpecFault>::empty(),
    decreases k,
{
    if k > 0 {
        lemma_nothing_clashes(t, (k - 1) as nat);
        crate::model::lemma_firsts_distinct(t);
        let i = firsts(t)[k - 1];
        lemma_only_record(t, i);
        assert(conflicts(t, k) =~= Seq::<SpecFault>::empty());
    }
}

/// Where ids are distinct, each record is the last of its id.
proof fn lemma_only_record(t: Nodes, i: int)
    requires
        distinct_ids(t),
        0 <= i < t.len(),
    ensures
        find_id(t, t[i].id) == Some(i),
        find_id(t.take(i), t[i].id) is None,
{
    crate::model::lemma_find_id_is(t, t[i].id, i);
    crate::model::lemma_find_id(t.take(i), t[i].id);
    if let Some(j) = find_id(t.take(i), t[i].id) {
        assert(t[j].id != t[i].id);
    }
}

proof fn lemma_same_records(t: Nodes, k: nat)
    requires
        distinct_ids(t),
        k <= t.len(),
    ensures
        all_record_faults(t, k) == all_own_faults(t, k),
        all_record_edges(t, k) == all_edge_faults(t, k),
    decreases k,
{
    if k > 0 {
        lemma_same_records(t, (k - 1) as nat);
        lemma_only_record(t, k - 1);
        assert(record_faults(t, k - 1) =~= own_faults(t, k - 1));
    }
}

/// The check of a stream finds what the check of nodes finds, wherever no id comes twice
/// and no parents are on a cycle of two or more: the same faults, each as often.
pub proof fn stream_check_agrees(t: Nodes)
    requires
        distinct_ids(t),
        no_long_cycle(t),
    ensures
        stream_faults(t) == faults(t),
        forall|r: Seq<SpecFault>|
            in_order(stream_faults(t), fault_keys(stream_faults(t)), r) ==> r.to_multiset()
                == faults(t).to_multiset(),
{
    let none = Seq::<SpecFault>::empty();
    lemma_same_records(t, t.len());
    lemma_nothing_closes(t, firsts(t).len());
    lemma_nothing_clashes(t, firsts(t).len());
    lemma_nothing_reported(t, t.len());
    assert(stream_faults(t) =~= faults(t));
    assert forall|r: Seq<SpecFault>|
        in_order(stream_faults(t), fault_keys(stream_faults(t)), r) implies r.to_multiset()
        == faults(t).to_multiset() by {
        crate::sort::ordered_members(faults(t), fault_keys(faults(t)), r);
    }
}

// ---------------------------------------------------------------------------
// Laws of searching
// ---------------------------------------------------------------------------

/// What a query matches: a name or a text that has the given one somewhere in it, which must
/// not be empty, or a value of the given kind.
pub proof fn queries_match_what_they_ask(n: SpecNode, s: String)
    ensures
        is_match(n, Query::Name(s)) <==> s@.len() > 0 && exists|k: int|
            0 <= k <= n.name.len() - s@.len() && #[trigger] n.name.subrange(k, k + s@.len()) == s@,
        is_match(n, Query::Value(s)) <==> s@.len() > 0 && n.value is Text && exists|k: int|
            0 <= k <= n.value->Text_0.len() - s@.len() && #[trigger] n.value->Text_0.subrange(
                k,
                k + s@.len(),
            ) == s@,
        is_match(n, Query::NameOrText(s)) <==> is_match(n, Query::Name(s)) || is_match(
            n,
            Query::Value(s),
        ),
        is_match(n, Query::Kind(s)) <==> (n.value == SpecValue::Empty && s@ == "空"@) || (
        n.value is Int && s@ == "整数"@) || (n.value is Float && s@ == "浮点数"@) || (n.value is Bool
            && s@ == "布尔"@) || (n.value is Text && s@ == "文本"@) || (n.value is Reference && s@
            == "引用"@) || (n.value is Blob && s@ == "二进制块"@),
{
    crate::text::held_text_stands_somewhere(n.name, s@);
    if n.value is Text {
        crate::text::held_text_stands_somewhere(n.value->Text_0, s@);
    }
}

/// What is found by a query: every node that counts and that the query matches, and no other,
/// each id once.
pub proof fn queries_find_all_that_match(t: Nodes, q: Query, i: int)
    requires
        crate::model::counts(t, i),
    ensures
        found_by(t, q).contains(t[i]) <==> is_match(t[i], q),
        forall|k: int| 0 <= k < found_by(t, q).len() ==> is_match(#[trigger] found_by(t, q)[k], q),
        distinct_ids(found_by(t, q)),
{
    let p = |n: SpecNode| is_match(n, q);
    let f = folded(t);
    let id = t[i].id;
    crate::model::lemma_picks(f, p);
    crate::model::fold_keeps_lookup(t, id);
    crate::model::lookup_finds_what_counts(t, id);
    crate::model::lemma_find_id(f, id);
    let ks = crate::model::picks(f, p);
    let h = found_by(t, q);
    assert forall|k: int| 0 <= k < h.len() implies is_match(#[trigger] h[k], q) by {
        assert(p(f[ks[k]]));
    }
    if is_match(t[i], q) {
        let j = find_id(f, id)->Some_0;
        assert(f[j] == t[i]);
        assert(p(f[j]));
        let k = choose|k: int| 0 <= k < ks.len() && ks[k] == j;
        assert(h[k] == t[i]);
    }
    assert forall|k: int, l: int| 0 <= k < l < h.len() implies (#[trigger] h[k]).id != (
    #[trigger] h[l]).id by {
        assert(ks[k] < ks[l]);
        assert(f[ks[k]].id != f[ks[l]].id);
    }
}

/// A value in brief: a text of up to sixty characters as it is, of a longer one the first
/// sixty and an ellipsis; numbers by their digits, truth values by their word.
pub proof fn long_texts_are_cut(v: SpecValue, float: Seq<char>)
    ensures
        v is Text && v->Text_0.len() <= 60 ==> brief(v, float) == v->Text_0,
        v is Text && v->Text_0.len() > 60 ==> brief(v, float).len() == 61 && brief(v, float).take(60)
            == v->Text_0.take(60) && brief(v, float).last() == '…',
        v is Int ==> brief(v, float) == signed_decimal(v->Int_0 as int),
        v == SpecValue::Bool(true) ==> brief(v, float) == "true"@,
        v == SpecValue::Bool(false) ==> brief(v, float) == "false"@,
        v is Float ==> brief(v, float) == float,
        v == SpecValue::Empty ==> brief(v, float).len() == 0,
        v is Reference ==> brief(v, float) == "→ "@ + uuid_text(v->Reference_0),
        v is Blob ==> brief(v, float) == "[blob "@ + decimal(v->Blob_0.len()) + " 字节]"@,
{
    if v is Text && v->Text_0.len() > 60 {
        assert(brief(v, float).take(60) =~= v->Text_0.take(60));
    }
}

// ---------------------------------------------------------------------------
// Which fault of a stream is told
// ---------------------------------------------------------------------------

/// The id that is `k` steps above another, by the records that count.
pub open spec fn above(t: Nodes, id: Uuid, k: nat) -> Option<Uuid>
    decreases k,
{
    if k == 0 {
        Some(id)
    } else {
        match above(t, id, (k - 1) as nat) {
            Some(a) => match found(t, a) {
                Some(n) => n.parent,
                None => None,
            },
            None => None,
        }
    }
}

proof fn lemma_above_sum(t: Nodes, id: Uuid, a: nat, b: nat)
    ensures
        above(t, id, a + b) == (match above(t, id, a) {
            Some(x) => above(t, x, b),
            None => None,
        }),
    decreases b,
{
    if b > 0 {
        lemma_above_sum(t, id, a, (b - 1) as nat);
    }
}

proof fn lemma_above_again(t: Nodes, c: Uuid, m: nat, q: nat)
    requires
        above(t, c, m) == Some(c),
    ensures
        above(t, c, m * q) == Some(c),
    decreases q,
{
    if q == 0 {
        assert(m * q == 0) by (nonlinear_arith)
            requires
                q == 0,
        ;
    } else {
        let p = (q - 1) as nat;
        lemma_above_again(t, c, m, p);
        lemma_above_sum(t, c, m * p, m);
        assert(m * q == m * p + m) by (nonlinear_arith)
            requires
                q == p + 1,
        ;
    }
}

/// The way up of an id on a cycle never ends.
proof fn lemma_above_never_ends(t: Nodes, c: Uuid, m: nat, i: nat)
    requires
        m > 0,
        above(t, c, m) == Some(c),
    ensures
        above(t, c, i) is Some,
{
    lemma_above_again(t, c, m, i);
    assert(m * i >= i) by (nonlinear_arith)
        requires
            m > 0,
    ;
    lemma_above_sum(t, c, i, (m * i - i) as nat);
}

/// An id on a cycle of others never comes to one that is its own parent.
proof fn lemma_above_goes_on(t: Nodes, c: Uuid, m: nat, i: nat)
    requires
        m > 0,
        above(t, c, m) == Some(c),
        last_parent(t, c) != Some(c),
    ensures
        above(t, c, i) is Some,
        last_parent(t, above(t, c, i)->Some_0) != above(t, c, i),
{
    lemma_above_never_ends(t, c, m, i);
    let z = above(t, c, i)->Some_0;
    if last_parent(t, z) == Some(z) {
        lemma_above_again(t, c, m, i);
        assert(m * i >= i) by (nonlinear_arith)
            requires
                m > 0,
        ;
        let r = (m * i - i) as nat;
        lemma_above_sum(t, c, i, r);
        lemma_above_stays(t, z, r);
    }
}

proof fn lemma_above_stays(t: Nodes, z: Uuid, r: nat)
    requires
        last_parent(t, z) == Some(z),
    ensures
        above(t, z, r) == Some(z),
    decreases r,
{
    if r > 0 {
        lemma_above_stays(t, z, (r - 1) as nat);
    }
}

/// A chase takes the ids above its start one after the other: until there is none or a
/// settled one, or until one comes again.
proof fn lemma_chase(
    t: Nodes,
    start: Uuid,
    n0: nat,
    path: Set<Uuid>,
    settled: Set<Uuid>,
) -> (n: nat)
    requires
        forall|x: Uuid| #[trigger]
            path.contains(x) <==> exists|j: nat| j < n0 && #[trigger] above(t, start, j) == Some(x),
    ensures
        ({
            let (at, out) = chase(t, above(t, start, n0), path, settled);
            &&& n >= n0
            &&& forall|x: Uuid| #[trigger]
                out.contains(x) <==> exists|j: nat|
                    j < n && #[trigger] above(t, start, j) == Some(x)
            &&& at is Some ==> above(t, start, n) == at && out.contains(at->Some_0)
            &&& at is None ==> above(t, start, n) is None || settled.contains(
                above(t, start, n)->Some_0,
            )
            &&& n0 == 0 && !settled.contains(start) ==> n > 0
        }),
    decreases
            unseen(t, path),
            (if above(t, start, n0) is Some {
                1nat
            } else {
                0nat
            }),
{
    match above(t, start, n0) {
        None => n0,
        Some(id) => if path.contains(id) {
            n0
        } else if settled.contains(id) {
            n0
        } else {
            crate::validator::lemma_unseen_insert(t, path, id);
            let more = path.insert(id);
            assert forall|x: Uuid| #[trigger] more.contains(x) <==> exists|j: nat|
                j < n0 + 1 && #[trigger] above(t, start, j) == Some(x) by {
                if more.contains(x) {
                    if x == id {
                        assert(above(t, start, n0) == Some(x));
                    } else {
                        let j = choose|j: nat| j < n0 && #[trigger] above(t, start, j) == Some(x);
                        assert(j < n0 + 1 && above(t, start, j) == Some(x));
                    }
                }
                if exists|j: nat| j < n0 + 1 && #[trigger] above(t, start, j) == Some(x) {
                    let j = choose|j: nat| j < n0 + 1 && #[trigger] above(t, start, j) == Some(x);
                    if j < n0 {
                        assert(path.contains(x));
                    }
                }
            }
            assert(above(t, start, n0 + 1) == last_parent(t, id));
            let n = lemma_chase(t, start, n0 + 1, more, settled);
            n
        },
    }
}

/// Of every cycle whose ids are settled, one is told.
proof fn lemma_cycle_told(t: Nodes, k: nat, c: Uuid, m: nat) -> (j: nat)
    requires
        closings(t, k).1.contains(c),
        m > 0 && above(t, c, m) == Some(c),
        last_parent(t, c) != Some(c),
    ensures
        above(t, c, j) is Some,
        crate::validator::tells(closings(t, k).0, "E006"@, above(t, c, j)->Some_0),
    decreases k,
{
    let p = (k - 1) as nat;
    let (fs, settled) = closings(t, p);
    let all = closings(t, k).0;
    let start = nth_id(t, k - 1);
    assert(all == fs || (all.len() == fs.len() + 1 && all.drop_last() == fs)) by {
        if all != fs {
            let id = chase(t, Some(start), Set::empty(), settled).0->Some_0;
            assert(all == fs.push(fault_cycle(id)));
            assert(all.drop_last() =~= fs);
        }
    }
    if settled.contains(c) {
        let j = lemma_cycle_told(t, p, c, m);
        lemma_told_on(fs, all, "E006"@, above(t, c, j)->Some_0);
        j
    } else {
        let (at, path) = chase(t, Some(start), Set::empty(), settled);
        assert(above(t, start, 0) == Some(start));
        let n = lemma_chase(t, start, 0, Set::empty(), settled);
        assert(path.contains(c));
        let j0 = choose|j: nat| j < n && #[trigger] above(t, start, j) == Some(c);
        let d = (n - j0) as nat;
        lemma_above_sum(t, start, j0, d);
        lemma_above_goes_on(t, c, m, d);
        let z = above(t, c, d)->Some_0;
        match at {
            Some(id) => {
                assert(id == z);
                assert(all == fs.push(fault_cycle(z)));
                assert(all[fs.len() as int] == fault_cycle(z));
                assert(crate::validator::tells(all, "E006"@, z));
                d
            },
            None => {
                assert(settled.contains(z));
                lemma_above_sum(t, c, m, d);
                lemma_above_sum(t, c, d, m);
                assert(m + d == d + m);
                assert(above(t, z, m) == Some(z));
                let j = lemma_cycle_told(t, p, z, m);
                lemma_above_sum(t, c, d, j);
                lemma_told_on(fs, all, "E006"@, above(t, z, j)->Some_0);
                d + j
            },
        }
    }
}

proof fn lemma_told_on(fs: Seq<SpecFault>, all: Seq<SpecFault>, code: Seq<char>, id: Uuid)
    requires
        crate::validator::tells(fs, code, id),
        all == fs || (all.len() == fs.len() + 1 && all.drop_last() == fs),
    ensures
        crate::validator::tells(all, code, id),
{
    let k = choose|k: int| 0 <= k < fs.len() && (#[trigger] fs[k]).code == code && fs[k].node == id;
    if all != fs {
        assert(all.drop_last()[k] == all[k]);
    }
    assert(all[k] == fs[k]);
}

proof fn lemma_all_settled(t: Nodes, k: nat, i: int)
    requires
        0 <= i < k,
    ensures
        closings(t, k).1.contains(nth_id(t, i)),
    decreases k,
{
    let p = (k - 1) as nat;
    let (fs, settled) = closings(t, p);
    let start = nth_id(t, k - 1);
    if i < p {
        lemma_all_settled(t, p, i);
    } else if !settled.contains(start) {
        let (at, path) = chase(t, Some(start), Set::empty(), settled);
        assert(above(t, start, 0) == Some(start));
        let n = lemma_chase(t, start, 0, Set::empty(), settled);
        assert(path.contains(start));
    }
}

/// A cycle that is told is one: from the id, the way up leads back to it over others.
proof fn lemma_told_is_a_cycle(t: Nodes, k: nat, id: Uuid) -> (m: nat)
    requires
        crate::validator::tells(closings(t, k).0, "E006"@, id),
    ensures
        m > 1,
        above(t, id, m) == Some(id),
        above(t, id, 1) != Some(id),
    decreases k,
{
    let all = closings(t, k).0;
    let x = choose|x: int|
        0 <= x < all.len() && (#[trigger] all[x]).code == "E006"@ && all[x].node == id;
    let p = (k - 1) as nat;
    let (fs, settled) = closings(t, p);
    if x < fs.len() {
        assert(fs[x] == all[x]);
        lemma_told_is_a_cycle(t, p, id)
    } else {
        let start = nth_id(t, k - 1);
        let (at, path) = chase(t, Some(start), Set::empty(), settled);
        assert(above(t, start, 0) == Some(start));
        let n = lemma_chase(t, start, 0, Set::empty(), settled);
        assert(at == Some(id));
        assert(path.contains(id));
        let j = choose|j: nat| j < n && #[trigger] above(t, start, j) == Some(id);
        let m = (n - j) as nat;
        lemma_above_sum(t, start, j, m);
        assert(above(t, id, m) == Some(id));
        assert(above(t, id, 0) == Some(id));
        assert(above(t, id, 1) == last_parent(t, id));
        if m == 1 {
            assert(last_parent(t, id) == Some(id));
        }
        m
    }
}

proof fn lemma_conflicts_tell(t: Nodes, k: nat, x: int)
    requires
        0 <= x < k,
        conflict(t, nth_id(t, x), firsts(t)[x]),
    ensures
        crate::validator::tells(conflicts(t, k), "E002"@, nth_id(t, x)),
    decreases k,
{
    let p = (k - 1) as nat;
    let a = conflicts(t, p);
    let id = nth_id(t, k - 1);
    let all = conflicts(t, k);
    if x < p {
        lemma_conflicts_tell(t, p, x);
        let y = choose|y: int|
            0 <= y < a.len() && (#[trigger] a[y]).code == "E002"@ && a[y].node == nth_id(t, x);
        assert(all[y] == a[y]);
    } else {
        assert(all[a.len() as int] == fault_duplicate(id));
    }
}

proof fn lemma_part_tells(
    a: Seq<SpecFault>,
    part: Seq<SpecFault>,
    b: Seq<SpecFault>,
    code: Seq<char>,
    id: Uuid,
)
    requires
        crate::validator::tells(part, code, id),
    ensures
        crate::validator::tells(a + part + b, code, id),
{
    let k = choose|k: int|
        0 <= k < part.len() && (#[trigger] part[k]).code == code && part[k].node == id;
    assert((a + part + b)[a.len() + k] == part[k]);
}

proof fn lemma_record_told(t: Nodes, k: nat, i: int)
    requires
        0 <= i < k,
    ensures
        t[i].id == nil_id() ==> crate::validator::tells(all_record_faults(t, k), "E001"@, t[i].id),
        t[i].parent == Some(t[i].id) ==> crate::validator::tells(
            all_record_faults(t, k),
            "E005"@,
            t[i].id,
        ),
        last_parent(t, t[i].id) is Some && find_id(t, last_parent(t, t[i].id)->Some_0) is None
            ==> crate::validator::tells(all_record_edges(t, k), "E011"@, t[i].id),
        t[i].value is Reference && find_id(t, t[i].value->Reference_0) is None
            ==> crate::validator::tells(all_record_edges(t, k), "R001"@, t[i].id),
    decreases k,
{
    let p = (k - 1) as nat;
    let none = Seq::<SpecFault>::empty();
    let a = all_record_faults(t, p);
    let e = all_record_edges(t, p);
    let f = record_faults(t, k - 1);
    let g = record_edges(t, k - 1);
    assert(none + a + f =~= all_record_faults(t, k) && a + f + none =~= all_record_faults(t, k));
    assert(none + e + g =~= all_record_edges(t, k) && e + g + none =~= all_record_edges(t, k));
    let id = t[i].id;
    if i < p {
        lemma_record_told(t, p, i);
        if t[i].id == nil_id() {
            lemma_part_tells(none, a, f, "E001"@, id);
        }
        if t[i].parent == Some(t[i].id) {
            lemma_part_tells(none, a, f, "E005"@, id);
        }
        if last_parent(t, id) is Some && find_id(t, last_parent(t, id)->Some_0) is None {
            lemma_part_tells(none, e, g, "E011"@, id);
        }
        if t[i].value is Reference && find_id(t, t[i].value->Reference_0) is None {
            lemma_part_tells(none, e, g, "R001"@, id);
        }
    } else {
        let f1 = fault_if(id == nil_id(), fault_nil(id));
        if t[i].id == nil_id() {
            assert(f[0] == fault_nil(id));
            lemma_part_tells(a, f, none, "E001"@, id);
        }
        if t[i].parent == Some(t[i].id) {
            assert(f[f1.len() as int] == fault_own_parent(id));
            lemma_part_tells(a, f, none, "E005"@, id);
        }
        let pa = last_parent(t, id);
        let g1 = fault_if(
            pa is Some && find_id(t, pa->Some_0) is None,
            fault_parent(id, pa->Some_0),
        );
        if pa is Some && find_id(t, pa->Some_0) is None {
            assert(g[0] == fault_parent(id, pa->Some_0));
            lemma_part_tells(e, g, none, "E011"@, id);
        }
        if t[i].value is Reference && find_id(t, t[i].value->Reference_0) is None {
            assert(g[g1.len() as int] == fault_target(id, t[i].value->Reference_0));
            lemma_part_tells(e, g, none, "R001"@, id);
        }
    }
}

/// A stream is told of every fault: a missing id, a record that is its own parent, a parent
/// that is not there, a target that is not there; and an id with several records whose tree
/// does not say that it takes revisions.
pub proof fn streams_are_told_of_every_fault(t: Nodes, i: int)
    requires
        0 <= i < t.len(),
    ensures
        ({
            let fs = stream_faults(t);
            let id = t[i].id;
            &&& id == nil_id() ==> crate::validator::tells(fs, "E001"@, id)
            &&& t[i].parent == Some(id) ==> crate::validator::tells(fs, "E005"@, id)
            &&& (crate::model::counts(t, i) && t[i].parent is Some && forall|j: int|
                0 <= j < t.len() ==> (#[trigger] t[j]).id != t[i].parent->Some_0)
                ==> crate::validator::tells(fs, "E011"@, id)
            &&& (t[i].value is Reference && forall|j: int|
                0 <= j < t.len() ==> (#[trigger] t[j]).id != t[i].value->Reference_0)
                ==> crate::validator::tells(fs, "R001"@, id)
            &&& ((exists|j: int| 0 <= j < t.len() && j != i && (#[trigger] t[j]).id == id) && !(
            exists|j: int|
                0 <= j < t.len() && (#[trigger] t[j]).name == "@protocol"@ && t[j].value
                    == SpecValue::Text("append-v1"@) && t[j].parent == Some(top_of(t, id, 4096))))
                ==> crate::validator::tells(fs, "E002"@, id)
        }),
{
    let fs = stream_faults(t);
    let id = t[i].id;
    let none = Seq::<SpecFault>::empty();
    let n = firsts(t).len();
    let a = all_record_faults(t, t.len());
    let b = closings(t, n).0;
    let c = conflicts(t, n);
    let d = all_record_edges(t, t.len());
    assert(fs == a + b + c + d);
    lemma_record_told(t, t.len(), i);
    crate::model::lookup_finds_what_counts(t, id);
    assert(none + a + (b + c + d) =~= fs);
    assert((a + b + c) + d + none =~= fs);
    assert((a + b) + c + d =~= fs);
    if id == nil_id() {
        lemma_part_tells(none, a, b + c + d, "E001"@, id);
    }
    if t[i].parent == Some(id) {
        lemma_part_tells(none, a, b + c + d, "E005"@, id);
    }
    if crate::model::counts(t, i) && t[i].parent is Some && forall|j: int|
        0 <= j < t.len() ==> (#[trigger] t[j]).id != t[i].parent->Some_0 {
        crate::model::lemma_find_id(t, t[i].parent->Some_0);
        assert(last_parent(t, id) == t[i].parent);
        lemma_part_tells(a + b + c, d, none, "E011"@, id);
    }
    if t[i].value is Reference && forall|j: int|
        0 <= j < t.len() ==> (#[trigger] t[j]).id != t[i].value->Reference_0 {
        crate::model::lemma_find_id(t, t[i].value->Reference_0);
        lemma_part_tells(a + b + c, d, none, "R001"@, id);
    }
    if (exists|j: int| 0 <= j < t.len() && j != i && (#[trigger] t[j]).id == id) && !(exists|j: int|
        0 <= j < t.len() && (#[trigger] t[j]).name == "@protocol"@ && t[j].value == SpecValue::Text(
            "append-v1"@,
        ) && t[j].parent == Some(top_of(t, id, 4096))) {
        let j = choose|j: int| 0 <= j < t.len() && j != i && (#[trigger] t[j]).id == id;
        let x = crate::model::lemma_first_of(t, i);
        crate::model::lemma_firsts(t);
        crate::model::lemma_find_id(t, id);
        lemma_declared(t, top_of(t, id, 4096));
        lemma_first_is_first(t, x, i, j);
        lemma_conflicts_tell(t, n, x);
        lemma_part_tells(a + b, c, d, "E002"@, id);
    }
}

proof fn lemma_first_is_first(t: Nodes, x: int, i: int, j: int)
    requires
        0 <= x < firsts(t).len(),
        0 <= i < t.len() && 0 <= j < t.len() && i != j,
        t[i].id == t[j].id,
        t[firsts(t)[x]].id == t[i].id,
    ensures
        find_id(t, t[i].id) != Some(firsts(t)[x]),
{
    crate::model::lemma_find_id(t, t[i].id);
    crate::model::lemma_firsts(t);
    let f = firsts(t)[x];
    if find_id(t, t[i].id) == Some(f) {
        assert(i <= f && j <= f);
        let k = if i < j {
            i
        } else {
            j
        };
        let y = crate::model::lemma_first_of(t, k);
        if y < x {
            assert(t[firsts(t)[y]].id != t[firsts(t)[x]].id);
        } else if x < y {
            assert(t[firsts(t)[x]].id != t[firsts(t)[y]].id);
        }
    }
}

proof fn lemma_declared(t: Nodes, id: Uuid)
    ensures
        declared_ids(t).contains(id) <==> exists|j: int|
            0 <= j < t.len() && (#[trigger] t[j]).name == "@protocol"@ && t[j].value
                == SpecValue::Text("append-v1"@) && t[j].parent == Some(id),
    decreases t.len(),
{
    if t.len() > 0 {
        let d = t.drop_last();
        lemma_declared(d, id);
        let l = t.len() - 1;
        if declared_ids(d).contains(id) {
            let j = choose|j: int|
                0 <= j < d.len() && (#[trigger] d[j]).name == "@protocol"@ && d[j].value
                    == SpecValue::Text("append-v1"@) && d[j].parent == Some(id);
            assert(t[j] == d[j]);
        } else if declared_ids(t).contains(id) {
            assert(t[l].name == "@protocol"@);
        }
        if exists|j: int|
            0 <= j < t.len() && (#[trigger] t[j]).name == "@protocol"@ && t[j].value
                == SpecValue::Text("append-v1"@) && t[j].parent == Some(id) {
            let j = choose|j: int|
                0 <= j < t.len() && (#[trigger] t[j]).name == "@protocol"@ && t[j].value
                    == SpecValue::Text("append-v1"@) && t[j].parent == Some(id);
            if j < l {
                assert(d[j] == t[j]);
            }
        }
    }
}

/// Of every cycle of parents over two ids or more, one id is told, and no id is told that is
/// on none.
pub proof fn streams_are_told_of_every_cycle(t: Nodes, i: int, m: nat)
    requires
        0 <= i < t.len(),
        m > 0,
        above(t, t[i].id, m) == Some(t[i].id),
        above(t, t[i].id, 1) != Some(t[i].id),
    ensures
        exists|j: nat| #[trigger]
            above(t, t[i].id, j) is Some && crate::validator::tells(
                stream_faults(t),
                "E006"@,
                above(t, t[i].id, j)->Some_0,
            ),
{
    let id = t[i].id;
    let n = firsts(t).len();
    let x = crate::model::lemma_first_of(t, i);
    lemma_all_settled(t, n, x);
    assert(above(t, id, 0) == Some(id));
    assert(above(t, id, 1) == last_parent(t, id));
    let j = lemma_cycle_told(t, n, id, m);
    let a = all_record_faults(t, t.len());
    let b = closings(t, n).0;
    let rest = conflicts(t, n) + all_record_edges(t, t.len());
    assert(a + b + rest =~= stream_faults(t));
    lemma_part_tells(a, b, rest, "E006"@, above(t, id, j)->Some_0);
}

/// What is told as a cycle is one: from the id, the way up leads back to it over others.
pub proof fn told_cycles_are_cycles(t: Nodes, id: Uuid) -> (m: nat)
    requires
        crate::validator::tells(closings(t, firsts(t).len()).0, "E006"@, id),
    ensures
        m > 1,
        above(t, id, m) == Some(id),
        above(t, id, 1) != Some(id),
{
    lemma_told_is_a_cycle(t, firsts(t).len(), id)
}

proof fn lemma_conflict_told(t: Nodes, k: nat, id: Uuid) -> (x: int)
    requires
        crate::validator::tells(conflicts(t, k), "E002"@, id),
    ensures
        0 <= x < k,
        nth_id(t, x) == id,
        conflict(t, id, firsts(t)[x]),
    decreases k,
{
    let all = conflicts(t, k);
    let p = (k - 1) as nat;
    let a = conflicts(t, p);
    let y = choose|y: int|
        0 <= y < all.len() && (#[trigger] all[y]).code == "E002"@ && all[y].node == id;
    if y < a.len() {
        assert(a[y] == all[y]);
        lemma_conflict_told(t, p, id)
    } else {
        p as int
    }
}

/// What is told as a conflict is an id with several records whose tree does not say that it
/// takes revisions.
pub proof fn told_conflicts_are_conflicts(t: Nodes, id: Uuid)
    requires
        crate::validator::tells(conflicts(t, firsts(t).len()), "E002"@, id),
    ensures
        exists|i: int, j: int|
            0 <= i < j < t.len() && (#[trigger] t[i]).id == id && (#[trigger] t[j]).id == id,
        forall|j: int|
            0 <= j < t.len() && (#[trigger] t[j]).name == "@protocol"@ && t[j].value
                == SpecValue::Text("append-v1"@) ==> t[j].parent != Some(top_of(t, id, 4096)),
{
    let x = lemma_conflict_told(t, firsts(t).len(), id);
    crate::model::lemma_firsts(t);
    crate::model::lemma_find_id(t, id);
    let i = firsts(t)[x];
    assert(t[i].id == id);
    let j = find_id(t, id)->Some_0;
    assert(t[j].id == id);
    assert(i < j);
    lemma_declared(t, top_of(t, id, 4096));
}

/// The top of an id is where the parents lead, by the records that count: the last has none
/// that is there, unless there are too many.
pub proof fn the_top_has_no_parent(t: Nodes, id: Uuid, steps: nat) -> (way: Seq<Uuid>)
    ensures
        1 <= way.len() <= steps + 1,
        way[0] == id,
        top_of(t, id, steps) == way.last(),
        forall|k: int|
            0 <= k < way.len() - 1 ==> found(t, #[trigger] way[k]) is Some && found(
                t,
                way[k],
            )->Some_0.parent == Some(way[k + 1]) && find_id(t, way[k + 1]) is Some,
        way.len() == steps + 1 || found(t, way.last()) is None || found(
            t,
            way.last(),
        )->Some_0.parent is None || find_id(t, found(t, way.last())->Some_0.parent->Some_0) is None,
    decreases steps,
{
    match last_parent(t, id) {
        Some(p) => if steps > 0 && find_id(t, p) is Some {
            let rest = the_top_has_no_parent(t, p, (steps - 1) as nat);
            let way = seq![id] + rest;
            assert(way.last() == rest.last());
            assert forall|k: int| 0 <= k < way.len() - 1 implies found(t, #[trigger] way[k]) is Some
                && found(t, way[k])->Some_0.parent == Some(way[k + 1]) && find_id(
                t,
                way[k + 1],
            ) is Some by {
                if k > 0 {
                    assert(way[k] == rest[k - 1] && way[k + 1] == rest[k]);
                } else {
                    assert(way[1] == rest[0]);
                }
            }
            way
        } else {
            seq![id]
        },
        None => seq![id],
    }
}

} // verus!
