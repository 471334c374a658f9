//! The index of one file: which tree a node belongs to, where it stands, and who
//! refers to it; and the format of the file beside it that keeps the index.
use crate::bytes::{be, be_value, get_be, i64_bits, i64_from_bits, i64_of_bits, i64_to_bits, put_be,
    put_slice, sub_bytes};
use crate::catalog::{id_keys, sort_ids};
use crate::codec::{decode_node, nil_id, node_at, read_uuid, uuid_at, Node, SpecNode, Uuid};
use crate::idmap::{list_of, IdMap, IdTable};
use crate::search::{entry_position, flat, probe, probed, Table};
use crate::sort::{bytes_le, key_views, order, sorted};
use crate::text::{decimal, decimal_text, join2, owned, same_text, text_of_bytes};
use crate::tree::{codec_error, codec_message, head_fault, head_len, parse_file};
use crate::tree::Store;
use vstd::prelude::*;
use vstd::utf8::{decode_utf8, encode_utf8, valid_utf8};

verus! {

/// The version of the file format.
pub const VERSION: u8 = 2;

/// The text that tells a reader how to read the file.
pub const HEADER: &'static str = "XiRang sidecar node index (XRIDX) v2\nMaps each .xirang node to its containing tree root and byte offset (implementation-layer cache).\nLayout (big-endian, all blocks sorted by their first 16-byte UUID):\n  magic \"XRIDX\" (5 bytes) + version (1 byte) + header_len u32 + this header\n  + source_size u64 + source_mtime_sec i64 + source_mtime_nsec u32\n  + node_data_start u64 + root_count u64 + node_count u64 + edge_count u64 + child_count u64\n  + root_count x (root_uuid 16B, rel_offset u64, byte_len u64)  sorted by root_uuid\n  + node_count x (node_uuid 16B, root_uuid 16B, rel_offset u64, byte_len u64)  sorted by node_uuid\n  + edge_count x (target_uuid 16B, source_uuid 16B)             sorted by target_uuid then source_uuid\n  + child_count x (parent_uuid 16B, child_uuid 16B, rel_offset u64, byte_len u64)  sorted by parent then child\n";

/// The bytes that the file of an index starts with.
pub open spec fn magic() -> Seq<u8> {
    seq![0x58u8, 0x52u8, 0x49u8, 0x44u8, 0x58u8]
}

/// The path of the file that keeps the index of a file.
pub fn sidecar_path(path: &str) -> (r: String)
    ensures
        r@ == path@ + ".idx"@,
{
    join2(path, ".idx")
}

// ---------------------------------------------------------------------------
// Passing over the nodes of a file
// ---------------------------------------------------------------------------

/// What passing over a node keeps of it: all but its value, of which it keeps
/// the type and the target of a reference.
pub struct SpecRec {
    pub id: Uuid,
    pub parent: Option<Uuid>,
    pub name: Seq<char>,
    pub tag: u8,
    pub target: Option<Uuid>,
    pub start: int,
    pub end: int,
}

/// A node that was passed over.
#[derive(Debug)]
struct Rec {
    id: Uuid,
    parent: Option<Uuid>,
    name: String,
    tag: u8,
    target: Option<Uuid>,
    start: usize,
    end: usize,
}

impl Rec {
    spec fn model(&self) -> SpecRec {
        SpecRec {
            id: self.id,
            parent: self.parent,
            name: self.name@,
            tag: self.tag,
            target: self.target,
            start: self.start as int,
            end: self.end as int,
        }
    }
}

spec fn rec_models(s: Seq<Rec>) -> Seq<SpecRec> {
    Seq::new(s.len(), |i: int| s[i].model())
}

/// Why `n` bytes cannot be taken at `off`, if so.
pub open spec fn take_fault(len: int, off: int, n: int) -> Option<Seq<char>> {
    if off + n > usize::MAX {
        Some("F007：索引损坏"@)
    } else if off + n > len {
        Some("F004：文件截断"@)
    } else {
        None
    }
}

/// Where a value with the tag that starts at `off` ends, and what it refers to.
pub open spec fn passed_value(data: Seq<u8>, tag: u8, off: int) -> Result<
    (int, Option<Uuid>),
    Seq<char>,
> {
    let len = data.len() as int;
    if tag == crate::codec::EMPTY {
        Ok((off, None))
    } else if tag == crate::codec::INT || tag == crate::codec::FLOAT {
        match take_fault(len, off, 8) {
            Some(e) => Err(e),
            None => Ok((off + 8, None)),
        }
    } else if tag == crate::codec::BOOL {
        match take_fault(len, off, 1) {
            Some(e) => Err(e),
            None => Ok((off + 1, None)),
        }
    } else if tag == crate::codec::TEXT {
        match take_fault(len, off, 4) {
            Some(e) => Err(e),
            None => {
                let n = be_value(data.subrange(off, off + 4)) as int;
                match take_fault(len, off + 4, n) {
                    Some(e) => Err(e),
                    None => Ok((off + 4 + n, None)),
                }
            },
        }
    } else if tag == crate::codec::REFERENCE {
        match take_fault(len, off, 16) {
            Some(e) => Err(e),
            None => Ok((off + 16, Some(uuid_at(data, off)))),
        }
    } else if tag == crate::codec::BLOB {
        match take_fault(len, off, 8) {
            Some(e) => Err(e),
            None => {
                let n = be_value(data.subrange(off, off + 8)) as int;
                match take_fault(len, off + 8, n) {
                    Some(e) => Err(e),
                    None => Ok((off + 8 + n, None)),
                }
            },
        }
    } else {
        Err("E008：类型标记非法 "@ + decimal(tag as nat))
    }
}

/// The node that stands at `off`, passed over.
pub open spec fn rec_at(data: Seq<u8>, off: int) -> Result<SpecRec, Seq<char>> {
    let len = data.len() as int;
    if take_fault(len, off, 33) is Some {
        Err(take_fault(len, off, 33)->Some_0)
    } else {
        let n = data[off + 32] as int;
        let p = off + 33;
        if take_fault(len, p, n) is Some {
            Err(take_fault(len, p, n)->Some_0)
        } else if !valid_utf8(data.subrange(p, p + n)) {
            Err("节点名非法 UTF-8"@)
        } else if take_fault(len, p + n, 1) is Some {
            Err(take_fault(len, p + n, 1)->Some_0)
        } else {
            match passed_value(data, data[p + n], p + n + 1) {
                Err(e) => Err(e),
                Ok((end, target)) => Ok(
                    SpecRec {
                        id: uuid_at(data, off),
                        parent: if uuid_at(data, off + 16) == nil_id() {
                            None
                        } else {
                            Some(uuid_at(data, off + 16))
                        },
                        name: decode_utf8(data.subrange(p, p + n)),
                        tag: data[p + n],
                        target,
                        start: off,
                        end,
                    },
                ),
            }
        }
    }
}

pub proof fn lemma_rec_at(data: Seq<u8>, off: int)
    requires
        rec_at(data, off) is Ok,
        off >= 0,
    ensures
        off + 34 <= rec_at(data, off)->Ok_0.end <= data.len(),
        rec_at(data, off)->Ok_0.start == off,
{
}

/// The nodes from `off` to the end, passed over.
pub open spec fn recs_from(data: Seq<u8>, off: int) -> Result<Seq<SpecRec>, Seq<char>>
    decreases data.len() - off,
{
    if off < 0 || off >= data.len() {
        Ok(Seq::<SpecRec>::empty())
    } else {
        match rec_at(data, off) {
            Err(e) => Err(e),
            Ok(r) => {
                proof {
                    lemma_rec_at(data, off);
                }
                match recs_from(data, r.end) {
                    Err(e) => Err(e),
                    Ok(rest) => Ok(seq![r] + rest),
                }
            },
        }
    }
}

/// Checks that `n` bytes can be taken at `off`.
fn take(len: usize, off: usize, n: u64) -> (r: Result<usize, String>)
    requires
        off <= len,
    ensures
        match r {
            Ok(end) => take_fault(len as int, off as int, n as int) is None && end == off + n && end
                <= len,
            Err(e) => take_fault(len as int, off as int, n as int) == Some(e@),
        },
{
    if n > (usize::MAX - off) as u64 {
        return Err(owned("F007：索引损坏"));
    }
    if n > (len - off) as u64 {
        return Err(owned("F004：文件截断"));
    }
    Ok(off + n as usize)
}

/// Passes over a value.
fn pass_value(data: &[u8], tag: u8, off: usize) -> (r: Result<(usize, Option<Uuid>), String>)
    requires
        off <= data@.len(),
    ensures
        match r {
            Ok((end, t)) => passed_value(data@, tag, off as int) == Ok::<
                (int, Option<Uuid>),
                Seq<char>,
            >((end as int, t)) && off <= end <= data@.len(),
            Err(e) => passed_value(data@, tag, off as int) == Err::<(int, Option<Uuid>), Seq<char>>(
                e@,
            ),
        },
{
    let len: usize = data.len();
    if tag == crate::codec::EMPTY {
        return Ok((off, None));
    }
    if tag == crate::codec::INT || tag == crate::codec::FLOAT {
        return match take(len, off, 8) {
            Ok(end) => Ok((end, None)),
            Err(e) => Err(e),
        };
    }
    if tag == crate::codec::BOOL {
        return match take(len, off, 1) {
            Ok(end) => Ok((end, None)),
            Err(e) => Err(e),
        };
    }
    if tag == crate::codec::TEXT {
        let p: usize = match take(len, off, 4) {
            Ok(p) => p,
            Err(e) => return Err(e),
        };
        let n: u64 = get_be(data, off, 4);
        return match take(len, p, n) {
            Ok(end) => Ok((end, None)),
            Err(e) => Err(e),
        };
    }
    if tag == crate::codec::REFERENCE {
        return match take(len, off, 16) {
            Ok(end) => Ok((end, Some(read_uuid(data, off)))),
            Err(e) => Err(e),
        };
    }
    if tag == crate::codec::BLOB {
        let p: usize = match take(len, off, 8) {
            Ok(p) => p,
            Err(e) => return Err(e),
        };
        let n: u64 = get_be(data, off, 8);
        return match take(len, p, n) {
            Ok(end) => Ok((end, None)),
            Err(e) => Err(e),
        };
    }
    let d = decimal_text(tag as u64);
    Err(join2("E008：类型标记非法 ", d.as_str()))
}

/// Passes over a node.
fn scan_node(data: &[u8], off: usize) -> (r: Result<Rec, String>)
    requires
        off <= data@.len(),
    ensures
        match r {
            Ok(rec) => rec_at(data@, off as int) == Ok::<SpecRec, Seq<char>>(rec.model()),
            Err(e) => rec_at(data@, off as int) == Err::<SpecRec, Seq<char>>(e@),
        },
{
    let len: usize = data.len();
    let p: usize = match take(len, off, 33) {
        Ok(p) => p,
        Err(e) => return Err(e),
    };
    let n: usize = data[off + 32] as usize;
    let q: usize = match take(len, p, n as u64) {
        Ok(q) => q,
        Err(e) => return Err(e),
    };
    let name = match text_of_bytes(sub_bytes(data, p, q)) {
        Some(s) => s,
        None => return Err(owned("节点名非法 UTF-8")),
    };
    let v: usize = match take(len, q, 1) {
        Ok(v) => v,
        Err(e) => return Err(e),
    };
    let tag: u8 = data[q];
    match pass_value(data, tag, v) {
        Err(e) => Err(e),
        Ok((end, target)) => {
            let up = read_uuid(data, off + 16);
            let parent = if up.is_nil() {
                None
            } else {
                Some(up)
            };
            Ok(Rec { id: read_uuid(data, off), parent, name, tag, target, start: off, end })
        },
    }
}

/// Passes over all nodes.
fn scan_all(data: &[u8]) -> (r: Result<Vec<Rec>, String>)
    ensures
        match r {
            Ok(v) => recs_from(data@, 0) == Ok::<Seq<SpecRec>, Seq<char>>(rec_models(v@))
                && forall|i: int| 0 <= i < v@.len() ==> (#[trigger] v@[i]).start < v@[i].end,
            Err(e) => recs_from(data@, 0) == Err::<Seq<SpecRec>, Seq<char>>(e@),
        },
{
    let mut out: Vec<Rec> = Vec::new();
    let mut off: usize = 0;
    let ghost want = recs_from(data@, 0);
    proof {
        if want is Ok {
            assert(rec_models(out@) + want->Ok_0 =~= want->Ok_0);
        }
    }
    while off < data.len()
        invariant
            off <= data@.len(),
            forall|i: int| 0 <= i < out@.len() ==> (#[trigger] out@[i]).start < out@[i].end,
            want == recs_from(data@, 0),
            want == (match recs_from(data@, off as int) {
                Ok(rest) => Ok::<Seq<SpecRec>, Seq<char>>(rec_models(out@) + rest),
                Err(e) => Err(e),
            }),
        decreases data@.len() - off,
    {
        let ghost o0 = out@;
        let rec = match scan_node(data, off) {
            Ok(r) => r,
            Err(e) => return Err(e),
        };
        let ghost m = rec.model();
        proof {
            lemma_rec_at(data@, off as int);
        }
        off = rec.end;
        out.push(rec);
        proof {
            assert(rec_models(out@) =~= rec_models(o0).push(m));
            match recs_from(data@, off as int) {
                Ok(rest) => {
                    assert(rec_models(o0) + (seq![m] + rest) =~= rec_models(out@) + rest);
                },
                Err(e) => {},
            }
        }
    }
    assert(rec_models(out@) + Seq::<SpecRec>::empty() =~= rec_models(out@));
    Ok(out)
}

/// A node that can be read can be passed over, with the same outcome.
pub proof fn passing_agrees_with_reading(data: Seq<u8>, off: int, n: SpecNode, end: int)
    requires
        off >= 0,
        data.len() <= usize::MAX,
        node_at(data, off) == (Ok::<SpecNode, crate::codec::Error>(n), end),
    ensures
        rec_at(data, off) == Ok::<SpecRec, Seq<char>>(
            SpecRec {
                id: n.id,
                parent: n.parent,
                name: n.name,
                tag: crate::codec::tag_of(n.value),
                target: match n.value {
                    crate::codec::SpecValue::Reference(u) => Some(u),
                    _ => None,
                },
                start: off,
                end,
            },
        ),
{
    reveal(node_at);
}

// ---------------------------------------------------------------------------
// The index
// ---------------------------------------------------------------------------

/// The position of the last node with the id.
pub open spec fn find_rec(recs: Seq<SpecRec>, id: Uuid) -> Option<int>
    decreases recs.len(),
{
    if recs.len() == 0 {
        None
    } else if recs.last().id == id {
        Some(recs.len() - 1)
    } else {
        find_rec(recs.drop_last(), id)
    }
}

/// The position of the parent of the node at `i`.
pub open spec fn up(recs: Seq<SpecRec>, i: int) -> Option<int> {
    match recs[i].parent {
        None => None,
        Some(p) => find_rec(recs, p),
    }
}

/// Whether a node marks its parent as the root of a template or an instance.
pub open spec fn marks_root(r: SpecRec) -> bool {
    (r.name == "@模板"@ && r.tag == crate::codec::EMPTY) || r.name == "@实例"@
}

/// Whether a child of the node at `i` marks it.
pub open spec fn is_marked(recs: Seq<SpecRec>, i: int) -> bool {
    exists|c: int| 0 <= c < recs.len() && #[trigger] up(recs, c) == Some(i) && marks_root(recs[c])
}

/// Whether the node at `i` is the root of a tree: it has no parent here, or a
/// child marks it.
pub open spec fn is_tree_root(recs: Seq<SpecRec>, i: int) -> bool {
    up(recs, i) is None || is_marked(recs, i)
}

/// The root of the tree of the node at `i`: the first that is one on the way up, if it is
/// within `steps` steps.
pub open spec fn top_of(recs: Seq<SpecRec>, i: int, steps: nat) -> Uuid
    decreases steps,
{
    if steps == 0 || is_tree_root(recs, i) {
        recs[i].id
    } else {
        top_of(recs, up(recs, i)->Some_0, (steps - 1) as nat)
    }
}

/// The roots of the trees of the first `k` nodes.
pub open spec fn assigned(recs: Seq<SpecRec>, k: nat) -> Map<Uuid, Uuid>
    decreases k,
{
    if k == 0 {
        Map::<Uuid, Uuid>::empty()
    } else {
        assigned(recs, (k - 1) as nat).insert(recs[k - 1].id, top_of(recs, k - 1, recs.len()))
    }
}

/// How far the subtree of the node at `i` reaches, counting its children among
/// the first `k` nodes.
pub open spec fn reach(recs: Seq<SpecRec>, i: int, k: nat) -> int
    decreases recs.len() - i, k,
{
    if k == 0 || i < 0 || i >= recs.len() {
        recs[i].end
    } else {
        let m = reach(recs, i, (k - 1) as nat);
        let c = k - 1;
        if up(recs, c) != Some(i) {
            m
        } else {
            let e = if i < c < recs.len() {
                reach(recs, c, recs.len())
            } else {
                recs[c].end
            };
            if e > m {
                e
            } else {
                m
            }
        }
    }
}

/// Where the tree of the root at `i` stands: its start and its length.
pub open spec fn span(recs: Seq<SpecRec>, i: int) -> (u64, u64) {
    (recs[i].start as u64, (reach(recs, i, recs.len()) - recs[i].start) as u64)
}

/// The roots among the first `k` nodes, with where their trees stand.
pub open spec fn root_spans(recs: Seq<SpecRec>, k: nat) -> Map<Uuid, (u64, u64)>
    decreases k,
{
    if k == 0 {
        Map::<Uuid, (u64, u64)>::empty()
    } else {
        let m = root_spans(recs, (k - 1) as nat);
        if is_tree_root(recs, k - 1) {
            m.insert(recs[k - 1].id, span(recs, k - 1))
        } else {
            m
        }
    }
}

/// The ids of the nodes that refer to `t`, in order.
pub open spec fn sources(recs: Seq<SpecRec>, t: Uuid) -> Seq<Uuid>
    decreases recs.len(),
{
    if recs.len() == 0 {
        Seq::<Uuid>::empty()
    } else if recs.last().target == Some(t) {
        sources(recs.drop_last(), t).push(recs.last().id)
    } else {
        sources(recs.drop_last(), t)
    }
}

/// A node with where it stands: its start and its length.
pub open spec fn located(r: SpecRec) -> (Uuid, u64, u64) {
    (r.id, r.start as u64, (r.end - r.start) as u64)
}

/// The children of `p`, in order.
pub open spec fn offspring(recs: Seq<SpecRec>, p: Uuid) -> Seq<(Uuid, u64, u64)>
    decreases recs.len(),
{
    if recs.len() == 0 {
        Seq::<(Uuid, u64, u64)>::empty()
    } else if recs.last().parent == Some(p) {
        offspring(recs.drop_last(), p).push(located(recs.last()))
    } else {
        offspring(recs.drop_last(), p)
    }
}

/// The keys of located nodes: their ids.
pub open spec fn located_keys(s: Seq<(Uuid, u64, u64)>) -> Seq<Seq<u8>> {
    Seq::new(s.len(), |i: int| s[i].0.0@)
}

/// The index of a file.
#[derive(Debug)]
pub struct NodeIndex {
    /// Where the nodes start in the file.
    pub node_data_start: u64,
    /// The size of the file.
    pub source_size: u64,
    /// When the file was last changed: seconds, and the nanoseconds beyond them.
    pub source_mtime_sec: i64,
    pub source_mtime_nsec: u32,
    /// The roots of trees, with where they stand: start and length.
    pub roots: IdTable<(u64, u64)>,
    /// The root of the tree of each node.
    pub assign: IdTable<Uuid>,
    /// The nodes that refer to each target.
    pub reverse: IdTable<Vec<Uuid>>,
    /// The children of each parent, with where they stand.
    pub children: IdTable<Vec<(Uuid, u64, u64)>>,
}

impl NodeIndex {
    /// The tables are sound.
    pub open spec fn wf(&self) -> bool {
        self.roots.wf() && self.assign.wf() && self.reverse.wf() && self.children.wf()
    }
}

/// Whether `idx` is the index of nodes.
pub open spec fn indexes(idx: NodeIndex, recs: Seq<SpecRec>) -> bool {
    &&& idx.wf()
    &&& idx.roots@ == root_spans(recs, recs.len())
    &&& idx.assign@ == assigned(recs, recs.len())
    &&& forall|t: Uuid| #[trigger]
        list_of(idx.reverse@, t) == sorted(sources(recs, t), id_keys(sources(recs, t)))
    &&& forall|t: Uuid| #[trigger]
        idx.reverse@.contains_key(t) <==> sources(recs, t).len() > 0
    &&& forall|p: Uuid| #[trigger]
        list_of(idx.children@, p) == sorted(offspring(recs, p), located_keys(offspring(recs, p)))
    &&& forall|p: Uuid| #[trigger]
        idx.children@.contains_key(p) <==> offspring(recs, p).len() > 0
}

proof fn lemma_find_rec(recs: Seq<SpecRec>, id: Uuid)
    ensures
        match find_rec(recs, id) {
            Some(i) => 0 <= i < recs.len() && recs[i].id == id,
            None => forall|j: int| 0 <= j < recs.len() ==> (#[trigger] recs[j]).id != id,
        },
    decreases recs.len(),
{
    if recs.len() > 0 && recs.last().id != id {
        let d = recs.drop_last();
        lemma_find_rec(d, id);
        assert forall|j: int| 0 <= j < recs.len() - 1 implies (#[trigger] recs[j]) == d[j] by {}
    }
}

/// The last positions of the ids.
fn file_recs(recs: &Vec<Rec>) -> (r: IdMap<usize>)
    ensures
        forall|id: Uuid| #[trigger]
            find_rec(rec_models(recs@), id) == (if r@.contains_key(id) {
                Some(r@[id] as int)
            } else {
                None
            }),
{
    let ghost m = rec_models(recs@);
    let mut by_id: IdMap<usize> = IdMap::new();
    let mut i: usize = 0;
    assert(m.take(0) =~= Seq::<SpecRec>::empty());
    while i < recs.len()
        invariant
            i <= recs@.len(),
            m == rec_models(recs@),
            forall|id: Uuid| #[trigger]
                find_rec(m.take(i as int), id) == (if by_id@.contains_key(id) {
                    Some(by_id@[id] as int)
                } else {
                    None
                }),
        decreases recs@.len() - i,
    {
        let ghost b0 = by_id@;
        by_id.insert(recs[i].id, i);
        proof {
            assert(m.take(i + 1).drop_last() =~= m.take(i as int));
            assert(m.take(i + 1).last() == recs@[i as int].model());
            assert forall|id: Uuid| #[trigger] find_rec(m.take(i + 1), id) == (if by_id@.contains_key(
                id,
            ) {
                Some(by_id@[id] as int)
            } else {
                None
            }) by {
                assert(find_rec(m.take(i as int), id) == (if b0.contains_key(id) {
                    Some(b0[id] as int)
                } else {
                    None
                }));
            }
        }
        i = i + 1;
    }
    assert(m.take(m.len() as int) =~= m);
    by_id
}

/// The positions of the children of the node at `i` among the first `k` nodes.
spec fn below(recs: Seq<SpecRec>, i: int, k: nat) -> Seq<int>
    decreases k,
{
    if k == 0 {
        Seq::<int>::empty()
    } else if up(recs, k - 1) == Some(i) {
        below(recs, i, (k - 1) as nat).push(k - 1)
    } else {
        below(recs, i, (k - 1) as nat)
    }
}

proof fn lemma_below(recs: Seq<SpecRec>, i: int, k: nat)
    ensures
        forall|j: int|
            0 <= j < below(recs, i, k).len() ==> 0 <= #[trigger] below(recs, i, k)[j] < k && up(
                recs,
                below(recs, i, k)[j],
            ) == Some(i),
        forall|j: int, l: int|
            0 <= j < l < below(recs, i, k).len() ==> #[trigger] below(recs, i, k)[j]
                < #[trigger] below(recs, i, k)[l],
        forall|c: int|
            0 <= c < k && #[trigger] up(recs, c) == Some(i) ==> below(recs, i, k).contains(c),
    decreases k,
{
    if k > 0 {
        let d = below(recs, i, (k - 1) as nat);
        lemma_below(recs, i, (k - 1) as nat);
        let r = below(recs, i, k);
        assert forall|c: int| 0 <= c < k && #[trigger] up(recs, c) == Some(i) implies r.contains(
            c,
        ) by {
            if c < k - 1 {
                let j = choose|j: int| 0 <= j < d.len() && d[j] == c;
                assert(r[j] == c);
            } else {
                assert(r[d.len() as int] == c);
            }
        }
    }
}

/// The positions of the parents, and the lists of the children.
fn link(recs: &Vec<Rec>) -> (r: (Vec<Option<usize>>, Vec<Vec<usize>>))
    ensures
        r.0@.len() == recs@.len(),
        r.1@.len() == recs@.len(),
        forall|i: int|
            0 <= i < recs@.len() ==> opt_int(#[trigger] r.0@[i]) == up(rec_models(recs@), i),
        forall|i: int|
            0 <= i < recs@.len() ==> crate::model::ints((#[trigger] r.1@[i])@) == below(
                rec_models(recs@),
                i,
                recs@.len(),
            ),
{
    let ghost m = rec_models(recs@);
    let n: usize = recs.len();
    let by_id = file_recs(recs);
    let mut ups: Vec<Option<usize>> = Vec::new();
    let mut lists: Vec<Vec<usize>> = Vec::new();
    let mut i: usize = 0;
    while i < n
        invariant
            i <= n,
            n == recs@.len(),
            lists@.len() == i,
            forall|j: int| 0 <= j < i ==> (#[trigger] lists@[j])@ == Seq::<usize>::empty(),
        decreases n - i,
    {
        lists.push(Vec::new());
        i = i + 1;
    }
    let mut c: usize = 0;
    assert forall|j: int| 0 <= j < n implies crate::model::ints((#[trigger] lists@[j])@) == below(
        m,
        j,
        0,
    ) by {
        assert(crate::model::ints(lists@[j]@) =~= Seq::<int>::empty());
    }
    while c < n
        invariant
            c <= n,
            n == recs@.len(),
            m == rec_models(recs@),
            lists@.len() == n,
            ups@.len() == c,
            forall|id: Uuid| #[trigger]
                find_rec(m, id) == (if by_id@.contains_key(id) {
                    Some(by_id@[id] as int)
                } else {
                    None
                }),
            forall|j: int| 0 <= j < c ==> opt_int(#[trigger] ups@[j]) == up(m, j),
            forall|j: int|
                0 <= j < n ==> crate::model::ints((#[trigger] lists@[j])@) == below(m, j, c as nat),
        decreases n - c,
    {
        let ghost l0 = lists@;
        assert(m[c as int] == recs@[c as int].model());
        let u: Option<usize> = match recs[c].parent {
            None => None,
            Some(p) => {
                proof {
                    assert(find_rec(m, p) == find_rec(m, p));
                    lemma_find_rec(m, p);
                }
                match by_id.get(p) {
                    Some(q) => Some(*q),
                    None => None,
                }
            },
        };
        assert(opt_int(u) == up(m, c as int));
        if let Some(q) = u {
            lists[q].push(c);
        }
        ups.push(u);
        proof {
            assert forall|j: int| 0 <= j < n implies crate::model::ints((#[trigger] lists@[j])@)
                == below(m, j, (c + 1) as nat) by {
                assert(crate::model::ints(l0[j]@) == below(m, j, c as nat));
                if up(m, c as int) == Some(j) {
                    assert(crate::model::ints(lists@[j]@) =~= crate::model::ints(l0[j]@).push(
                        c as int,
                    ));
                }
            }
        }
        c = c + 1;
    }
    (ups, lists)
}

/// An optional position, as an integer.
spec fn opt_int(o: Option<usize>) -> Option<int> {
    match o {
        Some(i) => Some(i as int),
        None => None,
    }
}

/// Which nodes are roots of trees.
fn find_roots(recs: &Vec<Rec>, ups: &Vec<Option<usize>>, lists: &Vec<Vec<usize>>) -> (r: Vec<bool>)
    requires
        ups@.len() == recs@.len(),
        lists@.len() == recs@.len(),
        forall|i: int|
            0 <= i < recs@.len() ==> opt_int(#[trigger] ups@[i]) == up(rec_models(recs@), i),
        forall|i: int|
            0 <= i < recs@.len() ==> crate::model::ints((#[trigger] lists@[i])@) == below(
                rec_models(recs@),
                i,
                recs@.len(),
            ),
    ensures
        r@.len() == recs@.len(),
        forall|i: int| 0 <= i < r@.len() ==> #[trigger] r@[i] == is_tree_root(rec_models(recs@), i),
{
    let ghost m = rec_models(recs@);
    let mut out: Vec<bool> = Vec::new();
    let mut i: usize = 0;
    while i < recs.len()
        invariant
            i <= recs@.len(),
            m == rec_models(recs@),
            ups@.len() == recs@.len(),
            lists@.len() == recs@.len(),
            forall|i: int| 0 <= i < recs@.len() ==> opt_int(#[trigger] ups@[i]) == up(m, i),
            forall|i: int|
                0 <= i < recs@.len() ==> crate::model::ints((#[trigger] lists@[i])@) == below(
                    m,
                    i,
                    recs@.len(),
                ),
            out@.len() == i,
            forall|j: int| 0 <= j < i ==> #[trigger] out@[j] == is_tree_root(m, j),
        decreases recs@.len() - i,
    {
        assert(opt_int(ups@[i as int]) == up(m, i as int));
        let mut hit = ups[i].is_none();
        let list = &lists[i];
        let ghost b = below(m, i as int, recs@.len());
        assert(crate::model::ints(list@) == b);
        proof {
            lemma_below(m, i as int, recs@.len());
        }
        if !hit {
            let mut k: usize = 0;
            while k < list.len() && !hit
                invariant
                    k <= list@.len(),
                    i < recs@.len(),
                    m == rec_models(recs@),
                    b == crate::model::ints(list@),
                    up(m, i as int) is Some,
                    forall|j: int|
                        0 <= j < b.len() ==> 0 <= #[trigger] b[j] < recs@.len() && up(m, b[j])
                            == Some(i as int),
                    hit ==> is_marked(m, i as int),
                    !hit ==> forall|j: int| 0 <= j < k ==> !marks_root(m[#[trigger] b[j]]),
                decreases list@.len() - k,
            {
                let c: usize = list[k];
                assert(b[k as int] == c);
                assert(m[c as int] == recs@[c as int].model());
                if (same_text(recs[c].name.as_str(), "@模板") && recs[c].tag == crate::codec::EMPTY)
                    || same_text(recs[c].name.as_str(), "@实例") {
                    hit = true;
                    assert(up(m, c as int) == Some(i as int));
                }
                k = k + 1;
            }
            proof {
                if !hit && is_marked(m, i as int) {
                    let c = choose|c: int|
                        0 <= c < m.len() && #[trigger] up(m, c) == Some(i as int) && marks_root(m[c]);
                    assert(b.contains(c));
                    let j = choose|j: int| 0 <= j < b.len() && b[j] == c;
                    assert(!marks_root(m[b[j]]));
                }
            }
        }
        out.push(hit);
        i = i + 1;
    }
    out
}

proof fn lemma_reach_gap(recs: Seq<SpecRec>, i: int, a: nat, b: nat)
    requires
        a <= b,
        0 <= i < recs.len(),
        forall|c: int| a <= c < b ==> #[trigger] up(recs, c) != Some(i),
    ensures
        reach(recs, i, a) == reach(recs, i, b),
    decreases b - a,
{
    if a < b {
        lemma_reach_gap(recs, i, a, (b - 1) as nat);
    }
}

proof fn lemma_reach_bound(recs: Seq<SpecRec>, i: int, k: nat, top: int)
    requires
        0 <= i < recs.len(),
        k <= recs.len(),
        forall|j: int| 0 <= j < recs.len() ==> (#[trigger] recs[j]).end <= top,
    ensures
        recs[i].end <= reach(recs, i, k) <= top,
    decreases recs.len() - i, k,
{
    if k > 0 {
        lemma_reach_bound(recs, i, (k - 1) as nat, top);
        let c = k - 1;
        if i < c < recs.len() {
            lemma_reach_bound(recs, c, recs.len(), top);
        }
    }
}

/// How far the subtrees reach.
fn find_ends(recs: &Vec<Rec>, lists: &Vec<Vec<usize>>) -> (r: Vec<usize>)
    requires
        lists@.len() == recs@.len(),
        forall|i: int|
            0 <= i < recs@.len() ==> crate::model::ints((#[trigger] lists@[i])@) == below(
                rec_models(recs@),
                i,
                recs@.len(),
            ),
    ensures
        r@.len() == recs@.len(),
        forall|i: int|
            0 <= i < r@.len() ==> #[trigger] r@[i] == reach(rec_models(recs@), i, recs@.len()),
{
    let ghost m = rec_models(recs@);
    let n: usize = recs.len();
    let mut ends: Vec<usize> = Vec::new();
    let mut j: usize = 0;
    while j < n
        invariant
            j <= n,
            n == recs@.len(),
            m == rec_models(recs@),
            ends@.len() == j,
            forall|x: int| 0 <= x < j ==> #[trigger] ends@[x] == m[x].end,
        decreases n - j,
    {
        ends.push(recs[j].end);
        j = j + 1;
    }
    let mut i: usize = n;
    while i > 0
        invariant
            i <= n,
            n == recs@.len(),
            m == rec_models(recs@),
            ends@.len() == n,
            lists@.len() == n,
            forall|x: int|
                0 <= x < n ==> crate::model::ints((#[trigger] lists@[x])@) == below(m, x, n as nat),
            forall|x: int| 0 <= x < i ==> #[trigger] ends@[x] == m[x].end,
            forall|x: int| i <= x < n ==> #[trigger] ends@[x] == reach(m, x, n as nat),
        decreases i,
    {
        i = i - 1;
        let list = &lists[i];
        let ghost b = below(m, i as int, n as nat);
        assert(crate::model::ints(list@) == b);
        proof {
            lemma_below(m, i as int, n as nat);
        }
        let mut cur: usize = ends[i];
        let mut k: usize = 0;
        let ghost mut at: nat = 0;
        while k < list.len()
            invariant
                k <= list@.len(),
                i < n,
                n == m.len(),
                ends@.len() == n,
                b == crate::model::ints(list@),
                b == below(m, i as int, n as nat),
                forall|x: int|
                    0 <= x < b.len() ==> 0 <= #[trigger] b[x] < n && up(m, b[x]) == Some(i as int),
                forall|x: int, y: int| 0 <= x < y < b.len() ==> #[trigger] b[x] < #[trigger] b[y],
                forall|c: int|
                    0 <= c < n && #[trigger] up(m, c) == Some(i as int) ==> b.contains(c),
                forall|x: int| 0 <= x < i + 1 ==> #[trigger] ends@[x] == m[x].end,
                forall|x: int| i < x < n ==> #[trigger] ends@[x] == reach(m, x, n as nat),
                at <= n,
                k > 0 ==> at == b[k - 1] + 1,
                k == 0 ==> at == 0,
                cur == reach(m, i as int, at),
            decreases list@.len() - k,
        {
            let c: usize = list[k];
            assert(b[k as int] == c);
            proof {
                assert forall|x: int| at <= x < c implies #[trigger] up(m, x) != Some(i as int) by {
                    if up(m, x) == Some(i as int) {
                        let y = choose|y: int| 0 <= y < b.len() && b[y] == x;
                        if y < k {
                            assert(b[y] <= b[k - 1]);
                        } else if y > k {
                            assert(b[k as int] < b[y]);
                        }
                    }
                }
                if k > 0 {
                    assert(b[k - 1] < b[k as int]);
                }
                lemma_reach_gap(m, i as int, at, c as nat);
            }
            if ends[c] > cur {
                cur = ends[c];
            }
            proof {
                at = (c + 1) as nat;
                assert(up(m, c as int) == Some(i as int));
            }
            k = k + 1;
        }
        proof {
            assert forall|x: int| at <= x < n implies #[trigger] up(m, x) != Some(i as int) by {
                if up(m, x) == Some(i as int) {
                    let y = choose|y: int| 0 <= y < b.len() && b[y] == x;
                    assert(b[y] <= b[k - 1]);
                }
            }
            lemma_reach_gap(m, i as int, at, n as nat);
        }
        ends.set(i, cur);
    }
    ends
}

/// The root of the tree of the node at `i`.
fn find_top(recs: &Vec<Rec>, ups: &Vec<Option<usize>>, is_root: &Vec<bool>, i: usize) -> (r: Uuid)
    requires
        i < recs@.len(),
        linked(recs@, ups@),
        is_root@.len() == recs@.len(),
        forall|i: int|
            0 <= i < recs@.len() ==> #[trigger] is_root@[i] == is_tree_root(rec_models(recs@), i),
    ensures
        r == top_of(rec_models(recs@), i as int, recs@.len()),
{
    let ghost m = rec_models(recs@);
    let mut at: usize = i;
    let mut steps: usize = recs.len();
    while steps > 0 && !is_root[at]
        invariant
            at < recs@.len(),
            m == rec_models(recs@),
            linked(recs@, ups@),
            is_root@.len() == recs@.len(),
            forall|i: int| 0 <= i < recs@.len() ==> #[trigger] is_root@[i] == is_tree_root(m, i),
            top_of(m, i as int, recs@.len()) == top_of(m, at as int, steps as nat),
        decreases steps,
    {
        assert(is_root@[at as int] == is_tree_root(m, at as int));
        match ups[at] {
            Some(p) => {
                at = p;
            },
            None => {},
        }
        steps = steps - 1;
    }
    assert(m[at as int] == recs@[at as int].model());
    recs[at].id
}

/// The roots of the trees of all nodes.
fn assign_roots(recs: &Vec<Rec>, ups: &Vec<Option<usize>>, is_root: &Vec<bool>) -> (r: IdTable<
    Uuid,
>)
    requires
        linked(recs@, ups@),
        is_root@.len() == recs@.len(),
        forall|i: int|
            0 <= i < recs@.len() ==> #[trigger] is_root@[i] == is_tree_root(rec_models(recs@), i),
    ensures
        r.wf(),
        r@ == assigned(rec_models(recs@), recs@.len()),
{
    let ghost m = rec_models(recs@);
    let mut out: IdTable<Uuid> = IdTable::new();
    let mut i: usize = 0;
    while i < recs.len()
        invariant
            i <= recs@.len(),
            m == rec_models(recs@),
            linked(recs@, ups@),
            is_root@.len() == recs@.len(),
            forall|i: int| 0 <= i < recs@.len() ==> #[trigger] is_root@[i] == is_tree_root(m, i),
            out.wf(),
            out@ == assigned(m, i as nat),
        decreases recs@.len() - i,
    {
        assert(m[i as int] == recs@[i as int].model());
        let root = find_top(recs, ups, is_root, i);
        out.insert(recs[i].id, root);
        i = i + 1;
    }
    out
}

/// Whether the positions are those of the parents.
spec fn linked(recs: Seq<Rec>, ups: Seq<Option<usize>>) -> bool {
    &&& ups.len() == recs.len()
    &&& forall|i: int|
        0 <= i < recs.len() ==> match #[trigger] ups[i] {
            Some(p) => up(rec_models(recs), i) == Some(p as int) && p < recs.len(),
            None => up(rec_models(recs), i) is None,
        }
}

/// The position that is `k` steps up from that of a node; the last, where there is none
/// further up.
pub open spec fn steps_up(recs: Seq<SpecRec>, i: int, k: nat) -> int
    decreases k,
{
    if k == 0 {
        i
    } else {
        let j = steps_up(recs, i, (k - 1) as nat);
        match up(recs, j) {
            Some(p) => p,
            None => j,
        }
    }
}

proof fn lemma_steps_in(recs: Seq<SpecRec>, i: int, k: nat)
    requires
        0 <= i < recs.len(),
    ensures
        0 <= steps_up(recs, i, k) < recs.len(),
    decreases k,
{
    if k > 0 {
        lemma_steps_in(recs, i, (k - 1) as nat);
        let j = steps_up(recs, i, (k - 1) as nat);
        if recs[j].parent is Some {
            lemma_find_rec(recs, recs[j].parent->Some_0);
        }
    }
}

/// Steps that meet at a position go on together.
proof fn lemma_steps_repeat(recs: Seq<SpecRec>, i: int, a: nat, b: nat, more: nat)
    requires
        steps_up(recs, i, a) == steps_up(recs, i, b),
    ensures
        steps_up(recs, i, a + more) == steps_up(recs, i, b + more),
    decreases more,
{
    if more > 0 {
        lemma_steps_repeat(recs, i, a, b, (more - 1) as nat);
    }
}

/// The first root on the way up is fewer steps away than there are nodes.
proof fn lemma_first_root(recs: Seq<SpecRec>, i: int, k: nat)
    requires
        0 <= i < recs.len(),
        is_tree_root(recs, steps_up(recs, i, k)),
        forall|l: nat| l < k ==> !is_tree_root(recs, #[trigger] steps_up(recs, i, l)),
    ensures
        k < recs.len(),
{
    let w = Seq::new((k + 1) as nat, |l: int| steps_up(recs, i, l as nat));
    assert forall|x: int, y: int| 0 <= x < w.len() && 0 <= y < w.len() && x != y implies w[x] != w[y] by {
        let (a, b) = if x < y {
            (x as nat, y as nat)
        } else {
            (y as nat, x as nat)
        };
        if w[x] == w[y] {
            lemma_steps_repeat(recs, i, a, b, (k - b) as nat);
            assert(b + (k - b) as nat == k);
            let l = a + (k - b) as nat;
            assert(l < k);
            assert(is_tree_root(recs, steps_up(recs, i, l)));
        }
    }
    let range = vstd::set_lib::set_int_range(0, recs.len() as int);
    vstd::set_lib::lemma_int_range(0, recs.len() as int);
    w.unique_seq_to_set();
    assert forall|x: int| w.to_set().contains(x) implies range.contains(x) by {
        let l = choose|l: int| 0 <= l < w.len() && w[l] == x;
        lemma_steps_in(recs, i, l as nat);
    }
    vstd::set_lib::lemma_len_subset(w.to_set(), range);
}

proof fn lemma_top(recs: Seq<SpecRec>, i: int, k: nat, steps: nat)
    requires
        0 <= i < recs.len(),
        is_tree_root(recs, steps_up(recs, i, k)),
        forall|l: nat| l < k ==> !is_tree_root(recs, #[trigger] steps_up(recs, i, l)),
        k <= steps,
    ensures
        top_of(recs, i, steps) == recs[steps_up(recs, i, k)].id,
    decreases k,
{
    if k > 0 {
        assert(!is_tree_root(recs, steps_up(recs, i, 0)));
        let p = up(recs, i)->Some_0;
        if recs[i].parent is Some {
            lemma_find_rec(recs, recs[i].parent->Some_0);
        }
        lemma_steps_shift(recs, i, (k - 1) as nat);
        assert forall|l: nat| l < k - 1 implies !is_tree_root(recs, #[trigger] steps_up(recs, p, l)) by {
            lemma_steps_shift(recs, i, l);
            assert(!is_tree_root(recs, steps_up(recs, i, l + 1)));
        }
        lemma_top(recs, p, (k - 1) as nat, (steps - 1) as nat);
    }
}

/// One step and then `k` are `k` and one.
proof fn lemma_steps_shift(recs: Seq<SpecRec>, i: int, k: nat)
    requires
        up(recs, i) is Some,
    ensures
        steps_up(recs, up(recs, i)->Some_0, k) == steps_up(recs, i, k + 1),
    decreases k,
{
    if k > 0 {
        lemma_steps_shift(recs, i, (k - 1) as nat);
    } else {
        assert(steps_up(recs, i, 0) == i);
    }
}

proof fn lemma_assigned(recs: Seq<SpecRec>, i: int, k: nat)
    requires
        0 <= i < k <= recs.len(),
        forall|j: int| i < j < recs.len() ==> (#[trigger] recs[j]).id != recs[i].id,
    ensures
        assigned(recs, k).contains_key(recs[i].id),
        assigned(recs, k)[recs[i].id] == top_of(recs, i, recs.len()),
    decreases k,
{
    if i < k - 1 {
        lemma_assigned(recs, i, (k - 1) as nat);
        assert(recs[k - 1].id != recs[i].id);
    }
}

/// Every node maps to its root, wherever it stands in the file: to the first on the way up
/// from its last record that is the root of a tree, if there is one.
pub proof fn every_node_maps_to_its_root(recs: Seq<SpecRec>, i: int, k: nat)
    requires
        0 <= i < recs.len(),
        forall|j: int| i < j < recs.len() ==> (#[trigger] recs[j]).id != recs[i].id,
        is_tree_root(recs, steps_up(recs, i, k)),
        forall|l: nat| l < k ==> !is_tree_root(recs, #[trigger] steps_up(recs, i, l)),
    ensures
        assigned(recs, recs.len()).contains_key(recs[i].id),
        assigned(recs, recs.len())[recs[i].id] == recs[steps_up(recs, i, k)].id,
{
    lemma_first_root(recs, i, k);
    lemma_top(recs, i, k, recs.len());
    lemma_assigned(recs, i, recs.len());
}

/// Where the trees stand.
fn span_roots(recs: &Vec<Rec>, is_root: &Vec<bool>, ends: &Vec<usize>) -> (r: IdTable<(u64, u64)>)
    requires
        is_root@.len() == recs@.len(),
        ends@.len() == recs@.len(),
        forall|i: int| 0 <= i < recs@.len() ==> (#[trigger] recs@[i]).start < recs@[i].end,
        forall|i: int|
            0 <= i < recs@.len() ==> #[trigger] is_root@[i] == is_tree_root(rec_models(recs@), i),
        forall|i: int|
            0 <= i < recs@.len() ==> #[trigger] ends@[i] == reach(rec_models(recs@), i, recs@.len()),
    ensures
        r.wf(),
        r@ == root_spans(rec_models(recs@), recs@.len()),
{
    let ghost m = rec_models(recs@);
    let mut out: IdTable<(u64, u64)> = IdTable::new();
    let mut i: usize = 0;
    while i < recs.len()
        invariant
            i <= recs@.len(),
            m == rec_models(recs@),
            is_root@.len() == recs@.len(),
            ends@.len() == recs@.len(),
            forall|i: int| 0 <= i < recs@.len() ==> (#[trigger] recs@[i]).start < recs@[i].end,
            forall|i: int| 0 <= i < recs@.len() ==> #[trigger] is_root@[i] == is_tree_root(m, i),
            forall|i: int|
                0 <= i < recs@.len() ==> #[trigger] ends@[i] == reach(m, i, recs@.len()),
            out.wf(),
            out@ == root_spans(m, i as nat),
        decreases recs@.len() - i,
    {
        assert(m[i as int] == recs@[i as int].model());
        if is_root[i] {
            proof {
                assert forall|j: int| 0 <= j < m.len() implies (#[trigger] m[j]).end
                    <= usize::MAX by {}
                lemma_reach_bound(m, i as int, m.len(), usize::MAX as int);
            }
            let start: usize = recs[i].start;
            out.insert(recs[i].id, (start as u64, (ends[i] - start) as u64));
        }
        i = i + 1;
    }
    out
}

/// Who refers to whom, in the order of the nodes.
fn list_sources(recs: &Vec<Rec>) -> (r: IdTable<Vec<Uuid>>)
    ensures
        r.wf(),
        forall|t: Uuid| #[trigger] list_of(r@, t) == sources(rec_models(recs@), t),
        forall|t: Uuid| #[trigger] r@.contains_key(t) <==> sources(rec_models(recs@), t).len() > 0,
{
    let ghost m = rec_models(recs@);
    let mut out: IdTable<Vec<Uuid>> = IdTable::new();
    let mut i: usize = 0;
    assert(m.take(0) =~= Seq::<SpecRec>::empty());
    while i < recs.len()
        invariant
            i <= recs@.len(),
            m == rec_models(recs@),
            out.wf(),
            forall|t: Uuid| #[trigger] list_of(out@, t) == sources(m.take(i as int), t),
            forall|t: Uuid| #[trigger]
                out@.contains_key(t) <==> sources(m.take(i as int), t).len() > 0,
        decreases recs@.len() - i,
    {
        let ghost o0 = out@;
        proof {
            assert(m.take(i + 1).drop_last() =~= m.take(i as int));
            assert(m.take(i + 1).last() == recs@[i as int].model());
        }
        if let Some(t) = recs[i].target {
            out.push_to(t, recs[i].id);
        }
        proof {
            assert forall|t: Uuid| #[trigger] list_of(out@, t) == sources(m.take(i + 1), t) by {
                assert(list_of(o0, t) == sources(m.take(i as int), t));
            }
            assert forall|t: Uuid| #[trigger] out@.contains_key(t) <==> sources(m.take(i + 1), t).len()
                > 0 by {
                assert(o0.contains_key(t) <==> sources(m.take(i as int), t).len() > 0);
                assert(out@.dom().contains(t) == out@.contains_key(t));
            }
        }
        i = i + 1;
    }
    assert(m.take(m.len() as int) =~= m);
    out
}

/// Who is below whom, in the order of the nodes.
fn list_offspring(recs: &Vec<Rec>) -> (r: IdTable<Vec<(Uuid, u64, u64)>>)
    requires
        forall|i: int| 0 <= i < recs@.len() ==> (#[trigger] recs@[i]).start < recs@[i].end,
    ensures
        r.wf(),
        forall|t: Uuid| #[trigger] list_of(r@, t) == offspring(rec_models(recs@), t),
        forall|t: Uuid| #[trigger] r@.contains_key(t) <==> offspring(rec_models(recs@), t).len() > 0,
{
    let ghost m = rec_models(recs@);
    let mut out: IdTable<Vec<(Uuid, u64, u64)>> = IdTable::new();
    let mut i: usize = 0;
    assert(m.take(0) =~= Seq::<SpecRec>::empty());
    while i < recs.len()
        invariant
            i <= recs@.len(),
            m == rec_models(recs@),
            forall|i: int| 0 <= i < recs@.len() ==> (#[trigger] recs@[i]).start < recs@[i].end,
            out.wf(),
            forall|t: Uuid| #[trigger] list_of(out@, t) == offspring(m.take(i as int), t),
            forall|t: Uuid| #[trigger]
                out@.contains_key(t) <==> offspring(m.take(i as int), t).len() > 0,
        decreases recs@.len() - i,
    {
        let ghost o0 = out@;
        proof {
            assert(m.take(i + 1).drop_last() =~= m.take(i as int));
            assert(m.take(i + 1).last() == recs@[i as int].model());
        }
        if let Some(p) = recs[i].parent {
            let start: usize = recs[i].start;
            out.push_to(p, (recs[i].id, start as u64, (recs[i].end - start) as u64));
        }
        proof {
            assert forall|t: Uuid| #[trigger] list_of(out@, t) == offspring(m.take(i + 1), t) by {
                assert(list_of(o0, t) == offspring(m.take(i as int), t));
            }
            assert forall|t: Uuid| #[trigger] out@.contains_key(t) <==> offspring(
                m.take(i + 1),
                t,
            ).len() > 0 by {
                assert(o0.contains_key(t) <==> offspring(m.take(i as int), t).len() > 0);
                assert(out@.dom().contains(t) == out@.contains_key(t));
            }
        }
        i = i + 1;
    }
    assert(m.take(m.len() as int) =~= m);
    out
}

/// The located nodes by id.
fn sort_located(v: &Vec<(Uuid, u64, u64)>) -> (r: Vec<(Uuid, u64, u64)>)
    ensures
        r@ == sorted(v@, located_keys(v@)),
{
    let ghost ks = located_keys(v@);
    let mut keys: Vec<Vec<u8>> = Vec::new();
    let mut i: usize = 0;
    while i < v.len()
        invariant
            i <= v@.len(),
            ks == located_keys(v@),
            keys@.len() == i,
            forall|j: int| 0 <= j < i ==> (#[trigger] keys@[j])@ == ks[j],
        decreases v@.len() - i,
    {
        let key = sub_bytes(v[i].0.0.as_slice(), 0, 16);
        assert(key@ =~= ks[i as int]);
        keys.push(key);
        i = i + 1;
    }
    assert(key_views(keys@) =~= ks);
    crate::sort::sort_by_keys(v, &keys)
}

proof fn lemma_sorted_empty<A>(s: Seq<A>, keys: Seq<Seq<u8>>)
    requires
        s.len() == 0,
        keys.len() == 0,
    ensures
        sorted(s, keys) == Seq::<A>::empty(),
{
    let p = crate::sort::sorted_is_in_order(s, keys);
    assert(sorted(s, keys) =~= Seq::<A>::empty());
}

/// The lists, each by id.
fn sort_sources(raw: &IdTable<Vec<Uuid>>) -> (r: IdTable<Vec<Uuid>>)
    requires
        raw.wf(),
    ensures
        r.wf(),
        r@.dom() == raw@.dom(),
        forall|t: Uuid| #[trigger]
            list_of(r@, t) == sorted(list_of(raw@, t), id_keys(list_of(raw@, t))),
{
    let ids = raw.ids();
    let mut out: IdTable<Vec<Uuid>> = IdTable::new();
    let mut i: usize = 0;
    while i < ids.len()
        invariant
            i <= ids@.len(),
            ids@ == raw.order(),
            raw.wf(),
            out.wf(),
            forall|t: Uuid| #[trigger] out@.contains_key(t) <==> ids@.take(i as int).contains(t),
            forall|t: Uuid| #[trigger]
                out@.contains_key(t) ==> out@[t]@ == sorted(
                    list_of(raw@, t),
                    id_keys(list_of(raw@, t)),
                ),
        decreases ids@.len() - i,
    {
        let id = ids[i];
        let ghost o0 = out@;
        if let Some(list) = raw.get(id) {
            out.insert(id, sort_ids(list));
        }
        proof {
            assert(raw.order().contains(ids@[i as int]));
            assert(raw@.contains_key(id));
            lemma_take_contains(ids@, i as int);
            assert forall|t: Uuid| #[trigger] out@.contains_key(t) <==> ids@.take(i + 1).contains(
                t,
            ) by {
                assert(o0.contains_key(t) <==> ids@.take(i as int).contains(t));
            }
        }
        i = i + 1;
    }
    proof {
        assert(ids@.take(ids@.len() as int) =~= ids@);
        assert forall|t: Uuid| #[trigger] out@.contains_key(t) <==> raw@.contains_key(t) by {}
        assert(out@.dom() =~= raw@.dom());
        assert forall|t: Uuid| #[trigger] list_of(out@, t) == sorted(
            list_of(raw@, t),
            id_keys(list_of(raw@, t)),
        ) by {
            if !out@.contains_key(t) {
                assert(!raw@.contains_key(t));
                lemma_sorted_empty(list_of(raw@, t), id_keys(list_of(raw@, t)));
            }
        }
    }
    out
}

/// One more position adds one id.
pub proof fn lemma_take_contains(s: Seq<Uuid>, i: int)
    requires
        0 <= i < s.len(),
    ensures
        forall|t: Uuid| #[trigger]
            s.take(i + 1).contains(t) <==> (s.take(i).contains(t) || t == s[i]),
{
    let a = s.take(i);
    let b = s.take(i + 1);
    assert forall|t: Uuid| #[trigger] b.contains(t) <==> (a.contains(t) || t == s[i]) by {
        if b.contains(t) {
            let k = choose|k: int| 0 <= k < b.len() && b[k] == t;
            if k < i {
                assert(a[k] == t);
            }
        }
        if a.contains(t) {
            let k = choose|k: int| 0 <= k < a.len() && a[k] == t;
            assert(b[k] == t);
        }
        if t == s[i] {
            assert(b[i] == t);
        }
    }
}

/// The lists, each by id.
fn sort_offspring(raw: &IdTable<Vec<(Uuid, u64, u64)>>) -> (r: IdTable<Vec<(Uuid, u64, u64)>>)
    requires
        raw.wf(),
    ensures
        r.wf(),
        r@.dom() == raw@.dom(),
        forall|t: Uuid| #[trigger]
            list_of(r@, t) == sorted(list_of(raw@, t), located_keys(list_of(raw@, t))),
{
    let ids = raw.ids();
    let mut out: IdTable<Vec<(Uuid, u64, u64)>> = IdTable::new();
    let mut i: usize = 0;
    while i < ids.len()
        invariant
            i <= ids@.len(),
            ids@ == raw.order(),
            raw.wf(),
            out.wf(),
            forall|t: Uuid| #[trigger] out@.contains_key(t) <==> ids@.take(i as int).contains(t),
            forall|t: Uuid| #[trigger]
                out@.contains_key(t) ==> out@[t]@ == sorted(
                    list_of(raw@, t),
                    located_keys(list_of(raw@, t)),
                ),
        decreases ids@.len() - i,
    {
        let id = ids[i];
        let ghost o0 = out@;
        if let Some(list) = raw.get(id) {
            out.insert(id, sort_located(list));
        }
        proof {
            assert(raw.order().contains(ids@[i as int]));
            assert(raw@.contains_key(id));
            lemma_take_contains(ids@, i as int);
            assert forall|t: Uuid| #[trigger] out@.contains_key(t) <==> ids@.take(i + 1).contains(
                t,
            ) by {
                assert(o0.contains_key(t) <==> ids@.take(i as int).contains(t));
            }
        }
        i = i + 1;
    }
    proof {
        assert(ids@.take(ids@.len() as int) =~= ids@);
        assert forall|t: Uuid| #[trigger] out@.contains_key(t) <==> raw@.contains_key(t) by {}
        assert(out@.dom() =~= raw@.dom());
        assert forall|t: Uuid| #[trigger] list_of(out@, t) == sorted(
            list_of(raw@, t),
            located_keys(list_of(raw@, t)),
        ) by {
            if !out@.contains_key(t) {
                assert(!raw@.contains_key(t));
                lemma_sorted_empty(list_of(raw@, t), located_keys(list_of(raw@, t)));
            }
        }
    }
    out
}

/// The nodes of a file, passed over, or what is wrong with it.
pub open spec fn file_recs_of(data: Seq<u8>) -> Result<Seq<SpecRec>, Seq<char>> {
    match head_fault(data) {
        Some(e) => Err(e),
        None => recs_from(data.skip(9 + head_len(data)), 0),
    }
}

/// Builds the index of a file, of which these are the bytes.
pub fn build(data: &[u8]) -> (r: Result<NodeIndex, String>)
    ensures
        match file_recs_of(data@) {
            Err(e) => r is Err && r->Err_0@ == e,
            Ok(recs) => {
                &&& r is Ok
                &&& indexes(r->Ok_0, recs)
                &&& r->Ok_0.node_data_start == 9 + head_len(data@)
                &&& r->Ok_0.source_size == data@.len()
                &&& r->Ok_0.source_mtime_sec == 0
                &&& r->Ok_0.source_mtime_nsec == 0
            },
        },
{
    let bytes = match parse_file(data) {
        Ok(b) => b,
        Err(e) => return Err(e),
    };
    let recs = match scan_all(bytes) {
        Ok(v) => v,
        Err(e) => return Err(e),
    };
    let ghost m = rec_models(recs@);
    let (ups, lists) = link(&recs);
    let is_root = find_roots(&recs, &ups, &lists);
    proof {
        assert forall|i: int| 0 <= i < recs@.len() implies match #[trigger] ups@[i] {
            Some(p) => up(m, i) == Some(p as int) && p < recs@.len(),
            None => up(m, i) is None,
        } by {
            assert(opt_int(ups@[i]) == up(m, i));
            if m[i].parent is Some {
                lemma_find_rec(m, m[i].parent->Some_0);
            }
        }
    }
    let assign = assign_roots(&recs, &ups, &is_root);
    let ends = find_ends(&recs, &lists);
    let roots = span_roots(&recs, &is_root, &ends);
    let raw_sources = list_sources(&recs);
    let reverse = sort_sources(&raw_sources);
    let raw_offspring = list_offspring(&recs);
    let children = sort_offspring(&raw_offspring);
    let idx = NodeIndex {
        node_data_start: (data.len() - bytes.len()) as u64,
        source_size: data.len() as u64,
        source_mtime_sec: 0,
        source_mtime_nsec: 0,
        roots,
        assign,
        reverse,
        children,
    };
    proof {
        assert forall|t: Uuid| #[trigger] idx.reverse@.contains_key(t) <==> sources(m, t).len()
            > 0 by {
            assert(idx.reverse@.dom().contains(t) == raw_sources@.dom().contains(t));
        }
        assert forall|t: Uuid| #[trigger] idx.children@.contains_key(t) <==> offspring(m, t).len()
            > 0 by {
            assert(idx.children@.dom().contains(t) == raw_offspring@.dom().contains(t));
        }
        assert forall|t: Uuid| #[trigger] list_of(idx.reverse@, t) == sorted(
            sources(m, t),
            id_keys(sources(m, t)),
        ) by {
            assert(list_of(raw_sources@, t) == sources(m, t));
        }
        assert forall|t: Uuid| #[trigger] list_of(idx.children@, t) == sorted(
            offspring(m, t),
            located_keys(offspring(m, t)),
        ) by {
            assert(list_of(raw_offspring@, t) == offspring(m, t));
        }
        assert(indexes(idx, m));
    }
    Ok(idx)
}

// ---------------------------------------------------------------------------
// The file of an index
// ---------------------------------------------------------------------------

/// The entry of a root.
pub open spec fn root_entry(id: Uuid, at: (u64, u64)) -> Seq<u8> {
    id.0@ + be(at.0 as nat, 8) + be(at.1 as nat, 8)
}

/// The entry of a node.
pub open spec fn node_entry(id: Uuid, root: Uuid, at: (u64, u64)) -> Seq<u8> {
    id.0@ + root.0@ + be(at.0 as nat, 8) + be(at.1 as nat, 8)
}

/// The entry of a reference.
pub open spec fn edge_entry(target: Uuid, source: Uuid) -> Seq<u8> {
    target.0@ + source.0@
}

/// The entry of a child.
pub open spec fn child_entry(parent: Uuid, c: (Uuid, u64, u64)) -> Seq<u8> {
    parent.0@ + c.0.0@ + be(c.1 as nat, 8) + be(c.2 as nat, 8)
}

/// The entries of the roots.
pub open spec fn root_entries(idx: NodeIndex) -> Seq<Seq<u8>> {
    Seq::new(
        idx.roots.order().len(),
        |k: int| root_entry(idx.roots.order()[k], idx.roots@[idx.roots.order()[k]]),
    )
}

/// The children of the first `k` parents.
pub open spec fn children_upto(idx: NodeIndex, k: nat) -> Seq<(Uuid, (Uuid, u64, u64))>
    decreases k,
{
    if k == 0 {
        Seq::<(Uuid, (Uuid, u64, u64))>::empty()
    } else {
        children_upto(idx, (k - 1) as nat) + under(
            idx.children.order()[k - 1],
            idx.children@[idx.children.order()[k - 1]]@,
        )
    }
}

/// Children with their parent.
pub open spec fn under(p: Uuid, cs: Seq<(Uuid, u64, u64)>) -> Seq<(Uuid, (Uuid, u64, u64))> {
    Seq::new(cs.len(), |j: int| (p, cs[j]))
}

/// All children with their parents.
pub open spec fn all_children(idx: NodeIndex) -> Seq<(Uuid, (Uuid, u64, u64))> {
    children_upto(idx, idx.children.order().len())
}

/// Where a node stands: as a child, if it is one, or else as a root.
pub open spec fn place(idx: NodeIndex, cs: Seq<(Uuid, (Uuid, u64, u64))>, id: Uuid) -> (u64, u64)
    decreases cs.len(),
{
    if cs.len() == 0 {
        if idx.roots@.contains_key(id) {
            idx.roots@[id]
        } else {
            (0, 0)
        }
    } else if cs.last().1.0 == id {
        (cs.last().1.1, cs.last().1.2)
    } else {
        place(idx, cs.drop_last(), id)
    }
}

/// The entries of the nodes.
pub open spec fn node_entries(idx: NodeIndex) -> Seq<Seq<u8>> {
    Seq::new(
        idx.assign.order().len(),
        |k: int|
            node_entry(
                idx.assign.order()[k],
                idx.assign@[idx.assign.order()[k]],
                place(idx, all_children(idx), idx.assign.order()[k]),
            ),
    )
}

/// The references to the first `k` targets.
pub open spec fn edges_upto(idx: NodeIndex, k: nat) -> Seq<Seq<u8>>
    decreases k,
{
    if k == 0 {
        Seq::<Seq<u8>>::empty()
    } else {
        edges_upto(idx, (k - 1) as nat) + edges_to(
            idx.reverse.order()[k - 1],
            idx.reverse@[idx.reverse.order()[k - 1]]@,
        )
    }
}

/// The entries of the references to one target.
pub open spec fn edges_to(t: Uuid, srcs: Seq<Uuid>) -> Seq<Seq<u8>> {
    Seq::new(srcs.len(), |j: int| edge_entry(t, srcs[j]))
}

/// The entries of the references.
pub open spec fn edge_entries(idx: NodeIndex) -> Seq<Seq<u8>> {
    edges_upto(idx, idx.reverse.order().len())
}

/// The entries of the children.
pub open spec fn child_entries(idx: NodeIndex) -> Seq<Seq<u8>> {
    Seq::new(
        all_children(idx).len(),
        |k: int| child_entry(all_children(idx)[k].0, all_children(idx)[k].1),
    )
}

/// The keys of entries by their first id.
pub open spec fn lead_keys(es: Seq<Seq<u8>>) -> Seq<Seq<u8>> {
    Seq::new(es.len(), |k: int| es[k].take(16))
}

/// The keys of children: by the parent, then by where they stand.
pub open spec fn child_keys(cs: Seq<(Uuid, (Uuid, u64, u64))>) -> Seq<Seq<u8>> {
    Seq::new(cs.len(), |k: int| cs[k].0.0@ + be(cs[k].1.1 as nat, 8))
}

/// The blocks of the file, each sorted.
pub open spec fn root_block(idx: NodeIndex) -> Seq<Seq<u8>> {
    sorted(root_entries(idx), lead_keys(root_entries(idx)))
}

pub open spec fn node_block(idx: NodeIndex) -> Seq<Seq<u8>> {
    sorted(node_entries(idx), lead_keys(node_entries(idx)))
}

pub open spec fn edge_block(idx: NodeIndex) -> Seq<Seq<u8>> {
    sorted(edge_entries(idx), edge_entries(idx))
}

pub open spec fn child_block(idx: NodeIndex) -> Seq<Seq<u8>> {
    sorted(child_entries(idx), child_keys(all_children(idx)))
}

/// What stands in front of the blocks.
pub open spec fn front(idx: NodeIndex) -> Seq<u8> {
    magic() + seq![VERSION] + be(encode_utf8(HEADER@).len(), 4) + encode_utf8(HEADER@) + be(
        idx.source_size as nat,
        8,
    ) + be(i64_bits(idx.source_mtime_sec), 8) + be(idx.source_mtime_nsec as nat, 4) + be(
        idx.node_data_start as nat,
        8,
    ) + be(root_entries(idx).len(), 8) + be(node_entries(idx).len(), 8) + be(
        edge_entries(idx).len(),
        8,
    ) + be(child_entries(idx).len(), 8)
}

/// The bytes of the file of an index.
pub open spec fn index_bytes(idx: NodeIndex) -> Seq<u8> {
    front(idx) + flat(root_block(idx)) + flat(node_block(idx)) + flat(edge_block(idx)) + flat(
        child_block(idx),
    )
}

/// The key of an entry by its first id.
fn lead_key(e: &Vec<u8>) -> (r: Vec<u8>)
    requires
        e@.len() >= 16,
    ensures
        r@ == e@.take(16),
{
    let r = sub_bytes(e.as_slice(), 0, 16);
    assert(r@ =~= e@.take(16));
    r
}

/// The keys of entries by their first id.
fn make_lead_keys(es: &Vec<Vec<u8>>) -> (r: Vec<Vec<u8>>)
    requires
        forall|k: int| 0 <= k < es@.len() ==> (#[trigger] es@[k])@.len() >= 16,
    ensures
        r@.len() == es@.len(),
        key_views(r@) == lead_keys(key_views(es@)),
{
    let mut out: Vec<Vec<u8>> = Vec::new();
    let mut i: usize = 0;
    while i < es.len()
        invariant
            i <= es@.len(),
            forall|k: int| 0 <= k < es@.len() ==> (#[trigger] es@[k])@.len() >= 16,
            out@.len() == i,
            forall|k: int| 0 <= k < i ==> (#[trigger] out@[k])@ == es@[k]@.take(16),
        decreases es@.len() - i,
    {
        out.push(lead_key(&es[i]));
        i = i + 1;
    }
    assert(key_views(out@) =~= lead_keys(key_views(es@)));
    out
}

/// Lists the entries of the roots.
fn list_roots(idx: &NodeIndex) -> (r: Vec<Vec<u8>>)
    requires
        idx.wf(),
    ensures
        key_views(r@) == root_entries(*idx),
        forall|k: int| 0 <= k < r@.len() ==> (#[trigger] r@[k])@.len() >= 16,
{
    let ids = idx.roots.ids();
    let mut out: Vec<Vec<u8>> = Vec::new();
    let mut i: usize = 0;
    while i < ids.len()
        invariant
            i <= ids@.len(),
            ids@ == idx.roots.order(),
            idx.wf(),
            out@.len() == i,
            forall|k: int| 0 <= k < i ==> (#[trigger] out@[k])@ == root_entries(*idx)[k],
            forall|k: int| 0 <= k < i ==> (#[trigger] out@[k])@.len() >= 16,
        decreases ids@.len() - i,
    {
        let id = ids[i];
        assert(idx.roots.order().contains(ids@[i as int]));
        assert(idx.roots@.contains_key(id));
        let mut e: Vec<u8> = Vec::new();
        put_slice(&mut e, id.0.as_slice());
        if let Some(at) = idx.roots.get(id) {
            put_be(&mut e, at.0, 8);
            put_be(&mut e, at.1, 8);
        }
        assert(e@ =~= root_entries(*idx)[i as int]);
        out.push(e);
        i = i + 1;
    }
    assert(key_views(out@) =~= root_entries(*idx));
    out
}

/// Lists all children with their parents.
pub fn list_children(idx: &NodeIndex) -> (r: Vec<(Uuid, (Uuid, u64, u64))>)
    requires
        idx.wf(),
    ensures
        r@ == all_children(*idx),
{
    let ids = idx.children.ids();
    let mut out: Vec<(Uuid, (Uuid, u64, u64))> = Vec::new();
    let mut i: usize = 0;
    while i < ids.len()
        invariant
            i <= ids@.len(),
            ids@ == idx.children.order(),
            idx.wf(),
            out@ == children_upto(*idx, i as nat),
        decreases ids@.len() - i,
    {
        let id = ids[i];
        assert(idx.children.order().contains(ids@[i as int]));
        assert(idx.children@.contains_key(id));
        let ghost before = out@;
        if let Some(list) = idx.children.get(id) {
            let mut j: usize = 0;
            assert(before + under(id, list@).take(0) =~= before);
            while j < list.len()
                invariant
                    j <= list@.len(),
                    out@ == before + under(id, list@).take(j as int),
                decreases list@.len() - j,
            {
                out.push((id, list[j]));
                assert(under(id, list@).take(j + 1) =~= under(id, list@).take(j as int).push(
                    (id, list@[j as int]),
                ));
                j = j + 1;
            }
            assert(under(id, list@).take(list@.len() as int) =~= under(id, list@));
        }
        i = i + 1;
    }
    out
}

/// Where the nodes stand, by id: the last child of each id.
pub fn locate_children(cs: &Vec<(Uuid, (Uuid, u64, u64))>) -> (r: IdMap<(u64, u64)>)
    ensures
        forall|idx: NodeIndex, id: Uuid| #[trigger]
            place(idx, cs@, id) == (if r@.contains_key(id) {
                r@[id]
            } else if idx.roots@.contains_key(id) {
                idx.roots@[id]
            } else {
                (0u64, 0u64)
            }),
{
    let mut out: IdMap<(u64, u64)> = IdMap::new();
    let mut i: usize = 0;
    assert(cs@.take(0) =~= Seq::<(Uuid, (Uuid, u64, u64))>::empty());
    while i < cs.len()
        invariant
            i <= cs@.len(),
            forall|idx: NodeIndex, id: Uuid| #[trigger]
                place(idx, cs@.take(i as int), id) == (if out@.contains_key(id) {
                    out@[id]
                } else if idx.roots@.contains_key(id) {
                    idx.roots@[id]
                } else {
                    (0u64, 0u64)
                }),
        decreases cs@.len() - i,
    {
        let c = cs[i];
        let ghost o0 = out@;
        out.insert(c.1.0, (c.1.1, c.1.2));
        proof {
            assert(cs@.take(i + 1).drop_last() =~= cs@.take(i as int));
            assert forall|idx: NodeIndex, id: Uuid| #[trigger] place(idx, cs@.take(i + 1), id) == (
            if out@.contains_key(id) {
                out@[id]
            } else if idx.roots@.contains_key(id) {
                idx.roots@[id]
            } else {
                (0u64, 0u64)
            }) by {
                assert(place(idx, cs@.take(i as int), id) == (if o0.contains_key(id) {
                    o0[id]
                } else if idx.roots@.contains_key(id) {
                    idx.roots@[id]
                } else {
                    (0u64, 0u64)
                }));
            }
        }
        i = i + 1;
    }
    assert(cs@.take(cs@.len() as int) =~= cs@);
    out
}

/// Lists the entries of the nodes.
fn list_nodes(idx: &NodeIndex, cs: &Vec<(Uuid, (Uuid, u64, u64))>) -> (r: Vec<Vec<u8>>)
    requires
        idx.wf(),
        cs@ == all_children(*idx),
    ensures
        key_views(r@) == node_entries(*idx),
        forall|k: int| 0 <= k < r@.len() ==> (#[trigger] r@[k])@.len() >= 16,
{
    let places = locate_children(cs);
    let ids = idx.assign.ids();
    let mut out: Vec<Vec<u8>> = Vec::new();
    let mut i: usize = 0;
    while i < ids.len()
        invariant
            i <= ids@.len(),
            ids@ == idx.assign.order(),
            idx.wf(),
            cs@ == all_children(*idx),
            forall|idx: NodeIndex, id: Uuid| #[trigger]
                place(idx, cs@, id) == (if places@.contains_key(id) {
                    places@[id]
                } else if idx.roots@.contains_key(id) {
                    idx.roots@[id]
                } else {
                    (0u64, 0u64)
                }),
            out@.len() == i,
            forall|k: int| 0 <= k < i ==> (#[trigger] out@[k])@ == node_entries(*idx)[k],
            forall|k: int| 0 <= k < i ==> (#[trigger] out@[k])@.len() >= 16,
        decreases ids@.len() - i,
    {
        let id = ids[i];
        assert(idx.assign.order().contains(ids@[i as int]));
        assert(idx.assign@.contains_key(id));
        assert(place(*idx, cs@, id) == place(*idx, all_children(*idx), id));
        let at: (u64, u64) = match places.get(id) {
            Some(at) => *at,
            None => match idx.roots.get(id) {
                Some(at) => *at,
                None => (0, 0),
            },
        };
        let mut e: Vec<u8> = Vec::new();
        put_slice(&mut e, id.0.as_slice());
        if let Some(root) = idx.assign.get(id) {
            put_slice(&mut e, root.0.as_slice());
        }
        put_be(&mut e, at.0, 8);
        put_be(&mut e, at.1, 8);
        assert(e@ =~= node_entries(*idx)[i as int]);
        out.push(e);
        i = i + 1;
    }
    assert(key_views(out@) =~= node_entries(*idx));
    out
}

/// Lists the entries of the references.
fn list_edges(idx: &NodeIndex) -> (r: Vec<Vec<u8>>)
    requires
        idx.wf(),
    ensures
        key_views(r@) == edge_entries(*idx),
{
    let ids = idx.reverse.ids();
    let mut out: Vec<Vec<u8>> = Vec::new();
    let mut i: usize = 0;
    assert(key_views(out@) =~= edges_upto(*idx, 0));
    while i < ids.len()
        invariant
            i <= ids@.len(),
            ids@ == idx.reverse.order(),
            idx.wf(),
            key_views(out@) == edges_upto(*idx, i as nat),
        decreases ids@.len() - i,
    {
        let id = ids[i];
        assert(idx.reverse.order().contains(ids@[i as int]));
        assert(idx.reverse@.contains_key(id));
        let ghost before = key_views(out@);
        if let Some(list) = idx.reverse.get(id) {
            let mut j: usize = 0;
            assert(before + edges_to(id, list@).take(0) =~= before);
            while j < list.len()
                invariant
                    j <= list@.len(),
                    key_views(out@) == before + edges_to(id, list@).take(j as int),
                decreases list@.len() - j,
            {
                let ghost o0 = out@;
                let mut e: Vec<u8> = Vec::new();
                put_slice(&mut e, id.0.as_slice());
                put_slice(&mut e, list[j].0.as_slice());
                let ghost ev = e@;
                out.push(e);
                proof {
                    assert(ev =~= edge_entry(id, list@[j as int]));
                    assert(key_views(out@) =~= key_views(o0).push(ev));
                    assert(edges_to(id, list@).take(j + 1) =~= edges_to(id, list@).take(
                        j as int,
                    ).push(ev));
                }
                j = j + 1;
            }
            assert(edges_to(id, list@).take(list@.len() as int) =~= edges_to(id, list@));
        }
        i = i + 1;
    }
    out
}

/// Lists the entries of the children, and their keys.
fn list_child_entries(cs: &Vec<(Uuid, (Uuid, u64, u64))>) -> (r: (Vec<Vec<u8>>, Vec<Vec<u8>>))
    ensures
        r.0@.len() == cs@.len(),
        r.1@.len() == cs@.len(),
        key_views(r.0@) == Seq::new(cs@.len(), |k: int| child_entry(cs@[k].0, cs@[k].1)),
        key_views(r.1@) == child_keys(cs@),
{
    let mut es: Vec<Vec<u8>> = Vec::new();
    let mut ks: Vec<Vec<u8>> = Vec::new();
    let mut i: usize = 0;
    while i < cs.len()
        invariant
            i <= cs@.len(),
            es@.len() == i,
            ks@.len() == i,
            forall|k: int| 0 <= k < i ==> (#[trigger] es@[k])@ == child_entry(cs@[k].0, cs@[k].1),
            forall|k: int| 0 <= k < i ==> (#[trigger] ks@[k])@ == child_keys(cs@)[k],
        decreases cs@.len() - i,
    {
        let c = cs[i];
        let mut e: Vec<u8> = Vec::new();
        put_slice(&mut e, c.0.0.as_slice());
        put_slice(&mut e, c.1.0.0.as_slice());
        put_be(&mut e, c.1.1, 8);
        put_be(&mut e, c.1.2, 8);
        assert(e@ =~= child_entry(cs@[i as int].0, cs@[i as int].1));
        let mut k: Vec<u8> = Vec::new();
        put_slice(&mut k, c.0.0.as_slice());
        put_be(&mut k, c.1.1, 8);
        assert(k@ =~= child_keys(cs@)[i as int]);
        es.push(e);
        ks.push(k);
        i = i + 1;
    }
    assert(key_views(es@) =~= Seq::new(cs@.len(), |k: int| child_entry(cs@[k].0, cs@[k].1)));
    assert(key_views(ks@) =~= child_keys(cs@));
    (es, ks)
}

/// The bytes of the file of an index.
pub fn write(idx: &NodeIndex) -> (r: Vec<u8>)
    requires
        idx.wf(),
    ensures
        r@ == index_bytes(*idx),
{
    let roots = list_roots(idx);
    let cs = list_children(idx);
    let nodes = list_nodes(idx, &cs);
    let edges = list_edges(idx);
    let (kids, kid_keys) = list_child_entries(&cs);
    let root_keys = make_lead_keys(&roots);
    let node_keys = make_lead_keys(&nodes);
    proof {
        assert(key_views(kids@) =~= child_entries(*idx));
        assert(key_views(roots@).len() == roots@.len());
        assert(key_views(nodes@).len() == nodes@.len());
        assert(key_views(edges@).len() == edges@.len());
        assert(key_views(kids@).len() == kids@.len());
    }
    let header = HEADER.as_bytes();
    let mut out: Vec<u8> = Vec::new();
    out.push(0x58);
    out.push(0x52);
    out.push(0x49);
    out.push(0x44);
    out.push(0x58);
    out.push(VERSION);
    put_be(&mut out, header.len() as u64, 4);
    put_slice(&mut out, header);
    put_be(&mut out, idx.source_size, 8);
    put_be(&mut out, i64_to_bits(idx.source_mtime_sec), 8);
    put_be(&mut out, idx.source_mtime_nsec as u64, 4);
    put_be(&mut out, idx.node_data_start, 8);
    put_be(&mut out, roots.len() as u64, 8);
    put_be(&mut out, nodes.len() as u64, 8);
    put_be(&mut out, edges.len() as u64, 8);
    put_be(&mut out, kids.len() as u64, 8);
    assert(out@ =~= front(*idx));
    crate::search::put_sorted(&mut out, &roots, &root_keys);
    crate::search::put_sorted(&mut out, &nodes, &node_keys);
    crate::search::put_sorted(&mut out, &edges, &edges);
    crate::search::put_sorted(&mut out, &kids, &kid_keys);
    out
}

// ---------------------------------------------------------------------------
// Reading the file of an index
// ---------------------------------------------------------------------------

/// The message where a file ends too early.
pub const ENDS_EARLY: &'static str = "failed to fill whole buffer";

/// A position, or the greatest one where it is beyond it.
pub open spec fn capped(n: int) -> u64 {
    if n > u64::MAX {
        u64::MAX
    } else {
        n as u64
    }
}

/// The position behind a table.
fn behind(off: u64, size: u64, count: u64) -> (r: u64)
    requires
        size <= 0x1_0000,
    ensures
        r == capped(off + count * size),
{
    proof {
        let a = count as int;
        let b = size as int;
        assert(0 <= a * b <= 0xffff_ffff_ffff_ffff * 0x1_0000) by (nonlinear_arith)
            requires
                0 <= a <= 0xffff_ffff_ffff_ffff,
                0 <= b <= 0x1_0000,
        ;
    }
    let n: u128 = off as u128 + count as u128 * size as u128;
    if n > u64::MAX as u128 {
        u64::MAX
    } else {
        n as u64
    }
}

/// Why the bytes are not the file of an index, if so.
pub open spec fn sidecar_fault(data: Seq<u8>) -> Option<Seq<char>> {
    if data.len() < 5 {
        Some(ENDS_EARLY@)
    } else if data.take(5) != magic() {
        Some("F005：索引魔数非法"@)
    } else if data.len() < 6 {
        Some(ENDS_EARLY@)
    } else if data[5] != VERSION {
        Some("F006：索引版本不支持"@)
    } else if data.len() < 10 || sidecar_start(data) + 60 > data.len() {
        Some(ENDS_EARLY@)
    } else {
        None
    }
}

/// Where the fields of the file of an index start.
pub open spec fn sidecar_start(data: Seq<u8>) -> int {
    10 + be_value(data.subrange(6, 10)) as int
}

/// The number in `k` bytes, `o` bytes into the fields.
pub open spec fn field(data: Seq<u8>, o: int, k: int) -> nat {
    be_value(data.subrange(sidecar_start(data) + o, sidecar_start(data) + o + k))
}

/// A table whose entries start with an id.
pub open spec fn id_table(off: u64, size: u64, count: u64) -> Table {
    Table { off, size, width: 16, count }
}

/// The file of an index, for lookups in its sorted blocks.
#[derive(Debug)]
pub struct Sidecar {
    pub data: Vec<u8>,
    pub node_data_start: u64,
    pub source_size: u64,
    pub source_mtime_sec: i64,
    pub source_mtime_nsec: u32,
    pub root_count: u64,
    pub node_count: u64,
    pub edge_count: u64,
    pub child_count: u64,
    pub roots: Table,
    pub assign: Table,
    pub reverse: Table,
    pub children: Table,
}

impl Sidecar {
    /// The fields are those of the file.
    pub open spec fn wf(&self) -> bool {
        let d = self.data@;
        &&& sidecar_fault(d) is None
        &&& self.source_size == field(d, 0, 8)
        &&& self.source_mtime_sec == i64_of_bits(field(d, 8, 8))
        &&& self.source_mtime_nsec == field(d, 16, 4)
        &&& self.node_data_start == field(d, 20, 8)
        &&& self.root_count == field(d, 28, 8)
        &&& self.node_count == field(d, 36, 8)
        &&& self.edge_count == field(d, 44, 8)
        &&& self.child_count == field(d, 52, 8)
        &&& self.roots == id_table((sidecar_start(d) + 60) as u64, 32, self.root_count)
        &&& self.assign == id_table(capped(self.roots.at(self.root_count as int)), 48, self.node_count)
        &&& self.reverse == id_table(
            capped(self.assign.at(self.node_count as int)),
            32,
            self.edge_count,
        )
        &&& self.children == id_table(
            capped(self.reverse.at(self.edge_count as int)),
            48,
            self.child_count,
        )
    }

    /// Opens the file of which these are the bytes.
    pub fn open(data: Vec<u8>) -> (r: Result<Sidecar, String>)
        ensures
            match sidecar_fault(data@) {
                Some(e) => r is Err && r->Err_0@ == e,
                None => r is Ok && r->Ok_0.wf() && r->Ok_0.data@ == data@,
            },
    {
        let d = data.as_slice();
        let len: usize = d.len();
        if len < 5 {
            return Err(owned(ENDS_EARLY));
        }
        if !(d[0] == 0x58 && d[1] == 0x52 && d[2] == 0x49 && d[3] == 0x44 && d[4] == 0x58) {
            proof {
                assert(forall|i: int| 0 <= i < 5 ==> data@.take(5)[i] == data@[i]);
                assert(magic()[0] == 0x58 && magic()[1] == 0x52 && magic()[2] == 0x49 && magic()[3]
                    == 0x44 && magic()[4] == 0x58);
            }
            return Err(owned("F005：索引魔数非法"));
        }
        assert(data@.take(5) =~= magic());
        if len < 6 {
            return Err(owned(ENDS_EARLY));
        }
        if d[5] != VERSION {
            return Err(owned("F006：索引版本不支持"));
        }
        if len < 10 {
            return Err(owned(ENDS_EARLY));
        }
        let hlen: u64 = get_be(d, 6, 4);
        if len < 70 || hlen > (len - 70) as u64 {
            return Err(owned(ENDS_EARLY));
        }
        let p: usize = 10 + hlen as usize;
        proof {
            crate::bytes::lemma_pow256_values();
            crate::bytes::lemma_be_value_bound(data@.subrange(p + 16, p + 20));
        }
        let source_size: u64 = get_be(d, p, 8);
        let source_mtime_sec: i64 = i64_from_bits(get_be(d, p + 8, 8));
        let source_mtime_nsec: u32 = get_be(d, p + 16, 4) as u32;
        let node_data_start: u64 = get_be(d, p + 20, 8);
        let root_count: u64 = get_be(d, p + 28, 8);
        let node_count: u64 = get_be(d, p + 36, 8);
        let edge_count: u64 = get_be(d, p + 44, 8);
        let child_count: u64 = get_be(d, p + 52, 8);
        let roots = Table { off: (p + 60) as u64, size: 32, width: 16, count: root_count };
        let assign = Table {
            off: behind(roots.off, 32, root_count),
            size: 48,
            width: 16,
            count: node_count,
        };
        let reverse = Table {
            off: behind(assign.off, 48, node_count),
            size: 32,
            width: 16,
            count: edge_count,
        };
        let children = Table {
            off: behind(reverse.off, 32, edge_count),
            size: 48,
            width: 16,
            count: child_count,
        };
        Ok(
            Sidecar {
                data,
                node_data_start,
                source_size,
                source_mtime_sec,
                source_mtime_nsec,
                root_count,
                node_count,
                edge_count,
                child_count,
                roots,
                assign,
                reverse,
                children,
            },
        )
    }

    /// Whether the index was made of the file as it is now.
    pub fn is_fresh(&self, size: u64, mtime_sec: i64, mtime_nsec: u32) -> (r: bool)
        ensures
            r == (self.source_size == size && self.source_mtime_sec == mtime_sec
                && self.source_mtime_nsec == mtime_nsec),
    {
        self.source_size == size && self.source_mtime_sec == mtime_sec && self.source_mtime_nsec
            == mtime_nsec
    }

    /// Where the tree of the root stands: start and length.
    pub fn find_root(&self, id: Uuid) -> (r: Result<Option<(u64, u64)>, String>)
        requires
            self.wf(),
        ensures
            match pair_found(self.data@, self.roots, id, 16) {
                Some(v) => r is Ok && r->Ok_0 == v,
                None => r is Err && r->Err_0@ == ENDS_EARLY@,
            },
    {
        find_pair(self.data.as_slice(), &self.roots, id, 16)
    }

    /// The root of the tree of the node.
    pub fn find_assign(&self, id: Uuid) -> (r: Result<Option<Uuid>, String>)
        requires
            self.wf(),
        ensures
            match root_found(self.data@, self.assign, id) {
                Some(v) => r is Ok && r->Ok_0 == v,
                None => r is Err && r->Err_0@ == ENDS_EARLY@,
            },
    {
        let d = self.data.as_slice();
        let len: usize = d.len();
        match probe(d, &self.assign, id) {
            None => Err(owned(ENDS_EARLY)),
            Some(None) => Ok(None),
            Some(Some(i)) => match entry_position(d, &self.assign, i) {
                None => Err(owned(ENDS_EARLY)),
                Some(p) => if len - p < 32 {
                    Err(owned(ENDS_EARLY))
                } else {
                    Ok(Some(read_uuid(d, p + 16)))
                },
            },
        }
    }

    /// Where the node stands: start and length.
    pub fn find_node_loc(&self, id: Uuid) -> (r: Result<Option<(u64, u64)>, String>)
        requires
            self.wf(),
        ensures
            match pair_found(self.data@, self.assign, id, 32) {
                Some(v) => r is Ok && r->Ok_0 == v,
                None => r is Err && r->Err_0@ == ENDS_EARLY@,
            },
    {
        find_pair(self.data.as_slice(), &self.assign, id, 32)
    }

    /// The ids of the nodes that refer to the id.
    pub fn find_reverse(&self, id: Uuid) -> (r: Result<Vec<Uuid>, String>)
        requires
            self.wf(),
        ensures
            match crate::search::run_of(self.data@, self.reverse, id) {
                Some(ps) => r is Ok && r->Ok_0@ == sources_at(self.data@, ps),
                None => r is Err && r->Err_0@ == ENDS_EARLY@,
            },
    {
        let d = self.data.as_slice();
        let ps = match crate::search::run(d, &self.reverse, id) {
            Some(ps) => ps,
            None => return Err(owned(ENDS_EARLY)),
        };
        let len: usize = d.len();
        let mut out: Vec<Uuid> = Vec::new();
        let mut i: usize = 0;
        while i < ps.len()
            invariant
                i <= ps@.len(),
                d@ == self.data@,
                len == d@.len(),
                forall|k: int| 0 <= k < ps@.len() ==> #[trigger] ps@[k] + 32 <= len,
                out@.len() == i,
                forall|k: int|
                    0 <= k < i ==> #[trigger] out@[k] == sources_at(
                        d@,
                        crate::model::ints(ps@),
                    )[k],
            decreases ps@.len() - i,
        {
            out.push(read_uuid(d, ps[i] + 16));
            i = i + 1;
        }
        assert(out@ =~= sources_at(d@, crate::model::ints(ps@)));
        Ok(out)
    }

    /// The children of the id with where they stand, in the order in which they
    /// stand.
    pub fn find_children(&self, id: Uuid) -> (r: Result<Vec<(Uuid, u64, u64)>, String>)
        requires
            self.wf(),
        ensures
            match crate::search::run_of(self.data@, self.children, id) {
                Some(ps) => r is Ok && r->Ok_0@ == children_at(self.data@, ps),
                None => r is Err && r->Err_0@ == ENDS_EARLY@,
            },
    {
        let d = self.data.as_slice();
        let ps = match crate::search::run(d, &self.children, id) {
            Some(ps) => ps,
            None => return Err(owned(ENDS_EARLY)),
        };
        let len: usize = d.len();
        let mut out: Vec<(Uuid, u64, u64)> = Vec::new();
        let mut i: usize = 0;
        while i < ps.len()
            invariant
                i <= ps@.len(),
                d@ == self.data@,
                len == d@.len(),
                forall|k: int| 0 <= k < ps@.len() ==> #[trigger] ps@[k] + 48 <= len,
                out@.len() == i,
                forall|k: int|
                    0 <= k < i ==> #[trigger] out@[k] == children_at(
                        d@,
                        crate::model::ints(ps@),
                    )[k],
            decreases ps@.len() - i,
        {
            let p: usize = ps[i];
            out.push((read_uuid(d, p + 16), get_be(d, p + 32, 8), get_be(d, p + 40, 8)));
            i = i + 1;
        }
        assert(out@ =~= children_at(d@, crate::model::ints(ps@)));
        Ok(out)
    }
}

/// The two numbers that stand `o` bytes into the entry with the id; `None` where
/// the file ends too early.
pub open spec fn pair_found(data: Seq<u8>, t: Table, id: Uuid, o: int) -> Option<
    Option<(u64, u64)>,
> {
    match probed(data, t, id, 0, t.count as int) {
        None => None,
        Some(None) => Some(None),
        Some(Some(i)) => {
            let p = t.at(i) + o;
            if p + 16 > data.len() {
                None
            } else {
                Some(
                    Some(
                        (
                            be_value(data.subrange(p, p + 8)) as u64,
                            be_value(data.subrange(p + 8, p + 16)) as u64,
                        ),
                    ),
                )
            }
        },
    }
}

/// The second id in the entry with the id; `None` where the file ends too early.
pub open spec fn root_found(data: Seq<u8>, t: Table, id: Uuid) -> Option<Option<Uuid>> {
    match probed(data, t, id, 0, t.count as int) {
        None => None,
        Some(None) => Some(None),
        Some(Some(i)) => if t.at(i) + 32 > data.len() {
            None
        } else {
            Some(Some(uuid_at(data, t.at(i) + 16)))
        },
    }
}

/// The second ids in the entries at the positions.
pub open spec fn sources_at(data: Seq<u8>, ps: Seq<int>) -> Seq<Uuid> {
    Seq::new(ps.len(), |k: int| uuid_at(data, ps[k] + 16))
}

/// The second ids and the numbers in the entries at the positions.
pub open spec fn children_at(data: Seq<u8>, ps: Seq<int>) -> Seq<(Uuid, u64, u64)> {
    Seq::new(
        ps.len(),
        |k: int|
            (
                uuid_at(data, ps[k] + 16),
                be_value(data.subrange(ps[k] + 32, ps[k] + 40)) as u64,
                be_value(data.subrange(ps[k] + 40, ps[k] + 48)) as u64,
            ),
    )
}

/// The two numbers in the entry with the id.
fn find_pair(d: &[u8], t: &Table, id: Uuid, o: usize) -> (r: Result<Option<(u64, u64)>, String>)
    requires
        t.sized(),
        o <= 48,
    ensures
        match pair_found(d@, *t, id, o as int) {
            Some(v) => r is Ok && r->Ok_0 == v,
            None => r is Err && r->Err_0@ == ENDS_EARLY@,
        },
{
    let len: usize = d.len();
    match probe(d, t, id) {
        None => Err(owned(ENDS_EARLY)),
        Some(None) => Ok(None),
        Some(Some(i)) => match entry_position(d, t, i) {
            None => Err(owned(ENDS_EARLY)),
            Some(p) => if len - p < o + 16 {
                Err(owned(ENDS_EARLY))
            } else {
                Ok(Some((get_be(d, p + o, 8), get_be(d, p + o + 8, 8))))
            },
        },
    }
}

/// The node that stands at `rel` among the nodes of a file, read from the bytes of
/// the file.
pub fn read_node_at(data: &[u8], node_data_start: u64, rel: u64, len: u64) -> (r: Result<
    Node,
    String,
>)
    ensures
        match node_in(data@, node_data_start, rel, len) {
            Ok(n) => r is Ok && r->Ok_0@ == n,
            Err(e) => r is Err && r->Err_0@ == e,
        },
{
    let size: usize = data.len();
    let from: u128 = node_data_start as u128 + rel as u128;
    if from + len as u128 > size as u128 {
        return Err(owned(ENDS_EARLY));
    }
    let a: usize = from as usize;
    let b: usize = a + len as usize;
    let buf = sub_bytes(data, a, b);
    let mut off: usize = 0;
    match decode_node(buf.as_slice(), &mut off) {
        Ok(n) => Ok(n),
        Err(e) => Err(codec_error(e)),
    }
}

/// The node that stands at `rel` among the nodes of a file.
pub open spec fn node_in(data: Seq<u8>, start: u64, rel: u64, len: u64) -> Result<
    SpecNode,
    Seq<char>,
> {
    let a = start + rel;
    if a + len > data.len() {
        Err(ENDS_EARLY@)
    } else {
        match node_at(data.subrange(a, a + len), 0).0 {
            Ok(n) => Ok(n),
            Err(e) => Err(codec_message(e)),
        }
    }
}

// ---------------------------------------------------------------------------
// Laws of the file of an index
// ---------------------------------------------------------------------------

proof fn lemma_header_fits()
    ensures
        encode_utf8(HEADER@).len() < 0x1_0000_0000,
{
    reveal_strlit("XiRang sidecar node index (XRIDX) v2\nMaps each .xirang node to its containing tree root and byte offset (implementation-layer cache).\nLayout (big-endian, all blocks sorted by their first 16-byte UUID):\n  magic \"XRIDX\" (5 bytes) + version (1 byte) + header_len u32 + this header\n  + source_size u64 + source_mtime_sec i64 + source_mtime_nsec u32\n  + node_data_start u64 + root_count u64 + node_count u64 + edge_count u64 + child_count u64\n  + root_count x (root_uuid 16B, rel_offset u64, byte_len u64)  sorted by root_uuid\n  + node_count x (node_uuid 16B, root_uuid 16B, rel_offset u64, byte_len u64)  sorted by node_uuid\n  + edge_count x (target_uuid 16B, source_uuid 16B)             sorted by target_uuid then source_uuid\n  + child_count x (parent_uuid 16B, child_uuid 16B, rel_offset u64, byte_len u64)  sorted by parent then child\n");
    crate::header::lemma_utf8_len(HEADER@);
}

proof fn lemma_entry_sizes()
    ensures
        forall|id: Uuid, at: (u64, u64)| #[trigger] root_entry(id, at).len() == 32,
        forall|id: Uuid, root: Uuid, at: (u64, u64)| #[trigger]
            node_entry(id, root, at).len() == 48,
        forall|t: Uuid, s: Uuid| #[trigger] edge_entry(t, s).len() == 32,
        forall|p: Uuid, c: (Uuid, u64, u64)| #[trigger] child_entry(p, c).len() == 48,
{
    assert forall|id: Uuid, at: (u64, u64)| #[trigger] root_entry(id, at).len() == 32 by {
        crate::bytes::lemma_be_len(at.0 as nat, 8);
        crate::bytes::lemma_be_len(at.1 as nat, 8);
    }
    assert forall|id: Uuid, root: Uuid, at: (u64, u64)| #[trigger] node_entry(
        id,
        root,
        at,
    ).len() == 48 by {
        crate::bytes::lemma_be_len(at.0 as nat, 8);
        crate::bytes::lemma_be_len(at.1 as nat, 8);
    }
    assert forall|p: Uuid, c: (Uuid, u64, u64)| #[trigger] child_entry(p, c).len() == 48 by {
        crate::bytes::lemma_be_len(c.1 as nat, 8);
        crate::bytes::lemma_be_len(c.2 as nat, 8);
    }
}

/// Whether every entry has the size, and the leading ids do not descend.
spec fn sorted_block(b: Seq<Seq<u8>>, size: nat) -> bool {
    &&& forall|i: int| 0 <= i < b.len() ==> (#[trigger] b[i]).len() == size
    &&& forall|i: int, j: int|
        0 <= i < j < b.len() ==> bytes_le((#[trigger] b[i]).take(16), (#[trigger] b[j]).take(16))
}

proof fn lemma_lead_block(es: Seq<Seq<u8>>, size: nat)
    requires
        forall|i: int| 0 <= i < es.len() ==> (#[trigger] es[i]).len() == size,
    ensures
        sorted_block(sorted(es, lead_keys(es)), size),
        sorted(es, lead_keys(es)).len() == es.len(),
        forall|x: Seq<u8>| #[trigger] sorted(es, lead_keys(es)).contains(x) <==> es.contains(x),
{
    let b = sorted(es, lead_keys(es));
    let p = crate::sort::sorted_members(es, lead_keys(es));
    assert forall|i: int| 0 <= i < b.len() implies (#[trigger] b[i]).len() == size by {
        assert(b[i] == es[p[i]]);
    }
    assert forall|i: int, j: int| 0 <= i < j < b.len() implies bytes_le(
        (#[trigger] b[i]).take(16),
        (#[trigger] b[j]).take(16),
    ) by {
        assert(b[i] == es[p[i]] && b[j] == es[p[j]]);
        assert(bytes_le(lead_keys(es)[p[i]], lead_keys(es)[p[j]]));
    }
}

proof fn lemma_edges_upto(idx: NodeIndex, k: nat)
    requires
        k <= idx.reverse.order().len(),
    ensures
        forall|i: int| 0 <= i < edges_upto(idx, k).len() ==> (#[trigger] edges_upto(idx, k)[i]).len() == 32,
        forall|t: Uuid, s: Uuid|
            #[trigger] edges_upto(idx, k).contains(edge_entry(t, s)) <==> (exists|j: int|
                0 <= j < k && #[trigger] idx.reverse.order()[j] == t && idx.reverse@[t]@.contains(s)),
    decreases k,
{
    lemma_entry_sizes();
    if k > 0 {
        lemma_edges_upto(idx, (k - 1) as nat);
        let a = edges_upto(idx, (k - 1) as nat);
        let o = idx.reverse.order();
        let u = o[k - 1];
        let list = idx.reverse@[u]@;
        let b = edges_to(u, list);
        let r = edges_upto(idx, k);
        assert(r == a + b);
        assert forall|i: int| 0 <= i < r.len() implies (#[trigger] r[i]).len() == 32 by {
            if i < a.len() {
                assert(r[i] == a[i]);
            } else {
                assert(r[i] == b[i - a.len()]);
            }
        }
        assert forall|t: Uuid, s: Uuid| #[trigger] r.contains(edge_entry(t, s)) <==> (exists|j: int|
            0 <= j < k && #[trigger] o[j] == t && idx.reverse@[t]@.contains(s)) by {
            let e = edge_entry(t, s);
            if r.contains(e) {
                let i = choose|i: int| 0 <= i < r.len() && r[i] == e;
                if i < a.len() {
                    assert(a[i] == e);
                    assert(a.contains(e));
                    let j = choose|j: int|
                        0 <= j < k - 1 && #[trigger] o[j] == t && idx.reverse@[t]@.contains(s);
                    assert(o[j] == t);
                } else {
                    let x = i - a.len();
                    assert(b[x] == e);
                    lemma_edge_parts(u, list[x], t, s);
                    assert(o[k - 1] == t);
                }
            }
            if exists|j: int| 0 <= j < k && #[trigger] o[j] == t && idx.reverse@[t]@.contains(s) {
                let j = choose|j: int|
                    0 <= j < k && #[trigger] o[j] == t && idx.reverse@[t]@.contains(s);
                if j < k - 1 {
                    assert(o[j] == t);
                    assert(a.contains(e));
                    let i = choose|i: int| 0 <= i < a.len() && a[i] == e;
                    assert(r[i] == e);
                } else {
                    let x = choose|x: int| 0 <= x < list.len() && list[x] == s;
                    assert(b[x] == e);
                    assert(r[a.len() + x] == e);
                }
            }
        }
    }
}

proof fn lemma_edge_parts(t: Uuid, s: Uuid, u: Uuid, v: Uuid)
    requires
        edge_entry(t, s) == edge_entry(u, v),
    ensures
        t == u,
        s == v,
{
    let a = edge_entry(t, s);
    assert(a.take(16) =~= t.0@);
    assert(a.take(16) =~= u.0@);
    assert(a.skip(16) =~= s.0@);
    assert(a.skip(16) =~= v.0@);
    crate::codec::lemma_same_bytes_same_id(t, u);
    crate::codec::lemma_same_bytes_same_id(s, v);
}

proof fn lemma_edge_block(idx: NodeIndex)
    requires
        idx.wf(),
    ensures
        sorted_block(edge_block(idx), 32),
        edge_block(idx).len() == edge_entries(idx).len(),
        forall|t: Uuid, s: Uuid|
            #[trigger] edge_block(idx).contains(edge_entry(t, s)) <==> list_of(
                idx.reverse@,
                t,
            ).contains(s),
        forall|i: int, j: int|
            0 <= i < j < edge_block(idx).len() ==> bytes_le(
                #[trigger] edge_block(idx)[i],
                #[trigger] edge_block(idx)[j],
            ),
{
    let es = edge_entries(idx);
    let b = edge_block(idx);
    let o = idx.reverse.order();
    lemma_edges_upto(idx, o.len());
    let p = crate::sort::sorted_members(es, es);
    assert forall|i: int| 0 <= i < b.len() implies (#[trigger] b[i]).len() == 32 by {
        assert(b[i] == es[p[i]]);
    }
    assert forall|i: int, j: int| 0 <= i < j < b.len() implies bytes_le(
        #[trigger] b[i],
        #[trigger] b[j],
    ) by {
        assert(b[i] == es[p[i]] && b[j] == es[p[j]]);
    }
    assert forall|i: int, j: int| 0 <= i < j < b.len() implies bytes_le(
        (#[trigger] b[i]).take(16),
        (#[trigger] b[j]).take(16),
    ) by {
        let x = b[i];
        let y = b[j];
        assert(x =~= x.take(16) + x.skip(16));
        assert(y =~= y.take(16) + y.skip(16));
        crate::sort::lemma_bytes_le_parts(x.take(16), x.skip(16), y.take(16), y.skip(16));
        crate::sort::lemma_bytes_le_reflexive(x.take(16));
    }
    assert forall|t: Uuid, s: Uuid| #[trigger] b.contains(edge_entry(t, s)) <==> list_of(
        idx.reverse@,
        t,
    ).contains(s) by {
        assert(b.contains(edge_entry(t, s)) <==> es.contains(edge_entry(t, s)));
        if es.contains(edge_entry(t, s)) {
            let j = choose|j: int|
                0 <= j < o.len() && #[trigger] o[j] == t && idx.reverse@[t]@.contains(s);
            assert(o.contains(t));
            assert(idx.reverse@.contains_key(t));
        }
        if list_of(idx.reverse@, t).contains(s) {
            assert(idx.reverse@.contains_key(t));
            assert(o.contains(t));
            let j = choose|j: int| 0 <= j < o.len() && o[j] == t;
            assert(o[j] == t);
        }
    }
}

pub proof fn lemma_children_upto(idx: NodeIndex, k: nat)
    requires
        k <= idx.children.order().len(),
    ensures
        forall|p: Uuid, c: (Uuid, u64, u64)|
            #[trigger] children_upto(idx, k).contains((p, c)) <==> (exists|j: int|
                0 <= j < k && #[trigger] idx.children.order()[j] == p
                    && idx.children@[p]@.contains(c)),
    decreases k,
{
    if k > 0 {
        lemma_children_upto(idx, (k - 1) as nat);
        let a = children_upto(idx, (k - 1) as nat);
        let o = idx.children.order();
        let u = o[k - 1];
        let list = idx.children@[u]@;
        let b = under(u, list);
        let r = children_upto(idx, k);
        assert(r == a + b);
        assert forall|p: Uuid, c: (Uuid, u64, u64)| #[trigger] r.contains((p, c)) <==> (exists|j: int|
            0 <= j < k && #[trigger] o[j] == p && idx.children@[p]@.contains(c)) by {
            let e = (p, c);
            if r.contains(e) {
                let i = choose|i: int| 0 <= i < r.len() && r[i] == e;
                if i < a.len() {
                    assert(a[i] == e);
                    assert(a.contains(e));
                    let j = choose|j: int|
                        0 <= j < k - 1 && #[trigger] o[j] == p && idx.children@[p]@.contains(c);
                    assert(o[j] == p);
                } else {
                    let x = i - a.len();
                    assert(b[x] == e);
                    assert(list[x] == c);
                    assert(o[k - 1] == p);
                }
            }
            if exists|j: int| 0 <= j < k && #[trigger] o[j] == p && idx.children@[p]@.contains(c) {
                let j = choose|j: int|
                    0 <= j < k && #[trigger] o[j] == p && idx.children@[p]@.contains(c);
                if j < k - 1 {
                    assert(o[j] == p);
                    assert(a.contains(e));
                    let i = choose|i: int| 0 <= i < a.len() && a[i] == e;
                    assert(r[i] == e);
                } else {
                    let x = choose|x: int| 0 <= x < list.len() && list[x] == c;
                    assert(b[x] == e);
                    assert(r[a.len() + x] == e);
                }
            }
        }
    }
}

proof fn lemma_child_parts(p: Uuid, c: (Uuid, u64, u64))
    ensures
        child_entry(p, c).len() == 48,
        child_entry(p, c).take(16) == p.0@,
        child_entry(p, c).subrange(16, 32) == c.0.0@,
        child_entry(p, c).subrange(32, 40) == be(c.1 as nat, 8),
        child_entry(p, c).subrange(40, 48) == be(c.2 as nat, 8),
        be_value(be(c.1 as nat, 8)) == c.1,
        be_value(be(c.2 as nat, 8)) == c.2,
{
    crate::bytes::lemma_pow256_values();
    crate::bytes::lemma_be_len(c.1 as nat, 8);
    crate::bytes::lemma_be_len(c.2 as nat, 8);
    crate::bytes::lemma_be_value_of_be(c.1 as nat, 8);
    crate::bytes::lemma_be_value_of_be(c.2 as nat, 8);
    let e = child_entry(p, c);
    assert(e.take(16) =~= p.0@);
    assert(e.subrange(16, 32) =~= c.0.0@);
    assert(e.subrange(32, 40) =~= be(c.1 as nat, 8));
    assert(e.subrange(40, 48) =~= be(c.2 as nat, 8));
}

/// The children of the sorted block, in its order.
proof fn lemma_child_block(idx: NodeIndex) -> (cs: Seq<(Uuid, (Uuid, u64, u64))>)
    requires
        idx.wf(),
    ensures
        sorted_block(child_block(idx), 48),
        child_block(idx).len() == all_children(idx).len(),
        cs.len() == child_block(idx).len(),
        forall|k: int|
            0 <= k < cs.len() ==> #[trigger] child_block(idx)[k] == child_entry(cs[k].0, cs[k].1),
        forall|i: int, j: int|
            0 <= i < j < cs.len() && (#[trigger] cs[i]).0 == (#[trigger] cs[j]).0 ==> cs[i].1.1
                <= cs[j].1.1,
        forall|p: Uuid, c: (Uuid, u64, u64)|
            #[trigger] cs.contains((p, c)) <==> list_of(idx.children@, p).contains(c),
{
    let all = all_children(idx);
    let es = child_entries(idx);
    let ks = child_keys(all);
    let b = child_block(idx);
    let o = idx.children.order();
    let p = crate::sort::sorted_members(es, ks);
    let cs = Seq::new(p.len(), |k: int| all[p[k]]);
    lemma_children_upto(idx, o.len());
    assert forall|k: int| 0 <= k < cs.len() implies #[trigger] b[k] == child_entry(
        cs[k].0,
        cs[k].1,
    ) by {
        assert(b[k] == es[p[k]]);
    }
    assert forall|i: int| 0 <= i < b.len() implies (#[trigger] b[i]).len() == 48 by {
        lemma_child_parts(cs[i].0, cs[i].1);
    }
    assert forall|i: int, j: int| 0 <= i < j < b.len() implies bytes_le(
        (#[trigger] b[i]).take(16),
        (#[trigger] b[j]).take(16),
    ) && (cs[i].0 == cs[j].0 ==> cs[i].1.1 <= cs[j].1.1) by {
        let x = cs[i];
        let y = cs[j];
        lemma_child_parts(x.0, x.1);
        lemma_child_parts(y.0, y.1);
        assert(bytes_le(ks[p[i]], ks[p[j]]));
        let bx = be(x.1.1 as nat, 8);
        let by_ = be(y.1.1 as nat, 8);
        crate::sort::lemma_bytes_le_parts(x.0.0@, bx, y.0.0@, by_);
        crate::sort::lemma_bytes_le_reflexive(x.0.0@);
        crate::bytes::lemma_be_len(x.1.1 as nat, 8);
        crate::bytes::lemma_be_len(y.1.1 as nat, 8);
        crate::sort::lemma_bytes_le_numbers(bx, by_);
    }
    assert forall|i: int, j: int| 0 <= i < j < cs.len() && (#[trigger] cs[i]).0 == (
    #[trigger] cs[j]).0 implies cs[i].1.1 <= cs[j].1.1 by {
        assert(bytes_le(b[i].take(16), b[j].take(16)));
    }
    assert forall|u: Uuid, c: (Uuid, u64, u64)| #[trigger] cs.contains((u, c)) <==> list_of(
        idx.children@,
        u,
    ).contains(c) by {
        let e = (u, c);
        if cs.contains(e) {
            let k = choose|k: int| 0 <= k < cs.len() && cs[k] == e;
            assert(all[p[k]] == e);
            assert(all.contains(e));
            let j = choose|j: int|
                0 <= j < o.len() && #[trigger] o[j] == u && idx.children@[u]@.contains(c);
            assert(o.contains(u));
            assert(idx.children@.contains_key(u));
        }
        if list_of(idx.children@, u).contains(c) {
            assert(idx.children@.contains_key(u));
            assert(o.contains(u));
            let j = choose|j: int| 0 <= j < o.len() && o[j] == u;
            assert(o[j] == u);
            assert(all.contains(e));
            let i = choose|i: int| 0 <= i < all.len() && all[i] == e;
            assert(p.contains(i));
            let k = choose|k: int| 0 <= k < p.len() && p[k] == i;
            assert(cs[k] == e);
        }
    }
    cs
}

proof fn lemma_front_fields(idx: NodeIndex, rest: Seq<u8>)
    requires
        root_entries(idx).len() <= u64::MAX,
        node_entries(idx).len() <= u64::MAX,
        edge_entries(idx).len() <= u64::MAX,
        child_entries(idx).len() <= u64::MAX,
    ensures
        ({
            let d = front(idx) + rest;
            &&& sidecar_fault(d) is None
            &&& sidecar_start(d) + 60 == front(idx).len()
            &&& field(d, 0, 8) == idx.source_size
            &&& i64_of_bits(field(d, 8, 8)) == idx.source_mtime_sec
            &&& field(d, 16, 4) == idx.source_mtime_nsec
            &&& field(d, 20, 8) == idx.node_data_start
            &&& field(d, 28, 8) == root_entries(idx).len()
            &&& field(d, 36, 8) == node_entries(idx).len()
            &&& field(d, 44, 8) == edge_entries(idx).len()
            &&& field(d, 52, 8) == child_entries(idx).len()
        }),
{
    let d = front(idx) + rest;
    let h = encode_utf8(HEADER@);
    lemma_header_fits();
    crate::bytes::lemma_pow256_values();
    crate::bytes::lemma_be_len(h.len(), 4);
    crate::bytes::lemma_be_value_of_be(h.len(), 4);
    let a = idx.source_size as nat;
    let b = i64_bits(idx.source_mtime_sec);
    let c = idx.source_mtime_nsec as nat;
    let e = idx.node_data_start as nat;
    let rn = root_entries(idx).len();
    let nn = node_entries(idx).len();
    let en = edge_entries(idx).len();
    let cn = child_entries(idx).len();
    crate::bytes::lemma_be_len(a, 8);
    crate::bytes::lemma_be_len(b, 8);
    crate::bytes::lemma_be_len(c, 4);
    crate::bytes::lemma_be_len(e, 8);
    crate::bytes::lemma_be_len(rn, 8);
    crate::bytes::lemma_be_len(nn, 8);
    crate::bytes::lemma_be_len(en, 8);
    crate::bytes::lemma_be_len(cn, 8);
    crate::bytes::lemma_be_value_of_be(a, 8);
    crate::bytes::lemma_be_value_of_be(b, 8);
    crate::bytes::lemma_be_value_of_be(c, 4);
    crate::bytes::lemma_be_value_of_be(e, 8);
    crate::bytes::lemma_be_value_of_be(rn, 8);
    crate::bytes::lemma_be_value_of_be(nn, 8);
    crate::bytes::lemma_be_value_of_be(en, 8);
    crate::bytes::lemma_be_value_of_be(cn, 8);
    assert(d.take(5) =~= magic());
    assert(d[5] == VERSION);
    assert(d.subrange(6, 10) =~= be(h.len(), 4));
    let s = 10 + h.len() as int;
    assert(sidecar_start(d) == s);
    assert(d.subrange(s, s + 8) =~= be(a, 8));
    assert(d.subrange(s + 8, s + 16) =~= be(b, 8));
    assert(d.subrange(s + 16, s + 20) =~= be(c, 4));
    assert(d.subrange(s + 20, s + 28) =~= be(e, 8));
    assert(d.subrange(s + 28, s + 36) =~= be(rn, 8));
    assert(d.subrange(s + 36, s + 44) =~= be(nn, 8));
    assert(d.subrange(s + 44, s + 52) =~= be(en, 8));
    assert(d.subrange(s + 52, s + 60) =~= be(cn, 8));
}

proof fn lemma_block_sizes(idx: NodeIndex)
    requires
        idx.wf(),
    ensures
        sorted_block(root_block(idx), 32),
        sorted_block(node_block(idx), 48),
        root_block(idx).len() == root_entries(idx).len(),
        node_block(idx).len() == node_entries(idx).len(),
        forall|x: Seq<u8>| #[trigger]
            root_block(idx).contains(x) <==> root_entries(idx).contains(x),
        forall|x: Seq<u8>| #[trigger]
            node_block(idx).contains(x) <==> node_entries(idx).contains(x),
        flat(root_block(idx)).len() == 32 * root_entries(idx).len(),
        flat(node_block(idx)).len() == 48 * node_entries(idx).len(),
        flat(edge_block(idx)).len() == 32 * edge_entries(idx).len(),
        flat(child_block(idx)).len() == 48 * child_entries(idx).len(),
{
    lemma_entry_sizes();
    assert forall|i: int| 0 <= i < root_entries(idx).len() implies (#[trigger] root_entries(
        idx,
    )[i]).len() == 32 by {}
    assert forall|i: int| 0 <= i < node_entries(idx).len() implies (#[trigger] node_entries(
        idx,
    )[i]).len() == 48 by {}
    lemma_lead_block(root_entries(idx), 32);
    lemma_lead_block(node_entries(idx), 48);
    lemma_edge_block(idx);
    let cs = lemma_child_block(idx);
    crate::search::lemma_flat_len(root_block(idx), 32);
    crate::search::lemma_flat_len(node_block(idx), 48);
    crate::search::lemma_flat_len(edge_block(idx), 32);
    crate::search::lemma_flat_len(child_block(idx), 48);
}

/// Opening the file of an index gives its fields back.
pub proof fn written_index_opens(idx: NodeIndex)
    requires
        idx.wf(),
        index_bytes(idx).len() <= u64::MAX,
    ensures
        sidecar_fault(index_bytes(idx)) is None,
        forall|sc: Sidecar|
            #[trigger] sc.wf() && sc.data@ == index_bytes(idx) ==> {
                &&& sc.source_size == idx.source_size
                &&& sc.source_mtime_sec == idx.source_mtime_sec
                &&& sc.source_mtime_nsec == idx.source_mtime_nsec
                &&& sc.node_data_start == idx.node_data_start
                &&& sc.root_count == root_entries(idx).len()
                &&& sc.node_count == node_entries(idx).len()
                &&& sc.edge_count == edge_entries(idx).len()
                &&& sc.child_count == child_entries(idx).len()
                &&& sc.roots.off == front(idx).len()
                &&& sc.assign.off == front(idx).len() + 32 * root_entries(idx).len()
                &&& sc.reverse.off == front(idx).len() + 32 * root_entries(idx).len() + 48
                    * node_entries(idx).len()
                &&& sc.children.off == front(idx).len() + 32 * root_entries(idx).len() + 48
                    * node_entries(idx).len() + 32 * edge_entries(idx).len()
            },
{
    lemma_block_sizes(idx);
    let rest = flat(root_block(idx)) + flat(node_block(idx)) + flat(edge_block(idx)) + flat(
        child_block(idx),
    );
    assert(index_bytes(idx) =~= front(idx) + rest);
    lemma_front_fields(idx, rest);
}

/// Whether an entry stands at a position.
pub open spec fn entry_is(d: Seq<u8>, at: int, e: Seq<u8>) -> bool {
    0 <= at && at + e.len() <= d.len() && d.subrange(at, at + e.len()) == e && uuid_at(d, at).0@
        == e.take(16)
}

/// Whether a table of a file holds the entries of a sorted block.
#[verifier::opaque]
spec fn holds_block(d: Seq<u8>, t: Table, b: Seq<Seq<u8>>) -> bool {
    &&& crate::search::sorted_table(d, t)
    &&& t.count == b.len()
    &&& forall|k: int| 0 <= k < b.len() ==> entry_is(d, #[trigger] t.at(k), b[k])
}

proof fn lemma_block_table(before: Seq<u8>, b: Seq<Seq<u8>>, after: Seq<u8>, t: Table)
    requires
        t.sized(),
        t.off == before.len(),
        t.count == b.len(),
        sorted_block(b, t.size as nat),
    ensures
        holds_block(before + flat(b) + after, t, b),
{
    reveal(holds_block);
    crate::search::flat_is_sorted_table(before, b, after, t);
    assert forall|k: int| 0 <= k < b.len() implies entry_is(
        before + flat(b) + after,
        #[trigger] t.at(k),
        b[k],
    ) by {
        crate::search::lemma_table_at(before, b, after, t, k);
    }
}

proof fn lemma_sidecar_tables(idx: NodeIndex, sc: Sidecar)
    requires
        idx.wf(),
        index_bytes(idx).len() <= u64::MAX,
        sc.wf(),
        sc.data@ == index_bytes(idx),
    ensures
        holds_block(sc.data@, sc.roots, root_block(idx)),
        holds_block(sc.data@, sc.assign, node_block(idx)),
        holds_block(sc.data@, sc.reverse, edge_block(idx)),
        holds_block(sc.data@, sc.children, child_block(idx)),
{
    lemma_block_sizes(idx);
    lemma_edge_block(idx);
    let cs = lemma_child_block(idx);
    written_index_opens(idx);
    let d = index_bytes(idx);
    let f = front(idx);
    let r = flat(root_block(idx));
    let n = flat(node_block(idx));
    let e = flat(edge_block(idx));
    let c = flat(child_block(idx));
    assert(d =~= f + r + (n + e + c));
    assert(d =~= (f + r) + n + (e + c));
    assert(d =~= (f + r + n) + e + c);
    assert(d =~= (f + r + n + e) + c + Seq::<u8>::empty());
    lemma_block_table(f, root_block(idx), n + e + c, sc.roots);
    lemma_block_table(f + r, node_block(idx), e + c, sc.assign);
    lemma_block_table(f + r + n, edge_block(idx), c, sc.reverse);
    lemma_block_table(f + r + n + e, child_block(idx), Seq::<u8>::empty(), sc.children);
}

/// Looking for an id in a block finds an entry that it leads, if there is one.
proof fn lemma_probe_block(d: Seq<u8>, t: Table, b: Seq<Seq<u8>>, id: Uuid) -> (r: Option<int>)
    requires
        holds_block(d, t, b),
    ensures
        probed(d, t, id, 0, t.count as int) == Some(r),
        match r {
            Some(i) => 0 <= i < b.len() && b[i].take(16) == id.0@ && entry_is(d, t.at(i), b[i]),
            None => forall|k: int| 0 <= k < b.len() ==> (#[trigger] b[k]).take(16) != id.0@,
        },
{
    reveal(holds_block);
    crate::search::probed_is_exact(d, t, id, 0, t.count as int);
    let r = probed(d, t, id, 0, t.count as int)->Some_0;
    match r {
        Some(i) => {
            assert(entry_is(d, t.at(i), b[i]));
        },
        None => {
            assert forall|k: int| 0 <= k < b.len() implies (#[trigger] b[k]).take(16) != id.0@ by {
                assert(entry_is(d, t.at(k), b[k]));
                if b[k].take(16) == id.0@ {
                    crate::codec::lemma_same_bytes_same_id(uuid_at(d, t.at(k)), id);
                }
            }
        },
    }
    r
}

/// The run of an id in a block is all entries that it leads.
proof fn lemma_run_block(d: Seq<u8>, t: Table, b: Seq<Seq<u8>>, id: Uuid) -> (res: (int, Seq<int>))
    requires
        holds_block(d, t, b),
    ensures
        ({
            let lo = res.0;
            let ps = res.1;
            &&& crate::search::run_of(d, t, id) == Some(ps)
            &&& 0 <= lo
            &&& lo + ps.len() <= b.len()
            &&& forall|k: int|
                0 <= k < ps.len() ==> entry_is(d, #[trigger] ps[k], b[lo + k]) && b[lo + k].take(16)
                    == id.0@
            &&& forall|j: int|
                0 <= j < b.len() && (#[trigger] b[j]).take(16) == id.0@ ==> lo <= j < lo + ps.len()
        }),
{
    reveal(holds_block);
    let (lo, ps) = crate::search::run_is_all(d, t, id);
    assert forall|k: int| 0 <= k < ps.len() implies entry_is(d, #[trigger] ps[k], b[lo + k])
        && b[lo + k].take(16) == id.0@ by {
        assert(ps[k] == t.at(lo + k));
        assert(entry_is(d, t.at(lo + k), b[lo + k]));
    }
    assert forall|j: int| 0 <= j < b.len() && (#[trigger] b[j]).take(16) == id.0@ implies lo <= j
        < lo + ps.len() by {
        assert(entry_is(d, t.at(j), b[j]));
        crate::codec::lemma_same_bytes_same_id(uuid_at(d, t.at(j)), id);
    }
    (lo, ps)
}

proof fn lemma_pair_at(d: Seq<u8>, at: int, e: Seq<u8>, o: int, v: (u64, u64))
    requires
        entry_is(d, at, e),
        0 <= o,
        o + 16 == e.len(),
        e.subrange(o, o + 8) == be(v.0 as nat, 8),
        e.subrange(o + 8, o + 16) == be(v.1 as nat, 8),
    ensures
        be_value(d.subrange(at + o, at + o + 8)) == v.0,
        be_value(d.subrange(at + o + 8, at + o + 16)) == v.1,
{
    crate::bytes::lemma_pow256_values();
    crate::bytes::lemma_be_value_of_be(v.0 as nat, 8);
    crate::bytes::lemma_be_value_of_be(v.1 as nat, 8);
    let w = d.subrange(at, at + e.len());
    assert(d.subrange(at + o, at + o + 8) =~= w.subrange(o, o + 8));
    assert(d.subrange(at + o + 8, at + o + 16) =~= w.subrange(o + 8, o + 16));
}

/// A lookup of a root in the file of an index gives what the index says of it.
pub proof fn sidecar_finds_roots(idx: NodeIndex, sc: Sidecar, id: Uuid)
    requires
        idx.wf(),
        index_bytes(idx).len() <= u64::MAX,
        sc.wf(),
        sc.data@ == index_bytes(idx),
    ensures
        pair_found(sc.data@, sc.roots, id, 16) == Some(
            if idx.roots@.contains_key(id) {
                Some(idx.roots@[id])
            } else {
                None
            },
        ),
{
    let d = sc.data@;
    let b = root_block(idx);
    let es = root_entries(idx);
    let o = idx.roots.order();
    lemma_sidecar_tables(idx, sc);
    lemma_block_sizes(idx);
    match lemma_probe_block(d, sc.roots, b, id) {
        Some(i) => {
            assert(b.contains(b[i]));
            let k = choose|k: int| 0 <= k < es.len() && es[k] == b[i];
            let u = o[k];
            assert(o.contains(u));
            lemma_root_parts(u, idx.roots@[u]);
            crate::codec::lemma_same_bytes_same_id(u, id);
            lemma_pair_at(d, sc.roots.at(i), b[i], 16, idx.roots@[u]);
        },
        None => {
            if idx.roots@.contains_key(id) {
                assert(o.contains(id));
                let k = choose|k: int| 0 <= k < o.len() && o[k] == id;
                assert(es.contains(es[k]));
                assert(b.contains(es[k]));
                let i = choose|i: int| 0 <= i < b.len() && b[i] == es[k];
                lemma_root_parts(id, idx.roots@[id]);
                assert(b[i].take(16) == id.0@);
            }
        },
    }
}

proof fn lemma_root_parts(id: Uuid, v: (u64, u64))
    ensures
        root_entry(id, v).len() == 32,
        root_entry(id, v).take(16) == id.0@,
        root_entry(id, v).subrange(16, 24) == be(v.0 as nat, 8),
        root_entry(id, v).subrange(24, 32) == be(v.1 as nat, 8),
{
    crate::bytes::lemma_be_len(v.0 as nat, 8);
    crate::bytes::lemma_be_len(v.1 as nat, 8);
    let e = root_entry(id, v);
    assert(e.take(16) =~= id.0@);
    assert(e.subrange(16, 24) =~= be(v.0 as nat, 8));
    assert(e.subrange(24, 32) =~= be(v.1 as nat, 8));
}

proof fn lemma_node_parts(id: Uuid, root: Uuid, v: (u64, u64))
    ensures
        node_entry(id, root, v).len() == 48,
        node_entry(id, root, v).take(16) == id.0@,
        node_entry(id, root, v).subrange(16, 32) == root.0@,
        node_entry(id, root, v).subrange(32, 40) == be(v.0 as nat, 8),
        node_entry(id, root, v).subrange(40, 48) == be(v.1 as nat, 8),
{
    crate::bytes::lemma_be_len(v.0 as nat, 8);
    crate::bytes::lemma_be_len(v.1 as nat, 8);
    let e = node_entry(id, root, v);
    assert(e.take(16) =~= id.0@);
    assert(e.subrange(16, 32) =~= root.0@);
    assert(e.subrange(32, 40) =~= be(v.0 as nat, 8));
    assert(e.subrange(40, 48) =~= be(v.1 as nat, 8));
}

/// What is read of the entry of a node is what was put into it.
proof fn lemma_node_found(d: Seq<u8>, at: int, u: Uuid, root: Uuid, v: (u64, u64), id: Uuid)
    requires
        entry_is(d, at, node_entry(u, root, v)),
        node_entry(u, root, v).take(16) == id.0@,
    ensures
        u == id,
        at + 48 <= d.len(),
        uuid_at(d, at + 16) == root,
        be_value(d.subrange(at + 32, at + 40)) == v.0,
        be_value(d.subrange(at + 40, at + 48)) == v.1,
{
    lemma_node_parts(u, root, v);
    crate::codec::lemma_same_bytes_same_id(u, id);
    lemma_pair_at(d, at, node_entry(u, root, v), 32, v);
    assert(d.subrange(at + 16, at + 32) =~= d.subrange(at, at + 48).subrange(16, 32));
    crate::codec::lemma_uuid_at(d, at + 16, root);
}

/// A lookup of a node in the file of an index gives the root of its tree and
/// where it stands, as the index says.
#[verifier::spinoff_prover]
#[verifier::rlimit(50)]
pub proof fn sidecar_finds_nodes(idx: NodeIndex, sc: Sidecar, id: Uuid)
    requires
        idx.wf(),
        index_bytes(idx).len() <= u64::MAX,
        sc.wf(),
        sc.data@ == index_bytes(idx),
    ensures
        root_found(sc.data@, sc.assign, id) == Some(
            if idx.assign@.contains_key(id) {
                Some(idx.assign@[id])
            } else {
                None
            },
        ),
        pair_found(sc.data@, sc.assign, id, 32) == Some(
            if idx.assign@.contains_key(id) {
                Some(place(idx, all_children(idx), id))
            } else {
                None
            },
        ),
{
    let d = sc.data@;
    let b = node_block(idx);
    let es = node_entries(idx);
    let o = idx.assign.order();
    lemma_sidecar_tables(idx, sc);
    lemma_block_sizes(idx);
    match lemma_probe_block(d, sc.assign, b, id) {
        Some(i) => {
            let at = sc.assign.at(i);
            assert(b.contains(b[i]));
            let k = choose|k: int| 0 <= k < es.len() && es[k] == b[i];
            let u = o[k];
            assert(o.contains(u));
            lemma_node_found(d, at, u, idx.assign@[u], place(idx, all_children(idx), u), id);
        },
        None => {
            if idx.assign@.contains_key(id) {
                assert(o.contains(id));
                let k = choose|k: int| 0 <= k < o.len() && o[k] == id;
                assert(es.contains(es[k]));
                assert(b.contains(es[k]));
                let i = choose|i: int| 0 <= i < b.len() && b[i] == es[k];
                lemma_node_parts(id, idx.assign@[id], place(idx, all_children(idx), id));
                assert(b[i].take(16) == id.0@);
            }
        },
    }
}

/// The sources in a run are those of the entries.
proof fn lemma_run_sources(d: Seq<u8>, b: Seq<Seq<u8>>, id: Uuid, lo: int, ps: Seq<int>, k: int)
    requires
        0 <= k < ps.len(),
        entry_is(d, ps[k], b[lo + k]),
        b[lo + k].len() == 32,
        b[lo + k].take(16) == id.0@,
    ensures
        b[lo + k] == edge_entry(id, sources_at(d, ps)[k]),
{
    let at = ps[k];
    let e = b[lo + k];
    crate::search::lemma_uuid_bytes(d, at + 16);
    assert(d.subrange(at + 16, at + 32) =~= d.subrange(at, at + 32).skip(16));
    assert(e =~= e.take(16) + e.skip(16));
}

/// A run of entries of references gives the sources that are listed, by id.
proof fn lemma_sources_of_run(
    d: Seq<u8>,
    b: Seq<Seq<u8>>,
    list: Seq<Uuid>,
    id: Uuid,
    lo: int,
    ps: Seq<int>,
)
    requires
        sorted_block(b, 32),
        forall|s: Uuid| #[trigger] b.contains(edge_entry(id, s)) <==> list.contains(s),
        forall|i: int, j: int|
            0 <= i < j < b.len() ==> bytes_le(#[trigger] b[i], #[trigger] b[j]),
        0 <= lo,
        lo + ps.len() <= b.len(),
        forall|k: int|
            0 <= k < ps.len() ==> entry_is(d, #[trigger] ps[k], b[lo + k]) && b[lo + k].take(16)
                == id.0@,
        forall|j: int|
            0 <= j < b.len() && (#[trigger] b[j]).take(16) == id.0@ ==> lo <= j < lo + ps.len(),
    ensures
        forall|s: Uuid| #[trigger] sources_at(d, ps).contains(s) <==> list.contains(s),
        forall|i: int, j: int|
            0 <= i < j < sources_at(d, ps).len() ==> bytes_le(
                (#[trigger] sources_at(d, ps)[i]).0@,
                (#[trigger] sources_at(d, ps)[j]).0@,
            ),
{
    let r = sources_at(d, ps);
    assert forall|k: int| 0 <= k < r.len() implies b[lo + k] == edge_entry(id, #[trigger] r[k]) by {
        assert(entry_is(d, ps[k], b[lo + k]));
        lemma_run_sources(d, b, id, lo, ps, k);
    }
    assert forall|s: Uuid| #[trigger] r.contains(s) <==> list.contains(s) by {
        if r.contains(s) {
            let k = choose|k: int| 0 <= k < r.len() && r[k] == s;
            assert(b[lo + k] == edge_entry(id, r[k]));
            assert(b.contains(edge_entry(id, s)));
        }
        if list.contains(s) {
            assert(b.contains(edge_entry(id, s)));
            let i = choose|i: int| 0 <= i < b.len() && b[i] == edge_entry(id, s);
            assert(b[i].take(16) =~= id.0@);
            let k = i - lo;
            assert(b[lo + k] == edge_entry(id, r[k]));
            lemma_edge_parts(id, r[k], id, s);
        }
    }
    assert forall|i: int, j: int| 0 <= i < j < r.len() implies bytes_le(
        (#[trigger] r[i]).0@,
        (#[trigger] r[j]).0@,
    ) by {
        assert(b[lo + i] == edge_entry(id, r[i]) && b[lo + j] == edge_entry(id, r[j]));
        crate::sort::lemma_bytes_le_parts(id.0@, r[i].0@, id.0@, r[j].0@);
    }
}

/// A lookup of who refers to an id in the file of an index gives those that the
/// index lists, by id.
#[verifier::spinoff_prover]
#[verifier::rlimit(50)]
pub proof fn sidecar_finds_sources(idx: NodeIndex, sc: Sidecar, id: Uuid)
    requires
        idx.wf(),
        index_bytes(idx).len() <= u64::MAX,
        sc.wf(),
        sc.data@ == index_bytes(idx),
    ensures
        crate::search::run_of(sc.data@, sc.reverse, id) is Some,
        ({
            let r = sources_at(sc.data@, crate::search::run_of(sc.data@, sc.reverse, id)->Some_0);
            &&& forall|s: Uuid| #[trigger] r.contains(s) <==> list_of(idx.reverse@, id).contains(s)
            &&& forall|i: int, j: int|
                0 <= i < j < r.len() ==> bytes_le((#[trigger] r[i]).0@, (#[trigger] r[j]).0@)
        }),
{
    let d = sc.data@;
    let b = edge_block(idx);
    lemma_sidecar_tables(idx, sc);
    lemma_edge_block(idx);
    let (lo, ps) = lemma_run_block(d, sc.reverse, b, id);
    lemma_sources_of_run(d, b, list_of(idx.reverse@, id), id, lo, ps);
}

/// The children in a run are those of the entries.
proof fn lemma_run_children(
    d: Seq<u8>,
    e: Seq<u8>,
    x: (Uuid, (Uuid, u64, u64)),
    id: Uuid,
    ps: Seq<int>,
    k: int,
)
    requires
        0 <= k < ps.len(),
        entry_is(d, ps[k], e),
        e == child_entry(x.0, x.1),
        e.take(16) == id.0@,
    ensures
        x == (id, children_at(d, ps)[k]),
{
    let at = ps[k];
    lemma_child_parts(x.0, x.1);
    crate::codec::lemma_same_bytes_same_id(x.0, id);
    assert(d.subrange(at + 16, at + 32) =~= d.subrange(at, at + 48).subrange(16, 32));
    crate::codec::lemma_uuid_at(d, at + 16, x.1.0);
    lemma_pair_at(d, at, e, 32, (x.1.1, x.1.2));
}

/// A run of entries of children gives those that are listed, in the order in which they
/// stand.
proof fn lemma_children_of_run(
    d: Seq<u8>,
    b: Seq<Seq<u8>>,
    cs: Seq<(Uuid, (Uuid, u64, u64))>,
    list: Seq<(Uuid, u64, u64)>,
    id: Uuid,
    lo: int,
    ps: Seq<int>,
)
    requires
        cs.len() == b.len(),
        forall|k: int| 0 <= k < cs.len() ==> #[trigger] b[k] == child_entry(cs[k].0, cs[k].1),
        forall|i: int, j: int|
            0 <= i < j < cs.len() && (#[trigger] cs[i]).0 == (#[trigger] cs[j]).0 ==> cs[i].1.1
                <= cs[j].1.1,
        forall|c: (Uuid, u64, u64)| #[trigger] cs.contains((id, c)) <==> list.contains(c),
        0 <= lo,
        lo + ps.len() <= b.len(),
        forall|k: int|
            0 <= k < ps.len() ==> entry_is(d, #[trigger] ps[k], b[lo + k]) && b[lo + k].take(16)
                == id.0@,
        forall|j: int|
            0 <= j < b.len() && (#[trigger] b[j]).take(16) == id.0@ ==> lo <= j < lo + ps.len(),
    ensures
        forall|c: (Uuid, u64, u64)|
            #[trigger] children_at(d, ps).contains(c) <==> list.contains(c),
        forall|i: int, j: int|
            0 <= i < j < children_at(d, ps).len() ==> (#[trigger] children_at(d, ps)[i]).1 <= (
            #[trigger] children_at(d, ps)[j]).1,
{
    let r = children_at(d, ps);
    assert forall|k: int| 0 <= k < r.len() implies cs[lo + k] == (id, #[trigger] r[k]) by {
        assert(entry_is(d, ps[k], b[lo + k]));
        lemma_run_children(d, b[lo + k], cs[lo + k], id, ps, k);
    }
    assert forall|c: (Uuid, u64, u64)| #[trigger] r.contains(c) <==> list.contains(c) by {
        if r.contains(c) {
            let k = choose|k: int| 0 <= k < r.len() && r[k] == c;
            assert(cs[lo + k] == (id, r[k]));
            assert(cs.contains((id, c)));
        }
        if list.contains(c) {
            assert(cs.contains((id, c)));
            let i = choose|i: int| 0 <= i < cs.len() && cs[i] == (id, c);
            assert(b[i] == child_entry(id, c));
            lemma_child_parts(id, c);
            let k = i - lo;
            assert(cs[lo + k] == (id, r[k]));
            assert(r[k] == c);
        }
    }
    assert forall|i: int, j: int| 0 <= i < j < r.len() implies (#[trigger] r[i]).1 <= (
    #[trigger] r[j]).1 by {
        assert(cs[lo + i] == (id, r[i]) && cs[lo + j] == (id, r[j]));
    }
}

/// A lookup of the children of an id in the file of an index gives those that
/// the index lists, in the order in which they stand.
#[verifier::spinoff_prover]
#[verifier::rlimit(50)]
pub proof fn sidecar_finds_children(idx: NodeIndex, sc: Sidecar, id: Uuid)
    requires
        idx.wf(),
        index_bytes(idx).len() <= u64::MAX,
        sc.wf(),
        sc.data@ == index_bytes(idx),
    ensures
        crate::search::run_of(sc.data@, sc.children, id) is Some,
        ({
            let r = children_at(sc.data@, crate::search::run_of(sc.data@, sc.children, id)->Some_0);
            &&& forall|c: (Uuid, u64, u64)|
                #[trigger] r.contains(c) <==> list_of(idx.children@, id).contains(c)
            &&& forall|i: int, j: int|
                0 <= i < j < r.len() ==> (#[trigger] r[i]).1 <= (#[trigger] r[j]).1
        }),
{
    let d = sc.data@;
    let b = child_block(idx);
    lemma_sidecar_tables(idx, sc);
    let cs = lemma_child_block(idx);
    let (lo, ps) = lemma_run_block(d, sc.children, b, id);
    lemma_children_of_run(d, b, cs, list_of(idx.children@, id), id, lo, ps);
}

// ---------------------------------------------------------------------------
// Reading where the index says
// ---------------------------------------------------------------------------

/// Where all nodes can be read, passing over them gives the same nodes, each where it can
/// be read.
pub proof fn lemma_recs_match(data: Seq<u8>, off: int)
    requires
        off >= 0,
        data.len() <= usize::MAX,
        crate::tree::nodes_from(data, off) is Ok,
    ensures
        ({
            let t = crate::tree::nodes_from(data, off)->Ok_0;
            let recs = recs_from(data, off)->Ok_0;
            &&& recs_from(data, off) is Ok
            &&& recs.len() == t.len()
            &&& forall|k: int|
                #![trigger recs[k]]
                #![trigger t[k]]
                0 <= k < recs.len() ==> recs[k].id == t[k].id && recs[k].parent == t[k].parent && 0
                    <= recs[k].start && recs[k].start <= recs[k].end <= data.len() && node_at(
                    data,
                    recs[k].start,
                ) == (Ok::<SpecNode, crate::codec::Error>(t[k]), recs[k].end)
        }),
    decreases data.len() - off,
{
    if off < data.len() {
        let n = node_at(data, off).0->Ok_0;
        let end = node_at(data, off).1;
        crate::codec::lemma_node_at_progress(data, off);
        passing_agrees_with_reading(data, off, n, end);
        lemma_rec_at(data, off);
        lemma_recs_match(data, end);
        let t = crate::tree::nodes_from(data, off)->Ok_0;
        let recs = recs_from(data, off)->Ok_0;
        let rest = recs_from(data, end)->Ok_0;
        let more = crate::tree::nodes_from(data, end)->Ok_0;
        assert forall|k: int|
            #![trigger recs[k]]
            #![trigger t[k]]
            0 <= k < recs.len() implies recs[k].id == t[k].id && recs[k].parent == t[k].parent && 0
            <= recs[k].start && recs[k].start <= recs[k].end <= data.len() && node_at(
            data,
            recs[k].start,
        ) == (Ok::<SpecNode, crate::codec::Error>(t[k]), recs[k].end) by {
            if k > 0 {
                assert(recs[k] == rest[k - 1]);
                assert(t[k] == more[k - 1]);
            }
        }
    }
}

proof fn lemma_reach(recs: Seq<SpecRec>, i: int, k: nat, hi: int)
    requires
        0 <= i < recs.len(),
        k <= recs.len(),
        forall|j: int| 0 <= j < recs.len() ==> (#[trigger] recs[j]).end <= hi,
    ensures
        recs[i].end <= reach(recs, i, k) <= hi,
    decreases recs.len() - i, k,
{
    if k > 0 {
        lemma_reach(recs, i, (k - 1) as nat, hi);
        let c = k - 1;
        if i < c {
            lemma_reach(recs, c, recs.len(), hi);
        }
    }
}

proof fn lemma_place(idx: NodeIndex, cs: Seq<(Uuid, (Uuid, u64, u64))>, id: Uuid)
    ensures
        if exists|j: int| 0 <= j < cs.len() && (#[trigger] cs[j]).1.0 == id {
            exists|j: int|
                0 <= j < cs.len() && (#[trigger] cs[j]).1.0 == id && place(idx, cs, id) == (
                    cs[j].1.1,
                    cs[j].1.2,
                )
        } else {
            place(idx, cs, id) == (if idx.roots@.contains_key(id) {
                idx.roots@[id]
            } else {
                (0, 0)
            })
        },
    decreases cs.len(),
{
    if cs.len() > 0 {
        let d = cs.drop_last();
        let n = cs.len() - 1;
        if cs[n].1.0 == id {
            assert(place(idx, cs, id) == (cs[n].1.1, cs[n].1.2));
        } else {
            lemma_place(idx, d, id);
            if exists|j: int| 0 <= j < cs.len() && (#[trigger] cs[j]).1.0 == id {
                let j = choose|j: int| 0 <= j < cs.len() && (#[trigger] cs[j]).1.0 == id;
                assert(d[j].1.0 == id);
                let k = choose|k: int|
                    0 <= k < d.len() && (#[trigger] d[k]).1.0 == id && place(idx, d, id) == (
                        d[k].1.1,
                        d[k].1.2,
                    );
                assert(cs[k].1.0 == id);
            } else {
                assert forall|j: int| 0 <= j < d.len() implies (#[trigger] d[j]).1.0 != id by {
                    assert(cs[j].1.0 != id);
                }
            }
        }
    }
}

proof fn lemma_offspring(recs: Seq<SpecRec>, p: Uuid, c: (Uuid, u64, u64))
    ensures
        offspring(recs, p).contains(c) <==> exists|y: int|
            0 <= y < recs.len() && (#[trigger] recs[y]).parent == Some(p) && located(recs[y]) == c,
    decreases recs.len(),
{
    if recs.len() > 0 {
        let d = recs.drop_last();
        let n = recs.len() - 1;
        lemma_offspring(d, p, c);
        let a = offspring(d, p);
        let all = offspring(recs, p);
        if all.contains(c) {
            let k = choose|k: int| 0 <= k < all.len() && all[k] == c;
            if k < a.len() {
                assert(a[k] == c);
                let y = choose|y: int|
                    0 <= y < d.len() && (#[trigger] d[y]).parent == Some(p) && located(d[y]) == c;
                assert(recs[y].parent == Some(p));
            } else {
                assert(recs[n].parent == Some(p));
            }
        }
        if exists|y: int|
            0 <= y < recs.len() && (#[trigger] recs[y]).parent == Some(p) && located(recs[y]) == c {
            let y = choose|y: int|
                0 <= y < recs.len() && (#[trigger] recs[y]).parent == Some(p) && located(recs[y])
                    == c;
            if y < n {
                assert(d[y].parent == Some(p));
                let k = choose|k: int| 0 <= k < a.len() && a[k] == c;
                assert(all[k] == c);
            } else {
                assert(all[a.len() as int] == c);
            }
        }
    }
}

proof fn lemma_root_span(recs: Seq<SpecRec>, x: int, k: nat)
    requires
        0 <= x < k <= recs.len(),
        is_tree_root(recs, x),
        forall|y: int| 0 <= y < recs.len() && y != x ==> (#[trigger] recs[y]).id != recs[x].id,
    ensures
        root_spans(recs, k).contains_key(recs[x].id),
        root_spans(recs, k)[recs[x].id] == span(recs, x),
    decreases k,
{
    if k - 1 > x {
        assert(recs[k - 1].id != recs[x].id);
        lemma_root_span(recs, x, (k - 1) as nat);
    }
}

/// Where the index says a node with one record stands: at the record's start, over at least
/// the record.
pub proof fn lemma_place_of(idx: NodeIndex, recs: Seq<SpecRec>, x: int, hi: int)
    requires
        indexes(idx, recs),
        0 <= x < recs.len(),
        hi <= u64::MAX,
        forall|y: int| 0 <= y < recs.len() && y != x ==> (#[trigger] recs[y]).id != recs[x].id,
        forall|y: int|
            0 <= y < recs.len() ==> 0 <= (#[trigger] recs[y]).start && recs[y].start <= recs[y].end
                <= hi,
    ensures
        ({
            let at = place(idx, all_children(idx), recs[x].id);
            &&& at.0 == recs[x].start
            &&& recs[x].end <= at.0 + at.1 <= hi
        }),
{
    let id = recs[x].id;
    let cs = all_children(idx);
    let n = idx.children.order().len();
    lemma_children_upto(idx, n);
    lemma_place(idx, cs, id);
    assert forall|j: int| 0 <= j < cs.len() && (#[trigger] cs[j]).1.0 == id implies cs[j].1
        == located(recs[x]) && recs[x].parent == Some(cs[j].0) by {
        let p = cs[j].0;
        let c = cs[j].1;
        assert(cs.contains((p, c)));
        let o = choose|o: int|
            0 <= o < n && #[trigger] idx.children.order()[o] == p && idx.children@[p]@.contains(c);
        assert(idx.children@.contains_key(p));
        let os = offspring(recs, p);
        let _ = crate::sort::sorted_members(os, located_keys(os));
        assert(list_of(idx.children@, p).contains(c));
        assert(os.contains(c));
        lemma_offspring(recs, p, c);
        let y = choose|y: int|
            0 <= y < recs.len() && (#[trigger] recs[y]).parent == Some(p) && located(recs[y]) == c;
        assert(recs[y].id == id);
    }
    match recs[x].parent {
        Some(p) => {
            let c = located(recs[x]);
            let os = offspring(recs, p);
            let _ = crate::sort::sorted_members(os, located_keys(os));
            lemma_offspring(recs, p, c);
            assert(os.contains(c));
            assert(list_of(idx.children@, p).contains(c));
            assert(idx.children@.contains_key(p));
            let ord = idx.children.order();
            let o = choose|o: int| 0 <= o < ord.len() && ord[o] == p;
            assert(idx.children.order()[o] == p);
            assert(cs.contains((p, c)));
            let j = choose|j: int| 0 <= j < cs.len() && cs[j] == (p, c);
            assert(cs[j].1.0 == id);
        },
        None => {
            assert(up(recs, x) is None);
            lemma_root_span(recs, x, recs.len());
            lemma_reach(recs, x, recs.len(), hi);
        },
    }
}

/// A node that can be read among nodes can be read in a part of the file that starts where
/// it does and reaches at least to its end.
pub proof fn lemma_node_in(data: Seq<u8>, start: u64, n: SpecNode, from: int, end: int, off: u64, len: u64)
    requires
        start <= data.len(),
        from >= 0,
        node_at(data.skip(start as int), from) == (Ok::<SpecNode, crate::codec::Error>(n), end),
        off == from,
        end <= off + len,
        start + off + len <= data.len(),
    ensures
        node_in(data, start, off, len) == Ok::<SpecNode, Seq<char>>(n),
{
    let nodes = data.skip(start as int);
    crate::codec::lemma_node_at_progress(nodes, from);
    crate::codec::lemma_node_at_skip(nodes, from);
    let rest = nodes.skip(from);
    let part = data.subrange(start + off, start + off + len);
    assert(part =~= rest.take(len as int));
    assert(rest =~= part + rest.skip(len as int));
    lemma_shorter(part, rest.skip(len as int), n, end - from);
}

/// A node is read from fewer bytes, as long as these reach to its end.
proof fn lemma_shorter(part: Seq<u8>, more: Seq<u8>, n: SpecNode, end: int)
    requires
        node_at(part + more, 0) == (Ok::<SpecNode, crate::codec::Error>(n), end),
        end <= part.len(),
    ensures
        node_at(part, 0) == (Ok::<SpecNode, crate::codec::Error>(n), end),
{
    reveal(node_at);
    let all = part + more;
    assert forall|i: int, j: int| 0 <= i <= j <= part.len() implies #[trigger] all.subrange(i, j)
        == part.subrange(i, j) by {
        assert(all.subrange(i, j) =~= part.subrange(i, j));
    }
    assert(forall|i: int| 0 <= i < part.len() ==> all[i] == part[i]);
}

// ---------------------------------------------------------------------------
// Folding a file
// ---------------------------------------------------------------------------

/// A file with one record for each id: its nodes, how many records it had, and how many
/// it keeps.
pub fn compact_file(data: &[u8]) -> (r: Result<(Store, usize, usize), String>)
    ensures
        match crate::tree::file_nodes(data@) {
            Ok(t) => {
                &&& r is Ok
                &&& r->Ok_0.0.wf()
                &&& r->Ok_0.0@ == crate::model::folded(t)
                &&& r->Ok_0.1 == t.len()
                &&& r->Ok_0.2 == crate::model::folded(t).len()
            },
            Err(e) => r is Err && r->Err_0@ == e,
        },
{
    match Store::load(data) {
        Ok(raw) => {
            let kept = crate::tree::fold(&raw);
            let n = kept.len();
            Ok((kept, raw.len(), n))
        },
        Err(e) => Err(e),
    }
}

/// A sidecar begins with `XRIDX` and the version; what does not is refused.
pub proof fn sidecars_begin_with_their_head(idx: NodeIndex, data: Seq<u8>)
    ensures
        index_bytes(idx).len() >= 6,
        index_bytes(idx)[0] == 0x58 && index_bytes(idx)[1] == 0x52 && index_bytes(idx)[2] == 0x49
            && index_bytes(idx)[3] == 0x44 && index_bytes(idx)[4] == 0x58 && index_bytes(idx)[5] == 2,
        sidecar_fault(data) is None ==> data.len() >= 10 && data[0] == 0x58 && data[1] == 0x52
            && data[2] == 0x49 && data[3] == 0x44 && data[4] == 0x58 && data[5] == 2,
{
    if data.len() >= 5 {
        let d = data.take(5);
        assert(d[0] == data[0] && d[1] == data[1] && d[2] == data[2] && d[3] == data[3] && d[4]
            == data[4]);
    }
}

} // verus!
