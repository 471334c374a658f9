//! Binary search in tables of fixed-size entries, each of which starts with an id.
use crate::bytes::put_slice;
use crate::codec::{read_uuid, uuid_at, Uuid};
use crate::sort::{arranged, bytes_before, bytes_le, bytes_lt, key_views, order, sorted};
use vstd::prelude::*;

verus! {

/// Where a table stands in a file.
#[derive(Clone, Copy, Debug)]
pub struct Table {
    /// The position of the first entry.
    pub off: u64,
    /// The size of an entry.
    pub size: u64,
    /// How many bytes of an entry a probe reads.
    pub width: u64,
    /// How many entries there are.
    pub count: u64,
}

impl Table {
    /// The position of an entry.
    pub open spec fn at(self, i: int) -> int {
        self.off + i * self.size
    }

    /// Whether the sizes are those of an entry that starts with an id.
    pub open spec fn sized(self) -> bool {
        16 <= self.width <= self.size <= 0x1_0000
    }
}

/// The id of an entry; `None` where the file ends before it.
pub open spec fn entry_id(data: Seq<u8>, t: Table, i: int) -> Option<Uuid> {
    if t.at(i) + t.width <= data.len() {
        Some(uuid_at(data, t.at(i)))
    } else {
        None
    }
}

/// The first entry from `lo` up to `hi` whose id is not below `id`, as halving
/// finds it; `None` where it comes to an entry that is not there.
pub open spec fn bisected(data: Seq<u8>, t: Table, id: Uuid, lo: int, hi: int) -> Option<int>
    decreases hi - lo,
{
    if lo >= hi {
        Some(lo)
    } else {
        let mid = lo + (hi - lo) / 2;
        match entry_id(data, t, mid) {
            None => None,
            Some(k) => if bytes_lt(k.0@, id.0@) {
                bisected(data, t, id, mid + 1, hi)
            } else {
                bisected(data, t, id, lo, mid)
            },
        }
    }
}

/// An entry from `lo` up to `hi` with the id, as halving finds it; `None` where
/// it comes to an entry that is not there.
pub open spec fn probed(data: Seq<u8>, t: Table, id: Uuid, lo: int, hi: int) -> Option<Option<int>>
    decreases hi - lo,
{
    if lo >= hi {
        Some(None)
    } else {
        let mid = lo + (hi - lo) / 2;
        match entry_id(data, t, mid) {
            None => None,
            Some(k) => if k == id {
                Some(Some(mid))
            } else if bytes_lt(k.0@, id.0@) {
                probed(data, t, id, mid + 1, hi)
            } else {
                probed(data, t, id, lo, mid)
            },
        }
    }
}

/// Whether all entries are there, and their ids do not descend.
pub open spec fn sorted_table(data: Seq<u8>, t: Table) -> bool {
    &&& t.sized()
    &&& t.at(t.count as int) <= data.len()
    &&& forall|i: int, j: int|
        0 <= i < j < t.count ==> bytes_le(
            #[trigger] uuid_at(data, t.at(i)).0@,
            #[trigger] uuid_at(data, t.at(j)).0@,
        )
}

pub proof fn lemma_entry_there(data: Seq<u8>, t: Table, i: int)
    requires
        t.sized(),
        t.at(t.count as int) <= data.len(),
        0 <= i < t.count,
    ensures
        t.at(i) + t.size <= data.len(),
        t.at(i) >= 0,
        entry_id(data, t, i) == Some(uuid_at(data, t.at(i))),
{
    let n = t.count as int;
    let s = t.size as int;
    assert(i * s + s <= n * s) by (nonlinear_arith)
        requires
            0 <= i < n,
            s >= 0,
    ;
    assert(0 <= i * s) by (nonlinear_arith)
        requires
            0 <= i,
            s >= 0,
    ;
}

/// In a sorted table halving finds the place of an id: what comes before is
/// below it, and nothing from there on is.
pub proof fn bisected_is_first(data: Seq<u8>, t: Table, id: Uuid, lo: int, hi: int) -> (r: int)
    requires
        sorted_table(data, t),
        0 <= lo <= hi <= t.count,
        forall|i: int| 0 <= i < lo ==> bytes_lt(#[trigger] uuid_at(data, t.at(i)).0@, id.0@),
        forall|i: int| hi <= i < t.count ==> !bytes_lt(#[trigger] uuid_at(data, t.at(i)).0@, id.0@),
    ensures
        bisected(data, t, id, lo, hi) == Some(r),
        lo <= r <= hi,
        forall|i: int| 0 <= i < r ==> bytes_lt(#[trigger] uuid_at(data, t.at(i)).0@, id.0@),
        forall|i: int| r <= i < t.count ==> !bytes_lt(#[trigger] uuid_at(data, t.at(i)).0@, id.0@),
    decreases hi - lo,
{
    if lo >= hi {
        lo
    } else {
        let mid = lo + (hi - lo) / 2;
        lemma_entry_there(data, t, mid);
        let k = uuid_at(data, t.at(mid));
        if bytes_lt(k.0@, id.0@) {
            assert forall|i: int| 0 <= i < mid + 1 implies bytes_lt(
                #[trigger] uuid_at(data, t.at(i)).0@,
                id.0@,
            ) by {
                if i < mid {
                    lemma_le_lt(uuid_at(data, t.at(i)).0@, k.0@, id.0@);
                }
            }
            bisected_is_first(data, t, id, mid + 1, hi)
        } else {
            assert forall|i: int| mid <= i < t.count implies !bytes_lt(
                #[trigger] uuid_at(data, t.at(i)).0@,
                id.0@,
            ) by {
                if mid < i && bytes_lt(uuid_at(data, t.at(i)).0@, id.0@) {
                    lemma_le_lt(k.0@, uuid_at(data, t.at(i)).0@, id.0@);
                }
            }
            bisected_is_first(data, t, id, lo, mid)
        }
    }
}

pub proof fn lemma_le_lt(a: Seq<u8>, b: Seq<u8>, c: Seq<u8>)
    requires
        bytes_le(a, b),
        bytes_lt(b, c),
    ensures
        bytes_lt(a, c),
{
    crate::sort::lemma_bytes_le_transitive(a, b, c);
    if a == c {
        crate::sort::lemma_bytes_le_antisymmetric(b, c);
    }
}

/// In a sorted table halving finds an entry with the id if there is one.
pub proof fn probed_is_exact(data: Seq<u8>, t: Table, id: Uuid, lo: int, hi: int)
    requires
        sorted_table(data, t),
        0 <= lo <= hi <= t.count,
        forall|i: int| 0 <= i < lo ==> #[trigger] uuid_at(data, t.at(i)) != id,
        forall|i: int| hi <= i < t.count ==> #[trigger] uuid_at(data, t.at(i)) != id,
    ensures
        match probed(data, t, id, lo, hi) {
            None => false,
            Some(Some(i)) => 0 <= i < t.count && uuid_at(data, t.at(i)) == id,
            Some(None) => forall|i: int|
                0 <= i < t.count ==> #[trigger] uuid_at(data, t.at(i)) != id,
        },
    decreases hi - lo,
{
    if lo < hi {
        let mid = lo + (hi - lo) / 2;
        lemma_entry_there(data, t, mid);
        let k = uuid_at(data, t.at(mid));
        if k == id {
        } else if bytes_lt(k.0@, id.0@) {
            assert forall|i: int| 0 <= i < mid + 1 implies #[trigger] uuid_at(data, t.at(i))
                != id by {
                if i < mid && uuid_at(data, t.at(i)) == id {
                    lemma_le_lt(id.0@, k.0@, id.0@);
                }
            }
            probed_is_exact(data, t, id, mid + 1, hi);
        } else {
            assert(bytes_le(id.0@, k.0@)) by {
                crate::sort::lemma_bytes_le_total(id.0@, k.0@);
                if id.0@ == k.0@ {
                    crate::sort::lemma_bytes_le_reflexive(k.0@);
                }
            }
            assert forall|i: int| mid <= i < t.count implies #[trigger] uuid_at(data, t.at(i))
                != id by {
                if mid < i && uuid_at(data, t.at(i)) == id {
                    crate::sort::lemma_bytes_le_antisymmetric(id.0@, k.0@);
                    crate::codec::lemma_same_bytes_same_id(id, k);
                }
            }
            probed_is_exact(data, t, id, lo, mid);
        }
    }
}

/// Whether an entry is there; the position of it.
pub fn entry_position(data: &[u8], t: &Table, i: u64) -> (r: Option<usize>)
    requires
        t.sized(),
    ensures
        match r {
            Some(p) => p == t.at(i as int) && t.at(i as int) + t.width <= data@.len(),
            None => t.at(i as int) + t.width > data@.len(),
        },
{
    let len: usize = data.len();
    proof {
        let a = i as int;
        let s = t.size as int;
        assert(0 <= a * s <= 0xffff_ffff_ffff_ffff * 0x1_0000) by (nonlinear_arith)
            requires
                0 <= a <= 0xffff_ffff_ffff_ffff,
                0 <= s <= 0x1_0000,
        ;
    }
    let p: u128 = t.off as u128 + i as u128 * t.size as u128;
    if p + t.width as u128 <= len as u128 {
        Some(p as usize)
    } else {
        None
    }
}

/// Whether the bytes of one id come before those of another.
pub fn id_below(a: Uuid, b: Uuid) -> (r: bool)
    ensures
        r == bytes_lt(a.0@, b.0@),
{
    let r = bytes_before(a.0.as_slice(), b.0.as_slice()) && a != b;
    proof {
        if a != b && a.0@ == b.0@ {
            crate::codec::lemma_same_bytes_same_id(a, b);
        }
    }
    r
}

/// The place of an id in the table.
pub fn lower_bound(data: &[u8], t: &Table, id: Uuid) -> (r: Option<u64>)
    requires
        t.sized(),
    ensures
        match r {
            Some(i) => bisected(data@, *t, id, 0, t.count as int) == Some(i as int) && i <= t.count,
            None => bisected(data@, *t, id, 0, t.count as int) is None,
        },
{
    let mut lo: u64 = 0;
    let mut hi: u64 = t.count;
    while lo < hi
        invariant
            t.sized(),
            lo <= hi <= t.count,
            bisected(data@, *t, id, 0, t.count as int) == bisected(
                data@,
                *t,
                id,
                lo as int,
                hi as int,
            ),
        decreases hi - lo,
    {
        let mid: u64 = lo + (hi - lo) / 2;
        let p: usize = match entry_position(data, t, mid) {
            Some(p) => p,
            None => return None,
        };
        if id_below(read_uuid(data, p), id) {
            lo = mid + 1;
        } else {
            hi = mid;
        }
    }
    Some(lo)
}

/// An entry with the id.
pub fn probe(data: &[u8], t: &Table, id: Uuid) -> (r: Option<Option<u64>>)
    requires
        t.sized(),
    ensures
        match r {
            Some(Some(i)) => probed(data@, *t, id, 0, t.count as int) == Some(Some(i as int)) && i
                < t.count && t.at(i as int) + t.width <= data@.len(),
            Some(None) => probed(data@, *t, id, 0, t.count as int) == Some(None::<int>),
            None => probed(data@, *t, id, 0, t.count as int) is None,
        },
{
    let mut lo: u64 = 0;
    let mut hi: u64 = t.count;
    while lo < hi
        invariant
            t.sized(),
            lo <= hi <= t.count,
            probed(data@, *t, id, 0, t.count as int) == probed(
                data@,
                *t,
                id,
                lo as int,
                hi as int,
            ),
        decreases hi - lo,
    {
        let mid: u64 = lo + (hi - lo) / 2;
        let p: usize = match entry_position(data, t, mid) {
            Some(p) => p,
            None => return None,
        };
        let k = read_uuid(data, p);
        if k == id {
            return Some(Some(mid));
        }
        if id_below(k, id) {
            lo = mid + 1;
        } else {
            hi = mid;
        }
    }
    Some(None)
}

// ---------------------------------------------------------------------------
// Tables as bytes
// ---------------------------------------------------------------------------

/// Byte strings one after the other.
pub open spec fn flat(es: Seq<Seq<u8>>) -> Seq<u8>
    decreases es.len(),
{
    if es.len() == 0 {
        Seq::<u8>::empty()
    } else {
        flat(es.drop_last()) + es.last()
    }
}

pub proof fn lemma_flat_len(es: Seq<Seq<u8>>, size: nat)
    requires
        forall|i: int| 0 <= i < es.len() ==> (#[trigger] es[i]).len() == size,
    ensures
        flat(es).len() == es.len() * size,
    decreases es.len(),
{
    if es.len() > 0 {
        let d = es.drop_last();
        assert forall|i: int| 0 <= i < d.len() implies (#[trigger] d[i]).len() == size by {
            assert(es[i].len() == size);
        }
        lemma_flat_len(d, size);
        assert(es[es.len() - 1].len() == size);
        let n = d.len();
        assert((n + 1) * size == n * size + size) by (nonlinear_arith);
    }
}

/// In strings of one size one after the other, each stands at its place.
pub proof fn lemma_flat_at(es: Seq<Seq<u8>>, size: nat, k: int)
    requires
        forall|i: int| 0 <= i < es.len() ==> (#[trigger] es[i]).len() == size,
        0 <= k < es.len(),
    ensures
        flat(es).len() == es.len() * size,
        0 <= k * size,
        k * size + size <= flat(es).len(),
        flat(es).subrange(k * size, k * size + size) == es[k],
    decreases es.len(),
{
    lemma_flat_len(es, size);
    let n = es.len() as int;
    let s = size as int;
    assert(k * s + s <= n * s && 0 <= k * s) by (nonlinear_arith)
        requires
            0 <= k < n,
            s >= 0,
    ;
    let d = es.drop_last();
    assert forall|i: int| 0 <= i < d.len() implies (#[trigger] d[i]).len() == size by {
        assert(es[i].len() == size);
    }
    assert(es[n - 1].len() == size);
    lemma_flat_len(d, size);
    if k < n - 1 {
        lemma_flat_at(d, size, k);
        assert(flat(es).subrange(k * size, k * size + size) =~= flat(d).subrange(
            k * size,
            k * size + size,
        ));
    } else {
        assert(flat(es).subrange(k * size, k * size + size) =~= es[k]);
    }
}

/// A table that stands in a file as entries one after the other is there, and
/// each entry stands at its place.
pub proof fn lemma_table_at(before: Seq<u8>, es: Seq<Seq<u8>>, after: Seq<u8>, t: Table, k: int)
    requires
        t.sized(),
        t.off == before.len(),
        t.count == es.len(),
        forall|i: int| 0 <= i < es.len() ==> (#[trigger] es[i]).len() == t.size,
        0 <= k < es.len(),
    ensures
        ({
            let d = before + flat(es) + after;
            &&& t.at(k) + t.size <= d.len()
            &&& t.at(k) >= 0
            &&& d.subrange(t.at(k), t.at(k) + t.size) == es[k]
            &&& uuid_at(d, t.at(k)).0@ == es[k].take(16)
        }),
{
    let d = before + flat(es) + after;
    let size = t.size as nat;
    lemma_flat_at(es, size, k);
    let o = t.at(k);
    assert(d.subrange(o, o + size) =~= flat(es).subrange(k * size, k * size + size));
    assert(d.subrange(o, o + 16) =~= es[k].take(16));
    lemma_uuid_bytes(d, o);
}

pub proof fn lemma_uuid_bytes(d: Seq<u8>, o: int)
    requires
        0 <= o,
        o + 16 <= d.len(),
    ensures
        uuid_at(d, o).0@ == d.subrange(o, o + 16),
{
    let a = uuid_at(d, o);
    assert(a.0@ =~= d.subrange(o, o + 16));
}

/// Entries whose ids do not descend, one after the other in a file, form a
/// sorted table.
pub proof fn flat_is_sorted_table(before: Seq<u8>, es: Seq<Seq<u8>>, after: Seq<u8>, t: Table)
    requires
        t.sized(),
        t.off == before.len(),
        t.count == es.len(),
        forall|i: int| 0 <= i < es.len() ==> (#[trigger] es[i]).len() == t.size,
        forall|i: int, j: int|
            0 <= i < j < es.len() ==> bytes_le(
                (#[trigger] es[i]).take(16),
                (#[trigger] es[j]).take(16),
            ),
    ensures
        sorted_table(before + flat(es) + after, t),
{
    let d = before + flat(es) + after;
    lemma_flat_len(es, t.size as nat);
    assert(t.at(t.count as int) <= d.len());
    assert forall|i: int, j: int| 0 <= i < j < t.count implies bytes_le(
        #[trigger] uuid_at(d, t.at(i)).0@,
        #[trigger] uuid_at(d, t.at(j)).0@,
    ) by {
        lemma_table_at(before, es, after, t, i);
        lemma_table_at(before, es, after, t, j);
    }
}

/// Appends entries in the order of their keys.
pub fn put_sorted(out: &mut Vec<u8>, entries: &Vec<Vec<u8>>, keys: &Vec<Vec<u8>>)
    requires
        entries@.len() == keys@.len(),
    ensures
        final(out)@ == old(out)@ + flat(sorted(key_views(entries@), key_views(keys@))),
{
    let ghost base = out@;
    let ghost es = key_views(entries@);
    let ghost ks = key_views(keys@);
    let pos = order(keys);
    let ghost p = crate::model::ints(pos@);
    let ghost r = arranged(es, p);
    let mut k: usize = 0;
    assert(r.take(0) =~= Seq::<Seq<u8>>::empty());
    assert(base + flat(r.take(0)) =~= base);
    while k < pos.len()
        invariant
            k <= pos@.len(),
            p == crate::model::ints(pos@),
            es == key_views(entries@),
            r == arranged(es, p),
            forall|j: int| 0 <= j < pos@.len() ==> #[trigger] pos@[j] < entries@.len(),
            out@ == base + flat(r.take(k as int)),
        decreases pos@.len() - k,
    {
        let ghost o0 = out@;
        put_slice(out, entries[pos[k]].as_slice());
        proof {
            assert(r.take(k + 1).drop_last() =~= r.take(k as int));
            assert(r.take(k + 1).last() == es[p[k as int]]);
            assert(es[p[k as int]] == entries@[pos@[k as int] as int]@);
            assert(out@ =~= base + flat(r.take(k + 1)));
        }
        k = k + 1;
    }
    proof {
        assert(r.take(r.len() as int) =~= r);
        crate::sort::lemma_sorted_is(es, ks, p);
    }
}

// ---------------------------------------------------------------------------
// Runs of entries with one id
// ---------------------------------------------------------------------------

/// The positions of the entries with the id in a row from entry `i` on; `None`
/// where the file ends within them.
pub open spec fn run_at(data: Seq<u8>, t: Table, id: Uuid, i: int) -> Option<Seq<int>>
    decreases t.count - i,
{
    if i >= t.count {
        Some(Seq::<int>::empty())
    } else {
        match entry_id(data, t, i) {
            None => None,
            Some(k) => if k != id {
                Some(Seq::<int>::empty())
            } else if t.at(i) + t.size > data.len() {
                None
            } else {
                match run_at(data, t, id, i + 1) {
                    None => None,
                    Some(r) => Some(seq![t.at(i)] + r),
                }
            },
        }
    }
}

/// The positions of the entries with the id, as halving and walking on finds
/// them; `None` where the file ends too early.
pub open spec fn run_of(data: Seq<u8>, t: Table, id: Uuid) -> Option<Seq<int>> {
    match bisected(data, t, id, 0, t.count as int) {
        None => None,
        Some(lo) => run_at(data, t, id, lo),
    }
}

/// The positions of the entries with the id.
pub fn run(data: &[u8], t: &Table, id: Uuid) -> (r: Option<Vec<usize>>)
    requires
        t.sized(),
    ensures
        match r {
            Some(v) => run_of(data@, *t, id) == Some(crate::model::ints(v@)) && forall|k: int|
                0 <= k < v@.len() ==> #[trigger] v@[k] + t.size <= data@.len(),
            None => run_of(data@, *t, id) is None,
        },
{
    let len: usize = data.len();
    let lo: u64 = match lower_bound(data, t, id) {
        Some(i) => i,
        None => return None,
    };
    let ghost want = run_at(data@, *t, id, lo as int);
    let mut out: Vec<usize> = Vec::new();
    let mut i: u64 = lo;
    proof {
        if want is Some {
            assert(crate::model::ints(out@) + want->Some_0 =~= want->Some_0);
        }
    }
    while i < t.count
        invariant
            lo <= i <= t.count,
            t.sized(),
            len == data@.len(),
            want == run_of(data@, *t, id),
            want == (match run_at(data@, *t, id, i as int) {
                Some(r) => Some(crate::model::ints(out@) + r),
                None => None,
            }),
            forall|k: int| 0 <= k < out@.len() ==> #[trigger] out@[k] + t.size <= data@.len(),
        decreases t.count - i,
    {
        let p: usize = match entry_position(data, t, i) {
            Some(p) => p,
            None => return None,
        };
        if read_uuid(data, p) != id {
            assert(crate::model::ints(out@) + Seq::<int>::empty() =~= crate::model::ints(out@));
            return Some(out);
        }
        if t.size > (len - p) as u64 {
            return None;
        }
        let ghost o0 = out@;
        out.push(p);
        proof {
            assert(crate::model::ints(out@) =~= crate::model::ints(o0).push(p as int));
            match run_at(data@, *t, id, i + 1) {
                Some(r) => {
                    assert(crate::model::ints(o0) + (seq![p as int] + r) =~= crate::model::ints(
                        out@,
                    ) + r);
                },
                None => {},
            }
        }
        i = i + 1;
    }
    assert(crate::model::ints(out@) + Seq::<int>::empty() =~= crate::model::ints(out@));
    Some(out)
}

proof fn lemma_run_at(data: Seq<u8>, t: Table, id: Uuid, i: int) -> (r: Seq<int>)
    requires
        sorted_table(data, t),
        0 <= i <= t.count,
        forall|j: int| i <= j < t.count ==> !bytes_lt(#[trigger] uuid_at(data, t.at(j)).0@, id.0@),
    ensures
        run_at(data, t, id, i) == Some(r),
        i + r.len() <= t.count,
        forall|k: int|
            0 <= k < r.len() ==> #[trigger] r[k] == t.at(i + k) && uuid_at(data, r[k]) == id,
        forall|j: int|
            i <= j < t.count && #[trigger] uuid_at(data, t.at(j)) == id ==> j < i + r.len(),
    decreases t.count - i,
{
    if i >= t.count {
        Seq::<int>::empty()
    } else {
        lemma_entry_there(data, t, i);
        let x = uuid_at(data, t.at(i));
        if x != id {
            assert forall|j: int| i <= j < t.count implies #[trigger] uuid_at(data, t.at(j))
                != id by {
                if j > i && uuid_at(data, t.at(j)) == id {
                    assert(bytes_le(x.0@, uuid_at(data, t.at(j)).0@));
                    if x.0@ == id.0@ {
                        crate::codec::lemma_same_bytes_same_id(x, id);
                    }
                }
            }
            Seq::<int>::empty()
        } else {
            let rest = lemma_run_at(data, t, id, i + 1);
            let r = seq![t.at(i)] + rest;
            assert forall|k: int| 0 <= k < r.len() implies #[trigger] r[k] == t.at(i + k)
                && uuid_at(data, r[k]) == id by {
                if k > 0 {
                    assert(rest[k - 1] == t.at(i + 1 + (k - 1)));
                }
            }
            r
        }
    }
}

/// In a sorted table the run of an id is all entries with it: those from `lo` on,
/// as many as the run has.
pub proof fn run_is_all(data: Seq<u8>, t: Table, id: Uuid) -> (res: (int, Seq<int>))
    requires
        sorted_table(data, t),
    ensures
        ({
            let lo = res.0;
            let r = res.1;
            &&& run_of(data, t, id) == Some(r)
            &&& 0 <= lo
            &&& lo + r.len() <= t.count
            &&& forall|k: int|
                0 <= k < r.len() ==> #[trigger] r[k] == t.at(lo + k) && uuid_at(data, r[k]) == id
            &&& forall|j: int|
                0 <= j < t.count && #[trigger] uuid_at(data, t.at(j)) == id ==> lo <= j < lo
                    + r.len()
        }),
{
    let lo = bisected_is_first(data, t, id, 0, t.count as int);
    let r = lemma_run_at(data, t, id, lo);
    assert forall|j: int| 0 <= j < t.count && #[trigger] uuid_at(data, t.at(j)) == id implies lo
        <= j < lo + r.len() by {
        if j < lo {
            assert(bytes_lt(uuid_at(data, t.at(j)).0@, id.0@));
        }
    }
    (lo, r)
}

} // verus!
