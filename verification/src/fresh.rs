//! What is found in an index of a workspace that was built anew: every node of the files
//! that are as they were, once for each of them.
use crate::backend::{Backend, SpecHit};
use crate::bytes::be;
use crate::catalog::id_keys;
use crate::codec::{SpecNode, Uuid};
use crate::idmap::list_of;
use crate::index::{all_children, assigned, file_recs_of, indexes, located_keys, node_in, offspring,
    sources, NodeIndex, SpecRec};
use crate::ledger::{by_file, child_places, children_in, file_keys, file_of, first_ids, holding,
    last_per_file, latest, loc_spots, log_outcome, logs_outcome, nodes_read, of_fresh, one_per_child,
    places, rel_key, rels_in, replayed, roots_in, source_keys, sources_in, spoken, stale_ids, table_finals,
    table_replay, without_repeats, Loaded, LogState, Reader, Shelf, SpecLoaded, SpecPlace,
    SpecReplay, Spot, WorkspaceBackend};
use crate::sort::{bytes_le, key_views, sorted};
use crate::tree::{file_nodes, head_len};
use crate::wsidx::{are_blocks, block_models, built_ledger_lookup, data_views, gathered, index_locs,
    index_rels, index_revs, is_current, is_scan, ledger_entries, lists_index, loc_bytes, loc_keys,
    loc_of, loc_round_trip, prefix, prefix_len, rel_bytes, rel_keys, rel_of, rel_round_trip,
    rev_bytes, rev_keys, rev_of, rev_round_trip, revs_to, scanned_files, starting_with,
    tree_of_parent, with_id, with_path, Ledger, LocEntry, Part, Prepared, Print, RelEntry, RevEntry, Scanned,
    SpecBlock, SpecFile, Target};
use vstd::prelude::*;

verus! {

/// Whether the scans are those of the files, numbered from one, no file twice.
pub open spec fn scanned_from(scans: Seq<Scanned>, ts: Seq<Target>, generation: u64) -> bool {
    &&& scans.len() == ts.len()
    &&& scans.len() < u32::MAX
    &&& forall|k: int|
        0 <= k < scans.len() ==> is_scan(#[trigger] scans[k], ts[k], generation, (k + 1) as u32)
    &&& forall|k: int, l: int|
        0 <= k < l < ts.len() ==> (#[trigger] ts[k]).path@ != (#[trigger] ts[l]).path@
}

/// The bytes of the files of blocks.
pub open spec fn contents(files: Seq<(String, Vec<u8>)>) -> Seq<Seq<u8>> {
    Seq::new(files.len(), |i: int| files[i].1@)
}

/// Whether a shelf has the blocks of a ledger of scans, and a log that says nothing.
pub open spec fn shelved(
    s: Shelf,
    kind: Ledger,
    scans: Seq<Scanned>,
    generation: u64,
    bs: Seq<SpecBlock>,
    files: Seq<(String, Vec<u8>)>,
) -> bool {
    &&& are_blocks(kind, generation, ledger_entries(scans, kind), bs, files)
    &&& block_models(s.blocks@) == bs
    &&& data_views(s.data@) == contents(files)
    &&& s.log@.len() == 0
}

/// Whether a reader is one that was opened on an index of scans: it has its table and its
/// blocks, and logs that say nothing.
pub open spec fn opened_on(r: Reader, scans: Seq<Scanned>, generation: u64, p: Prepared) -> bool {
    let m = p.manifest@;
    let fs = scanned_files(scans);
    &&& r.wf()
    &&& m.files == fs
    &&& r.at@ == (SpecReplay { removed: stale_ids(fs, r.now@), ..table_replay(fs) })
    &&& shelved(r.loc, Ledger::Loc, scans, generation, m.loc.blocks, p.loc_files@)
    &&& shelved(r.rel, Ledger::Rel, scans, generation, m.rel.blocks, p.rel_files@)
    &&& shelved(r.rev, Ledger::Rev, scans, generation, m.rev.blocks, p.rev_files@)
}

/// A log that was started anew makes nothing of a table.
pub proof fn new_logs_say_nothing(fs: Seq<SpecFile>)
    ensures
        logs_outcome(
            fs,
            Some(prefix(Ledger::Loc.code(), Part::Log)),
            Some(prefix(Ledger::Rel.code(), Part::Log)),
            Some(prefix(Ledger::Rev.code(), Part::Log)),
        ) == Ok::<SpecLoaded, Seq<char>>(
            SpecLoaded {
                at: table_replay(fs),
                loc: Seq::empty(),
                rel: Seq::empty(),
                rev: Seq::empty(),
            },
        ),
{
    lemma_new_log(table_replay(fs), Ledger::Loc);
    lemma_new_log(table_replay(fs), Ledger::Rel);
    lemma_new_log(table_replay(fs), Ledger::Rev);
}

proof fn lemma_new_log(at: SpecReplay, kind: Ledger)
    ensures
        log_outcome(at, Some(prefix(kind.code(), Part::Log)), kind) == Ok::<
            (SpecReplay, Seq<Seq<u8>>),
            Seq<char>,
        >((at, Seq::empty())),
{
    let d = prefix(kind.code(), Part::Log);
    crate::wsidx::written_prefix_is_read(kind.code(), Part::Log, Seq::empty());
    assert(d + Seq::<u8>::empty() =~= d);
    let st = LogState { at, cur: None, pending: Seq::<(u32, u64, Seq<u8>)>::empty() };
    assert(replayed(st, d, prefix_len()) == Ok::<LogState, Seq<char>>(st));
}

/// Whether an index was written from scans: its table and its blocks are theirs.
pub open spec fn written_from(p: Prepared, scans: Seq<Scanned>, generation: u64) -> bool {
    let m = p.manifest@;
    let loc = ledger_entries(scans, Ledger::Loc);
    let rel = ledger_entries(scans, Ledger::Rel);
    let rev = ledger_entries(scans, Ledger::Rev);
    &&& m.files == scanned_files(scans)
    &&& are_blocks(Ledger::Loc, generation, loc, m.loc.blocks, p.loc_files@)
    &&& are_blocks(Ledger::Rel, generation, rel, m.rel.blocks, p.rel_files@)
    &&& are_blocks(Ledger::Rev, generation, rev, m.rev.blocks, p.rev_files@)
}

/// Whether an index was loaded from what was written, with what the logs gave.
pub open spec fn loaded_from(l: Loaded, p: Prepared, w: SpecLoaded) -> bool {
    let m = p.manifest@;
    &&& l.at@ == w.at
    &&& block_models(l.loc.blocks@) == m.loc.blocks
    &&& block_models(l.rel.blocks@) == m.rel.blocks
    &&& block_models(l.rev.blocks@) == m.rev.blocks
    &&& data_views(l.loc.data@) == contents(p.loc_files@)
    &&& data_views(l.rel.data@) == contents(p.rel_files@)
    &&& data_views(l.rev.data@) == contents(p.rev_files@)
    &&& key_views(l.loc.log@) == w.loc
    &&& key_views(l.rel.log@) == w.rel
    &&& key_views(l.rev.log@) == w.rev
}

/// Whether a reader was opened on an index that was loaded.
pub open spec fn opened_from(r: Reader, l: Loaded) -> bool {
    let gone = l.at@.removed.union(stale_ids(l.at@.files, r.now@));
    &&& r.wf()
    &&& r.at@ == (SpecReplay { removed: gone, ..l.at@ })
    &&& r.loc.blocks == l.loc.blocks && r.loc.data == l.loc.data
    &&& r.rel.blocks == l.rel.blocks && r.rel.data == l.rel.data
    &&& r.rev.blocks == l.rev.blocks && r.rev.data == l.rev.data
    &&& key_views(r.loc.log@) == latest(spoken(key_views(l.loc.log@), Ledger::Loc, gone))
    &&& key_views(r.rel.log@) == spoken(key_views(l.rel.log@), Ledger::Rel, gone)
    &&& key_views(r.rev.log@) == spoken(key_views(l.rev.log@), Ledger::Rev, gone)
}

/// An index that was built anew, loaded with logs that start anew and then opened, is one
/// that was opened on its scans.
pub proof fn rebuilt_index_opens(
    scans: Seq<Scanned>,
    generation: u64,
    p: Prepared,
    l: Loaded,
    r: Reader,
)
    requires
        written_from(p, scans, generation),
        loaded_from(
            l,
            p,
            logs_outcome(
                p.manifest@.files,
                Some(prefix(Ledger::Loc.code(), Part::Log)),
                Some(prefix(Ledger::Rel.code(), Part::Log)),
                Some(prefix(Ledger::Rev.code(), Part::Log)),
            )->Ok_0,
        ),
        opened_from(r, l),
    ensures
        opened_on(r, scans, generation, p),
{
    new_logs_say_nothing(p.manifest@.files);
    assert(key_views(r.loc.log@).len() == r.loc.log@.len());
    assert(key_views(r.rel.log@).len() == r.rel.log@.len());
    assert(key_views(r.rev.log@).len() == r.rev.log@.len());
    assert(Set::<u32>::empty().union(stale_ids(l.at@.files, r.now@)) =~= stale_ids(
        l.at@.files,
        r.now@,
    ));
}

// ---------------------------------------------------------------------------
// The table
// ---------------------------------------------------------------------------

proof fn lemma_row(scans: Seq<Scanned>, ts: Seq<Target>, generation: u64, i: int)
    requires
        scanned_from(scans, ts, generation),
        0 <= i < scans.len(),
    ensures
        with_id(scanned_files(scans), (i + 1) as u32) == Some(i),
        scanned_files(scans)[i].id == (i + 1) as u32,
        scanned_files(scans)[i].path == ts[i].path@,
        scanned_files(scans)[i].gen == generation,
        table_finals(scanned_files(scans)).contains_key((i + 1) as u32),
        table_finals(scanned_files(scans))[(i + 1) as u32] == generation,
{
    let fs = scanned_files(scans);
    assert(is_scan(scans[i], ts[i], generation, (i + 1) as u32));
    assert forall|j: int| 0 <= j < fs.len() implies (#[trigger] fs[j]).id == (j + 1) as u32 && fs[j].cur
        == generation by {
        assert(is_scan(scans[j], ts[j], generation, (j + 1) as u32));
    }
    crate::wsidx::lemma_with_id(fs, (i + 1) as u32);
    assert(fs[i].id == (i + 1) as u32);
    let w = with_id(fs, (i + 1) as u32)->Some_0;
    assert(fs[w].id == (w + 1) as u32);
    lemma_finals(fs, generation, i, fs.len() as int);
    assert(fs.take(fs.len() as int) =~= fs);
}

proof fn lemma_finals(fs: Seq<SpecFile>, generation: u64, i: int, k: int)
    requires
        0 <= i < k <= fs.len() < u32::MAX,
        forall|j: int|
            0 <= j < fs.len() ==> (#[trigger] fs[j]).id == (j + 1) as u32 && fs[j].cur == generation,
    ensures
        table_finals(fs.take(k)).contains_key((i + 1) as u32),
        table_finals(fs.take(k))[(i + 1) as u32] == generation,
    decreases k,
{
    assert(fs.take(k).drop_last() =~= fs.take(k - 1));
    assert(fs.take(k).last() == fs[k - 1]);
    if i < k - 1 {
        lemma_finals(fs, generation, i, k - 1);
    }
}

proof fn lemma_stale(fs: Seq<SpecFile>, now: Seq<Option<Print>>, id: u32)
    ensures
        stale_ids(fs, now).contains(id) <==> exists|j: int|
            0 <= j < fs.len() && (#[trigger] fs[j]).id == id && !is_current(fs[j], now[j]),
    decreases fs.len(),
{
    if fs.len() > 0 {
        let d = fs.drop_last();
        lemma_stale(d, now, id);
        let n = fs.len() - 1;
        if stale_ids(fs, now).contains(id) {
            if stale_ids(d, now).contains(id) {
                let j = choose|j: int|
                    0 <= j < d.len() && (#[trigger] d[j]).id == id && !is_current(d[j], now[j]);
                assert(fs[j].id == id && !is_current(fs[j], now[j]));
            } else {
                assert(fs[n].id == id && !is_current(fs[n], now[n]));
            }
        }
        if exists|j: int|
            0 <= j < fs.len() && (#[trigger] fs[j]).id == id && !is_current(fs[j], now[j]) {
            let j = choose|j: int|
                0 <= j < fs.len() && (#[trigger] fs[j]).id == id && !is_current(fs[j], now[j]);
            if j < n {
                assert(d[j].id == id && !is_current(d[j], now[j]));
            }
        }
    }
}

/// Entries speak for a file exactly if it is as it was.
proof fn lemma_speaks(
    r: Reader,
    scans: Seq<Scanned>,
    ts: Seq<Target>,
    generation: u64,
    p: Prepared,
    id: u32,
)
    requires
        scanned_from(scans, ts, generation),
        opened_on(r, scans, generation, p),
    ensures
        r.block_holds(id) && r.is_fresh(id) <==> 1 <= id <= scans.len() && is_current(
            scanned_files(scans)[id - 1],
            r.now@[id - 1],
        ),
{
    let fs = scanned_files(scans);
    lemma_stale(fs, r.now@, id);
    crate::wsidx::lemma_with_id(fs, id);
    assert forall|j: int| 0 <= j < fs.len() implies (#[trigger] fs[j]).id == (j + 1) as u32 by {
        lemma_row(scans, ts, generation, j);
    }
    if 1 <= id <= scans.len() {
        let i = id - 1;
        lemma_row(scans, ts, generation, i);
        assert(fs[i].id == id);
    }
}

// ---------------------------------------------------------------------------
// Entries
// ---------------------------------------------------------------------------

proof fn lemma_holding(r: Reader, es: Seq<Seq<u8>>, kind: Ledger, e: Seq<u8>)
    ensures
        holding(r, es, kind).contains(e) <==> es.contains(e) && r.block_holds(file_of(kind, e))
            && r.is_fresh(file_of(kind, e)),
    decreases es.len(),
{
    if es.len() > 0 {
        let d = es.drop_last();
        lemma_holding(r, d, kind, e);
        let h = holding(r, es, kind);
        let front = holding(r, d, kind);
        if h.contains(e) {
            let k = choose|k: int| 0 <= k < h.len() && h[k] == e;
            if k < front.len() {
                assert(front[k] == e);
                let x = choose|x: int| 0 <= x < d.len() && d[x] == e;
                assert(es[x] == e);
            } else {
                assert(es[es.len() - 1] == e);
            }
        }
        if es.contains(e) && r.block_holds(file_of(kind, e)) && r.is_fresh(file_of(kind, e)) {
            let x = choose|x: int| 0 <= x < es.len() && es[x] == e;
            if x < d.len() {
                assert(d[x] == e);
                let k = choose|k: int| 0 <= k < front.len() && front[k] == e;
                assert(h[k] == e);
            } else {
                assert(h[front.len() as int] == e);
            }
        }
    }
}

proof fn lemma_starting(es: Seq<Seq<u8>>, key: Seq<u8>, e: Seq<u8>)
    ensures
        starting_with(es, key).contains(e) <==> es.contains(e) && e.take(key.len() as int) == key,
    decreases es.len(),
{
    if es.len() > 0 {
        let d = es.skip(1);
        lemma_starting(d, key, e);
        let s = starting_with(es, key);
        let rest = starting_with(d, key);
        if es.contains(e) {
            let x = choose|x: int| 0 <= x < es.len() && es[x] == e;
            if x > 0 {
                assert(d[x - 1] == e);
            }
        }
        if d.contains(e) {
            let x = choose|x: int| 0 <= x < d.len() && d[x] == e;
            assert(es[x + 1] == e);
        }
        if rest.contains(e) {
            let k = choose|k: int| 0 <= k < rest.len() && rest[k] == e;
            if s.len() == rest.len() {
                assert(s[k] == e);
            } else {
                assert(s[k + 1] == e);
            }
        }
        if s.contains(e) {
            let k = choose|k: int| 0 <= k < s.len() && s[k] == e;
            if s.len() == rest.len() {
                assert(rest[k] == e);
            } else if k > 0 {
                assert(rest[k - 1] == e);
            } else {
                assert(es[0] == e);
            }
        }
        if es[0] == e && e.take(key.len() as int) == key {
            assert(s[0] == e);
        }
    }
}

proof fn lemma_gathered(scans: Seq<Scanned>, kind: Ledger, e: Seq<u8>)
    ensures
        gathered(scans, kind).contains(e) <==> exists|s: int|
            0 <= s < scans.len() && (#[trigger] scans[s]).entries.ledger(kind).contains(e),
    decreases scans.len(),
{
    if scans.len() > 0 {
        let d = scans.drop_last();
        lemma_gathered(d, kind, e);
        let a = gathered(d, kind);
        let b = scans.last().entries.ledger(kind);
        let g = gathered(scans, kind);
        if g.contains(e) {
            let k = choose|k: int| 0 <= k < g.len() && g[k] == e;
            if k < a.len() {
                assert(a[k] == e);
                let s = choose|s: int|
                    0 <= s < d.len() && (#[trigger] d[s]).entries.ledger(kind).contains(e);
                assert(scans[s].entries.ledger(kind).contains(e));
            } else {
                assert(b[k - a.len()] == e);
                assert(scans[scans.len() - 1].entries.ledger(kind).contains(e));
            }
        }
        if exists|s: int|
            0 <= s < scans.len() && (#[trigger] scans[s]).entries.ledger(kind).contains(e) {
            let s = choose|s: int|
                0 <= s < scans.len() && (#[trigger] scans[s]).entries.ledger(kind).contains(e);
            if s < d.len() {
                assert(d[s].entries.ledger(kind).contains(e));
                let k = choose|k: int| 0 <= k < a.len() && a[k] == e;
                assert(g[k] == e);
            } else {
                let k = choose|k: int| 0 <= k < b.len() && b[k] == e;
                assert(g[a.len() + k] == e);
            }
        }
    }
}

/// The entries of a scan: one for each id of the file, of that file.
proof fn lemma_scan_locs(s: Scanned, t: Target, generation: u64, id: u32)
    requires
        is_scan(s, t, generation, id),
    ensures
        forall|j: int|
            0 <= j < s.entries.loc@.len() ==> (#[trigger] s.entries.loc@[j]).file_id == id,
        forall|j: int, k: int|
            0 <= j < s.entries.loc@.len() && 0 <= k < s.entries.loc@.len() && (
            #[trigger] s.entries.loc@[j]).uuid == (#[trigger] s.entries.loc@[k]).uuid
                ==> s.entries.loc@[j] == s.entries.loc@[k],
        forall|x: int|
            0 <= x < file_recs_of(t.data->Ok_0@)->Ok_0.len() ==> exists|j: int|
                0 <= j < s.entries.loc@.len() && (#[trigger] s.entries.loc@[j]).uuid == (
                #[trigger] file_recs_of(t.data->Ok_0@)->Ok_0[x]).id,
{
    let recs = file_recs_of(t.data->Ok_0@)->Ok_0;
    let idx = choose|idx: NodeIndex| #[trigger] indexes(idx, recs) && lists_index(s.entries, idx, id);
    let locs = index_locs(idx, id);
    let p = crate::sort::sorted_members(locs, loc_keys(locs));
    let out = s.entries.loc@;
    assert(out == sorted(locs, loc_keys(locs)));
    assert forall|j: int| 0 <= j < out.len() implies (#[trigger] out[j]).file_id == id by {
        assert(out[j] == locs[p[j]]);
    }
    assert forall|j: int, k: int|
        0 <= j < out.len() && 0 <= k < out.len() && (#[trigger] out[j]).uuid == (
        #[trigger] out[k]).uuid implies out[j] == out[k] by {
        assert(out[j] == locs[p[j]]);
        assert(out[k] == locs[p[k]]);
        if p[j] < p[k] {
            assert(idx.assign.order()[p[j]] != idx.assign.order()[p[k]]);
        } else if p[k] < p[j] {
            assert(idx.assign.order()[p[k]] != idx.assign.order()[p[j]]);
        }
    }
    assert forall|x: int| 0 <= x < recs.len() implies exists|j: int|
        0 <= j < out.len() && (#[trigger] out[j]).uuid == (#[trigger] recs[x]).id by {
        lemma_assigned_has(recs, x, recs.len());
        assert(idx.assign@.contains_key(recs[x].id));
        let o = idx.assign.order();
        let k = choose|k: int| 0 <= k < o.len() && o[k] == recs[x].id;
        assert(locs[k].uuid == recs[x].id);
        assert(locs.contains(locs[k]));
        assert(out.contains(locs[k]));
        let j = choose|j: int| 0 <= j < out.len() && out[j] == locs[k];
        assert(out[j].uuid == recs[x].id);
    }
}

proof fn lemma_assigned_has(recs: Seq<SpecRec>, x: int, k: nat)
    requires
        0 <= x < k <= recs.len(),
    ensures
        assigned(recs, k).contains_key(recs[x].id),
    decreases k,
{
    if x < k - 1 {
        lemma_assigned_has(recs, x, (k - 1) as nat);
    }
}

// ---------------------------------------------------------------------------
// Places
// ---------------------------------------------------------------------------

proof fn lemma_places(r: Reader, spots: Seq<Spot>)
    requires
        forall|k: int| 0 <= k < spots.len() ==> r.place(#[trigger] spots[k]) is Ok,
    ensures
        places(r, spots) is Ok,
        places(r, spots)->Ok_0.len() == spots.len(),
        forall|k: int|
            0 <= k < spots.len() ==> #[trigger] places(r, spots)->Ok_0[k] == r.place(
                spots[k],
            )->Ok_0,
    decreases spots.len(),
{
    if spots.len() > 0 {
        let d = spots.drop_last();
        assert forall|k: int| 0 <= k < d.len() implies r.place(#[trigger] d[k]) is Ok by {
            assert(d[k] == spots[k]);
        }
        lemma_places(r, d);
        let ps = places(r, spots)->Ok_0;
        assert(r.place(spots[spots.len() - 1]) is Ok);
        assert forall|k: int| 0 <= k < spots.len() implies #[trigger] ps[k] == r.place(
            spots[k],
        )->Ok_0 by {
            if k < d.len() {
                assert(ps[k] == places(r, d)->Ok_0[k]);
                assert(d[k] == spots[k]);
            }
        }
    }
}

/// Of each file the last place is kept, and no other.
proof fn lemma_last_per_file(ps: Seq<SpecPlace>, q: SpecPlace)
    requires
        ps.contains(q),
        forall|k: int| 0 <= k < ps.len() && (#[trigger] ps[k]).file == q.file ==> ps[k] == q,
    ensures
        last_per_file(ps).contains(q),
    decreases ps.len(),
{
    let d = ps.skip(1);
    let r = last_per_file(d);
    let s = last_per_file(ps);
    let x = choose|x: int| 0 <= x < ps.len() && ps[x] == q;
    if exists|j: int| 0 < j < ps.len() && (#[trigger] ps[j]).file == q.file {
        let j = choose|j: int| 0 < j < ps.len() && (#[trigger] ps[j]).file == q.file;
        assert(d[j - 1] == q);
        assert forall|k: int| 0 <= k < d.len() && (#[trigger] d[k]).file == q.file implies d[k] == q by {
            assert(d[k] == ps[k + 1]);
        }
        lemma_last_per_file(d, q);
        let k = choose|k: int| 0 <= k < r.len() && r[k] == q;
        if s.len() == r.len() {
            assert(s[k] == q);
        } else {
            assert(s[k + 1] == q);
        }
    } else {
        assert(x == 0);
        assert(s[0] == q);
    }
}

proof fn lemma_one_per_file(ps: Seq<SpecPlace>)
    ensures
        forall|k: int, l: int|
            0 <= k < l < last_per_file(ps).len() ==> (#[trigger] last_per_file(ps)[k]).file != (
            #[trigger] last_per_file(ps)[l]).file,
        forall|k: int| 0 <= k < last_per_file(ps).len() ==> ps.contains(#[trigger] last_per_file(ps)[k]),
    decreases ps.len(),
{
    if ps.len() > 0 {
        let d = ps.skip(1);
        lemma_one_per_file(d);
        let r = last_per_file(d);
        let s = last_per_file(ps);
        assert forall|k: int| 0 <= k < r.len() implies ps.contains(#[trigger] r[k]) by {
            let x = choose|x: int| 0 <= x < d.len() && d[x] == r[k];
            assert(ps[x + 1] == r[k]);
        }
        assert(ps[0] == ps[0] && ps.contains(ps[0]));
        assert forall|k: int, l: int| 0 <= k < l < s.len() implies (#[trigger] s[k]).file != (
        #[trigger] s[l]).file by {
            if s.len() == r.len() {
                assert(s[k] == r[k] && s[l] == r[l]);
            } else if k == 0 {
                assert(s[l] == r[l - 1]);
                let x = choose|x: int| 0 <= x < d.len() && d[x] == r[l - 1];
                assert(ps[x + 1] == r[l - 1]);
            } else {
                assert(s[k] == r[k - 1] && s[l] == r[l - 1]);
            }
        }
        assert forall|k: int| 0 <= k < s.len() implies ps.contains(#[trigger] s[k]) by {
            if s.len() == r.len() {
                assert(s[k] == r[k]);
            } else if k > 0 {
                assert(s[k] == r[k - 1]);
            }
        }
    }
}

/// Whether the bytes are the entry of the id in the scan of a file that is as it was.
spec fn speaks(r: Reader, scans: Seq<Scanned>, id: Uuid, c: Seq<u8>) -> bool {
    let f = loc_of(c).file_id;
    &&& 1 <= f <= scans.len()
    &&& is_current(scanned_files(scans)[f - 1], r.now@[f - 1])
    &&& scans[f - 1].entries.ledger(Ledger::Loc).contains(c)
    &&& loc_of(c).uuid == id
}

/// An entry of a scan tells its file and its id.
proof fn lemma_from_scan(scans: Seq<Scanned>, ts: Seq<Target>, generation: u64, s: int, c: Seq<u8>) -> (e:
    LocEntry)
    requires
        scanned_from(scans, ts, generation),
        0 <= s < scans.len(),
        scans[s].entries.ledger(Ledger::Loc).contains(c),
    ensures
        scans[s].entries.loc@.contains(e),
        c == loc_bytes(e),
        loc_of(c) == e,
        e.file_id == s + 1,
        c.take(e.uuid.0@.len() as int) == e.uuid.0@,
{
    let m = scans[s].entries.ledger(Ledger::Loc);
    let y = choose|y: int| 0 <= y < m.len() && m[y] == c;
    assert(is_scan(scans[s], ts[s], generation, (s + 1) as u32));
    lemma_scan_locs(scans[s], ts[s], generation, (s + 1) as u32);
    let e = scans[s].entries.loc@[y];
    loc_round_trip(e);
    assert(c.take(e.uuid.0@.len() as int) =~= e.uuid.0@);
    e
}

/// What the blocks hold under a key: the entries of scans of files that are as they were.
proof fn lemma_held(
    r: Reader,
    scans: Seq<Scanned>,
    ts: Seq<Target>,
    generation: u64,
    p: Prepared,
    kind: Ledger,
    key: Seq<u8>,
    c: Seq<u8>,
)
    requires
        scanned_from(scans, ts, generation),
        opened_on(r, scans, generation, p),
    ensures
        holding(r, starting_with(ledger_entries(scans, kind), key), kind).contains(c) <==> {
            let f = file_of(kind, c);
            &&& c.take(key.len() as int) == key
            &&& 1 <= f <= scans.len()
            &&& is_current(scanned_files(scans)[f - 1], r.now@[f - 1])
            &&& exists|s: int|
                0 <= s < scans.len() && (#[trigger] scans[s]).entries.ledger(kind).contains(c)
        },
{
    let all = ledger_entries(scans, kind);
    let g = gathered(scans, kind);
    let _ = crate::sort::sorted_members(g, g);
    assert(all.contains(c) <==> g.contains(c));
    lemma_gathered(scans, kind, c);
    lemma_starting(all, key, c);
    lemma_holding(r, starting_with(all, key), kind, c);
    lemma_speaks(r, scans, ts, generation, p, file_of(kind, c));
}

proof fn lemma_entry(
    r: Reader,
    scans: Seq<Scanned>,
    ts: Seq<Target>,
    generation: u64,
    p: Prepared,
    id: Uuid,
    c: Seq<u8>,
)
    requires
        scanned_from(scans, ts, generation),
        opened_on(r, scans, generation, p),
    ensures
        holding(r, starting_with(ledger_entries(scans, Ledger::Loc), id.0@), Ledger::Loc).contains(c)
            <==> speaks(r, scans, id, c),
{
    let hs = holding(r, starting_with(ledger_entries(scans, Ledger::Loc), id.0@), Ledger::Loc);
    lemma_held(r, scans, ts, generation, p, Ledger::Loc, id.0@, c);
    if hs.contains(c) {
        let s = choose|s: int|
            0 <= s < scans.len() && (#[trigger] scans[s]).entries.ledger(Ledger::Loc).contains(c);
        let e = lemma_from_scan(scans, ts, generation, s, c);
        crate::codec::lemma_same_bytes_same_id(e.uuid, id);
    }
    if speaks(r, scans, id, c) {
        let f = loc_of(c).file_id;
        let e = lemma_from_scan(scans, ts, generation, f - 1, c);
        assert(scans[f - 1].entries.ledger(Ledger::Loc).contains(c));
    }
}

/// What the blocks hold of an id.
proof fn lemma_under(
    r: Reader,
    scans: Seq<Scanned>,
    ts: Seq<Target>,
    generation: u64,
    p: Prepared,
    id: Uuid,
) -> (hs: Seq<Seq<u8>>)
    requires
        scanned_from(scans, ts, generation),
        opened_on(r, scans, generation, p),
    ensures
        r.found(id) == match places(r, loc_spots(hs)) {
            Err(e) => Err::<Seq<SpecPlace>, Seq<char>>(e),
            Ok(ps) => Ok(by_file(ps)),
        },
        forall|c: Seq<u8>| #[trigger] hs.contains(c) <==> speaks(r, scans, id, c),
{
    let es = starting_with(ledger_entries(scans, Ledger::Loc), id.0@);
    let hs = holding(r, es, Ledger::Loc);
    built_ledger_lookup(scans, Ledger::Loc, generation, p.manifest@.loc.blocks, p.loc_files@, id.0@);
    assert(r.held(Ledger::Loc, id.0@) == Ok::<Seq<Seq<u8>>, Seq<char>>(hs));
    assert(key_views(r.loc.log@) =~= Seq::<Seq<u8>>::empty());
    assert(r.loc.in_log(id.0@) =~= Seq::<Seq<u8>>::empty());
    assert(of_fresh(r, r.loc.in_log(id.0@)) =~= Seq::<Seq<u8>>::empty());
    assert(loc_spots(hs) + loc_spots(of_fresh(r, r.loc.in_log(id.0@))) =~= loc_spots(hs));
    assert forall|c: Seq<u8>| #[trigger] hs.contains(c) <==> speaks(r, scans, id, c) by {
        lemma_entry(r, scans, ts, generation, p, id, c);
    }
    hs
}

/// The place that an entry stands for.
spec fn entry_place(r: Reader, ts: Seq<Target>, c: Seq<u8>) -> SpecPlace {
    let e = loc_of(c);
    SpecPlace {
        file: ts[e.file_id - 1].path@,
        start: r.start_of(e.file_id)->Ok_0,
        off: e.off,
        len: e.len,
    }
}

/// Entries of one id in one file stand for one place.
proof fn lemma_one_entry(
    r: Reader,
    scans: Seq<Scanned>,
    ts: Seq<Target>,
    generation: u64,
    id: Uuid,
    c: Seq<u8>,
    d: Seq<u8>,
)
    requires
        scanned_from(scans, ts, generation),
        speaks(r, scans, id, c),
        speaks(r, scans, id, d),
        ts[loc_of(c).file_id - 1].path@ == ts[loc_of(d).file_id - 1].path@,
    ensures
        entry_place(r, ts, c) == entry_place(r, ts, d),
{
    let f = loc_of(c).file_id - 1;
    let k = loc_of(d).file_id - 1;
    if f < k {
        assert(ts[f].path@ != ts[k].path@);
    } else if k < f {
        assert(ts[k].path@ != ts[f].path@);
    }
    let e = lemma_from_scan(scans, ts, generation, f, c);
    let o = lemma_from_scan(scans, ts, generation, f, d);
    assert(is_scan(scans[f], ts[f], generation, (f + 1) as u32));
    lemma_scan_locs(scans[f], ts[f], generation, (f + 1) as u32);
    let locs = scans[f].entries.loc@;
    let x = choose|x: int| 0 <= x < locs.len() && locs[x] == e;
    let y = choose|y: int| 0 <= y < locs.len() && locs[y] == o;
    assert(locs[x].uuid == locs[y].uuid);
}

/// The places of entries, ordered by file: each that an entry stands for, one per file.
proof fn lemma_by_file(ps: Seq<SpecPlace>)
    requires
        forall|k: int, l: int|
            0 <= k < ps.len() && 0 <= l < ps.len() && (#[trigger] ps[k]).file == (
            #[trigger] ps[l]).file ==> ps[k] == ps[l],
    ensures
        forall|k: int| 0 <= k < ps.len() ==> by_file(ps).contains(#[trigger] ps[k]),
        forall|q: SpecPlace| #[trigger] by_file(ps).contains(q) ==> ps.contains(q),
        forall|k: int, l: int|
            0 <= k < l < by_file(ps).len() ==> (#[trigger] by_file(ps)[k]).file != (
            #[trigger] by_file(ps)[l]).file,
{
    lemma_one_per_file(ps);
    let last = last_per_file(ps);
    let sp = crate::sort::sorted_members(last, file_keys(last));
    let out = by_file(ps);
    assert(out == sorted(last, file_keys(last)));
    assert forall|k: int| 0 <= k < ps.len() implies out.contains(#[trigger] ps[k]) by {
        lemma_last_per_file(ps, ps[k]);
        let z = choose|z: int| 0 <= z < last.len() && last[z] == ps[k];
        assert(last.contains(last[z]));
    }
    assert forall|q: SpecPlace| #[trigger] out.contains(q) implies ps.contains(q) by {
        let k = choose|k: int| 0 <= k < out.len() && out[k] == q;
        assert(out[k] == last[sp[k]]);
    }
    assert forall|k: int, l: int| 0 <= k < l < out.len() implies (#[trigger] out[k]).file != (
    #[trigger] out[l]).file by {
        assert(out[k] == last[sp[k]] && out[l] == last[sp[l]]);
        lemma_different(last, sp, k, l);
        if sp[k] < sp[l] {
            assert(last[sp[k]].file != last[sp[l]].file);
        } else {
            assert(last[sp[l]].file != last[sp[k]].file);
        }
    }
}

/// A reader that was opened on an index built anew finds every node of every file that is
/// as it was, in one place of that file: the one that the scan of the file gives.
pub proof fn rebuilt_index_finds_nodes(
    r: Reader,
    scans: Seq<Scanned>,
    ts: Seq<Target>,
    generation: u64,
    p: Prepared,
    i: int,
    x: int,
) -> (e: LocEntry)
    requires
        scanned_from(scans, ts, generation),
        opened_on(r, scans, generation, p),
        forall|k: int|
            0 <= k < scans.len() && is_current(scanned_files(scans)[k], #[trigger] r.now@[k])
                ==> r.start_of((k + 1) as u32) is Ok,
        0 <= i < scans.len(),
        is_current(scanned_files(scans)[i], r.now@[i]),
        0 <= x < file_recs_of(ts[i].data->Ok_0@)->Ok_0.len(),
    ensures
        e.uuid == file_recs_of(ts[i].data->Ok_0@)->Ok_0[x].id,
        scans[i].entries.loc@.contains(e),
        r.found(e.uuid) is Ok,
        r.found(e.uuid)->Ok_0.contains(
            SpecPlace {
                file: ts[i].path@,
                start: r.start_of((i + 1) as u32)->Ok_0,
                off: e.off,
                len: e.len,
            },
        ),
        forall|k: int, l: int|
            0 <= k < l < r.found(e.uuid)->Ok_0.len() ==> (#[trigger] r.found(e.uuid)->Ok_0[k]).file
                != (#[trigger] r.found(e.uuid)->Ok_0[l]).file,
{
    let id = file_recs_of(ts[i].data->Ok_0@)->Ok_0[x].id;
    let locs = scans[i].entries.loc@;
    assert(exists|j: int| 0 <= j < locs.len() && (#[trigger] locs[j]).uuid == id) by {
        assert(is_scan(scans[i], ts[i], generation, (i + 1) as u32));
        lemma_scan_locs(scans[i], ts[i], generation, (i + 1) as u32);
    }
    let j0 = choose|j: int| 0 <= j < locs.len() && (#[trigger] locs[j]).uuid == id;
    let e = locs[j0];
    let b = loc_bytes(e);
    let hs = lemma_under(r, scans, ts, generation, p, id);
    let spots = loc_spots(hs);
    assert forall|k: int| 0 <= k < hs.len() implies r.place(#[trigger] spots[k]) == Ok::<
        SpecPlace,
        Seq<char>,
    >(entry_place(r, ts, hs[k])) && speaks(r, scans, id, hs[k]) by {
        assert(hs.contains(hs[k]));
        let f = loc_of(hs[k]).file_id;
        lemma_row(scans, ts, generation, f - 1);
        assert(is_current(scanned_files(scans)[f - 1], r.now@[f - 1]));
    }
    lemma_places(r, spots);
    let ps = places(r, spots)->Ok_0;
    assert forall|k: int, l: int|
        0 <= k < ps.len() && 0 <= l < ps.len() && (#[trigger] ps[k]).file == (
        #[trigger] ps[l]).file implies ps[k] == ps[l] by {
        assert(r.place(spots[k]) is Ok && r.place(spots[l]) is Ok);
        lemma_one_entry(r, scans, ts, generation, id, hs[k], hs[l]);
    }
    lemma_by_file(ps);
    assert(hs.contains(b)) by {
        let m = scans[i].entries.ledger(Ledger::Loc);
        assert(m[j0] == b);
        let o = lemma_from_scan(scans, ts, generation, i, b);
        loc_round_trip(e);
        assert(speaks(r, scans, id, b));
    }
    let k0 = choose|k: int| 0 <= k < hs.len() && hs[k] == b;
    assert(ps[k0] == entry_place(r, ts, b)) by {
        assert(r.place(spots[k0]) is Ok);
    }
    assert(loc_of(b) == e && e.file_id == i + 1) by {
        let m = scans[i].entries.ledger(Ledger::Loc);
        assert(m[j0] == b);
        let o = lemma_from_scan(scans, ts, generation, i, b);
        loc_round_trip(e);
    }
    e
}

/// Whether a workspace has the bytes of a file as they were scanned.
pub open spec fn has_file(b: WorkspaceBackend, ts: Seq<Target>, i: int) -> bool {
    let data = ts[i].data->Ok_0@;
    &&& b.data@[i] is Ok && b.data@[i]->Ok_0@ == data
    &&& b.reader.heads@[i] is Ok && b.reader.heads@[i]->Ok_0@ == data.take(9)
}

/// What the scan of a file says of a node with one record reads as the node.
proof fn lemma_scan_reads(s: Scanned, t: Target, generation: u64, id: u32, x: int, e: LocEntry)
    requires
        is_scan(s, t, generation, id),
        file_nodes(t.data->Ok_0@) is Ok,
        0 <= x < file_nodes(t.data->Ok_0@)->Ok_0.len(),
        forall|y: int|
            0 <= y < file_nodes(t.data->Ok_0@)->Ok_0.len() && y != x ==> (
            #[trigger] file_nodes(t.data->Ok_0@)->Ok_0[y]).id != file_nodes(t.data->Ok_0@)->Ok_0[x].id,
        s.entries.loc@.contains(e),
        e.uuid == file_nodes(t.data->Ok_0@)->Ok_0[x].id,
    ensures
        node_in(
            t.data->Ok_0@,
            (9 + head_len(t.data->Ok_0@)) as u64,
            e.off,
            e.len,
        ) == Ok::<SpecNode, Seq<char>>(file_nodes(t.data->Ok_0@)->Ok_0[x]),
{
    let data = t.data->Ok_0@;
    let ns = file_nodes(data)->Ok_0;
    let recs = file_recs_of(data)->Ok_0;
    let start = 9 + head_len(data);
    let nodes = data.skip(start);
    assert(data.len() == t.data->Ok_0.len());
    assert(data.len() <= usize::MAX);
    crate::index::lemma_recs_match(nodes, 0);
    let idx = choose|idx: NodeIndex| #[trigger] indexes(idx, recs) && lists_index(s.entries, idx, id);
    let locs = index_locs(idx, id);
    let _ = crate::sort::sorted_members(locs, loc_keys(locs));
    assert(locs.contains(e));
    let k = choose|k: int| 0 <= k < locs.len() && locs[k] == e;
    assert forall|y: int| 0 <= y < recs.len() && y != x implies (#[trigger] recs[y]).id
        != recs[x].id by {
        assert(ns[y].id != ns[x].id);
        assert(recs[x].id == ns[x].id);
    }
    assert(recs[x].id == ns[x].id);
    crate::index::lemma_place_of(idx, recs, x, nodes.len() as int);
    crate::index::lemma_node_in(
        data,
        start as u64,
        ns[x],
        recs[x].start,
        recs[x].end,
        e.off,
        e.len,
    );
}

proof fn lemma_nodes_read(b: WorkspaceBackend, ps: Seq<SpecPlace>, q: SpecPlace, n: SpecNode)
    requires
        ps.contains(q),
        b.node_at_place(q) == Ok::<SpecNode, Seq<char>>(n),
    ensures
        nodes_read(b, ps).contains(SpecHit { file: q.file, node: n }),
    decreases ps.len(),
{
    let d = ps.drop_last();
    let a = nodes_read(b, d);
    let all = nodes_read(b, ps);
    let hit = SpecHit { file: q.file, node: n };
    if d.contains(q) {
        lemma_nodes_read(b, d, q, n);
        let k = choose|k: int| 0 <= k < a.len() && a[k] == hit;
        assert(all[k] == hit);
    } else {
        let k = choose|k: int| 0 <= k < ps.len() && ps[k] == q;
        if k < d.len() {
            assert(d[k] == q);
        }
        assert(all[a.len() as int] == hit);
    }
}

/// A workspace whose index was built anew, and that has a file as it was scanned, reads
/// every node of the file that has one record: at the place of the file that is found for
/// the node stands the node.
pub proof fn rebuilt_index_reads_nodes(
    b: WorkspaceBackend,
    scans: Seq<Scanned>,
    ts: Seq<Target>,
    generation: u64,
    p: Prepared,
    i: int,
    x: int,
) -> (q: SpecPlace)
    requires
        scanned_from(scans, ts, generation),
        opened_on(b.reader, scans, generation, p),
        forall|k: int|
            0 <= k < scans.len() && is_current(scanned_files(scans)[k], #[trigger] b.reader.now@[k])
                ==> b.reader.start_of((k + 1) as u32) is Ok,
        0 <= i < scans.len(),
        is_current(scanned_files(scans)[i], b.reader.now@[i]),
        has_file(b, ts, i),
        file_nodes(ts[i].data->Ok_0@) is Ok,
        0 <= x < file_nodes(ts[i].data->Ok_0@)->Ok_0.len(),
        forall|y: int|
            0 <= y < file_nodes(ts[i].data->Ok_0@)->Ok_0.len() && y != x ==> (
            #[trigger] file_nodes(ts[i].data->Ok_0@)->Ok_0[y]).id != file_nodes(
                ts[i].data->Ok_0@,
            )->Ok_0[x].id,
    ensures
        ({
            let n = file_nodes(ts[i].data->Ok_0@)->Ok_0[x];
            let found = b.reader.found(n.id);
            &&& found is Ok && found->Ok_0.contains(q)
            &&& q.file == ts[i].path@
            &&& forall|k: int|
                0 <= k < found->Ok_0.len() && (#[trigger] found->Ok_0[k]).file == ts[i].path@
                    ==> found->Ok_0[k] == q
            &&& b.node_at_place(q) == Ok::<SpecNode, Seq<char>>(n)
            &&& b.located(n.id).contains(SpecHit { file: ts[i].path@, node: n })
        }),
{
    let r = b.reader;
    let data = ts[i].data->Ok_0@;
    let n = file_nodes(data)->Ok_0[x];
    assert(is_scan(scans[i], ts[i], generation, (i + 1) as u32));
    assert(data.len() == ts[i].data->Ok_0.len());
    crate::index::lemma_recs_match(data.skip(9 + head_len(data)), 0);
    assert(file_recs_of(data)->Ok_0[x].id == n.id);
    let e = rebuilt_index_finds_nodes(r, scans, ts, generation, p, i, x);
    lemma_scan_reads(scans[i], ts[i], generation, (i + 1) as u32, x, e);
    lemma_row(scans, ts, generation, i);
    let q = SpecPlace {
        file: ts[i].path@,
        start: r.start_of((i + 1) as u32)->Ok_0,
        off: e.off,
        len: e.len,
    };
    let found = r.found(n.id)->Ok_0;
    assert(data.take(9).subrange(5, 9) =~= data.subrange(5, 9));
    lemma_path_row(scans, ts, generation, i);
    assert(b.node_at_place(q) == Ok::<SpecNode, Seq<char>>(n));
    lemma_nodes_read(b, found, q, n);
    let z = choose|z: int| 0 <= z < found.len() && found[z] == q;
    assert forall|k: int| 0 <= k < found.len() && (#[trigger] found[k]).file == ts[i].path@ implies found[k]
        == q by {
        if k < z {
            assert(found[k].file != found[z].file);
        } else if z < k {
            assert(found[z].file != found[k].file);
        }
    }
    q
}

proof fn lemma_path_row(scans: Seq<Scanned>, ts: Seq<Target>, generation: u64, i: int)
    requires
        scanned_from(scans, ts, generation),
        0 <= i < scans.len(),
    ensures
        with_path(scanned_files(scans), ts[i].path@) == Some(i),
{
    let fs = scanned_files(scans);
    crate::wsidx::lemma_with_path(fs, ts[i].path@);
    lemma_row(scans, ts, generation, i);
    assert(fs[i].path == ts[i].path@);
    let k = with_path(fs, ts[i].path@)->Some_0;
    lemma_row(scans, ts, generation, k);
    if k < i {
        assert(ts[k].path@ != ts[i].path@);
    } else if i < k {
        assert(ts[i].path@ != ts[k].path@);
    }
}

/// A reader that was opened on an index built anew finds nothing of a node that no file
/// has which is as it was.
pub proof fn rebuilt_index_finds_no_others(
    r: Reader,
    scans: Seq<Scanned>,
    ts: Seq<Target>,
    generation: u64,
    p: Prepared,
    id: Uuid,
)
    requires
        scanned_from(scans, ts, generation),
        opened_on(r, scans, generation, p),
        forall|k: int, j: int|
            0 <= k < scans.len() && is_current(scanned_files(scans)[k], #[trigger] r.now@[k])
                && 0 <= j < scans[k].entries.loc@.len() ==> (
            #[trigger] scans[k].entries.loc@[j]).uuid != id,
    ensures
        r.found(id) == Ok::<Seq<SpecPlace>, Seq<char>>(Seq::empty()),
{
    let hs = lemma_under(r, scans, ts, generation, p, id);
    if hs.len() > 0 {
        let c = hs[0];
        assert(hs.contains(c));
        let f = loc_of(c).file_id - 1;
        let e = lemma_from_scan(scans, ts, generation, f, c);
        let locs = scans[f].entries.loc@;
        let j = choose|j: int| 0 <= j < locs.len() && locs[j] == e;
        assert(is_current(scanned_files(scans)[f], r.now@[f]));
        assert(scans[f].entries.loc@[j].uuid == id);
    }
    assert(loc_spots(hs) =~= Seq::<Spot>::empty());
    lemma_by_file(Seq::<SpecPlace>::empty());
    let out = by_file(Seq::<SpecPlace>::empty());
    if out.len() > 0 {
        assert(out.contains(out[0]));
    }
    assert(out =~= Seq::<SpecPlace>::empty());
}

/// Positions that have all items have none twice.
proof fn lemma_different<A>(items: Seq<A>, p: Seq<int>, k: int, l: int)
    requires
        p.len() == items.len(),
        forall|x: int| 0 <= x < items.len() ==> #[trigger] p.contains(x),
        forall|x: int| 0 <= x < p.len() ==> 0 <= #[trigger] p[x] < items.len(),
        0 <= k < l < p.len(),
    ensures
        p[k] != p[l],
{
    if p[k] == p[l] {
        let short = p.remove(l);
        let range = vstd::set_lib::set_int_range(0, items.len() as int);
        vstd::set_lib::lemma_int_range(0, items.len() as int);
        assert forall|x: int| range.contains(x) implies short.to_set().contains(x) by {
            assert(p.contains(x));
            let y = choose|y: int| 0 <= y < p.len() && p[y] == x;
            let z = if y == l {
                k
            } else {
                y
            };
            if z < l {
                assert(short[z] == x);
            } else {
                assert(short[z - 1] == x);
            }
        }
        vstd::seq_lib::seq_to_set_is_finite(short);
        short.lemma_cardinality_of_set();
        vstd::set_lib::lemma_len_subset(range, short.to_set());
    }
}

// ---------------------------------------------------------------------------
// References
// ---------------------------------------------------------------------------

/// The entries on references of an index: those of its lists of sources.
proof fn lemma_index_revs(idx: NodeIndex, fid: u32, k: nat, e: RevEntry)
    requires
        k <= idx.reverse.order().len(),
    ensures
        index_revs(idx, fid, k).contains(e) <==> e.file_id == fid && exists|n: int|
            0 <= n < k && #[trigger] idx.reverse.order()[n] == e.target
                && idx.reverse@[e.target]@.contains(e.source),
    decreases k,
{
    if k > 0 {
        let n = k - 1;
        lemma_index_revs(idx, fid, n as nat, e);
        let t = idx.reverse.order()[n];
        let a = index_revs(idx, fid, n as nat);
        let b = revs_to(t, idx.reverse@[t]@, fid);
        let all = index_revs(idx, fid, k);
        if all.contains(e) {
            let j = choose|j: int| 0 <= j < all.len() && all[j] == e;
            if j < a.len() {
                assert(a[j] == e);
            } else {
                assert(b[j - a.len()] == e);
                assert(idx.reverse@[t]@[j - a.len()] == e.source);
            }
        }
        if a.contains(e) {
            let j = choose|j: int| 0 <= j < a.len() && a[j] == e;
            assert(all[j] == e);
        }
        if e.file_id == fid && e.target == t && idx.reverse@[t]@.contains(e.source) {
            let l = idx.reverse@[t]@;
            let j = choose|j: int| 0 <= j < l.len() && l[j] == e.source;
            assert(b[j] == e);
            assert(all[a.len() + j] == e);
        }
    }
}

/// A scan has an entry for each reference of the file.
proof fn lemma_scan_revs(s: Scanned, t: Target, generation: u64, id: u32, e: RevEntry)
    requires
        is_scan(s, t, generation, id),
    ensures
        s.entries.rev@.contains(e) <==> e.file_id == id && sources(
            file_recs_of(t.data->Ok_0@)->Ok_0,
            e.target,
        ).contains(e.source),
{
    let recs = file_recs_of(t.data->Ok_0@)->Ok_0;
    let idx = choose|idx: NodeIndex| #[trigger] indexes(idx, recs) && lists_index(s.entries, idx, id);
    let n = idx.reverse.order().len();
    let revs = index_revs(idx, id, n);
    let _ = crate::sort::sorted_members(revs, rev_keys(revs));
    lemma_index_revs(idx, id, n, e);
    let ss = sources(recs, e.target);
    let _ = crate::sort::sorted_members(ss, id_keys(ss));
    let l = list_of(idx.reverse@, e.target);
    assert(l.contains(e.source) <==> ss.contains(e.source));
    if ss.contains(e.source) {
        assert(idx.reverse@.contains_key(e.target));
        let o = idx.reverse.order();
        let k = choose|k: int| 0 <= k < o.len() && o[k] == e.target;
        assert(idx.reverse.order()[k] == e.target);
    }
    if exists|k: int| 0 <= k < n && #[trigger] idx.reverse.order()[k] == e.target {
        assert(idx.reverse@.contains_key(e.target));
    }
}

proof fn lemma_sources_in(r: Reader, es: Seq<Seq<u8>>, x: (Seq<char>, Uuid))
    ensures
        sources_in(r, es).contains(x) <==> exists|k: int|
            0 <= k < es.len() && source_item(r, #[trigger] es[k]) == Some(x),
    decreases es.len(),
{
    if es.len() > 0 {
        let d = es.drop_last();
        lemma_sources_in(r, d, x);
        let a = sources_in(r, d);
        let all = sources_in(r, es);
        let n = es.len() - 1;
        if all.contains(x) {
            let j = choose|j: int| 0 <= j < all.len() && all[j] == x;
            if j < a.len() {
                assert(a[j] == x);
                let k = choose|k: int| 0 <= k < d.len() && source_item(r, #[trigger] d[k]) == Some(x);
                assert(source_item(r, es[k]) == Some(x));
            } else {
                assert(source_item(r, es[n]) == Some(x));
            }
        }
        if exists|k: int| 0 <= k < es.len() && source_item(r, #[trigger] es[k]) == Some(x) {
            let k = choose|k: int| 0 <= k < es.len() && source_item(r, #[trigger] es[k]) == Some(x);
            if k < n {
                assert(source_item(r, d[k]) == Some(x));
                let j = choose|j: int| 0 <= j < a.len() && a[j] == x;
                assert(all[j] == x);
            } else {
                assert(all[a.len() as int] == x);
            }
        }
    }
}

/// The source that an entry gives, with its file.
spec fn source_item(r: Reader, c: Seq<u8>) -> Option<(Seq<char>, Uuid)> {
    match with_id(r.at@.files, rev_of(c).file_id) {
        Some(i) => Some((r.at@.files[i].path, rev_of(c).source)),
        None => None,
    }
}

proof fn lemma_without_repeats(ss: Seq<(Seq<char>, Uuid)>, x: (Seq<char>, Uuid))
    ensures
        without_repeats(ss).contains(x) <==> ss.contains(x),
    decreases ss.len(),
{
    if ss.len() > 0 {
        let d = ss.drop_last();
        lemma_without_repeats(d, x);
        let a = without_repeats(d);
        let all = without_repeats(ss);
        let n = ss.len() - 1;
        if all.contains(x) {
            let j = choose|j: int| 0 <= j < all.len() && all[j] == x;
            if j < a.len() {
                assert(a[j] == x);
                let k = choose|k: int| 0 <= k < d.len() && d[k] == x;
                assert(ss[k] == x);
            } else {
                assert(ss[n] == x);
            }
        }
        if ss.contains(x) {
            let k = choose|k: int| 0 <= k < ss.len() && ss[k] == x;
            if k < n {
                assert(d[k] == x);
                let j = choose|j: int| 0 <= j < a.len() && a[j] == x;
                assert(all[j] == x);
            } else if all.len() == a.len() {
                assert(all[all.len() - 1] == x);
            } else {
                assert(all[a.len() as int] == x);
            }
        }
    }
}

/// Whether the file has a node that refers to the target, and is as it was.
pub open spec fn refers(
    r: Reader,
    scans: Seq<Scanned>,
    ts: Seq<Target>,
    i: int,
    target: Uuid,
    source: Uuid,
) -> bool {
    &&& is_current(scanned_files(scans)[i], r.now@[i])
    &&& sources(file_recs_of(ts[i].data->Ok_0@)->Ok_0, target).contains(source)
}

/// Whether strings ascend.
spec fn ascending(es: Seq<Seq<u8>>) -> bool {
    forall|k: int, l: int| 0 <= k < l < es.len() ==> bytes_le(#[trigger] es[k], #[trigger] es[l])
}

proof fn lemma_starting_ascends(es: Seq<Seq<u8>>, key: Seq<u8>)
    requires
        ascending(es),
    ensures
        ascending(starting_with(es, key)),
    decreases es.len(),
{
    if es.len() > 0 {
        let d = es.skip(1);
        assert forall|k: int, l: int| 0 <= k < l < d.len() implies bytes_le(
            #[trigger] d[k],
            #[trigger] d[l],
        ) by {
            assert(bytes_le(es[k + 1], es[l + 1]));
        }
        lemma_starting_ascends(d, key);
        let a = starting_with(d, key);
        let all = starting_with(es, key);
        assert forall|k: int, l: int| 0 <= k < l < all.len() implies bytes_le(
            #[trigger] all[k],
            #[trigger] all[l],
        ) by {
            if all.len() == a.len() {
                assert(bytes_le(a[k], a[l]));
            } else if k > 0 {
                assert(bytes_le(a[k - 1], a[l - 1]));
            } else {
                assert(a.contains(a[l - 1]));
                lemma_starting(d, key, a[l - 1]);
                let j = choose|j: int| 0 <= j < d.len() && d[j] == a[l - 1];
                assert(bytes_le(es[0], es[j + 1]));
            }
        }
    }
}

proof fn lemma_holding_ascends(r: Reader, es: Seq<Seq<u8>>, kind: Ledger)
    requires
        ascending(es),
    ensures
        ascending(holding(r, es, kind)),
    decreases es.len(),
{
    if es.len() > 0 {
        let d = es.drop_last();
        assert forall|k: int, l: int| 0 <= k < l < d.len() implies bytes_le(
            #[trigger] d[k],
            #[trigger] d[l],
        ) by {
            assert(bytes_le(es[k], es[l]));
        }
        lemma_holding_ascends(r, d, kind);
        let a = holding(r, d, kind);
        let all = holding(r, es, kind);
        assert forall|k: int, l: int| 0 <= k < l < all.len() implies bytes_le(
            #[trigger] all[k],
            #[trigger] all[l],
        ) by {
            if l < a.len() {
                assert(bytes_le(a[k], a[l]));
            } else {
                assert(a.contains(a[k]));
                lemma_holding(r, d, kind, a[k]);
                let j = choose|j: int| 0 <= j < d.len() && d[j] == a[k];
                assert(bytes_le(es[j], es[es.len() - 1]));
            }
        }
    }
}

/// Where like items stand side by side, each is left once, and the order stays.
proof fn lemma_repeats_gone(ss: Seq<(Seq<char>, Uuid)>)
    requires
        forall|k: int, m: int, l: int|
            #![trigger ss[k], ss[m], ss[l]]
            0 <= k <= m <= l < ss.len() && ss[k] == ss[l] ==> ss[m] == ss[k],
        ascending(source_keys(ss)),
    ensures
        forall|k: int, l: int|
            0 <= k < l < without_repeats(ss).len() ==> #[trigger] without_repeats(ss)[k]
                != #[trigger] without_repeats(ss)[l],
        ascending(source_keys(without_repeats(ss))),
        ss.len() > 0 ==> without_repeats(ss).len() > 0 && without_repeats(ss).last() == ss.last(),
    decreases ss.len(),
{
    if ss.len() > 0 {
        let d = ss.drop_last();
        let n = ss.len() - 1;
        let ks = source_keys(ss);
        assert forall|k: int, m: int, l: int|
            #![trigger d[k], d[m], d[l]]
            0 <= k <= m <= l < d.len() && d[k] == d[l] implies d[m] == d[k] by {
            assert(ss[k] == ss[l]);
            assert(ss[m] == ss[k]);
        }
        assert forall|k: int, l: int| 0 <= k < l < d.len() implies bytes_le(
            #[trigger] source_keys(d)[k],
            #[trigger] source_keys(d)[l],
        ) by {
            assert(bytes_le(ks[k], ks[l]));
        }
        lemma_repeats_gone(d);
        let a = without_repeats(d);
        let all = without_repeats(ss);
        if all.len() > a.len() {
            assert forall|k: int| 0 <= k < a.len() implies #[trigger] a[k] != ss[n] && bytes_le(
                a[k].1.0@,
                ss[n].1.0@,
            ) by {
                assert(a.contains(a[k]));
                lemma_without_repeats(d, a[k]);
                let j = choose|j: int| 0 <= j < d.len() && d[j] == a[k];
                assert(bytes_le(ks[j], ks[n]));
                if ss[j] == ss[n] {
                    assert(ss[n - 1] == ss[j]);
                    assert(d.last() == ss[n - 1]);
                }
            }
            assert forall|k: int, l: int| 0 <= k < l < all.len() implies #[trigger] all[k]
                != #[trigger] all[l] && bytes_le(source_keys(all)[k], source_keys(all)[l]) by {
                assert(all[k] == a[k]);
                if l < a.len() {
                    assert(all[l] == a[l]);
                    assert(bytes_le(source_keys(a)[k], source_keys(a)[l]));
                }
            }
            assert forall|k: int, l: int| 0 <= k < l < all.len() implies bytes_le(
                #[trigger] source_keys(all)[k],
                #[trigger] source_keys(all)[l],
            ) by {
                assert(all[k] != all[l]);
            }
        }
    }
}

proof fn lemma_items(r: Reader, es: Seq<Seq<u8>>)
    requires
        forall|k: int| 0 <= k < es.len() ==> source_item(r, #[trigger] es[k]) is Some,
    ensures
        sources_in(r, es).len() == es.len(),
        forall|k: int|
            0 <= k < es.len() ==> #[trigger] sources_in(r, es)[k] == source_item(r, es[k])->Some_0,
    decreases es.len(),
{
    if es.len() > 0 {
        let d = es.drop_last();
        assert forall|k: int| 0 <= k < d.len() implies source_item(r, #[trigger] d[k]) is Some by {
            assert(d[k] == es[k]);
        }
        lemma_items(r, d);
        assert(source_item(r, es[es.len() - 1]) is Some);
        assert forall|k: int| 0 <= k < es.len() implies #[trigger] sources_in(r, es)[k]
            == source_item(r, es[k])->Some_0 by {
            if k < d.len() {
                assert(sources_in(r, es)[k] == sources_in(r, d)[k]);
                assert(d[k] == es[k]);
            }
        }
    }
}

/// An entry on a reference that the blocks hold: the bytes of one, of a known file.
proof fn lemma_rev_held(
    r: Reader,
    scans: Seq<Scanned>,
    ts: Seq<Target>,
    generation: u64,
    p: Prepared,
    target: Uuid,
    c: Seq<u8>,
) -> (s: int)
    requires
        scanned_from(scans, ts, generation),
        opened_on(r, scans, generation, p),
        holding(
            r,
            starting_with(ledger_entries(scans, Ledger::Rev), target.0@),
            Ledger::Rev,
        ).contains(c),
    ensures
        0 <= s < scans.len(),
        c == rev_bytes(RevEntry { target, source: rev_of(c).source, file_id: (s + 1) as u32 }),
        source_item(r, c) == Some((ts[s].path@, rev_of(c).source)),
{
    lemma_held(r, scans, ts, generation, p, Ledger::Rev, target.0@, c);
    let s = choose|s: int|
        0 <= s < scans.len() && (#[trigger] scans[s]).entries.ledger(Ledger::Rev).contains(c);
    let m = scans[s].entries.ledger(Ledger::Rev);
    let y = choose|y: int| 0 <= y < m.len() && m[y] == c;
    let e = scans[s].entries.rev@[y];
    rev_round_trip(e);
    crate::codec::lemma_same_bytes_same_id(e.target, target);
    lemma_rev_from_scan(scans, ts, generation, s, target, c);
    lemma_row(scans, ts, generation, s);
    s
}

/// Items whose keys ascend are sorted.
proof fn lemma_already_sorted<A>(all: Seq<A>, ks: Seq<Seq<u8>>)
    requires
        all.len() == ks.len(),
        ascending(ks),
    ensures
        sorted(all, ks) == all,
{
    let same = Seq::new(ks.len(), |k: int| k);
    assert(crate::sort::is_order(ks, same)) by {
        assert forall|k: int, l: int| 0 <= k < l < same.len() implies crate::sort::goes_before(
            ks,
            #[trigger] same[k],
            #[trigger] same[l],
        ) by {
            assert(bytes_le(ks[k], ks[l]));
        }
        assert forall|x: int| 0 <= x < ks.len() implies #[trigger] same.contains(x) by {
            assert(same[x] == x);
        }
    }
    crate::sort::lemma_sorted_is(all, ks, same);
    assert(sorted(all, ks) =~= all);
}

/// The entries on references that the blocks hold ascend, and each gives a source.
proof fn lemma_entries_ascend(
    r: Reader,
    scans: Seq<Scanned>,
    ts: Seq<Target>,
    generation: u64,
    p: Prepared,
    target: Uuid,
)
    requires
        scanned_from(scans, ts, generation),
        opened_on(r, scans, generation, p),
    ensures
        ({
            let hs = holding(
                r,
                starting_with(ledger_entries(scans, Ledger::Rev), target.0@),
                Ledger::Rev,
            );
            &&& ascending(hs)
            &&& forall|k: int| 0 <= k < hs.len() ==> source_item(r, #[trigger] hs[k]) is Some
        }),
{
    let kind = Ledger::Rev;
    let g = gathered(scans, kind);
    let es = ledger_entries(scans, kind);
    let hs = holding(r, starting_with(es, target.0@), kind);
    let q = crate::sort::sorted_members(g, g);
    assert forall|k: int, l: int| 0 <= k < l < es.len() implies bytes_le(
        #[trigger] es[k],
        #[trigger] es[l],
    ) by {
        assert(es[k] == g[q[k]] && es[l] == g[q[l]]);
    }
    lemma_starting_ascends(es, target.0@);
    lemma_holding_ascends(r, starting_with(es, target.0@), kind);
    assert forall|k: int| 0 <= k < hs.len() implies source_item(r, #[trigger] hs[k]) is Some by {
        assert(hs.contains(hs[k]));
        let _ = lemma_rev_held(r, scans, ts, generation, p, target, hs[k]);
    }
}

/// The sources that the blocks give stand by id, and like ones side by side.
proof fn lemma_sources_ascend(
    r: Reader,
    scans: Seq<Scanned>,
    ts: Seq<Target>,
    generation: u64,
    p: Prepared,
    target: Uuid,
)
    requires
        scanned_from(scans, ts, generation),
        opened_on(r, scans, generation, p),
    ensures
        ({
            let hs = holding(
                r,
                starting_with(ledger_entries(scans, Ledger::Rev), target.0@),
                Ledger::Rev,
            );
            let all = sources_in(r, hs);
            let v = without_repeats(sorted(all, source_keys(all)));
            &&& forall|k: int, l: int|
                0 <= k < l < v.len() ==> #[trigger] v[k] != #[trigger] v[l] && bytes_le(
                    v[k].1.0@,
                    v[l].1.0@,
                )
        }),
{
    let hs = holding(
        r,
        starting_with(ledger_entries(scans, Ledger::Rev), target.0@),
        Ledger::Rev,
    );
    lemma_entries_ascend(r, scans, ts, generation, p, target);
    lemma_items(r, hs);
    let all = sources_in(r, hs);
    let ks = source_keys(all);
    assert forall|k: int, l: int| 0 <= k < l < ks.len() implies bytes_le(
        #[trigger] ks[k],
        #[trigger] ks[l],
    ) by {
        lemma_pair_ascends(r, scans, ts, generation, p, target, hs[k], hs[l]);
        assert(all[k] == source_item(r, hs[k])->Some_0 && all[l] == source_item(r, hs[l])->Some_0);
    }
    lemma_already_sorted(all, ks);
    assert forall|k: int, m: int, l: int|
        #![trigger all[k], all[m], all[l]]
        0 <= k <= m <= l < all.len() && all[k] == all[l] implies all[m] == all[k] by {
        assert(all[k] == source_item(r, hs[k])->Some_0 && all[l] == source_item(r, hs[l])->Some_0);
        assert(all[m] == source_item(r, hs[m])->Some_0);
        assert(hs.contains(hs[k]) && hs.contains(hs[l]));
        lemma_like_entries(r, scans, ts, generation, p, target, hs[k], hs[l]);
        if k < m < l {
            assert(bytes_le(hs[k], hs[m]) && bytes_le(hs[m], hs[l]));
            crate::sort::lemma_bytes_le_antisymmetric(hs[k], hs[m]);
        }
    }
    lemma_repeats_gone(all);
    let v = without_repeats(all);
    assert forall|k: int, l: int| 0 <= k < l < v.len() implies #[trigger] v[k] != #[trigger] v[l]
        && bytes_le(v[k].1.0@, v[l].1.0@) by {
        assert(bytes_le(source_keys(v)[k], source_keys(v)[l]));
    }
}

/// Entries on references to a node that give the same source in the same file are the same.
proof fn lemma_like_entries(
    r: Reader,
    scans: Seq<Scanned>,
    ts: Seq<Target>,
    generation: u64,
    p: Prepared,
    target: Uuid,
    c: Seq<u8>,
    d: Seq<u8>,
)
    requires
        scanned_from(scans, ts, generation),
        opened_on(r, scans, generation, p),
        ({
            let hs = holding(
                r,
                starting_with(ledger_entries(scans, Ledger::Rev), target.0@),
                Ledger::Rev,
            );
            hs.contains(c) && hs.contains(d)
        }),
        source_item(r, c)->Some_0 == source_item(r, d)->Some_0,
    ensures
        c == d,
{
    let a = lemma_rev_held(r, scans, ts, generation, p, target, c);
    let b = lemma_rev_held(r, scans, ts, generation, p, target, d);
    if a < b {
        assert(ts[a].path@ != ts[b].path@);
    } else if b < a {
        assert(ts[b].path@ != ts[a].path@);
    }
}

proof fn lemma_pair_ascends(
    r: Reader,
    scans: Seq<Scanned>,
    ts: Seq<Target>,
    generation: u64,
    p: Prepared,
    target: Uuid,
    c: Seq<u8>,
    d: Seq<u8>,
)
    requires
        scanned_from(scans, ts, generation),
        opened_on(r, scans, generation, p),
        ({
            let hs = holding(
                r,
                starting_with(ledger_entries(scans, Ledger::Rev), target.0@),
                Ledger::Rev,
            );
            hs.contains(c) && hs.contains(d)
        }),
        bytes_le(c, d),
    ensures
        bytes_le(rev_of(c).source.0@, rev_of(d).source.0@),
        source_item(r, c) is Some && source_item(r, c)->Some_0.1 == rev_of(c).source,
        source_item(r, d) is Some && source_item(r, d)->Some_0.1 == rev_of(d).source,
{
    let a = lemma_rev_held(r, scans, ts, generation, p, target, c);
    let b = lemma_rev_held(r, scans, ts, generation, p, target, d);
    let x = rev_of(c).source.0@;
    let y = rev_of(d).source.0@;
    let v = be((a + 1) as u32 as nat, 4);
    let w = be((b + 1) as u32 as nat, 4);
    assert(c =~= target.0@ + (x + v));
    assert(d =~= target.0@ + (y + w));
    crate::sort::lemma_bytes_le_parts(target.0@, x + v, target.0@, y + w);
    crate::sort::lemma_bytes_le_parts(x, v, y, w);
    crate::sort::lemma_bytes_le_reflexive(x);
}

/// The sources of a node are those that the blocks hold.
proof fn lemma_sources_are(
    r: Reader,
    scans: Seq<Scanned>,
    generation: u64,
    p: Prepared,
    target: Uuid,
) -> (hs: Seq<Seq<u8>>)
    requires
        opened_on(r, scans, generation, p),
    ensures
        hs == holding(
            r,
            starting_with(ledger_entries(scans, Ledger::Rev), target.0@),
            Ledger::Rev,
        ),
        r.sources(target) == Ok::<Seq<(Seq<char>, Uuid)>, Seq<char>>(
            without_repeats(sorted(sources_in(r, hs), source_keys(sources_in(r, hs)))),
        ),
{
    let kind = Ledger::Rev;
    let hs = holding(r, starting_with(ledger_entries(scans, kind), target.0@), kind);
    built_ledger_lookup(scans, kind, generation, p.manifest@.rev.blocks, p.rev_files@, target.0@);
    assert(r.held(kind, target.0@) == Ok::<Seq<Seq<u8>>, Seq<char>>(hs));
    assert(key_views(r.rev.log@) =~= Seq::<Seq<u8>>::empty());
    assert(r.rev.in_log(target.0@) =~= Seq::<Seq<u8>>::empty());
    assert(r.rev.in_log(target.0@) + hs =~= hs);
    hs
}

/// A reader that was opened on an index built anew finds who refers to a node: each node of
/// a file that is as it was, under that file, and no other; none twice, by id.
pub proof fn rebuilt_index_finds_references(
    r: Reader,
    scans: Seq<Scanned>,
    ts: Seq<Target>,
    generation: u64,
    p: Prepared,
    target: Uuid,
    path: Seq<char>,
    source: Uuid,
)
    requires
        scanned_from(scans, ts, generation),
        opened_on(r, scans, generation, p),
    ensures
        r.sources(target) is Ok,
        r.sources(target)->Ok_0.contains((path, source)) <==> exists|i: int|
            0 <= i < ts.len() && (#[trigger] ts[i]).path@ == path && refers(
                r,
                scans,
                ts,
                i,
                target,
                source,
            ),
        forall|k: int, l: int|
            0 <= k < l < r.sources(target)->Ok_0.len() ==> #[trigger] r.sources(target)->Ok_0[k]
                != #[trigger] r.sources(target)->Ok_0[l] && bytes_le(
                r.sources(target)->Ok_0[k].1.0@,
                r.sources(target)->Ok_0[l].1.0@,
            ),
{
    let kind = Ledger::Rev;
    let x = (path, source);
    let hs = lemma_sources_are(r, scans, generation, p, target);
    let v = r.sources(target)->Ok_0;
    assert forall|k: int, l: int| 0 <= k < l < v.len() implies #[trigger] v[k] != #[trigger] v[l]
        && bytes_le(v[k].1.0@, v[l].1.0@) by {
        lemma_sources_ascend(r, scans, ts, generation, p, target);
    }
    let all = sources_in(r, hs);
    let _ = crate::sort::sorted_members(all, source_keys(all));
    lemma_without_repeats(sorted(all, source_keys(all)), x);
    lemma_sources_in(r, hs, x);
    if all.contains(x) {
        let k = choose|k: int| 0 <= k < hs.len() && source_item(r, #[trigger] hs[k]) == Some(x);
        let c = hs[k];
        assert(hs.contains(c));
        lemma_held(r, scans, ts, generation, p, kind, target.0@, c);
        let s = choose|s: int|
            0 <= s < scans.len() && (#[trigger] scans[s]).entries.ledger(kind).contains(c);
        lemma_rev_from_scan(scans, ts, generation, s, target, c);
        lemma_row(scans, ts, generation, s);
        assert(ts[s].path@ == path);
        assert(refers(r, scans, ts, s, target, source));
    }
    if exists|i: int|
        0 <= i < ts.len() && (#[trigger] ts[i]).path@ == path && refers(
            r,
            scans,
            ts,
            i,
            target,
            source,
        ) {
        let i = choose|i: int|
            0 <= i < ts.len() && (#[trigger] ts[i]).path@ == path && refers(
                r,
                scans,
                ts,
                i,
                target,
                source,
            );
        let e = RevEntry { target, source, file_id: (i + 1) as u32 };
        let c = rev_bytes(e);
        assert(is_scan(scans[i], ts[i], generation, (i + 1) as u32));
        lemma_scan_revs(scans[i], ts[i], generation, (i + 1) as u32, e);
        let revs = scans[i].entries.rev@;
        let j = choose|j: int| 0 <= j < revs.len() && revs[j] == e;
        assert(scans[i].entries.ledger(kind)[j] == c);
        assert(scans[i].entries.ledger(kind).contains(c));
        rev_round_trip(e);
        lemma_row(scans, ts, generation, i);
        lemma_held(r, scans, ts, generation, p, kind, target.0@, c);
        let k = choose|k: int| 0 <= k < hs.len() && hs[k] == c;
        assert(source_item(r, hs[k]) == Some(x));
    }
}

proof fn lemma_rev_from_scan(
    scans: Seq<Scanned>,
    ts: Seq<Target>,
    generation: u64,
    s: int,
    target: Uuid,
    c: Seq<u8>,
)
    requires
        scanned_from(scans, ts, generation),
        0 <= s < scans.len(),
        scans[s].entries.ledger(Ledger::Rev).contains(c),
        c.take(16) == target.0@,
    ensures
        rev_of(c).file_id == s + 1,
        sources(file_recs_of(ts[s].data->Ok_0@)->Ok_0, target).contains(rev_of(c).source),
{
    let m = scans[s].entries.ledger(Ledger::Rev);
    let y = choose|y: int| 0 <= y < m.len() && m[y] == c;
    assert(is_scan(scans[s], ts[s], generation, (s + 1) as u32));
    let e = scans[s].entries.rev@[y];
    assert(scans[s].entries.rev@.contains(e));
    lemma_scan_revs(scans[s], ts[s], generation, (s + 1) as u32, e);
    rev_round_trip(e);
    crate::codec::lemma_same_bytes_same_id(e.target, target);
}

// ---------------------------------------------------------------------------
// Children
// ---------------------------------------------------------------------------

/// What a scan says of the children of a node: each with where it stands, and all filed
/// under one root, which is that of the node's own entry where it has one.
proof fn lemma_scan_rels(s: Scanned, t: Target, generation: u64, id: u32, parent: Uuid) -> (root: Uuid)
    requires
        is_scan(s, t, generation, id),
    ensures
        forall|e: RelEntry| #[trigger]
            s.entries.rel@.contains(e) && e.parent == parent ==> e.root == root && e.file_id == id
                && offspring(file_recs_of(t.data->Ok_0@)->Ok_0, parent).contains(
                (e.child, e.off, e.len),
            ),
        forall|o: (Uuid, u64, u64)| #[trigger]
            offspring(file_recs_of(t.data->Ok_0@)->Ok_0, parent).contains(o)
                ==> s.entries.rel@.contains(
                RelEntry { root, parent, child: o.0, file_id: id, off: o.1, len: o.2 },
            ),
        root == parent || exists|j: int|
            0 <= j < s.entries.loc@.len() && (#[trigger] s.entries.loc@[j]).uuid == parent
                && s.entries.loc@[j].root == root,
{
    let recs = file_recs_of(t.data->Ok_0@)->Ok_0;
    let idx = choose|idx: NodeIndex| #[trigger] indexes(idx, recs) && lists_index(s.entries, idx, id);
    let root = tree_of_parent(idx, parent);
    let all = all_children(idx);
    let rels = index_rels(idx, id);
    let _ = crate::sort::sorted_members(rels, rel_keys(rels));
    let n = idx.children.order().len();
    crate::index::lemma_children_upto(idx, n);
    let os = offspring(recs, parent);
    let _ = crate::sort::sorted_members(os, located_keys(os));
    let l = list_of(idx.children@, parent);
    assert forall|o: (Uuid, u64, u64)| #[trigger] os.contains(o) <==> l.contains(o) by {}
    assert forall|o: (Uuid, u64, u64)| #[trigger] all.contains((parent, o)) <==> l.contains(o) by {
        if l.contains(o) {
            let ord = idx.children.order();
            let k = choose|k: int| 0 <= k < ord.len() && ord[k] == parent;
            assert(idx.children.order()[k] == parent);
        }
        if all.contains((parent, o)) {
            let k = choose|k: int|
                0 <= k < n && #[trigger] idx.children.order()[k] == parent
                    && idx.children@[parent]@.contains(o);
            assert(idx.children@.contains_key(parent));
        }
    }
    assert forall|e: RelEntry| #[trigger] s.entries.rel@.contains(e) && e.parent == parent implies e.root
        == root && e.file_id == id && os.contains((e.child, e.off, e.len)) by {
        assert(rels.contains(e));
        let k = choose|k: int| 0 <= k < rels.len() && rels[k] == e;
        assert(all.contains(all[k]));
        assert(all[k] == (parent, (e.child, e.off, e.len)));
    }
    assert forall|o: (Uuid, u64, u64)| #[trigger] os.contains(o) implies s.entries.rel@.contains(
        RelEntry { root, parent, child: o.0, file_id: id, off: o.1, len: o.2 },
    ) by {
        assert(all.contains((parent, o)));
        let k = choose|k: int| 0 <= k < all.len() && all[k] == (parent, o);
        let e = RelEntry { root, parent, child: o.0, file_id: id, off: o.1, len: o.2 };
        assert(rels[k] == e);
        assert(rels.contains(e));
    }
    if idx.assign@.contains_key(parent) {
        let locs = index_locs(idx, id);
        let _ = crate::sort::sorted_members(locs, loc_keys(locs));
        let o = idx.assign.order();
        let k = choose|k: int| 0 <= k < o.len() && o[k] == parent;
        assert(locs[k].uuid == parent && locs[k].root == root);
        assert(locs.contains(locs[k]));
        let out = s.entries.loc@;
        assert(out.contains(locs[k]));
        let j = choose|j: int| 0 <= j < out.len() && out[j] == locs[k];
        assert(s.entries.loc@[j].uuid == parent);
    }
    root
}

/// Entries of children, each child once: what they had, and every child.
proof fn lemma_one_per_child(es: Seq<RelEntry>)
    ensures
        forall|e: RelEntry| #[trigger] one_per_child(es).contains(e) ==> es.contains(e),
        forall|k: int|
            0 <= k < es.len() ==> exists|j: int|
                0 <= j < one_per_child(es).len() && (#[trigger] one_per_child(es)[j]).child == (
                #[trigger] es[k]).child,
    decreases es.len(),
{
    if es.len() > 0 {
        let d = es.drop_last();
        lemma_one_per_child(d);
        let a = one_per_child(d);
        let all = one_per_child(es);
        let n = es.len() - 1;
        assert forall|e: RelEntry| #[trigger] all.contains(e) implies es.contains(e) by {
            let j = choose|j: int| 0 <= j < all.len() && all[j] == e;
            if j < a.len() {
                assert(a.contains(a[j]));
                let k = choose|k: int| 0 <= k < d.len() && d[k] == e;
                assert(es[k] == e);
            } else {
                assert(es[n] == e);
            }
        }
        assert forall|k: int| 0 <= k < es.len() implies exists|j: int|
            0 <= j < all.len() && (#[trigger] all[j]).child == (#[trigger] es[k]).child by {
            if k < n {
                assert(d[k] == es[k]);
                let j = choose|j: int| 0 <= j < a.len() && (#[trigger] a[j]).child == d[k].child;
                assert(all[j].child == es[k].child);
            } else {
                assert(all[all.len() - 1].child == es[k].child);
            }
        }
    }
}

/// The entry of a child, if it is one of a file that is as it was.
pub open spec fn is_child(
    r: Reader,
    scans: Seq<Scanned>,
    ts: Seq<Target>,
    i: int,
    parent: Uuid,
    o: (Uuid, u64, u64),
) -> bool {
    &&& 0 <= i < ts.len()
    &&& is_current(scanned_files(scans)[i], r.now@[i])
    &&& offspring(file_recs_of(ts[i].data->Ok_0@)->Ok_0, parent).contains(o)
}

/// The place of a child in a file.
pub open spec fn child_place(r: Reader, ts: Seq<Target>, i: int, o: (Uuid, u64, u64)) -> SpecPlace {
    SpecPlace {
        file: ts[i].path@,
        start: r.start_of((i + 1) as u32)->Ok_0,
        off: o.1,
        len: o.2,
    }
}

/// Whether an entry is that of a child in a file that is as it was.
#[verifier::opaque]
spec fn of_child(
    r: Reader,
    scans: Seq<Scanned>,
    ts: Seq<Target>,
    parent: Uuid,
    e: RelEntry,
) -> bool {
    &&& is_child(r, scans, ts, e.file_id - 1, parent, (e.child, e.off, e.len))
    &&& r.place((e.file_id, e.off, e.len)) == Ok::<SpecPlace, Seq<char>>(
        child_place(r, ts, e.file_id - 1, (e.child, e.off, e.len)),
    )
}

/// What is filed under a root: children of the files that are as they were, all of those
/// that have an entry under it.
proof fn lemma_rels(
    r: Reader,
    scans: Seq<Scanned>,
    ts: Seq<Target>,
    generation: u64,
    p: Prepared,
    root: Uuid,
    parent: Uuid,
)
    requires
        scanned_from(scans, ts, generation),
        opened_on(r, scans, generation, p),
        forall|k: int|
            0 <= k < scans.len() && is_current(scanned_files(scans)[k], #[trigger] r.now@[k])
                ==> r.start_of((k + 1) as u32) is Ok,
    ensures
        r.rels(root, Some(parent)) is Ok,
        forall|k: int|
            0 <= k < r.rels(root, Some(parent))->Ok_0.len() ==> of_child(
                r,
                scans,
                ts,
                parent,
                #[trigger] r.rels(root, Some(parent))->Ok_0[k],
            ),
        forall|i: int, e: RelEntry|
            0 <= i < scans.len() && is_current(scanned_files(scans)[i], r.now@[i])
                && #[trigger] scans[i].entries.rel@.contains(e) && e.root == root && e.parent == parent
                ==> exists|k: int|
                0 <= k < r.rels(root, Some(parent))->Ok_0.len() && (
                #[trigger] r.rels(root, Some(parent))->Ok_0[k]).child == e.child,
{
    let kind = Ledger::Rel;
    let key = rel_key(root, Some(parent));
    let hs = holding(r, starting_with(ledger_entries(scans, kind), key), kind);
    assert(key.len() == 32);
    built_ledger_lookup(scans, kind, generation, p.manifest@.rel.blocks, p.rel_files@, key);
    assert(r.held(kind, key) == Ok::<Seq<Seq<u8>>, Seq<char>>(hs));
    assert(key_views(r.rel.log@) =~= Seq::<Seq<u8>>::empty());
    assert(r.rel.in_log(key) =~= Seq::<Seq<u8>>::empty());
    assert(r.rel.in_log(key) + hs =~= hs);
    let all = rels_in(hs);
    let o = sorted(all, crate::ledger::child_keys(all));
    let _ = crate::sort::sorted_members(all, crate::ledger::child_keys(all));
    lemma_one_per_child(o);
    let out = r.rels(root, Some(parent))->Ok_0;
    assert(out == one_per_child(o));
    reveal(of_child);
    assert forall|k: int| 0 <= k < out.len() implies of_child(r, scans, ts, parent, #[trigger] out[k]) by {
        let e = out[k];
        assert(out.contains(e));
        assert(o.contains(e));
        assert(all.contains(e));
        let j = choose|j: int| 0 <= j < all.len() && all[j] == e;
        let c = hs[j];
        assert(hs.contains(c));
        lemma_held(r, scans, ts, generation, p, kind, key, c);
        let s = choose|s: int|
            0 <= s < scans.len() && (#[trigger] scans[s]).entries.ledger(kind).contains(c);
        lemma_rel_from_scan(scans, ts, generation, s, root, parent, c);
        lemma_row(scans, ts, generation, s);
        assert(is_current(scanned_files(scans)[s], r.now@[s]));
    }
    assert forall|i: int, e: RelEntry|
        0 <= i < scans.len() && is_current(scanned_files(scans)[i], r.now@[i])
            && #[trigger] scans[i].entries.rel@.contains(e) && e.root == root && e.parent
            == parent implies exists|k: int|
        0 <= k < out.len() && (#[trigger] out[k]).child == e.child by {
        let c = rel_bytes(e);
        rel_round_trip(e);
        assert(is_scan(scans[i], ts[i], generation, (i + 1) as u32));
        let _ = lemma_scan_rels(scans[i], ts[i], generation, (i + 1) as u32, parent);
        let rels = scans[i].entries.rel@;
        let j = choose|j: int| 0 <= j < rels.len() && rels[j] == e;
        assert(scans[i].entries.ledger(kind)[j] == c);
        assert(scans[i].entries.ledger(kind).contains(c));
        lemma_held(r, scans, ts, generation, p, kind, key, c);
        let x = choose|x: int| 0 <= x < hs.len() && hs[x] == c;
        assert(all[x] == e);
        assert(all.contains(e));
        assert(o.contains(e));
        let y = choose|y: int| 0 <= y < o.len() && o[y] == e;
        assert(o[y].child == e.child);
    }
}

proof fn lemma_rel_from_scan(
    scans: Seq<Scanned>,
    ts: Seq<Target>,
    generation: u64,
    s: int,
    root: Uuid,
    parent: Uuid,
    c: Seq<u8>,
)
    requires
        scanned_from(scans, ts, generation),
        0 <= s < scans.len(),
        scans[s].entries.ledger(Ledger::Rel).contains(c),
        c.take(32) == rel_key(root, Some(parent)),
    ensures
        rel_of(c).file_id == s + 1,
        offspring(file_recs_of(ts[s].data->Ok_0@)->Ok_0, parent).contains(
            (rel_of(c).child, rel_of(c).off, rel_of(c).len),
        ),
{
    let m = scans[s].entries.ledger(Ledger::Rel);
    let y = choose|y: int| 0 <= y < m.len() && m[y] == c;
    assert(is_scan(scans[s], ts[s], generation, (s + 1) as u32));
    let e = scans[s].entries.rel@[y];
    assert(scans[s].entries.rel@.contains(e));
    rel_round_trip(e);
    let key = rel_key(root, Some(parent));
    assert((e.root.0@ + e.parent.0@).skip(16) =~= e.parent.0@);
    assert(key.skip(16) =~= parent.0@);
    crate::codec::lemma_same_bytes_same_id(e.parent, parent);
    let _ = lemma_scan_rels(scans[s], ts[s], generation, (s + 1) as u32, parent);
}

/// The places of children that were not met before, with the entries that they come from.
proof fn lemma_child_places(r: Reader, es: Seq<RelEntry>, seen: Set<Uuid>) -> (cs: Seq<RelEntry>)
    requires
        forall|k: int|
            0 <= k < es.len() ==> r.place(
                ((#[trigger] es[k]).file_id, es[k].off, es[k].len),
            ) is Ok,
    ensures
        child_places(r, es, seen) is Ok,
        ({
            let (ps, met) = child_places(r, es, seen)->Ok_0;
            &&& ps.len() == cs.len()
            &&& forall|k: int|
                0 <= k < cs.len() ==> es.contains(#[trigger] cs[k]) && !seen.contains(cs[k].child)
                    && ps[k] == r.place((cs[k].file_id, cs[k].off, cs[k].len))->Ok_0
            &&& forall|k: int, l: int|
                0 <= k < l < cs.len() ==> (#[trigger] cs[k]).child != (#[trigger] cs[l]).child
            &&& forall|c: Uuid| #[trigger]
                met.contains(c) <==> seen.contains(c) || exists|k: int|
                    0 <= k < cs.len() && (#[trigger] cs[k]).child == c
            &&& forall|k: int| 0 <= k < es.len() ==> met.contains((#[trigger] es[k]).child)
        }),
    decreases es.len(),
{
    if es.len() == 0 {
        Seq::<RelEntry>::empty()
    } else {
        let d = es.drop_last();
        let n = es.len() - 1;
        assert forall|k: int| 0 <= k < d.len() implies r.place(
            ((#[trigger] d[k]).file_id, d[k].off, d[k].len),
        ) is Ok by {
            assert(d[k] == es[k]);
        }
        let a = lemma_child_places(r, d, seen);
        let (ps, met) = child_places(r, d, seen)->Ok_0;
        let e = es[n];
        assert(es.last() == e);
        assert forall|k: int| 0 <= k < a.len() implies es.contains(#[trigger] a[k]) by {
            let j = choose|j: int| 0 <= j < d.len() && d[j] == a[k];
            assert(es[j] == a[k]);
        }
        assert forall|k: int| 0 <= k < n implies met.contains((#[trigger] es[k]).child) by {
            assert(d[k] == es[k]);
        }
        if met.contains(e.child) {
            a
        } else {
            let cs = a.push(e);
            let now = met.insert(e.child);
            assert(es.contains(es[n]));
            assert forall|c: Uuid| #[trigger] now.contains(c) <==> seen.contains(c) || exists|k: int|
                0 <= k < cs.len() && (#[trigger] cs[k]).child == c by {
                if c == e.child {
                    assert(cs[a.len() as int].child == c);
                } else if met.contains(c) && !seen.contains(c) {
                    let k = choose|k: int| 0 <= k < a.len() && (#[trigger] a[k]).child == c;
                    assert(cs[k].child == c);
                } else if exists|k: int| 0 <= k < cs.len() && (#[trigger] cs[k]).child == c {
                    let k = choose|k: int| 0 <= k < cs.len() && (#[trigger] cs[k]).child == c;
                    assert(a[k].child == c);
                }
            }
            assert forall|k: int, l: int| 0 <= k < l < cs.len() implies (#[trigger] cs[k]).child != (
            #[trigger] cs[l]).child by {
                if l == a.len() {
                    assert(a[k].child == cs[k].child);
                    assert(met.contains(a[k].child));
                }
            }
            cs
        }
    }
}

/// Children that were met, and then others: none is there twice.
proof fn lemma_met(a: Seq<RelEntry>, b: Seq<RelEntry>, met: Set<Uuid>, now: Set<Uuid>)
    requires
        forall|k: int, l: int|
            0 <= k < l < a.len() ==> (#[trigger] a[k]).child != (#[trigger] a[l]).child,
        forall|k: int, l: int|
            0 <= k < l < b.len() ==> (#[trigger] b[k]).child != (#[trigger] b[l]).child,
        forall|k: int| 0 <= k < b.len() ==> !met.contains((#[trigger] b[k]).child),
        forall|c: Uuid| #[trigger]
            met.contains(c) <==> exists|k: int| 0 <= k < a.len() && (#[trigger] a[k]).child == c,
        forall|c: Uuid| #[trigger]
            now.contains(c) <==> met.contains(c) || exists|k: int|
                0 <= k < b.len() && (#[trigger] b[k]).child == c,
    ensures
        forall|k: int, l: int|
            0 <= k < l < (a + b).len() ==> (#[trigger] (a + b)[k]).child != (
            #[trigger] (a + b)[l]).child,
        forall|c: Uuid| #[trigger]
            now.contains(c) <==> exists|k: int|
                0 <= k < (a + b).len() && (#[trigger] (a + b)[k]).child == c,
{
    let cs = a + b;
    assert forall|k: int, l: int| 0 <= k < l < cs.len() implies (#[trigger] cs[k]).child != (
    #[trigger] cs[l]).child by {
        if l < a.len() {
            assert(cs[k] == a[k] && cs[l] == a[l]);
        } else if k >= a.len() {
            assert(cs[k] == b[k - a.len()] && cs[l] == b[l - a.len()]);
        } else {
            assert(cs[k] == a[k] && cs[l] == b[l - a.len()]);
            assert(met.contains(a[k].child));
        }
    }
    assert forall|c: Uuid| #[trigger] now.contains(c) <==> exists|k: int|
        0 <= k < cs.len() && (#[trigger] cs[k]).child == c by {
        if met.contains(c) {
            let k = choose|k: int| 0 <= k < a.len() && (#[trigger] a[k]).child == c;
            assert(cs[k].child == c);
        } else if now.contains(c) {
            let k = choose|k: int| 0 <= k < b.len() && (#[trigger] b[k]).child == c;
            assert(cs[a.len() + k].child == c);
        }
        if exists|k: int| 0 <= k < cs.len() && (#[trigger] cs[k]).child == c {
            let k = choose|k: int| 0 <= k < cs.len() && (#[trigger] cs[k]).child == c;
            if k < a.len() {
                assert(a[k].child == c);
                assert(met.contains(c));
            } else {
                assert(b[k - a.len()].child == c);
            }
        }
    }
}

/// The children in trees, with the entries that they come from.
proof fn lemma_children_in(
    r: Reader,
    scans: Seq<Scanned>,
    ts: Seq<Target>,
    generation: u64,
    p: Prepared,
    roots: Seq<Uuid>,
    parent: Uuid,
) -> (cs: Seq<RelEntry>)
    requires
        scanned_from(scans, ts, generation),
        opened_on(r, scans, generation, p),
        forall|k: int|
            0 <= k < scans.len() && is_current(scanned_files(scans)[k], #[trigger] r.now@[k])
                ==> r.start_of((k + 1) as u32) is Ok,
    ensures
        children_in(r, roots, parent) is Ok,
        ({
            let (ps, met) = children_in(r, roots, parent)->Ok_0;
            &&& ps.len() == cs.len()
            &&& forall|k: int|
                0 <= k < cs.len() ==> of_child(r, scans, ts, parent, #[trigger] cs[k]) && ps[k]
                    == r.place((cs[k].file_id, cs[k].off, cs[k].len))->Ok_0
            &&& forall|k: int, l: int|
                0 <= k < l < cs.len() ==> (#[trigger] cs[k]).child != (#[trigger] cs[l]).child
            &&& forall|c: Uuid| #[trigger]
                met.contains(c) <==> exists|k: int| 0 <= k < cs.len() && (#[trigger] cs[k]).child == c
            &&& forall|i: int, e: RelEntry|
                0 <= i < scans.len() && is_current(scanned_files(scans)[i], r.now@[i])
                    && #[trigger] scans[i].entries.rel@.contains(e) && roots.contains(e.root)
                    && e.parent == parent ==> met.contains(e.child)
        }),
    decreases roots.len(),
{
    if roots.len() == 0 {
        Seq::<RelEntry>::empty()
    } else {
        let d = roots.drop_last();
        let root = roots.last();
        let a = lemma_children_in(r, scans, ts, generation, p, d, parent);
        let (ps, met) = children_in(r, d, parent)->Ok_0;
        lemma_rels(r, scans, ts, generation, p, root, parent);
        let es = r.rels(root, Some(parent))->Ok_0;
        assert forall|k: int| 0 <= k < es.len() implies r.place(
            ((#[trigger] es[k]).file_id, es[k].off, es[k].len),
        ) is Ok by {
            reveal(of_child);
            assert(of_child(r, scans, ts, parent, es[k]));
        }
        let b = lemma_child_places(r, es, met);
        let cs = a + b;
        let (more, now) = child_places(r, es, met)->Ok_0;
        assert(children_in(r, roots, parent)->Ok_0 == (ps + more, now));
        assert forall|k: int| 0 <= k < cs.len() implies of_child(r, scans, ts, parent, #[trigger] cs[k])
            && (ps + more)[k] == r.place((cs[k].file_id, cs[k].off, cs[k].len))->Ok_0 by {
            if k < a.len() {
                assert(cs[k] == a[k]);
            } else {
                let x = b[k - a.len()];
                assert(es.contains(x));
                let j = choose|j: int| 0 <= j < es.len() && es[j] == x;
                assert(of_child(r, scans, ts, parent, es[j]));
            }
        }
        lemma_met(a, b, met, now);
        assert forall|i: int, e: RelEntry|
            0 <= i < scans.len() && is_current(scanned_files(scans)[i], r.now@[i])
                && #[trigger] scans[i].entries.rel@.contains(e) && roots.contains(e.root)
                && e.parent == parent implies now.contains(e.child) by {
            let x = choose|x: int| 0 <= x < roots.len() && roots[x] == e.root;
            if x < d.len() {
                assert(d[x] == e.root);
                assert(d.contains(e.root));
                assert(met.contains(e.child));
            } else {
                let k = choose|k: int| 0 <= k < es.len() && (#[trigger] es[k]).child == e.child;
                assert(now.contains(es[k].child));
            }
        }
        cs
    }
}

proof fn lemma_first_ids(ids: Seq<Uuid>, id: Uuid)
    ensures
        first_ids(ids).contains(id) <==> ids.contains(id),
    decreases ids.len(),
{
    if ids.len() > 0 {
        let d = ids.drop_last();
        lemma_first_ids(d, id);
        let a = first_ids(d);
        let all = first_ids(ids);
        if all.contains(id) {
            let k = choose|k: int| 0 <= k < all.len() && all[k] == id;
            if k < a.len() {
                assert(a[k] == id);
                let j = choose|j: int| 0 <= j < d.len() && d[j] == id;
                assert(ids[j] == id);
            } else {
                assert(ids[ids.len() - 1] == id);
            }
        }
        if ids.contains(id) {
            let j = choose|j: int| 0 <= j < ids.len() && ids[j] == id;
            if j < d.len() {
                assert(d[j] == id);
            }
            if d.contains(id) {
                let k = choose|k: int| 0 <= k < a.len() && a[k] == id;
                assert(all[k] == id);
            } else {
                assert(all[a.len() as int] == id);
            }
        }
    }
}

/// The roots under which children are filed: the node itself, and each that an entry of
/// the node in a file that is as it was gives.
proof fn lemma_filing_roots(
    r: Reader,
    scans: Seq<Scanned>,
    ts: Seq<Target>,
    generation: u64,
    p: Prepared,
    parent: Uuid,
)
    requires
        scanned_from(scans, ts, generation),
        opened_on(r, scans, generation, p),
    ensures
        r.filing_roots(parent) is Ok,
        r.filing_roots(parent)->Ok_0.contains(parent),
        forall|i: int, j: int|
            0 <= i < scans.len() && is_current(scanned_files(scans)[i], r.now@[i]) && 0 <= j
                < scans[i].entries.loc@.len() && (#[trigger] scans[i].entries.loc@[j]).uuid == parent
                ==> r.filing_roots(parent)->Ok_0.contains(scans[i].entries.loc@[j].root),
{
    let es = starting_with(ledger_entries(scans, Ledger::Loc), parent.0@);
    let hs = holding(r, es, Ledger::Loc);
    built_ledger_lookup(
        scans,
        Ledger::Loc,
        generation,
        p.manifest@.loc.blocks,
        p.loc_files@,
        parent.0@,
    );
    assert(r.held(Ledger::Loc, parent.0@) == Ok::<Seq<Seq<u8>>, Seq<char>>(hs));
    assert(key_views(r.loc.log@) =~= Seq::<Seq<u8>>::empty());
    assert(r.loc.in_log(parent.0@) =~= Seq::<Seq<u8>>::empty());
    assert(of_fresh(r, r.loc.in_log(parent.0@)) =~= Seq::<Seq<u8>>::empty());
    let ids = roots_in(hs) + roots_in(of_fresh(r, r.loc.in_log(parent.0@)));
    assert(ids =~= roots_in(hs));
    let roots = first_ids(ids);
    let out = r.filing_roots(parent)->Ok_0;
    assert(r.tree_roots(parent) == Ok::<Seq<Uuid>, Seq<char>>(roots));
    assert(out.contains(parent)) by {
        if !roots.contains(parent) {
            assert(out[roots.len() as int] == parent);
        }
    }
    assert forall|i: int, j: int|
        0 <= i < scans.len() && is_current(scanned_files(scans)[i], r.now@[i]) && 0 <= j
            < scans[i].entries.loc@.len() && (#[trigger] scans[i].entries.loc@[j]).uuid
            == parent implies out.contains(scans[i].entries.loc@[j].root) by {
        let e = scans[i].entries.loc@[j];
        let c = loc_bytes(e);
        assert(scans[i].entries.ledger(Ledger::Loc)[j] == c);
        assert(scans[i].entries.ledger(Ledger::Loc).contains(c));
        let o = lemma_from_scan(scans, ts, generation, i, c);
        loc_round_trip(e);
        lemma_entry(r, scans, ts, generation, p, parent, c);
        assert(speaks(r, scans, parent, c));
        let k = choose|k: int| 0 <= k < hs.len() && hs[k] == c;
        assert(ids[k] == e.root);
        assert(ids.contains(e.root));
        lemma_first_ids(ids, e.root);
        let x = choose|x: int| 0 <= x < roots.len() && roots[x] == e.root;
        assert(out[x] == e.root);
    }
}

/// A reader that was opened on an index built anew finds the children of a node in all
/// files that are as they were, also in those that have children of it but not the node:
/// each child once, in a file that has it below the node.
pub proof fn rebuilt_index_finds_children(
    r: Reader,
    scans: Seq<Scanned>,
    ts: Seq<Target>,
    generation: u64,
    p: Prepared,
    parent: Uuid,
) -> (cs: Seq<(int, (Uuid, u64, u64))>)
    requires
        scanned_from(scans, ts, generation),
        opened_on(r, scans, generation, p),
        forall|k: int|
            0 <= k < scans.len() && is_current(scanned_files(scans)[k], #[trigger] r.now@[k])
                ==> r.start_of((k + 1) as u32) is Ok,
    ensures
        r.children_found(parent) is Ok,
        r.children_found(parent)->Ok_0.len() == cs.len(),
        forall|k: int|
            0 <= k < cs.len() ==> is_child(r, scans, ts, (#[trigger] cs[k]).0, parent, cs[k].1)
                && r.children_found(parent)->Ok_0[k] == child_place(r, ts, cs[k].0, cs[k].1),
        forall|k: int, l: int|
            0 <= k < l < cs.len() ==> (#[trigger] cs[k]).1.0 != (#[trigger] cs[l]).1.0,
        forall|i: int, o: (Uuid, u64, u64)| #[trigger]
            is_child(r, scans, ts, i, parent, o) ==> exists|k: int|
                0 <= k < cs.len() && (#[trigger] cs[k]).1.0 == o.0,
{
    lemma_filing_roots(r, scans, ts, generation, p, parent);
    let roots = r.filing_roots(parent)->Ok_0;
    let es = lemma_children_in(r, scans, ts, generation, p, roots, parent);
    let (ps, met) = children_in(r, roots, parent)->Ok_0;
    let cs = Seq::new(es.len(), |k: int| (es[k].file_id - 1, (es[k].child, es[k].off, es[k].len)));
    assert forall|k: int| 0 <= k < cs.len() implies is_child(
        r,
        scans,
        ts,
        (#[trigger] cs[k]).0,
        parent,
        cs[k].1,
    ) && ps[k] == child_place(r, ts, cs[k].0, cs[k].1) by {
        reveal(of_child);
        assert(of_child(r, scans, ts, parent, es[k]));
    }
    assert forall|k: int, l: int| 0 <= k < l < cs.len() implies (#[trigger] cs[k]).1.0 != (
    #[trigger] cs[l]).1.0 by {
        assert(es[k].child != es[l].child);
    }
    assert forall|i: int, o: (Uuid, u64, u64)| #[trigger]
        is_child(r, scans, ts, i, parent, o) implies exists|k: int|
        0 <= k < cs.len() && (#[trigger] cs[k]).1.0 == o.0 by {
        assert(is_scan(scans[i], ts[i], generation, (i + 1) as u32));
        let root = lemma_scan_rels(scans[i], ts[i], generation, (i + 1) as u32, parent);
        let e = RelEntry {
            root,
            parent,
            child: o.0,
            file_id: (i + 1) as u32,
            off: o.1,
            len: o.2,
        };
        assert(scans[i].entries.rel@.contains(e));
        if root != parent {
            let j = choose|j: int|
                0 <= j < scans[i].entries.loc@.len() && (#[trigger] scans[i].entries.loc@[j]).uuid
                    == parent && scans[i].entries.loc@[j].root == root;
            assert(roots.contains(scans[i].entries.loc@[j].root));
        }
        assert(met.contains(e.child));
        let k = choose|k: int| 0 <= k < es.len() && (#[trigger] es[k]).child == o.0;
        assert(cs[k].1.0 == o.0);
    }
    cs
}

} // verus!
