//! What an update of an index of a workspace comes to: the files that changed are indexed
//! anew, those that are gone are taken out, and all that is left is as it was indexed.
use crate::codec::Uuid;
use crate::index::{assigned, file_recs_of, indexes, NodeIndex, SpecRec};
use crate::sort::sorted;
use crate::wsidx::{dropped_ids, file_indexed, files_with, index_locs, is_current, kept_files,
    lists_file, lists_index, loc_keys, number_for, standing_keys, standings, wanting, with_id,
    with_path, FileEntries, Print, SpecFile, SpecManifest, SpecStatus};
use vstd::prelude::*;

verus! {

/// What is on disk: the prints of the files that are there.
pub type Disk = spec_fn(Seq<char>) -> Option<Print>;

/// Whether no path and no number is in a table twice.
pub open spec fn no_twice(fs: Seq<SpecFile>) -> bool {
    &&& forall|i: int, j: int|
        0 <= i < j < fs.len() ==> (#[trigger] fs[i]).path != (#[trigger] fs[j]).path
    &&& forall|i: int, j: int|
        0 <= i < j < fs.len() ==> (#[trigger] fs[i]).id != (#[trigger] fs[j]).id
}

/// The prints of the files of a table.
pub open spec fn prints_of(fs: Seq<SpecFile>, disk: Disk) -> Seq<Option<Print>> {
    Seq::new(fs.len(), |i: int| disk(fs[i].path))
}

/// Which files of a table are there.
pub open spec fn there(fs: Seq<SpecFile>, disk: Disk) -> Seq<bool> {
    Seq::new(fs.len(), |i: int| disk(fs[i].path) is Some)
}

/// The paths that an update indexes anew.
pub open spec fn renewed(fs: Seq<SpecFile>, disk: Disk) -> Seq<Seq<char>> {
    let s = standings(fs, prints_of(fs, disk), there(fs, disk));
    wanting(sorted(s, standing_keys(s)))
}

proof fn lemma_wanting(s: Seq<SpecStatus>, path: Seq<char>)
    ensures
        wanting(s).contains(path) <==> exists|i: int|
            0 <= i < s.len() && (#[trigger] s[i]).path == path && s[i].exists && !s[i].fresh,
    decreases s.len(),
{
    if s.len() > 0 {
        let d = s.drop_last();
        lemma_wanting(d, path);
        let a = wanting(d);
        let all = wanting(s);
        let n = s.len() - 1;
        if all.contains(path) {
            let k = choose|k: int| 0 <= k < all.len() && all[k] == path;
            if k < a.len() {
                assert(a[k] == path);
                let i = choose|i: int|
                    0 <= i < d.len() && (#[trigger] d[i]).path == path && d[i].exists
                        && !d[i].fresh;
                assert(s[i].path == path);
            } else {
                assert(s[n].path == path);
            }
        }
        if exists|i: int|
            0 <= i < s.len() && (#[trigger] s[i]).path == path && s[i].exists && !s[i].fresh {
            let i = choose|i: int|
                0 <= i < s.len() && (#[trigger] s[i]).path == path && s[i].exists && !s[i].fresh;
            if i < n {
                assert(d[i].path == path);
                let k = choose|k: int| 0 <= k < a.len() && a[k] == path;
                assert(all[k] == path);
            } else {
                assert(all[a.len() as int] == path);
            }
        }
    }
}

/// An update indexes exactly the files of the table that are there and are not as they
/// were when they were indexed.
pub proof fn update_takes_changed_files(fs: Seq<SpecFile>, disk: Disk, path: Seq<char>)
    ensures
        renewed(fs, disk).contains(path) <==> exists|i: int|
            0 <= i < fs.len() && (#[trigger] fs[i]).path == path && disk(path) is Some
                && !is_current(fs[i], disk(path)),
{
    let s = standings(fs, prints_of(fs, disk), there(fs, disk));
    let o = sorted(s, standing_keys(s));
    let _ = crate::sort::sorted_members(s, standing_keys(s));
    lemma_wanting(o, path);
    if exists|i: int|
        0 <= i < o.len() && (#[trigger] o[i]).path == path && o[i].exists && !o[i].fresh {
        let i = choose|i: int|
            0 <= i < o.len() && (#[trigger] o[i]).path == path && o[i].exists && !o[i].fresh;
        assert(o.contains(o[i]));
        let k = choose|k: int| 0 <= k < s.len() && s[k] == o[i];
        assert(fs[k].path == path);
    }
    if exists|i: int|
        0 <= i < fs.len() && (#[trigger] fs[i]).path == path && disk(path) is Some && !is_current(
            fs[i],
            disk(path),
        ) {
        let i = choose|i: int|
            0 <= i < fs.len() && (#[trigger] fs[i]).path == path && disk(path) is Some
                && !is_current(fs[i], disk(path));
        assert(s.contains(s[i]));
        assert(o.contains(s[i]));
        let k = choose|k: int| 0 <= k < o.len() && o[k] == s[i];
        assert(o[k].path == path);
    }
}

/// Whether each table is the one before it once a file was indexed anew: those with the
/// paths, one after the other, with their prints.
pub open spec fn renewal(ms: Seq<SpecManifest>, paths: Seq<Seq<char>>, disk: Disk) -> bool {
    &&& ms.len() == paths.len() + 1
    &&& forall|k: int|
        0 <= k < paths.len() ==> exists|count: nat, rec: SpecFile| #[trigger]
            file_indexed(ms[k], ms[k + 1], #[trigger] paths[k], disk(paths[k])->Some_0, count, rec)
}

/// Whether a table has the files of another, those with the paths as they are on disk and
/// the others as they were.
pub open spec fn renewed_for(
    fs: Seq<SpecFile>,
    gs: Seq<SpecFile>,
    paths: Seq<Seq<char>>,
    disk: Disk,
) -> bool {
    &&& gs.len() == fs.len()
    &&& forall|i: int|
        0 <= i < fs.len() ==> {
            &&& (#[trigger] gs[i]).path == fs[i].path
            &&& gs[i].id == fs[i].id
            &&& if paths.contains(fs[i].path) {
                is_current(gs[i], disk(fs[i].path))
            } else {
                gs[i] == fs[i]
            }
        }
}

proof fn lemma_one_renewed(
    fs: Seq<SpecFile>,
    m: SpecManifest,
    u: SpecManifest,
    done: Seq<Seq<char>>,
    disk: Disk,
    path: Seq<char>,
    count: nat,
    rec: SpecFile,
    at: int,
)
    requires
        no_twice(fs),
        renewed_for(fs, m.files, done, disk),
        file_indexed(m, u, path, disk(path)->Some_0, count, rec),
        disk(path) is Some,
        0 <= at < fs.len(),
        fs[at].path == path,
    ensures
        renewed_for(fs, u.files, done.push(path), disk),
{
    let print = disk(path)->Some_0;
    assert(m.files[at].path == path);
    crate::wsidx::lemma_with_path(m.files, path);
    let i = with_path(m.files, path)->Some_0;
    assert(m.files[i].path == fs[i].path);
    assert(i == at);
    let id = number_for(m, path);
    crate::wsidx::lemma_with_id(m.files, id);
    let j = with_id(m.files, id)->Some_0;
    assert(m.files[j].id == fs[j].id && m.files[at].id == fs[at].id);
    assert(j == at);
    assert(files_with(m, path, print) == m.files);
    let more = done.push(path);
    assert(u.files == m.files.update(at, rec));
    assert forall|k: int| 0 <= k < fs.len() implies {
        &&& (#[trigger] u.files[k]).path == fs[k].path
        &&& u.files[k].id == fs[k].id
        &&& if more.contains(fs[k].path) {
            is_current(u.files[k], disk(fs[k].path))
        } else {
            u.files[k] == fs[k]
        }
    } by {
        assert(m.files[k].path == fs[k].path);
        if k == at {
            assert(more[done.len() as int] == path);
        } else {
            assert(fs[k].path != path);
            if more.contains(fs[k].path) {
                let x = choose|x: int| 0 <= x < more.len() && more[x] == fs[k].path;
                assert(done[x] == fs[k].path);
            }
            if done.contains(fs[k].path) {
                let x = choose|x: int| 0 <= x < done.len() && done[x] == fs[k].path;
                assert(more[x] == fs[k].path);
            }
        }
    }
}

proof fn lemma_all_renewed(
    fs: Seq<SpecFile>,
    ms: Seq<SpecManifest>,
    paths: Seq<Seq<char>>,
    disk: Disk,
    k: int,
)
    requires
        no_twice(fs),
        renewal(ms, paths, disk),
        ms[0].files == fs,
        0 <= k <= paths.len(),
        forall|j: int|
            0 <= j < paths.len() ==> disk(#[trigger] paths[j]) is Some && exists|i: int|
                0 <= i < fs.len() && (#[trigger] fs[i]).path == paths[j],
    ensures
        renewed_for(fs, ms[k].files, paths.take(k), disk),
    decreases k,
{
    if k > 0 {
        lemma_all_renewed(fs, ms, paths, disk, k - 1);
        let path = paths[k - 1];
        let (count, rec) = choose|count: nat, rec: SpecFile| #[trigger]
            file_indexed(ms[k - 1], ms[k - 1 + 1], path, disk(path)->Some_0, count, rec);
        let at = choose|i: int| 0 <= i < fs.len() && (#[trigger] fs[i]).path == path;
        lemma_one_renewed(
            fs,
            ms[k - 1],
            ms[k],
            paths.take(k - 1),
            disk,
            path,
            count,
            rec,
            at,
        );
        assert(paths.take(k) =~= paths.take(k - 1).push(path));
    }
}

proof fn lemma_kept(fs: Seq<SpecFile>, keep: Seq<bool>, f: SpecFile)
    ensures
        kept_files(fs, keep).contains(f) <==> exists|i: int|
            0 <= i < fs.len() && #[trigger] fs[i] == f && keep[i],
    decreases fs.len(),
{
    if fs.len() > 0 {
        let d = fs.drop_last();
        lemma_kept(d, keep, f);
        let a = kept_files(d, keep);
        let all = kept_files(fs, keep);
        let n = fs.len() - 1;
        if all.contains(f) {
            let k = choose|k: int| 0 <= k < all.len() && all[k] == f;
            if k < a.len() {
                assert(a[k] == f);
                let i = choose|i: int| 0 <= i < d.len() && #[trigger] d[i] == f && keep[i];
                assert(fs[i] == f);
            } else {
                assert(fs[n] == f);
            }
        }
        if exists|i: int| 0 <= i < fs.len() && #[trigger] fs[i] == f && keep[i] {
            let i = choose|i: int| 0 <= i < fs.len() && #[trigger] fs[i] == f && keep[i];
            if i < n {
                assert(d[i] == f);
                let k = choose|k: int| 0 <= k < a.len() && a[k] == f;
                assert(all[k] == f);
            } else {
                assert(all[a.len() as int] == f);
            }
        }
    }
}

/// After an update, which indexes the changed files anew and then takes the missing ones
/// out, the table has exactly the files that are there; each is as it is on disk, and one
/// that had not changed has the record that it had.
pub proof fn update_leaves_all_fresh(
    ms: Seq<SpecManifest>,
    disk: Disk,
    left: Seq<SpecFile>,
    path: Seq<char>,
)
    requires
        ms.len() > 0,
        no_twice(ms[0].files),
        renewal(ms, renewed(ms[0].files, disk), disk),
        left == kept_files(ms.last().files, there(ms.last().files, disk)),
    ensures
        forall|f: SpecFile| #[trigger] left.contains(f) ==> is_current(f, disk(f.path)),
        (exists|f: SpecFile| #[trigger] left.contains(f) && f.path == path) <==> disk(path) is Some
            && exists|i: int| 0 <= i < ms[0].files.len() && (#[trigger] ms[0].files[i]).path == path,
        forall|i: int|
            0 <= i < ms[0].files.len() && is_current(
                #[trigger] ms[0].files[i],
                disk(ms[0].files[i].path),
            ) ==> left.contains(ms[0].files[i]),
{
    let fs = ms[0].files;
    let paths = renewed(fs, disk);
    let n = paths.len() as int;
    let gs = ms.last().files;
    let keep = there(gs, disk);
    assert forall|j: int| 0 <= j < paths.len() implies disk(#[trigger] paths[j]) is Some && exists|
        i: int,
    | 0 <= i < fs.len() && (#[trigger] fs[i]).path == paths[j] by {
        assert(paths.contains(paths[j]));
        update_takes_changed_files(fs, disk, paths[j]);
    }
    lemma_all_renewed(fs, ms, paths, disk, n);
    assert(paths.take(n) =~= paths);
    assert forall|f: SpecFile| #[trigger] left.contains(f) implies is_current(f, disk(f.path)) by {
        lemma_kept(gs, keep, f);
        let i = choose|i: int| 0 <= i < gs.len() && #[trigger] gs[i] == f && keep[i];
        assert(gs[i].path == fs[i].path);
        update_takes_changed_files(fs, disk, fs[i].path);
    }
    if exists|f: SpecFile| #[trigger] left.contains(f) && f.path == path {
        let f = choose|f: SpecFile| #[trigger] left.contains(f) && f.path == path;
        lemma_kept(gs, keep, f);
        let i = choose|i: int| 0 <= i < gs.len() && #[trigger] gs[i] == f && keep[i];
        assert(gs[i].path == fs[i].path);
        assert(fs[i].path == path);
    }
    if disk(path) is Some && exists|i: int| 0 <= i < fs.len() && (#[trigger] fs[i]).path == path {
        let i = choose|i: int| 0 <= i < fs.len() && (#[trigger] fs[i]).path == path;
        assert(gs[i].path == path);
        lemma_kept(gs, keep, gs[i]);
        assert(left.contains(gs[i]));
    }
    assert forall|i: int|
        0 <= i < fs.len() && is_current(#[trigger] fs[i], disk(fs[i].path)) implies left.contains(
        fs[i],
    ) by {
        update_takes_changed_files(fs, disk, fs[i].path);
        if paths.contains(fs[i].path) {
            let k = choose|k: int|
                0 <= k < fs.len() && (#[trigger] fs[k]).path == fs[i].path && !is_current(
                    fs[k],
                    disk(fs[i].path),
                );
            if k < i {
                assert(fs[k].path != fs[i].path);
            } else if i < k {
                assert(fs[i].path != fs[k].path);
            }
        }
        assert(gs[i] == fs[i]);
        lemma_kept(gs, keep, fs[i]);
    }
}

// ---------------------------------------------------------------------------
// The numbers of an update
// ---------------------------------------------------------------------------

/// How many of the items are of a kind.
pub open spec fn how_many<A>(s: Seq<A>, p: spec_fn(A) -> bool) -> nat
    decreases s.len(),
{
    if s.len() == 0 {
        0
    } else {
        how_many(s.drop_last(), p) + (if p(s.last()) {
            1nat
        } else {
            0
        })
    }
}

/// The sum of numbers.
pub open spec fn total(s: Seq<nat>) -> nat
    decreases s.len(),
{
    if s.len() == 0 {
        0
    } else {
        total(s.drop_last()) + s.last()
    }
}

proof fn lemma_how_many<A>(s: Seq<A>, p: spec_fn(A) -> bool)
    ensures
        how_many(s, p) == s.to_multiset().filter(p).len(),
    decreases s.len(),
{
    broadcast use vstd::seq_lib::group_to_multiset_ensures;
    broadcast use vstd::multiset::group_multiset_axioms;

    if s.len() == 0 {
        assert(s.to_multiset().filter(p) =~= vstd::multiset::Multiset::<A>::empty());
    } else {
        let d = s.drop_last();
        let x = s.last();
        lemma_how_many(d, p);
        assert(d.push(x) =~= s);
        let m = d.to_multiset();
        assert(s.to_multiset() =~= m.insert(x));
        if p(x) {
            assert(m.insert(x).filter(p) =~= m.filter(p).insert(x));
        } else {
            assert(m.insert(x).filter(p) =~= m.filter(p));
        }
    }
}

/// Sorting changes no number.
proof fn lemma_sorted_as_many<A>(s: Seq<A>, keys: Seq<Seq<u8>>, p: spec_fn(A) -> bool)
    requires
        s.len() == keys.len(),
    ensures
        how_many(sorted(s, keys), p) == how_many(s, p),
{
    let q = crate::sort::sorted_is_in_order(s, keys);
    crate::sort::ordered_members(s, keys, sorted(s, keys));
    lemma_how_many(s, p);
    lemma_how_many(sorted(s, keys), p);
}

proof fn lemma_wanting_len(s: Seq<SpecStatus>)
    ensures
        wanting(s).len() == how_many(s, |x: SpecStatus| x.exists && !x.fresh),
    decreases s.len(),
{
    if s.len() > 0 {
        lemma_wanting_len(s.drop_last());
    }
}

proof fn lemma_dropped_len(fs: Seq<SpecFile>, disk: Disk, now: Seq<Option<Print>>, here: Seq<bool>)
    requires
        here.len() >= fs.len(),
        forall|i: int| 0 <= i < fs.len() ==> #[trigger] here[i] == (disk(fs[i].path) is Some),
    ensures
        dropped_ids(fs, here).len() == how_many(
            standings(fs, now, here),
            |x: SpecStatus| !x.exists,
        ),
    decreases fs.len(),
{
    let s = standings(fs, now, here);
    if fs.len() > 0 {
        let d = fs.drop_last();
        lemma_dropped_len(d, disk, now, here);
        assert(s.drop_last() =~= standings(d, now, here));
        assert(s.last().exists == here[fs.len() - 1]);
    }
}

/// The ids that a file has.
pub open spec fn ids_in(recs: Seq<SpecRec>) -> Set<Uuid> {
    recs.map_values(|r: SpecRec| r.id).to_set()
}

proof fn lemma_assigned_ids(recs: Seq<SpecRec>, k: nat, id: Uuid)
    requires
        k <= recs.len(),
    ensures
        assigned(recs, k).contains_key(id) <==> exists|x: int|
            0 <= x < k && (#[trigger] recs[x]).id == id,
    decreases k,
{
    if k > 0 {
        lemma_assigned_ids(recs, (k - 1) as nat, id);
        if recs[k - 1].id == id {
            assert(assigned(recs, k).contains_key(id));
        }
    }
}

/// The entries of a file say where each of its ids is, once.
pub proof fn a_file_counts_its_ids(e: FileEntries, recs: Seq<SpecRec>, number: u32)
    requires
        lists_file(e, recs, number),
    ensures
        e.loc@.len() == ids_in(recs).len(),
{
    let idx = choose|idx: NodeIndex| #[trigger] indexes(idx, recs) && lists_index(e, idx, number);
    let locs = index_locs(idx, number);
    let _ = crate::sort::sorted_members(locs, loc_keys(locs));
    let o = idx.assign.order();
    let ids = recs.map_values(|r: SpecRec| r.id);
    assert forall|id: Uuid| #[trigger] o.to_set().contains(id) <==> ids.to_set().contains(id) by {
        lemma_assigned_ids(recs, recs.len(), id);
        assert(o.to_set().contains(id) <==> idx.assign@.contains_key(id));
        if ids.contains(id) {
            let x = choose|x: int| 0 <= x < ids.len() && ids[x] == id;
            assert(recs[x].id == id);
        }
        if idx.assign@.contains_key(id) {
            let x = choose|x: int| 0 <= x < recs.len() && (#[trigger] recs[x]).id == id;
            assert(ids[x] == id);
        }
    }
    assert(o.to_set() =~= ids.to_set());
    assert(o.no_duplicates()) by {
        assert forall|k: int, l: int| 0 <= k < o.len() && 0 <= l < o.len() && k != l implies o[k]
            != o[l] by {
            if k < l {
                assert(idx.assign.order()[k] != idx.assign.order()[l]);
            } else {
                assert(idx.assign.order()[l] != idx.assign.order()[k]);
            }
        }
    }
    o.unique_seq_to_set();
}

/// Whether each table is the one before it once a file was indexed anew, with the entries
/// of the bytes that the file has.
pub open spec fn renewal_of(
    ms: Seq<SpecManifest>,
    es: Seq<FileEntries>,
    paths: Seq<Seq<char>>,
    disk: Disk,
    bytes: spec_fn(Seq<char>) -> Seq<u8>,
) -> bool {
    &&& ms.len() == paths.len() + 1
    &&& es.len() == paths.len()
    &&& forall|k: int|
        0 <= k < paths.len() ==> {
            &&& file_recs_of(bytes(#[trigger] paths[k])) is Ok
            &&& lists_file(
                es[k],
                file_recs_of(bytes(paths[k]))->Ok_0,
                number_for(ms[k], paths[k]),
            )
            &&& exists|rec: SpecFile| #[trigger]
                file_indexed(
                    ms[k],
                    ms[k + 1],
                    paths[k],
                    disk(paths[k])->Some_0,
                    es[k].loc@.len(),
                    rec,
                )
        }
}

/// How many entries on nodes were written for files.
pub open spec fn entry_counts(es: Seq<FileEntries>) -> Seq<nat> {
    Seq::new(es.len(), |k: int| es[k].loc@.len())
}

/// How many ids files have.
pub open spec fn id_counts(
    paths: Seq<Seq<char>>,
    bytes: spec_fn(Seq<char>) -> Seq<u8>,
) -> Seq<nat> {
    Seq::new(paths.len(), |k: int| ids_in(file_recs_of(bytes(paths[k]))->Ok_0).len())
}

/// How the files of a table stand, by path.
pub open spec fn told(fs: Seq<SpecFile>, disk: Disk) -> Seq<SpecStatus> {
    let s = standings(fs, prints_of(fs, disk), there(fs, disk));
    sorted(s, standing_keys(s))
}

/// Whether something is told of a file with the path.
pub open spec fn tells_of(v: Seq<SpecStatus>, path: Seq<char>) -> bool {
    exists|x: SpecStatus| #[trigger] v.contains(x) && x.path == path
}

/// Whether a file with the path is told to be there.
pub open spec fn tells_there(v: Seq<SpecStatus>, path: Seq<char>) -> bool {
    exists|x: SpecStatus| #[trigger] v.contains(x) && x.path == path && x.exists
}

/// A whole update: it indexes as many files as were told to be there and changed, writes as
/// many entries on nodes as these have ids, and takes as many files out as were told to be
/// missing. Afterwards the files that were there are told, all of them as they were
/// indexed.
pub proof fn update_as_a_whole(
    ms: Seq<SpecManifest>,
    es: Seq<FileEntries>,
    disk: Disk,
    bytes: spec_fn(Seq<char>) -> Seq<u8>,
)
    requires
        ms.len() > 0,
        no_twice(ms[0].files),
        renewal_of(ms, es, renewed(ms[0].files, disk), disk, bytes),
    ensures
        ({
            let before = told(ms[0].files, disk);
            let paths = renewed(ms[0].files, disk);
            let gs = ms.last().files;
            let after = told(kept_files(gs, there(gs, disk)), disk);
            &&& paths == wanting(before)
            &&& paths.len() == how_many(before, |x: SpecStatus| x.exists && !x.fresh)
            &&& total(entry_counts(es)) == total(id_counts(paths, bytes))
            &&& dropped_ids(gs, there(gs, disk)).len() == how_many(
                before,
                |x: SpecStatus| !x.exists,
            )
            &&& forall|x: SpecStatus| #[trigger] after.contains(x) ==> x.exists && x.fresh
            &&& forall|path: Seq<char>| #[trigger]
                tells_of(after, path) <==> tells_there(before, path)
        }),
{
    let fs = ms[0].files;
    let paths = renewed(fs, disk);
    let gs = ms.last().files;
    let here = there(gs, disk);
    let left = kept_files(gs, here);
    let s = standings(fs, prints_of(fs, disk), there(fs, disk));
    let before = told(fs, disk);
    let after = told(left, disk);
    lemma_wanting_len(before);
    assert(renewal(ms, paths, disk)) by {
        assert forall|k: int| 0 <= k < paths.len() implies exists|count: nat, rec: SpecFile| #[trigger]
            file_indexed(ms[k], ms[k + 1], #[trigger] paths[k], disk(paths[k])->Some_0, count, rec) by {
            let rec = choose|rec: SpecFile| #[trigger]
                file_indexed(
                    ms[k],
                    ms[k + 1],
                    paths[k],
                    disk(paths[k])->Some_0,
                    es[k].loc@.len(),
                    rec,
                );
            assert(file_indexed(
                ms[k],
                ms[k + 1],
                paths[k],
                disk(paths[k])->Some_0,
                es[k].loc@.len(),
                rec,
            ));
        }
    }
    assert(entry_counts(es) =~= id_counts(paths, bytes)) by {
        assert forall|k: int| 0 <= k < paths.len() implies entry_counts(es)[k] == id_counts(
            paths,
            bytes,
        )[k] by {
            assert(file_recs_of(bytes(paths[k])) is Ok);
            a_file_counts_its_ids(
                es[k],
                file_recs_of(bytes(paths[k]))->Ok_0,
                number_for(ms[k], paths[k]),
            );
        }
    }
    lemma_renewed_rows(ms, disk);
    lemma_removed_len(fs, gs, disk);
    lemma_sorted_as_many(s, standing_keys(s), |x: SpecStatus| !x.exists);
    lemma_told_after(ms, disk);
}

proof fn lemma_renewed_rows(ms: Seq<SpecManifest>, disk: Disk)
    requires
        ms.len() > 0,
        no_twice(ms[0].files),
        renewal(ms, renewed(ms[0].files, disk), disk),
    ensures
        ms.last().files.len() == ms[0].files.len(),
        forall|i: int|
            0 <= i < ms[0].files.len() ==> (#[trigger] ms.last().files[i]).path
                == ms[0].files[i].path,
{
    let fs = ms[0].files;
    let paths = renewed(fs, disk);
    assert forall|j: int| 0 <= j < paths.len() implies disk(#[trigger] paths[j]) is Some && exists|
        i: int,
    | 0 <= i < fs.len() && (#[trigger] fs[i]).path == paths[j] by {
        assert(paths.contains(paths[j]));
        update_takes_changed_files(fs, disk, paths[j]);
    }
    lemma_all_renewed(fs, ms, paths, disk, paths.len() as int);
}

proof fn lemma_removed_len(fs: Seq<SpecFile>, gs: Seq<SpecFile>, disk: Disk)
    requires
        gs.len() == fs.len(),
        forall|i: int| 0 <= i < fs.len() ==> (#[trigger] gs[i]).path == fs[i].path,
    ensures
        dropped_ids(gs, there(gs, disk)).len() == how_many(
            standings(fs, prints_of(fs, disk), there(fs, disk)),
            |x: SpecStatus| !x.exists,
        ),
{
    let now = prints_of(gs, disk);
    let here = there(gs, disk);
    lemma_dropped_len(gs, disk, now, here);
    lemma_same_missing(
        standings(gs, now, here),
        standings(fs, prints_of(fs, disk), there(fs, disk)),
    );
}

proof fn lemma_same_missing(a: Seq<SpecStatus>, b: Seq<SpecStatus>)
    requires
        a.len() == b.len(),
        forall|i: int| 0 <= i < a.len() ==> (#[trigger] a[i]).exists == b[i].exists,
    ensures
        how_many(a, |x: SpecStatus| !x.exists) == how_many(b, |x: SpecStatus| !x.exists),
    decreases a.len(),
{
    if a.len() > 0 {
        assert forall|i: int| 0 <= i < a.len() - 1 implies (#[trigger] a.drop_last()[i]).exists
            == b.drop_last()[i].exists by {
            assert(a[i].exists == b[i].exists);
        }
        lemma_same_missing(a.drop_last(), b.drop_last());
        assert(a[a.len() - 1].exists == b[b.len() - 1].exists);
    }
}

/// What is told of files is how each stands.
proof fn lemma_told(fs: Seq<SpecFile>, disk: Disk, x: SpecStatus)
    ensures
        told(fs, disk).contains(x) <==> exists|i: int|
            0 <= i < fs.len() && x == (SpecStatus {
                path: (#[trigger] fs[i]).path,
                entries: fs[i].count,
                gen: fs[i].gen,
                cur: fs[i].cur,
                exists: disk(fs[i].path) is Some,
                fresh: disk(fs[i].path) is Some && is_current(fs[i], disk(fs[i].path)),
            }),
{
    let s = standings(fs, prints_of(fs, disk), there(fs, disk));
    let _ = crate::sort::sorted_members(s, standing_keys(s));
    assert(told(fs, disk).contains(x) <==> s.contains(x));
    if s.contains(x) {
        let i = choose|i: int| 0 <= i < s.len() && s[i] == x;
        assert(fs[i].path == x.path);
    }
    if exists|i: int|
        0 <= i < fs.len() && x == (SpecStatus {
            path: (#[trigger] fs[i]).path,
            entries: fs[i].count,
            gen: fs[i].gen,
            cur: fs[i].cur,
            exists: disk(fs[i].path) is Some,
            fresh: disk(fs[i].path) is Some && is_current(fs[i], disk(fs[i].path)),
        }) {
        let i = choose|i: int|
            0 <= i < fs.len() && x == (SpecStatus {
                path: (#[trigger] fs[i]).path,
                entries: fs[i].count,
                gen: fs[i].gen,
                cur: fs[i].cur,
                exists: disk(fs[i].path) is Some,
                fresh: disk(fs[i].path) is Some && is_current(fs[i], disk(fs[i].path)),
            });
        assert(s[i] == x);
    }
}

proof fn lemma_told_path(fs: Seq<SpecFile>, disk: Disk, path: Seq<char>)
    ensures
        tells_of(told(fs, disk), path) <==> exists|i: int|
            0 <= i < fs.len() && (#[trigger] fs[i]).path == path,
        tells_there(told(fs, disk), path) <==> disk(path) is Some && exists|i: int|
            0 <= i < fs.len() && (#[trigger] fs[i]).path == path,
{
    let v = told(fs, disk);
    if exists|x: SpecStatus| #[trigger] v.contains(x) && x.path == path {
        let x = choose|x: SpecStatus| #[trigger] v.contains(x) && x.path == path;
        lemma_told(fs, disk, x);
    }
    if exists|x: SpecStatus| #[trigger] v.contains(x) && x.path == path && x.exists {
        let x = choose|x: SpecStatus| #[trigger] v.contains(x) && x.path == path && x.exists;
        lemma_told(fs, disk, x);
    }
    if exists|i: int| 0 <= i < fs.len() && (#[trigger] fs[i]).path == path {
        let i = choose|i: int| 0 <= i < fs.len() && (#[trigger] fs[i]).path == path;
        let x = SpecStatus {
            path: fs[i].path,
            entries: fs[i].count,
            gen: fs[i].gen,
            cur: fs[i].cur,
            exists: disk(fs[i].path) is Some,
            fresh: disk(fs[i].path) is Some && is_current(fs[i], disk(fs[i].path)),
        };
        lemma_told(fs, disk, x);
        assert(v.contains(x) && x.path == path);
    }
}

proof fn lemma_told_after(ms: Seq<SpecManifest>, disk: Disk)
    requires
        ms.len() > 0,
        no_twice(ms[0].files),
        renewal(ms, renewed(ms[0].files, disk), disk),
    ensures
        ({
            let before = told(ms[0].files, disk);
            let gs = ms.last().files;
            let after = told(kept_files(gs, there(gs, disk)), disk);
            &&& forall|x: SpecStatus| #[trigger] after.contains(x) ==> x.exists && x.fresh
            &&& forall|path: Seq<char>| #[trigger]
                tells_of(after, path) <==> tells_there(before, path)
        }),
{
    let gs = ms.last().files;
    let left = kept_files(gs, there(gs, disk));
    let before = told(ms[0].files, disk);
    let after = told(left, disk);
    assert forall|x: SpecStatus| #[trigger] after.contains(x) implies x.exists && x.fresh by {
        lemma_told(left, disk, x);
        let i = choose|i: int| 0 <= i < left.len() && x == (SpecStatus {
            path: (#[trigger] left[i]).path,
            entries: left[i].count,
            gen: left[i].gen,
            cur: left[i].cur,
            exists: disk(left[i].path) is Some,
            fresh: disk(left[i].path) is Some && is_current(left[i], disk(left[i].path)),
        });
        assert(left.contains(left[i]));
        update_leaves_all_fresh(ms, disk, left, x.path);
        assert(is_current(left[i], disk(left[i].path)));
    }
    assert forall|path: Seq<char>| #[trigger]
        tells_of(after, path) <==> tells_there(before, path) by {
        update_leaves_all_fresh(ms, disk, left, path);
        lemma_told_path(left, disk, path);
        lemma_told_path(ms[0].files, disk, path);
        if exists|f: SpecFile| #[trigger] left.contains(f) && f.path == path {
            let f = choose|f: SpecFile| #[trigger] left.contains(f) && f.path == path;
            let i = choose|i: int| 0 <= i < left.len() && left[i] == f;
            assert(left[i].path == path);
        }
        if exists|i: int| 0 <= i < left.len() && (#[trigger] left[i]).path == path {
            let i = choose|i: int| 0 <= i < left.len() && (#[trigger] left[i]).path == path;
            assert(left.contains(left[i]));
        }
    }
}

} // verus!
