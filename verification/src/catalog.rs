//! The catalog: which files hold which nodes, and the file format that keeps it.
use crate::bytes::{be, be_value, get_be, i64_bits, i64_from_bits, i64_of_bits, i64_to_bits, put_be,
    put_slice, sub_bytes};
use crate::codec::{read_uuid, uuid_at, Uuid};
use crate::idmap::{list_of, IdMap, IdSet};
use crate::model::ints;
use crate::search::{bisected, entry_id, entry_position, lower_bound, Table};
use crate::sort::{arranged, bytes_le, bytes_lt, key_views, order, sorted};
use crate::text::{owned, same_text, text_of_bytes, text_views};
use crate::tree::Store;
use vstd::prelude::*;
use vstd::utf8::{decode_utf8, encode_utf8, valid_utf8};

verus! {

/// The version of the file format.
pub const VERSION: u8 = 2;

/// The size of an entry: an id, the number of a file and a spare byte.
pub const ENTRY_SIZE: u64 = 21;

/// The text that tells a reader how to read the file.
pub const HEADER: &'static str = "XiRang local catalog (XRCAT) v2\nUser-level index: maps node UUID -> file path, for cross-library lookup. Cache; rebuildable.\nLayout (big-endian):\n  magic \"XRCAT\" (5) + version (1) + header_len u32 + this header\n  + file_count u64\n  + file_count x ( path_len u32, path bytes, size u64, mtime_sec i64, mtime_nsec u32, uuid_count u64 )\n  + entry_count u64\n  + entry_count x ( uuid16, file_index u32, flags u8 )   sorted by (uuid, file_index); flags reserved (always 0)\n";

/// The bytes that a catalog starts with.
pub open spec fn magic() -> Seq<u8> {
    seq![0x58u8, 0x52u8, 0x43u8, 0x41u8, 0x54u8]
}

/// What tells whether a file is still the one that was indexed: its size and
/// the time of its last change.
#[derive(Clone, Copy, Debug, PartialEq, Eq, Structural)]
pub struct Fingerprint {
    pub size: u64,
    pub mtime_sec: i64,
    pub mtime_nsec: u32,
}

/// A file in the catalog, with the ids of its nodes.
#[derive(Debug)]
pub struct FileRecord {
    pub path: String,
    pub fp: Fingerprint,
    pub uuids: Vec<Uuid>,
}

/// What a file in the catalog is: the model of [`FileRecord`].
pub struct SpecRecord {
    pub path: Seq<char>,
    pub fp: Fingerprint,
    pub uuids: Seq<Uuid>,
}

impl View for FileRecord {
    type V = SpecRecord;

    open spec fn view(&self) -> SpecRecord {
        SpecRecord { path: self.path@, fp: self.fp, uuids: self.uuids@ }
    }
}

impl Clone for FileRecord {
    fn clone(&self) -> (r: Self)
        ensures
            r@ == self@,
    {
        FileRecord { path: self.path.clone(), fp: self.fp, uuids: copy_ids(self.uuids.as_slice()) }
    }
}

/// A copy of a run of ids.
pub fn copy_ids(ids: &[Uuid]) -> (r: Vec<Uuid>)
    ensures
        r@ == ids@,
{
    let mut out: Vec<Uuid> = Vec::new();
    let mut i: usize = 0;
    while i < ids.len()
        invariant
            i <= ids@.len(),
            out@ == ids@.take(i as int),
        decreases ids@.len() - i,
    {
        out.push(ids[i]);
        assert(ids@.take(i + 1) =~= ids@.take(i as int).push(ids@[i as int]));
        i = i + 1;
    }
    assert(ids@.take(ids@.len() as int) =~= ids@);
    out
}

impl FileRecord {
    /// Whether the file holds a node with the id.
    pub fn contains(&self, id: Uuid) -> (r: bool)
        ensures
            r == self@.uuids.contains(id),
    {
        let mut i: usize = 0;
        while i < self.uuids.len()
            invariant
                i <= self.uuids@.len(),
                forall|j: int| 0 <= j < i ==> self.uuids@[j] != id,
            decreases self.uuids@.len() - i,
        {
            if self.uuids[i] == id {
                assert(self.uuids@[i as int] == id);
                return true;
            }
            i = i + 1;
        }
        false
    }
}

/// What the head part of a catalog says of a file.
#[derive(Debug)]
pub struct FileHead {
    pub path: String,
    pub fp: Fingerprint,
    pub uuid_count: u64,
}

/// What a head is: the model of [`FileHead`].
pub struct SpecHead {
    pub path: Seq<char>,
    pub fp: Fingerprint,
    pub count: nat,
}

impl View for FileHead {
    type V = SpecHead;

    open spec fn view(&self) -> SpecHead {
        SpecHead { path: self.path@, fp: self.fp, count: self.uuid_count as nat }
    }
}

impl Clone for FileHead {
    fn clone(&self) -> (r: Self)
        ensures
            r@ == self@,
    {
        FileHead { path: self.path.clone(), fp: self.fp, uuid_count: self.uuid_count }
    }
}

/// The models of heads.
pub open spec fn head_models(s: Seq<FileHead>) -> Seq<SpecHead> {
    Seq::new(s.len(), |i: int| s[i]@)
}

/// The models of files.
pub open spec fn record_models(s: Seq<FileRecord>) -> Seq<SpecRecord> {
    Seq::new(s.len(), |i: int| s[i]@)
}

/// The files that were indexed, by path.
#[derive(Debug)]
pub struct Catalog {
    pub files: Vec<FileRecord>,
}

impl View for Catalog {
    type V = Seq<SpecRecord>;

    open spec fn view(&self) -> Seq<SpecRecord> {
        record_models(self.files@)
    }
}

impl Default for Catalog {
    /// The catalog without files.
    fn default() -> (r: Self)
        ensures
            r@ == Seq::<SpecRecord>::empty(),
    {
        let r = Catalog { files: Vec::new() };
        assert(r@ =~= Seq::<SpecRecord>::empty());
        r
    }
}

/// The position of the first file with the path.
pub open spec fn path_position(c: Seq<SpecRecord>, path: Seq<char>) -> Option<int>
    decreases c.len(),
{
    if c.len() == 0 {
        None
    } else {
        match path_position(c.drop_last(), path) {
            Some(i) => Some(i),
            None => if c.last().path == path {
                Some(c.len() - 1)
            } else {
                None
            },
        }
    }
}

proof fn lemma_path_position(c: Seq<SpecRecord>, path: Seq<char>)
    ensures
        match path_position(c, path) {
            Some(i) => 0 <= i < c.len() && c[i].path == path && forall|j: int|
                0 <= j < i ==> (#[trigger] c[j]).path != path,
            None => forall|j: int| 0 <= j < c.len() ==> (#[trigger] c[j]).path != path,
        },
    decreases c.len(),
{
    if c.len() > 0 {
        let d = c.drop_last();
        lemma_path_position(d, path);
        assert forall|j: int| 0 <= j < d.len() implies (#[trigger] c[j]) == d[j] by {}
    }
}

/// The catalog with a record in place of the one with its path, or at the end.
pub open spec fn put_record(c: Seq<SpecRecord>, r: SpecRecord) -> Seq<SpecRecord> {
    match path_position(c, r.path) {
        Some(i) => c.update(i, r),
        None => c.push(r),
    }
}

/// The keys of files: their paths.
pub open spec fn path_keys(c: Seq<SpecRecord>) -> Seq<Seq<u8>> {
    Seq::new(c.len(), |i: int| encode_utf8(c[i].path))
}

/// The catalog after a file was indexed: its record is put in, and the records
/// are sorted by path.
pub open spec fn upserted(c: Seq<SpecRecord>, r: SpecRecord) -> Seq<SpecRecord> {
    sorted(put_record(c, r), path_keys(put_record(c, r)))
}

/// The catalog without the file.
pub open spec fn removed(c: Seq<SpecRecord>, path: Seq<char>) -> Seq<SpecRecord> {
    c.filter(|r: SpecRecord| r.path != path)
}

/// The paths of the files that hold the id, in order.
pub open spec fn holders(c: Seq<SpecRecord>, id: Uuid) -> Seq<Seq<char>>
    decreases c.len(),
{
    if c.len() == 0 {
        Seq::<Seq<char>>::empty()
    } else {
        let r = holders(c.drop_last(), id);
        if c.last().uuids.contains(id) {
            r.push(c.last().path)
        } else {
            r
        }
    }
}

/// The numbers of the files that hold the id.
pub open spec fn holding(c: Seq<SpecRecord>, id: Uuid) -> Seq<int>
    decreases c.len(),
{
    if c.len() == 0 {
        Seq::<int>::empty()
    } else {
        holding(c.drop_last(), id) + once(c.last().uuids, id, c.len() - 1)
    }
}

/// `n`, if the id is among `ids`.
pub open spec fn once(ids: Seq<Uuid>, id: Uuid, n: int) -> Seq<int> {
    if ids.contains(id) {
        seq![n]
    } else {
        Seq::<int>::empty()
    }
}

/// The paths of the files with the given numbers.
pub open spec fn paths_at(c: Seq<SpecRecord>, s: Seq<int>) -> Seq<Seq<char>> {
    Seq::new(s.len(), |k: int| c[s[k]].path)
}

/// Whether `r` lists the ids that two files or more hold, by id, each with the paths of
/// the files that hold it.
pub open spec fn lists_duplicates(c: Seq<SpecRecord>, r: Seq<(Uuid, Vec<String>)>) -> bool {
    &&& forall|k: int, l: int|
        0 <= k < l < r.len() ==> bytes_lt((#[trigger] r[k]).0.0@, (#[trigger] r[l]).0.0@)
    &&& forall|k: int|
        0 <= k < r.len() ==> holders(c, (#[trigger] r[k]).0).len() >= 2 && text_views(r[k].1@)
            == holders(c, r[k].0)
    &&& forall|id: Uuid| #[trigger]
        holders(c, id).len() >= 2 ==> exists|k: int| 0 <= k < r.len() && (#[trigger] r[k]).0 == id
}

/// The views of string slices.
pub open spec fn slice_views(v: Seq<&str>) -> Seq<Seq<char>> {
    Seq::new(v.len(), |i: int| v[i]@)
}

impl Catalog {
    /// Records what a file holds, in place of what was recorded of it.
    pub fn upsert(&mut self, file_path: &str, fp: Fingerprint, uuids: &[Uuid])
        ensures
            final(self)@ == upserted(
                old(self)@,
                SpecRecord { path: file_path@, fp, uuids: uuids@ },
            ),
    {
        let ghost c = self@;
        let rec = FileRecord { path: owned(file_path), fp, uuids: copy_ids(uuids) };
        let ghost m = rec@;
        let mut at: usize = 0;
        while at < self.files.len() && !same_text(self.files[at].path.as_str(), file_path)
            invariant
                at <= self.files@.len(),
                self@ == c,
                forall|j: int| 0 <= j < at ==> (#[trigger] c[j]).path != file_path@,
            decreases self.files@.len() - at,
        {
            assert(c[at as int] == self.files@[at as int]@);
            at = at + 1;
        }
        proof {
            lemma_path_position(c, file_path@);
        }
        if at < self.files.len() {
            assert(c[at as int].path == file_path@);
            self.files.set(at, rec);
            assert(self@ =~= c.update(at as int, m));
        } else {
            self.files.push(rec);
            assert(self@ =~= c.push(m));
        }
        assert(self@ == put_record(c, m));
        let ghost d = self@;
        let mut keys: Vec<Vec<u8>> = Vec::new();
        let mut i: usize = 0;
        while i < self.files.len()
            invariant
                i <= self.files@.len(),
                self@ == d,
                keys@.len() == i,
                forall|j: int| 0 <= j < i ==> (#[trigger] keys@[j])@ == path_keys(d)[j],
            decreases self.files@.len() - i,
        {
            assert(d[i as int] == self.files@[i as int]@);
            let b = self.files[i].path.as_str().as_bytes();
            let key = sub_bytes(b, 0, b.len());
            assert(key@ =~= path_keys(d)[i as int]);
            keys.push(key);
            i = i + 1;
        }
        assert(key_views(keys@) =~= path_keys(d));
        let pos = order(&keys);
        let ghost p = ints(pos@);
        let mut out: Vec<FileRecord> = Vec::new();
        let mut k: usize = 0;
        while k < pos.len()
            invariant
                k <= pos@.len(),
                pos@.len() == d.len(),
                self@ == d,
                d.len() == self.files@.len(),
                p == ints(pos@),
                forall|j: int| 0 <= j < pos@.len() ==> #[trigger] pos@[j] < self.files@.len(),
                record_models(out@) == arranged(d, p).take(k as int),
            decreases pos@.len() - k,
        {
            let ghost o0 = out@;
            out.push(self.files[pos[k]].clone());
            proof {
                assert(d[p[k as int]] == self.files@[pos@[k as int] as int]@);
                assert(record_models(out@) =~= record_models(o0).push(d[p[k as int]]));
                assert(arranged(d, p).take(k + 1) =~= arranged(d, p).take(k as int).push(
                    d[p[k as int]],
                ));
            }
            k = k + 1;
        }
        self.files = out;
        proof {
            assert(arranged(d, p).take(p.len() as int) =~= arranged(d, p));
            crate::sort::lemma_sorted_is(d, path_keys(d), p);
        }
    }

    /// Forgets a file.
    pub fn remove_file(&mut self, file_path: &str)
        ensures
            final(self)@ == removed(old(self)@, file_path@),
    {
        let ghost c = self@;
        let ghost q = |r: SpecRecord| r.path != file_path@;
        let mut out: Vec<FileRecord> = Vec::new();
        let mut i: usize = 0;
        proof {
            reveal(Seq::filter);
            assert(c.take(0) =~= Seq::<SpecRecord>::empty());
            assert(record_models(out@) =~= c.take(0).filter(q));
        }
        while i < self.files.len()
            invariant
                i <= self.files@.len(),
                self@ == c,
                q == (|r: SpecRecord| r.path != file_path@),
                record_models(out@) == c.take(i as int).filter(q),
            decreases self.files@.len() - i,
        {
            proof {
                reveal(Seq::filter);
                assert(c[i as int] == self.files@[i as int]@);
                assert(c.take(i + 1).drop_last() =~= c.take(i as int));
            }
            if !same_text(self.files[i].path.as_str(), file_path) {
                let ghost o0 = out@;
                out.push(self.files[i].clone());
                assert(record_models(out@) =~= record_models(o0).push(c[i as int]));
            }
            i = i + 1;
        }
        assert(c.take(c.len() as int) =~= c);
        self.files = out;
    }

    /// All files.
    pub fn files(&self) -> (r: &Vec<FileRecord>)
        ensures
            record_models(r@) == self@,
    {
        &self.files
    }

    /// The paths of the files that hold the id.
    pub fn lookup(&self, id: Uuid) -> (r: Vec<&str>)
        ensures
            slice_views(r@) == holders(self@, id),
    {
        let ghost c = self@;
        let mut out: Vec<&str> = Vec::new();
        let mut i: usize = 0;
        assert(c.take(0) =~= Seq::<SpecRecord>::empty());
        assert(slice_views(out@) =~= holders(c.take(0), id));
        while i < self.files.len()
            invariant
                i <= self.files@.len(),
                self@ == c,
                slice_views(out@) == holders(c.take(i as int), id),
            decreases self.files@.len() - i,
        {
            proof {
                assert(c[i as int] == self.files@[i as int]@);
                assert(c.take(i + 1).drop_last() =~= c.take(i as int));
            }
            if self.files[i].contains(id) {
                let ghost o0 = out@;
                out.push(self.files[i].path.as_str());
                assert(slice_views(out@) =~= slice_views(o0).push(c[i as int].path));
            }
            i = i + 1;
        }
        assert(c.take(c.len() as int) =~= c);
        out
    }

    /// The ids of a store's nodes.
    pub fn store_uuids(store: &Store) -> (r: Vec<Uuid>)
        ensures
            r@ == Seq::new(store@.len(), |i: int| store@[i].id),
    {
        let mut out: Vec<Uuid> = Vec::new();
        let mut i: usize = 0;
        while i < store.len()
            invariant
                i <= store@.len(),
                out@.len() == i,
                forall|j: int| 0 <= j < i ==> out@[j] == (#[trigger] store@[j]).id,
            decreases store@.len() - i,
        {
            out.push(store.at(i).id);
            i = i + 1;
        }
        assert(out@ =~= Seq::new(store@.len(), |i: int| store@[i].id));
        out
    }
}

// ---------------------------------------------------------------------------
// Ids in several files
// ---------------------------------------------------------------------------

/// The files that hold an id are those with the numbers.
proof fn lemma_holders(c: Seq<SpecRecord>, id: Uuid)
    ensures
        paths_at(c, holding(c, id)) == holders(c, id),
        holding(c, id).len() == holders(c, id).len(),
    decreases c.len(),
{
    if c.len() > 0 {
        let d = c.drop_last();
        lemma_holders(d, id);
        lemma_holding(d, id);
        let r = holding(c, id);
        assert forall|k: int| 0 <= k < holding(d, id).len() implies c[r[k]].path == holders(d, id)[k] by {
            assert(r[k] == holding(d, id)[k]);
            assert(d[r[k]] == c[r[k]]);
            assert(paths_at(d, holding(d, id))[k] == holders(d, id)[k]);
        }
        assert(paths_at(c, r) =~= holders(c, id));
    } else {
        assert(paths_at(c, holding(c, id)) =~= holders(c, id));
    }
}

proof fn lemma_holding(c: Seq<SpecRecord>, id: Uuid)
    ensures
        forall|k: int|
            0 <= k < holding(c, id).len() ==> 0 <= #[trigger] holding(c, id)[k] < c.len()
                && c[holding(c, id)[k]].uuids.contains(id),
        forall|k: int, l: int|
            0 <= k <= l < holding(c, id).len() ==> #[trigger] holding(c, id)[k]
                <= #[trigger] holding(c, id)[l],
        forall|i: int|
            0 <= i < c.len() && (#[trigger] c[i]).uuids.contains(id) ==> holding(
                c,
                id,
            ).contains(i),
    decreases c.len(),
{
    if c.len() > 0 {
        let d = c.drop_last();
        let n = d.len() as int;
        lemma_holding(d, id);
                let a = holding(d, id);
        let b = once(c.last().uuids, id, n);
        let r = holding(c, id);
        assert forall|k: int| 0 <= k < r.len() implies 0 <= #[trigger] r[k] < c.len()
            && c[r[k]].uuids.contains(id) by {
            if k < a.len() {
                assert(r[k] == a[k]);
                assert(d[a[k]] == c[a[k]]);
            } else {
                assert(r[k] == b[k - a.len()]);
            }
        }
        assert forall|k: int, l: int| 0 <= k <= l < r.len() implies #[trigger] r[k]
            <= #[trigger] r[l] by {
            if l < a.len() {
                assert(r[k] == a[k] && r[l] == a[l]);
            } else {
                assert(r[l] == b[l - a.len()]);
                if k < a.len() {
                    assert(r[k] == a[k]);
                } else {
                    assert(r[k] == b[k - a.len()]);
                }
            }
        }
        assert forall|i: int| 0 <= i < c.len() && (#[trigger] c[i]).uuids.contains(
            id,
        ) implies r.contains(i) by {
            if i < n {
                assert(d[i] == c[i]);
                let k = choose|k: int| 0 <= k < a.len() && a[k] == i;
                assert(r[k] == i);
            } else {
                assert(r[a.len() as int] == b[0]);
            }
        }
    }
}

/// The numbers of the files that hold each id, and the ids in the order in
/// which they come up.
fn filed_ids(files: &Vec<FileRecord>) -> (r: (IdMap<Vec<usize>>, Vec<Uuid>))
    ensures
        forall|id: Uuid| #[trigger]
            ints(list_of(r.0@, id)) == holding(record_models(files@), id),
        forall|k: int, l: int| 0 <= k < l < r.1@.len() ==> #[trigger] r.1@[k] != #[trigger] r.1@[l],
        forall|id: Uuid| #[trigger]
            holding(record_models(files@), id).len() > 0 ==> r.1@.contains(id),
{
    let ghost c = record_models(files@);
    let mut map: IdMap<Vec<usize>> = IdMap::new();
    let mut seen = IdSet::new();
    let mut ids: Vec<Uuid> = Vec::new();
    let mut i: usize = 0;
    assert(c.take(0) =~= Seq::<SpecRecord>::empty());
    assert forall|id: Uuid| #[trigger] ints(list_of(map@, id)) == holding(c.take(0), id) by {
        assert(ints(list_of(map@, id)) =~= Seq::<int>::empty());
    }
    while i < files.len()
        invariant
            i <= files@.len(),
            c == record_models(files@),
            forall|id: Uuid| #[trigger]
                ints(list_of(map@, id)) == holding(c.take(i as int), id),
            forall|k: int, l: int| 0 <= k < l < ids@.len() ==> #[trigger] ids@[k] != #[trigger] ids@[l],
            forall|id: Uuid| #[trigger] seen@.contains(id) <==> ids@.contains(id),
            forall|id: Uuid| #[trigger]
                holding(c.take(i as int), id).len() > 0 ==> seen@.contains(id),
        decreases files@.len() - i,
    {
        let ghost before = c.take(i as int);
        let ghost us = c[i as int].uuids;
        assert(c[i as int] == files@[i as int]@);
        assert(c.take(i + 1).drop_last() =~= before);
        let mut j: usize = 0;
        assert(us.take(0) =~= Seq::<Uuid>::empty());
        assert forall|id: Uuid| #[trigger] ints(list_of(map@, id)) == holding(before, id)
            + once(us.take(0), id, i as int) by {
            assert(holding(before, id) + once(us.take(0), id, i as int) =~= holding(
                before,
                id,
            ));
        }
        while j < files[i].uuids.len()
            invariant
                i < files@.len(),
                us == files@[i as int].uuids@,
                before.len() == i,
                j <= us.len(),
                forall|id: Uuid| #[trigger]
                    ints(list_of(map@, id)) == holding(before, id) + once(
                        us.take(j as int),
                        id,
                        i as int,
                    ),
                forall|k: int, l: int|
                    0 <= k < l < ids@.len() ==> #[trigger] ids@[k] != #[trigger] ids@[l],
                forall|id: Uuid| #[trigger] seen@.contains(id) <==> ids@.contains(id),
                forall|id: Uuid| #[trigger]
                    holding(before, id).len() > 0 ==> seen@.contains(id),
                forall|id: Uuid| #[trigger]
                    once(us.take(j as int), id, i as int).len() > 0 ==> seen@.contains(id),
            decreases us.len() - j,
        {
            let u = files[i].uuids[j];
            let ghost m0 = map@;
            let ghost ids0 = ids@;
            let ghost seen0 = seen@;
            let again = match map.get(u) {
                Some(l) => l.len() > 0 && l[l.len() - 1] == i,
                None => false,
            };
            proof {
                lemma_holding(before, u);
                let l = list_of(m0, u);
                assert(ints(l) == holding(before, u) + once(us.take(j as int), u, i as int));
                assert(again == us.take(j as int).contains(u)) by {
                    assert(ints(l).len() == l.len());
                    if l.len() > 0 {
                        assert(ints(l)[l.len() - 1] == l.last() as int);
                        if !us.take(j as int).contains(u) {
                            assert(ints(l) =~= holding(before, u));
                            assert(holding(before, u)[l.len() - 1] < before.len());
                        } else {
                            assert(ints(l).last() == i);
                        }
                    }
                }
            }
            if !again {
                map.push_to(u, i);
            }
            if seen.insert(u) {
                ids.push(u);
            }
            proof {
                let now = us.take(j + 1);
                let old_ids = us.take(j as int);
                assert(us.take(j + 1).drop_last() =~= us.take(j as int));
                assert forall|id: Uuid| #[trigger] ints(list_of(map@, id)) == holding(before, id)
                    + once(us.take(j + 1), id, i as int) by {
                    assert(ints(list_of(m0, id)) == holding(before, id) + once(
                        us.take(j as int),
                        id,
                        i as int,
                    ));
                    assert(us.take(j + 1).last() == u);
                    assert(us.take(j + 1).contains(id) <==> us.take(j as int).contains(id) || id
                        == u) by {
                        if us.take(j as int).contains(id) {
                            let k = choose|k: int|
                                0 <= k < old_ids.len() && old_ids[k] == id;
                            assert(us.take(j + 1)[k] == id);
                        }
                        assert(us.take(j + 1)[j as int] == u);
                        if us.take(j + 1).contains(id) && id != u {
                            let k = choose|k: int|
                                0 <= k < now.len() && now[k] == id;
                            assert(us.take(j as int)[k] == id);
                        }
                    }
                    assert(list_of(map@, id) == (if id == u && !again {
                        list_of(m0, id).push(i)
                    } else {
                        list_of(m0, id)
                    }));
                    if id == u && !again {
                        assert(ints(list_of(map@, id)) =~= ints(list_of(m0, id)).push(i as int));
                    }
                    assert(ints(list_of(map@, id)) =~= holding(before, id) + once(
                        us.take(j + 1),
                        id,
                        i as int,
                    ));
                }
                assert forall|id: Uuid| #[trigger] seen@.contains(id) <==> ids@.contains(id) by {
                    if seen0.contains(u) {
                        assert(ids@ == ids0);
                    } else {
                        assert(ids@[ids0.len() as int] == u);
                        if ids0.contains(id) {
                            let k = choose|k: int| 0 <= k < ids0.len() && ids0[k] == id;
                            assert(ids@[k] == id);
                        }
                        if ids@.contains(id) && id != u {
                            let k = choose|k: int| 0 <= k < ids@.len() && ids@[k] == id;
                            assert(ids0[k] == id);
                        }
                    }
                }
                assert forall|k: int, l: int| 0 <= k < l < ids@.len() implies #[trigger] ids@[k]
                    != #[trigger] ids@[l] by {
                    if l == ids0.len() && ids@[k] == ids@[l] {
                        assert(ids0[k] == u);
                        assert(ids0.contains(u));
                    }
                }
                assert forall|id: Uuid| #[trigger] once(us.take(j + 1), id, i as int).len()
                    > 0 implies seen@.contains(id) by {
                    if id != u {
                        let k = choose|k: int|
                            0 <= k < now.len() && now[k] == id;
                        assert(us.take(j as int)[k] == id);
                        assert(once(us.take(j as int), id, i as int).len() > 0);
                    }
                }
            }
            j = j + 1;
        }
        proof {
            assert(us.take(us.len() as int) =~= us);
            assert forall|id: Uuid| #[trigger] holding(c.take(i + 1), id).len()
                > 0 implies seen@.contains(id) by {
                if holding(before, id).len() == 0 {
                    assert(once(us.take(j as int), id, i as int).len() > 0);
                }
            }
        }
        i = i + 1;
    }
    assert(c.take(c.len() as int) =~= c);
    (map, ids)
}

/// The ids in the order of their bytes.
pub fn sort_ids(ids: &Vec<Uuid>) -> (r: Vec<Uuid>)
    ensures
        r@.len() == ids@.len(),
        forall|k: int, l: int|
            0 <= k < l < r@.len() ==> bytes_le((#[trigger] r@[k]).0@, (#[trigger] r@[l]).0@),
        forall|id: Uuid| #[trigger] r@.contains(id) <==> ids@.contains(id),
        (forall|k: int, l: int| 0 <= k < l < ids@.len() ==> #[trigger] ids@[k] != #[trigger] ids@[l])
            ==> forall|k: int, l: int|
            0 <= k < l < r@.len() ==> bytes_lt((#[trigger] r@[k]).0@, (#[trigger] r@[l]).0@),
        r@ == sorted(ids@, id_keys(ids@)),
{
    let ghost ks = id_keys(ids@);
    let mut keys: Vec<Vec<u8>> = Vec::new();
    let mut i: usize = 0;
    while i < ids.len()
        invariant
            i <= ids@.len(),
            ks == id_keys(ids@),
            keys@.len() == i,
            forall|j: int| 0 <= j < i ==> (#[trigger] keys@[j])@ == ks[j],
        decreases ids@.len() - i,
    {
        let key = sub_bytes(ids[i].0.as_slice(), 0, 16);
        assert(key@ =~= ks[i as int]);
        keys.push(key);
        i = i + 1;
    }
    assert(key_views(keys@) =~= ks);
    let pos = order(&keys);
    let ghost p = ints(pos@);
    let mut out: Vec<Uuid> = Vec::new();
    let mut k: usize = 0;
    while k < pos.len()
        invariant
            k <= pos@.len(),
            p == ints(pos@),
            forall|j: int| 0 <= j < pos@.len() ==> #[trigger] pos@[j] < ids@.len(),
            out@ == arranged(ids@, p).take(k as int),
        decreases pos@.len() - k,
    {
        out.push(ids[pos[k]]);
        assert(arranged(ids@, p).take(k + 1) =~= arranged(ids@, p).take(k as int).push(
            ids@[p[k as int]],
        ));
        k = k + 1;
    }
    proof {
        assert(arranged(ids@, p).take(p.len() as int) =~= arranged(ids@, p));
        crate::sort::lemma_sorted_is(ids@, ks, p);
        assert forall|k: int, l: int| 0 <= k < l < out@.len() implies bytes_le(
            (#[trigger] out@[k]).0@,
            (#[trigger] out@[l]).0@,
        ) by {
            assert(crate::sort::goes_before(ks, p[k], p[l]));
            crate::sort::lemma_bytes_le_reflexive(ks[p[k]]);
        }
        assert forall|id: Uuid| #[trigger] out@.contains(id) <==> ids@.contains(id) by {
            if out@.contains(id) {
                let k = choose|k: int| 0 <= k < out@.len() && out@[k] == id;
                assert(ids@[p[k]] == id);
            }
            if ids@.contains(id) {
                let x = choose|x: int| 0 <= x < ids@.len() && ids@[x] == id;
                assert(p.contains(x));
                let k = choose|k: int| 0 <= k < p.len() && p[k] == x;
                assert(out@[k] == id);
            }
        }
        if forall|k: int, l: int|
            0 <= k < l < ids@.len() ==> #[trigger] ids@[k] != #[trigger] ids@[l] {
            assert forall|k: int, l: int| 0 <= k < l < out@.len() implies bytes_lt(
                (#[trigger] out@[k]).0@,
                (#[trigger] out@[l]).0@,
            ) by {
                assert(crate::sort::goes_before(ks, p[k], p[l]));
                if ks[p[k]] == ks[p[l]] {
                    assert(p[k] < p[l]);
                    crate::codec::lemma_same_bytes_same_id(ids@[p[k]], ids@[p[l]]);
                }
            }
        }
    }
    out
}

/// The keys of ids: their bytes.
pub open spec fn id_keys(ids: Seq<Uuid>) -> Seq<Seq<u8>> {
    Seq::new(ids.len(), |i: int| ids[i].0@)
}

impl Catalog {
    /// The ids that two files or more hold, by id, with the paths of those files.
    pub fn duplicated(&self) -> (r: Vec<(Uuid, Vec<String>)>)
        ensures
            lists_duplicates(self@, r@),
    {
        let ghost c = self@;
        let (map, ids) = filed_ids(&self.files);
        let order = sort_ids(&ids);
        let mut out: Vec<(Uuid, Vec<String>)> = Vec::new();
        let mut i: usize = 0;
        while i < order.len()
            invariant
                i <= order@.len(),
                self@ == c,
                forall|id: Uuid| #[trigger] ints(list_of(map@, id)) == holding(c, id),
                forall|k: int, l: int|
                    0 <= k < l < order@.len() ==> bytes_lt(
                        (#[trigger] order@[k]).0@,
                        (#[trigger] order@[l]).0@,
                    ),
                forall|k: int, l: int|
                    0 <= k < l < out@.len() ==> bytes_lt(
                        (#[trigger] out@[k]).0.0@,
                        (#[trigger] out@[l]).0.0@,
                    ),
                forall|k: int|
                    0 <= k < out@.len() ==> holders(c, (#[trigger] out@[k]).0).len() >= 2
                        && text_views(out@[k].1@) == holders(c, out@[k].0)
                        && order@.take(i as int).contains(out@[k].0),
                forall|j: int|
                    0 <= j < i && holders(c, #[trigger] order@[j]).len() >= 2 ==> exists|k: int|
                        0 <= k < out@.len() && (#[trigger] out@[k]).0 == order@[j],
            decreases order@.len() - i,
        {
            let id = order[i];
            let ghost o0 = out@;
            assert(ints(list_of(map@, id)) == holding(c, id));
            proof {
                lemma_holding(c, id);
                lemma_holders(c, id);
                assert forall|k: int| 0 <= k < o0.len() implies order@.take(i + 1).contains(
                    (#[trigger] o0[k]).0,
                ) by {
                    let j = choose|j: int|
                        0 <= j < order@.take(i as int).len() && order@.take(i as int)[j] == o0[k].0;
                    assert(order@.take(i + 1)[j] == o0[k].0);
                }
            }
            if let Some(list) = map.get(id) {
                if list.len() >= 2 {
                    let paths = paths_of(&self.files, list);
                    proof {
                        assert(list_of(map@, id) == list@);
                    }
                    out.push((id, paths));
                    proof {
                        assert(order@.take(i + 1)[i as int] == id);
                        assert forall|k: int, l: int| 0 <= k < l < out@.len() implies bytes_lt(
                            (#[trigger] out@[k]).0.0@,
                            (#[trigger] out@[l]).0.0@,
                        ) by {
                            if l == o0.len() {
                                assert(out@[k] == o0[k]);
                                let t = order@.take(i as int);
                                let j = choose|j: int| 0 <= j < t.len() && t[j] == o0[k].0;
                                assert(order@[j] == o0[k].0);
                                assert(bytes_lt(order@[j].0@, order@[i as int].0@));
                            } else {
                                assert(out@[k] == o0[k] && out@[l] == o0[l]);
                            }
                        }
                        assert(out@[o0.len() as int].0 == id);
                    }
                }
            }
            proof {
                assert forall|j: int| 0 <= j < i + 1 && holders(c, #[trigger] order@[j]).len()
                    >= 2 implies exists|k: int| 0 <= k < out@.len() && (#[trigger] out@[k]).0
                    == order@[j] by {
                    if j < i {
                        let k = choose|k: int| 0 <= k < o0.len() && (#[trigger] o0[k]).0 == order@[j];
                        assert(out@[k].0 == order@[j]);
                    } else {
                        assert(list_of(map@, id).len() >= 2);
                        assert(out@[o0.len() as int].0 == id);
                    }
                }
            }
            i = i + 1;
        }
        proof {
            assert forall|id: Uuid| #[trigger] holders(c, id).len() >= 2 implies exists|k: int|
                0 <= k < out@.len() && (#[trigger] out@[k]).0 == id by {
                lemma_holders(c, id);
                assert(ids@.contains(id));
                assert(order@.contains(id));
                let j = choose|j: int| 0 <= j < order@.len() && order@[j] == id;
                assert(holders(c, order@[j]).len() >= 2);
            }
        }
        out
    }
}

/// The paths of the files with the given numbers.
fn paths_of(files: &Vec<FileRecord>, list: &Vec<usize>) -> (r: Vec<String>)
    requires
        forall|k: int| 0 <= k < list@.len() ==> 0 <= #[trigger] ints(list@)[k] < files@.len(),
    ensures
        text_views(r@) == paths_at(record_models(files@), ints(list@)),
{
    let mut out: Vec<String> = Vec::new();
    let mut i: usize = 0;
    while i < list.len()
        invariant
            i <= list@.len(),
            out@.len() == i,
            forall|k: int| 0 <= k < list@.len() ==> 0 <= #[trigger] ints(list@)[k] < files@.len(),
            forall|k: int| 0 <= k < i ==> (#[trigger] out@[k])@ == files@[list@[k] as int].path@,
        decreases list@.len() - i,
    {
        assert(ints(list@)[i as int] < files@.len());
        out.push(files[list[i]].path.clone());
        i = i + 1;
    }
    proof {
        assert forall|k: int| 0 <= k < list@.len() implies record_models(files@)[#[trigger] ints(
            list@,
        )[k]].path == out@[k]@ by {}
        assert(text_views(out@) =~= paths_at(record_models(files@), ints(list@)));
    }
    out
}

// ---------------------------------------------------------------------------
// The file
// ---------------------------------------------------------------------------

/// An entry: an id and the number of a file that holds it.
pub struct SpecPlaced {
    pub id: Uuid,
    pub file: nat,
}

/// The number of a file as an entry states it.
pub open spec fn file_number(i: int) -> nat {
    (i % 0x1_0000_0000) as nat
}

/// The entries of a catalog, file by file.
pub open spec fn placed(c: Seq<SpecRecord>) -> Seq<SpecPlaced>
    decreases c.len(),
{
    if c.len() == 0 {
        Seq::<SpecPlaced>::empty()
    } else {
        placed(c.drop_last()) + placed_of(c.last().uuids, file_number(c.len() - 1))
    }
}

/// The entries of one file.
pub open spec fn placed_of(ids: Seq<Uuid>, file: nat) -> Seq<SpecPlaced> {
    Seq::new(ids.len(), |j: int| SpecPlaced { id: ids[j], file })
}

/// The key of an entry: its id, then the number of the file.
pub open spec fn placed_key(e: SpecPlaced) -> Seq<u8> {
    e.id.0@ + be(e.file, 4)
}

/// The keys of entries.
pub open spec fn placed_keys(es: Seq<SpecPlaced>) -> Seq<Seq<u8>> {
    Seq::new(es.len(), |i: int| placed_key(es[i]))
}

/// The entries of a catalog, by id and then by file.
pub open spec fn sorted_placed(c: Seq<SpecRecord>) -> Seq<SpecPlaced> {
    sorted(placed(c), placed_keys(placed(c)))
}

/// The bytes of an entry.
pub open spec fn placed_bytes(e: SpecPlaced) -> Seq<u8> {
    placed_key(e) + seq![0u8]
}

/// The bytes of entries.
pub open spec fn all_placed_bytes(es: Seq<SpecPlaced>) -> Seq<u8>
    decreases es.len(),
{
    if es.len() == 0 {
        Seq::<u8>::empty()
    } else {
        placed_bytes(es[0]) + all_placed_bytes(es.skip(1))
    }
}

/// What the head part says of a file.
pub open spec fn head_of(r: SpecRecord) -> SpecHead {
    SpecHead { path: r.path, fp: r.fp, count: r.uuids.len() }
}

/// The heads of a catalog.
pub open spec fn heads_of(c: Seq<SpecRecord>) -> Seq<SpecHead> {
    Seq::new(c.len(), |i: int| head_of(c[i]))
}

/// The bytes of a head.
pub open spec fn head_bytes(h: SpecHead) -> Seq<u8> {
    be(encode_utf8(h.path).len(), 4) + encode_utf8(h.path) + be(h.fp.size as nat, 8) + be(
        i64_bits(h.fp.mtime_sec),
        8,
    ) + be(h.fp.mtime_nsec as nat, 4) + be(h.count, 8)
}

/// The bytes of heads.
pub open spec fn all_head_bytes(hs: Seq<SpecHead>) -> Seq<u8>
    decreases hs.len(),
{
    if hs.len() == 0 {
        Seq::<u8>::empty()
    } else {
        head_bytes(hs[0]) + all_head_bytes(hs.skip(1))
    }
}

/// What stands in front of the heads.
pub open spec fn preamble() -> Seq<u8> {
    magic() + seq![VERSION] + be(encode_utf8(HEADER@).len(), 4) + encode_utf8(HEADER@)
}

/// The bytes of a catalog: the heads of its files, then its entries.
pub open spec fn catalog_bytes(c: Seq<SpecRecord>) -> Seq<u8> {
    preamble() + be(c.len(), 8) + all_head_bytes(heads_of(c)) + be(sorted_placed(c).len(), 8)
        + all_placed_bytes(sorted_placed(c))
}

/// What is wrong with the bytes of a catalog.
#[derive(Clone, Copy, Debug, PartialEq, Eq, Structural)]
pub enum CatalogFault {
    /// It is of another version.
    Version,
    /// It is no catalog, or ends too early.
    Corrupt,
}

impl CatalogFault {
    /// The message.
    pub open spec fn text(self) -> Seq<char> {
        match self {
            CatalogFault::Version => "XRCAT_VERSION_MISMATCH"@,
            CatalogFault::Corrupt => "W006：目录损坏"@,
        }
    }

    /// The message.
    pub fn message(self) -> (r: String)
        ensures
            r@ == self.text(),
    {
        match self {
            CatalogFault::Version => owned("XRCAT_VERSION_MISMATCH"),
            CatalogFault::Corrupt => owned("W006：目录损坏"),
        }
    }
}

/// The head at `off` and where it ends; `None` where it does not stand there.
pub open spec fn head_at(data: Seq<u8>, off: int) -> Option<(SpecHead, int)> {
    if off + 4 > data.len() {
        None
    } else {
        let n = be_value(data.subrange(off, off + 4)) as int;
        let p = off + 4 + n;
        if p + 28 > data.len() || !valid_utf8(data.subrange(off + 4, p)) {
            None
        } else {
            Some(
                (
                    SpecHead {
                        path: decode_utf8(data.subrange(off + 4, p)),
                        fp: Fingerprint {
                            size: be_value(data.subrange(p, p + 8)) as u64,
                            mtime_sec: i64_of_bits(be_value(data.subrange(p + 8, p + 16))),
                            mtime_nsec: be_value(data.subrange(p + 16, p + 20)) as u32,
                        },
                        count: be_value(data.subrange(p + 20, p + 28)),
                    },
                    p + 28,
                ),
            )
        }
    }
}

/// The `n` heads at `off` and where they end; `None` where they do not stand
/// there.
pub open spec fn heads_at(data: Seq<u8>, off: int, n: nat) -> Option<(Seq<SpecHead>, int)>
    decreases n,
{
    if n == 0 {
        Some((Seq::<SpecHead>::empty(), off))
    } else {
        match head_at(data, off) {
            None => None,
            Some((h, p)) => match heads_at(data, p, (n - 1) as nat) {
                None => None,
                Some((hs, end)) => Some((seq![h] + hs, end)),
            },
        }
    }
}

/// The heads of a catalog's files, where its entries start, and how many they
/// are.
pub open spec fn catalog_index(data: Seq<u8>) -> Result<(Seq<SpecHead>, int, nat), CatalogFault> {
    if data.len() < 6 || data.take(5) != magic() {
        Err(CatalogFault::Corrupt)
    } else if data[5] != VERSION {
        Err(CatalogFault::Version)
    } else if data.len() < 10 {
        Err(CatalogFault::Corrupt)
    } else {
        let p = 10 + be_value(data.subrange(6, 10)) as int;
        if p + 8 > data.len() {
            Err(CatalogFault::Corrupt)
        } else {
            match heads_at(data, p + 8, be_value(data.subrange(p, p + 8))) {
                None => Err(CatalogFault::Corrupt),
                Some((hs, q)) => if q + 8 > data.len() {
                    Err(CatalogFault::Corrupt)
                } else {
                    Ok((hs, q + 8, be_value(data.subrange(q, q + 8))))
                },
            }
        }
    }
}

/// The entries of a catalog's file, of which the first stands at `off`.
pub open spec fn entries_at(data: Seq<u8>, off: int, n: nat) -> Seq<SpecPlaced> {
    Seq::new(
        n,
        |k: int|
            SpecPlaced {
                id: uuid_at(data, off + 21 * k),
                file: be_value(data.subrange(off + 21 * k + 16, off + 21 * k + 20)),
            },
    )
}

/// The ids of the entries of one file, in order.
pub open spec fn ids_for(es: Seq<SpecPlaced>, file: int) -> Seq<Uuid>
    decreases es.len(),
{
    if es.len() == 0 {
        Seq::<Uuid>::empty()
    } else if es.last().file == file {
        ids_for(es.drop_last(), file).push(es.last().id)
    } else {
        ids_for(es.drop_last(), file)
    }
}

/// The files that heads and entries describe.
pub open spec fn records_of(hs: Seq<SpecHead>, es: Seq<SpecPlaced>) -> Seq<SpecRecord> {
    Seq::new(
        hs.len(),
        |i: int| SpecRecord { path: hs[i].path, fp: hs[i].fp, uuids: ids_for(es, i) },
    )
}

/// What a catalog's file holds: nothing where it is of another version, and a
/// fault where it is corrupt.
pub open spec fn catalog_of(data: Seq<u8>) -> Result<Seq<SpecRecord>, Seq<char>> {
    match catalog_index(data) {
        Err(CatalogFault::Version) => Ok(Seq::<SpecRecord>::empty()),
        Err(CatalogFault::Corrupt) => Err(CatalogFault::Corrupt.text()),
        Ok((hs, off, n)) => if off + 21 * n > data.len() {
            Err(CatalogFault::Corrupt.text())
        } else {
            Ok(records_of(hs, entries_at(data, off, n)))
        },
    }
}

/// Reads the head at `off`.
fn read_head(data: &[u8], off: usize) -> (r: Option<(FileHead, usize)>)
    requires
        off <= data@.len(),
    ensures
        match r {
            Some((h, end)) => head_at(data@, off as int) == Some((h@, end as int)) && off < end
                <= data@.len(),
            None => head_at(data@, off as int) is None,
        },
{
    let len: usize = data.len();
    if len - off < 4 {
        return None;
    }
    let n: u64 = get_be(data, off, 4);
    let rest: usize = len - off - 4;
    if rest < 28 || n > (rest - 28) as u64 {
        return None;
    }
    let p: usize = off + 4 + n as usize;
    let path = match text_of_bytes(sub_bytes(data, off + 4, p)) {
        Some(s) => s,
        None => return None,
    };
    proof {
        crate::bytes::lemma_pow256_values();
        crate::bytes::lemma_be_value_bound(data@.subrange(p + 16, p + 20));
        crate::bytes::lemma_be_value_bound(data@.subrange(p as int, p + 8));
    }
    let size: u64 = get_be(data, p, 8);
    let sec: u64 = get_be(data, p + 8, 8);
    let nsec: u64 = get_be(data, p + 16, 4);
    let uuid_count: u64 = get_be(data, p + 20, 8);
    let fp = Fingerprint { size, mtime_sec: i64_from_bits(sec), mtime_nsec: nsec as u32 };
    Some((FileHead { path, fp, uuid_count }, p + 28))
}

/// Whether the bytes start as a catalog does.
fn has_magic(data: &[u8]) -> (r: bool)
    requires
        data@.len() >= 5,
    ensures
        r == (data@.take(5) == magic()),
{
    let r = data[0] == 0x58 && data[1] == 0x52 && data[2] == 0x43 && data[3] == 0x41 && data[4]
        == 0x54;
    proof {
        if r {
            assert(data@.take(5) =~= magic());
        } else {
            assert(forall|i: int| 0 <= i < 5 ==> data@.take(5)[i] == data@[i]);
            assert(magic()[0] == 0x58 && magic()[1] == 0x52 && magic()[2] == 0x43 && magic()[3]
                == 0x41 && magic()[4] == 0x54);
        }
    }
    r
}

/// Reads the heads, where the entries start, and how many they are.
fn read_heads_from(data: &[u8]) -> (r: Result<(Vec<FileHead>, usize, u64), CatalogFault>)
    ensures
        match r {
            Ok((hs, off, n)) => catalog_index(data@) == Ok::<
                (Seq<SpecHead>, int, nat),
                CatalogFault,
            >((head_models(hs@), off as int, n as nat)) && off <= data@.len(),
            Err(e) => catalog_index(data@) == Err::<(Seq<SpecHead>, int, nat), CatalogFault>(e),
        },
{
    let len: usize = data.len();
    if len < 6 || !has_magic(data) {
        return Err(CatalogFault::Corrupt);
    }
    if data[5] != VERSION {
        return Err(CatalogFault::Version);
    }
    if len < 10 {
        return Err(CatalogFault::Corrupt);
    }
    let hlen: u64 = get_be(data, 6, 4);
    if len < 18 || hlen > (len - 18) as u64 {
        return Err(CatalogFault::Corrupt);
    }
    let p: usize = 10 + hlen as usize;
    let count: u64 = get_be(data, p, 8);
    let ghost want = heads_at(data@, p + 8, count as nat);
    let mut heads: Vec<FileHead> = Vec::new();
    let mut off: usize = p + 8;
    let mut i: u64 = 0;
    proof {
        assert(head_models(heads@) =~= Seq::<SpecHead>::empty());
        if want is Some {
            assert(Seq::<SpecHead>::empty() + want->Some_0.0 =~= want->Some_0.0);
        }
    }
    while i < count
        invariant
            i <= count,
            off <= data@.len(),
            want == (match heads_at(data@, off as int, (count - i) as nat) {
                Some((hs, end)) => Some((head_models(heads@) + hs, end)),
                None => None,
            }),
            want == heads_at(data@, p + 8, count as nat),
            catalog_index(data@) == (match want {
                None => Err::<(Seq<SpecHead>, int, nat), CatalogFault>(CatalogFault::Corrupt),
                Some((hs, q)) => if q + 8 > data@.len() {
                    Err(CatalogFault::Corrupt)
                } else {
                    Ok((hs, q + 8, be_value(data@.subrange(q, q + 8))))
                },
            }),
        decreases count - i,
    {
        let ghost h0 = heads@;
        match read_head(data, off) {
            None => return Err(CatalogFault::Corrupt),
            Some((h, end)) => {
                let ghost m = h@;
                heads.push(h);
                proof {
                    assert(head_models(heads@) =~= head_models(h0).push(m));
                    match heads_at(data@, end as int, (count - i - 1) as nat) {
                        Some((hs, e)) => {
                            assert(head_models(h0) + (seq![m] + hs) =~= head_models(heads@) + hs);
                        },
                        None => {},
                    }
                }
                off = end;
            },
        }
        i = i + 1;
    }
    assert(head_models(heads@) + Seq::<SpecHead>::empty() =~= head_models(heads@));
    if len - off < 8 {
        return Err(CatalogFault::Corrupt);
    }
    let n: u64 = get_be(data, off, 8);
    Ok((heads, off + 8, n))
}

/// Appends the bytes of a head.
fn put_head(out: &mut Vec<u8>, r: &FileRecord)
    ensures
        final(out)@ == old(out)@ + head_bytes(head_of(r@)),
{
    let b = r.path.as_str().as_bytes();
    put_be(out, b.len() as u64, 4);
    put_slice(out, b);
    put_be(out, r.fp.size, 8);
    put_be(out, i64_to_bits(r.fp.mtime_sec), 8);
    put_be(out, r.fp.mtime_nsec as u64, 4);
    put_be(out, r.uuids.len() as u64, 8);
    assert(out@ =~= old(out)@ + head_bytes(head_of(r@)));
}

/// The entries of all files and their keys.
fn list_placed(files: &Vec<FileRecord>) -> (r: (Vec<(Uuid, u64)>, Vec<Vec<u8>>))
    ensures
        pair_models(r.0@) == placed(record_models(files@)),
        key_views(r.1@) == placed_keys(placed(record_models(files@))),
{
    let ghost c = record_models(files@);
    let mut es: Vec<(Uuid, u64)> = Vec::new();
    let mut keys: Vec<Vec<u8>> = Vec::new();
    let mut i: usize = 0;
    assert(c.take(0) =~= Seq::<SpecRecord>::empty());
    assert(pair_models(es@) =~= placed(c.take(0)));
    assert(key_views(keys@) =~= placed_keys(placed(c.take(0))));
    while i < files.len()
        invariant
            i <= files@.len(),
            c == record_models(files@),
            pair_models(es@) == placed(c.take(i as int)),
            key_views(keys@) == placed_keys(pair_models(es@)),
        decreases files@.len() - i,
    {
        let ghost before = pair_models(es@);
        let ghost us = files@[i as int].uuids@;
        let ghost f = file_number(i as int);
        let num: u64 = i as u64 % 0x1_0000_0000;
        let mut j: usize = 0;
        assert(before + placed_of(us.take(0), f) =~= before);
        while j < files[i].uuids.len()
            invariant
                i < files@.len(),
                us == files@[i as int].uuids@,
                j <= us.len(),
                num == f,
                f < 0x1_0000_0000,
                pair_models(es@) == before + placed_of(us.take(j as int), f),
                key_views(keys@) == placed_keys(pair_models(es@)),
            decreases us.len() - j,
        {
            let ghost e0 = es@;
            let ghost k0 = keys@;
            let u = files[i].uuids[j];
            let mut key: Vec<u8> = Vec::new();
            put_slice(&mut key, u.0.as_slice());
            put_be(&mut key, num, 4);
            let ghost kv = key@;
            es.push((u, num));
            keys.push(key);
            proof {
                let e = SpecPlaced { id: u, file: f };
                assert(kv =~= placed_key(e));
                assert(pair_models(es@) =~= pair_models(e0).push(e));
                assert(placed_of(us.take(j + 1), f) =~= placed_of(us.take(j as int), f).push(e));
                assert(pair_models(es@) =~= before + placed_of(us.take(j + 1), f));
                assert(key_views(keys@) =~= key_views(k0).push(kv));
                assert(placed_keys(pair_models(es@)) =~= placed_keys(pair_models(e0)).push(kv));
            }
            j = j + 1;
        }
        proof {
            assert(us.take(us.len() as int) =~= us);
            assert(c.take(i + 1).drop_last() =~= c.take(i as int));
            assert(c.take(i + 1).last() == files@[i as int]@);
        }
        i = i + 1;
    }
    assert(c.take(c.len() as int) =~= c);
    (es, keys)
}

/// The models of entries.
spec fn pair_models(s: Seq<(Uuid, u64)>) -> Seq<SpecPlaced> {
    Seq::new(s.len(), |i: int| SpecPlaced { id: s[i].0, file: s[i].1 as nat })
}

impl Catalog {
    /// The bytes of the catalog's file.
    pub fn save(&self) -> (r: Vec<u8>)
        ensures
            r@ == catalog_bytes(self@),
    {
        let ghost c = self@;
        let ghost hs = heads_of(c);
        let (es, keys) = list_placed(&self.files);
        let pos = order(&keys);
        let ghost p = ints(pos@);
        let ghost sp = sorted_placed(c);
        proof {
            crate::sort::lemma_sorted_is(placed(c), placed_keys(placed(c)), p);
            assert(pair_models(es@).len() == es@.len());
            assert(key_views(keys@).len() == keys@.len());
            assert(placed_keys(placed(c)).len() == placed(c).len());
            assert(sp =~= arranged(placed(c), p));
        }
        let header = HEADER.as_bytes();
        let mut out: Vec<u8> = Vec::new();
        out.push(0x58);
        out.push(0x52);
        out.push(0x43);
        out.push(0x41);
        out.push(0x54);
        out.push(VERSION);
        put_be(&mut out, header.len() as u64, 4);
        put_slice(&mut out, header);
        assert(out@ =~= preamble());
        put_be(&mut out, self.files.len() as u64, 8);
        let ghost base = out@;
        let mut i: usize = 0;
        assert(hs.skip(0) =~= hs);
        while i < self.files.len()
            invariant
                i <= self.files@.len(),
                self@ == c,
                hs == heads_of(c),
                out@ + all_head_bytes(hs.skip(i as int)) == base + all_head_bytes(hs),
            decreases self.files@.len() - i,
        {
            let ghost o0 = out@;
            put_head(&mut out, &self.files[i]);
            proof {
                let r = hs.skip(i as int);
                assert(r[0] == head_of(self.files@[i as int]@));
                assert(r.skip(1) =~= hs.skip(i + 1));
                assert(out@ + all_head_bytes(hs.skip(i + 1)) =~= o0 + all_head_bytes(r));
            }
            i = i + 1;
        }
        assert(hs.skip(hs.len() as int) =~= Seq::<SpecHead>::empty());
        assert(out@ =~= base + all_head_bytes(hs));
        put_be(&mut out, pos.len() as u64, 8);
        let ghost base2 = out@;
        let mut k: usize = 0;
        assert(sp.skip(0) =~= sp);
        while k < pos.len()
            invariant
                k <= pos@.len(),
                p == ints(pos@),
                sp == arranged(placed(c), p),
                pair_models(es@) == placed(c),
                forall|j: int| 0 <= j < pos@.len() ==> #[trigger] pos@[j] < es@.len(),
                out@ + all_placed_bytes(sp.skip(k as int)) == base2 + all_placed_bytes(sp),
            decreases pos@.len() - k,
        {
            let ghost o0 = out@;
            let e = es[pos[k]];
            put_slice(&mut out, e.0.0.as_slice());
            put_be(&mut out, e.1, 4);
            out.push(0);
            proof {
                let r = sp.skip(k as int);
                assert(r[0] == placed(c)[p[k as int]]);
                assert(r[0] == pair_models(es@)[pos@[k as int] as int]);
                assert(r.skip(1) =~= sp.skip(k + 1));
                assert(out@ =~= o0 + placed_bytes(r[0]));
                assert(out@ + all_placed_bytes(sp.skip(k + 1)) =~= o0 + all_placed_bytes(r));
            }
            k = k + 1;
        }
        assert(sp.skip(sp.len() as int) =~= Seq::<SpecPlaced>::empty());
        assert(out@ =~= catalog_bytes(c));
        out
    }

    /// The catalog that a file holds, of which these are the bytes.
    pub fn load(data: &[u8]) -> (r: Result<Catalog, String>)
        ensures
            match catalog_of(data@) {
                Ok(c) => r is Ok && r->Ok_0@ == c,
                Err(e) => r is Err && r->Err_0@ == e,
            },
    {
        let (heads, off, count) = match read_heads_from(data) {
            Ok(x) => x,
            Err(CatalogFault::Version) => return Ok(Catalog { files: Vec::new() }),
            Err(CatalogFault::Corrupt) => return Err(CatalogFault::Corrupt.message()),
        };
        let ghost hs = head_models(heads@);
        let len: usize = data.len();
        if count > ((len - off) / 21) as u64 {
            return Err(CatalogFault::Corrupt.message());
        }
        let n: usize = count as usize;
        let ghost es = entries_at(data@, off as int, n as nat);
        let mut files: Vec<FileRecord> = Vec::new();
        let mut i: usize = 0;
        while i < heads.len()
            invariant
                i <= heads@.len(),
                files@.len() == i,
                forall|j: int|
                    0 <= j < i ==> (#[trigger] files@[j])@ == (SpecRecord {
                        path: heads@[j].path@,
                        fp: heads@[j].fp,
                        uuids: Seq::<Uuid>::empty(),
                    }),
            decreases heads@.len() - i,
        {
            files.push(
                FileRecord { path: heads[i].path.clone(), fp: heads[i].fp, uuids: Vec::new() },
            );
            i = i + 1;
        }
        let mut k: usize = 0;
        assert(es.take(0) =~= Seq::<SpecPlaced>::empty());
        while k < n
            invariant
                k <= n,
                len == data@.len(),
                off + 21 * n <= len,
                es == entries_at(data@, off as int, n as nat),
                hs == head_models(heads@),
                files@.len() == hs.len(),
                forall|j: int|
                    0 <= j < files@.len() ==> (#[trigger] files@[j])@ == (SpecRecord {
                        path: hs[j].path,
                        fp: hs[j].fp,
                        uuids: ids_for(es.take(k as int), j),
                    }),
            decreases n - k,
        {
            let at: usize = off + 21 * k;
            let u = read_uuid(data, at);
            let f: u64 = get_be(data, at + 16, 4);
            let ghost f0 = files@;
            proof {
                assert(es.take(k + 1).drop_last() =~= es.take(k as int));
                assert(es.take(k + 1).last() == es[k as int]);
            }
            if f < files.len() as u64 {
                let fi: usize = f as usize;
                files[fi].uuids.push(u);
                proof {
                    assert(f0[fi as int]@.uuids == ids_for(es.take(k as int), fi as int));
                }
            }
            proof {
                assert forall|j: int| 0 <= j < files@.len() implies (#[trigger] files@[j])@ == (
                SpecRecord {
                    path: hs[j].path,
                    fp: hs[j].fp,
                    uuids: ids_for(es.take(k + 1), j),
                }) by {
                    assert(f0[j]@ == (SpecRecord {
                        path: hs[j].path,
                        fp: hs[j].fp,
                        uuids: ids_for(es.take(k as int), j),
                    }));
                }
            }
            k = k + 1;
        }
        let r = Catalog { files };
        proof {
            assert(es.take(n as int) =~= es);
            assert(r@ =~= records_of(hs, es));
        }
        Ok(r)
    }

    /// Whether the catalog's file says that the file was indexed as it is now.
    pub fn is_fresh(data: &[u8], file_path: &str, fp: Fingerprint) -> (r: bool)
        ensures
            r == (match catalog_index(data@) {
                Ok((hs, _, _)) => exists|i: int|
                    0 <= i < hs.len() && (#[trigger] hs[i]).path == file_path@ && hs[i].fp == fp,
                Err(_) => false,
            }),
    {
        let heads = match read_heads_from(data) {
            Ok((hs, _, _)) => hs,
            Err(_) => return false,
        };
        let ghost hs = head_models(heads@);
        let mut i: usize = 0;
        while i < heads.len()
            invariant
                i <= heads@.len(),
                hs == head_models(heads@),
                catalog_index(data@) is Ok,
                catalog_index(data@)->Ok_0.0 == hs,
                forall|j: int| 0 <= j < i ==> !((#[trigger] hs[j]).path == file_path@ && hs[j].fp == fp),
            decreases heads@.len() - i,
        {
            assert(hs[i as int] == heads@[i as int]@);
            if same_text(heads[i].path.as_str(), file_path) && heads[i].fp == fp {
                return true;
            }
            i = i + 1;
        }
        false
    }
}

// ---------------------------------------------------------------------------
// Looking up in the file
// ---------------------------------------------------------------------------

/// The table of the entries.
pub open spec fn entry_table(off: int, n: nat) -> Table {
    Table { off: off as u64, size: 21, width: 21, count: n as u64 }
}

/// The numbers of the files in the run of entries with the id from entry `i` on;
/// `None` where the file ends within it.
pub open spec fn run_files(data: Seq<u8>, t: Table, id: Uuid, i: int) -> Option<Seq<nat>>
    decreases t.count - i,
{
    if i >= t.count {
        Some(Seq::<nat>::empty())
    } else {
        match entry_id(data, t, i) {
            None => None,
            Some(k) => if k != id {
                Some(Seq::<nat>::empty())
            } else {
                match run_files(data, t, id, i + 1) {
                    None => None,
                    Some(fs) => Some(
                        seq![be_value(data.subrange(t.at(i) + 16, t.at(i) + 20))] + fs,
                    ),
                }
            },
        }
    }
}

/// The paths of the files with the numbers, each once.
pub open spec fn paths_once(fs: Seq<nat>, hs: Seq<SpecHead>) -> Seq<Seq<char>>
    decreases fs.len(),
{
    if fs.len() == 0 {
        Seq::<Seq<char>>::empty()
    } else {
        let r = paths_once(fs.drop_last(), hs);
        let f = fs.last() as int;
        if f < hs.len() && !r.contains(hs[f].path) {
            r.push(hs[f].path)
        } else {
            r
        }
    }
}

/// The paths that a lookup in a catalog's file gives; `None` where the file ends
/// too early.
pub open spec fn looked_up(data: Seq<u8>, hs: Seq<SpecHead>, t: Table, id: Uuid) -> Option<
    Seq<Seq<char>>,
> {
    match bisected(data, t, id, 0, t.count as int) {
        None => None,
        Some(lo) => match run_files(data, t, id, lo) {
            None => None,
            Some(fs) => Some(paths_once(fs, hs)),
        },
    }
}

/// A catalog's file, for lookups in its sorted entries.
#[derive(Debug)]
pub struct CatalogReader {
    pub data: Vec<u8>,
    pub files: Vec<FileHead>,
    pub entries: Table,
}

impl CatalogReader {
    /// The heads and the table are those of the file.
    pub open spec fn wf(&self) -> bool {
        match catalog_index(self.data@) {
            Ok((hs, off, n)) => head_models(self.files@) == hs && self.entries == entry_table(off, n)
                && off <= u64::MAX && n <= u64::MAX,
            Err(_) => false,
        }
    }

    /// Opens the file of which these are the bytes.
    pub fn open(data: Vec<u8>) -> (r: Result<CatalogReader, String>)
        ensures
            match catalog_index(data@) {
                Ok(_) => r is Ok && r->Ok_0.wf() && r->Ok_0.data@ == data@,
                Err(e) => r is Err && r->Err_0@ == e.text(),
            },
    {
        match read_heads_from(data.as_slice()) {
            Ok((files, off, count)) => {
                let entries = Table { off: off as u64, size: 21, width: 21, count };
                Ok(CatalogReader { data, files, entries })
            },
            Err(e) => Err(e.message()),
        }
    }

    /// The paths of all files that hold the id, each once.
    pub fn lookup_all(&self, id: Uuid) -> (r: Result<Vec<String>, String>)
        requires
            self.wf(),
        ensures
            match looked_up(self.data@, head_models(self.files@), self.entries, id) {
                Some(ps) => r is Ok && text_views(r->Ok_0@) == ps,
                None => r is Err && r->Err_0@ == CatalogFault::Corrupt.text(),
            },
    {
        let ghost hs = head_models(self.files@);
        let t = self.entries;
        let len: usize = self.data.len();
        let lo: u64 = match lower_bound(self.data.as_slice(), &t, id) {
            Some(i) => i,
            None => return Err(CatalogFault::Corrupt.message()),
        };
        let ghost want = run_files(self.data@, t, id, lo as int);
        let mut out: Vec<String> = Vec::new();
        let mut i: u64 = lo;
        let ghost mut got = Seq::<nat>::empty();
        proof {
            if want is Some {
                assert(got + want->Some_0 =~= want->Some_0);
            }
            assert(text_views(out@) =~= paths_once(got, hs));
        }
        while i < t.count
            invariant
                lo <= i <= t.count,
                t == self.entries,
                len == self.data@.len(),
                self.wf(),
                hs == head_models(self.files@),
                looked_up(self.data@, hs, t, id) == (match want {
                    None => None,
                    Some(fs) => Some(paths_once(fs, hs)),
                }),
                want == (match run_files(self.data@, t, id, i as int) {
                    None => None,
                    Some(fs) => Some(got + fs),
                }),
                text_views(out@) == paths_once(got, hs),
            decreases t.count - i,
        {
            let p: usize = match entry_position(self.data.as_slice(), &t, i) {
                Some(p) => p,
                None => return Err(CatalogFault::Corrupt.message()),
            };
            let u = read_uuid(self.data.as_slice(), p);
            if u != id {
                assert(got + Seq::<nat>::empty() =~= got);
                return Ok(out);
            }
            let f: u64 = get_be(self.data.as_slice(), p + 16, 4);
            let ghost g0 = got;
            proof {
                got = got.push(f as nat);
                assert(got.drop_last() =~= g0);
                match run_files(self.data@, t, id, i + 1) {
                    Some(fs) => {
                        assert(g0 + (seq![f as nat] + fs) =~= got + fs);
                    },
                    None => {},
                }
            }
            if f < self.files.len() as u64 {
                let h = &self.files[f as usize];
                assert(hs[f as int] == h@);
                if !has_text(&out, h.path.as_str()) {
                    let ghost o0 = out@;
                    out.push(h.path.clone());
                    assert(text_views(out@) =~= text_views(o0).push(hs[f as int].path));
                }
            }
            i = i + 1;
        }
        assert(got + Seq::<nat>::empty() =~= got);
        Ok(out)
    }
}

/// Whether a text is among others.
pub fn has_text(v: &Vec<String>, s: &str) -> (r: bool)
    ensures
        r == text_views(v@).contains(s@),
{
    let mut i: usize = 0;
    while i < v.len()
        invariant
            i <= v@.len(),
            forall|j: int| 0 <= j < i ==> (#[trigger] text_views(v@)[j]) != s@,
        decreases v@.len() - i,
    {
        if same_text(v[i].as_str(), s) {
            assert(text_views(v@)[i as int] == s@);
            return true;
        }
        i = i + 1;
    }
    false
}

// ---------------------------------------------------------------------------
// Laws
// ---------------------------------------------------------------------------

/// Whether no path occurs twice.
pub open spec fn distinct_paths(c: Seq<SpecRecord>) -> bool {
    forall|i: int, j: int|
        0 <= i < j < c.len() ==> (#[trigger] c[i]).path != (#[trigger] c[j]).path
}

/// Whether the numbers and lengths of the catalog fit the fields of its file.
pub open spec fn catalog_fits(c: Seq<SpecRecord>) -> bool {
    &&& c.len() < 0x1_0000_0000
    &&& placed(c).len() < 0x1_0000_0000_0000_0000
    &&& forall|i: int|
        0 <= i < c.len() ==> encode_utf8((#[trigger] c[i]).path).len() < 0x1_0000_0000
            && c[i].uuids.len() < 0x1_0000_0000_0000_0000
}

/// Indexing a file keeps every path once.
pub proof fn upsert_keeps_paths_distinct(c: Seq<SpecRecord>, r: SpecRecord)
    requires
        distinct_paths(c),
    ensures
        distinct_paths(upserted(c, r)),
        upserted(c, r).contains(r),
        forall|x: SpecRecord|
            #[trigger] upserted(c, r).contains(x) && x != r ==> c.contains(x) && x.path != r.path,
        forall|x: SpecRecord|
            c.contains(x) && x.path != r.path ==> #[trigger] upserted(c, r).contains(x),
{
    let d = put_record(c, r);
    let u = upserted(c, r);
    let p = crate::sort::sorted_is_in_order(d, path_keys(d));
    lemma_path_position(c, r.path);
    assert(d.contains(r)) by {
        match path_position(c, r.path) {
            Some(i) => {
                assert(d[i] == r);
            },
            None => {
                assert(d[c.len() as int] == r);
            },
        }
    }
    assert forall|i: int, j: int| 0 <= i < d.len() && 0 <= j < d.len() && i != j implies (
    #[trigger] d[i]).path != (#[trigger] d[j]).path by {
        match path_position(c, r.path) {
            Some(k) => {
                if i < j {
                    assert(c[i].path != c[j].path);
                } else {
                    assert(c[j].path != c[i].path);
                }
            },
            None => {
                if i < c.len() && j < c.len() {
                    if i < j {
                        assert(c[i].path != c[j].path);
                    } else {
                        assert(c[j].path != c[i].path);
                    }
                } else if i < c.len() {
                    assert(d[i] == c[i]);
                } else {
                    assert(d[j] == c[j]);
                }
            },
        }
    }
    assert forall|i: int, j: int| 0 <= i < j < u.len() implies (#[trigger] u[i]).path != (
    #[trigger] u[j]).path by {
        assert(u[i] == d[p[i]] && u[j] == d[p[j]]);
        if p[i] == p[j] {
            assert(crate::sort::goes_before(path_keys(d), p[i], p[j]));
        }
    }
    assert forall|x: SpecRecord| d.contains(x) implies #[trigger] u.contains(x) by {
        let i = choose|i: int| 0 <= i < d.len() && d[i] == x;
        assert(p.contains(i));
        let k = choose|k: int| 0 <= k < p.len() && p[k] == i;
        assert(u[k] == x);
    }
    assert forall|x: SpecRecord| #[trigger] u.contains(x) && x != r implies c.contains(x) && x.path
        != r.path by {
        let k = choose|k: int| 0 <= k < u.len() && u[k] == x;
        let i = p[k];
        assert(d[i] == x);
        match path_position(c, r.path) {
            Some(j) => {
                assert(c[i] == x);
                assert(d[j].path != d[i].path);
            },
            None => {
                assert(c[i] == x);
            },
        }
    }
    assert forall|x: SpecRecord| c.contains(x) && x.path != r.path implies #[trigger] u.contains(
        x,
    ) by {
        let i = choose|i: int| 0 <= i < c.len() && c[i] == x;
        assert(d[i] == x);
        assert(d.contains(x));
    }
}

proof fn lemma_header_fits()
    ensures
        encode_utf8(HEADER@).len() < 0x1_0000_0000,
{
    reveal_strlit("XiRang local catalog (XRCAT) v2\nUser-level index: maps node UUID -> file path, for cross-library lookup. Cache; rebuildable.\nLayout (big-endian):\n  magic \"XRCAT\" (5) + version (1) + header_len u32 + this header\n  + file_count u64\n  + file_count x ( path_len u32, path bytes, size u64, mtime_sec i64, mtime_nsec u32, uuid_count u64 )\n  + entry_count u64\n  + entry_count x ( uuid16, file_index u32, flags u8 )   sorted by (uuid, file_index); flags reserved (always 0)\n");
    crate::header::lemma_utf8_len(HEADER@);
}

proof fn lemma_head_at(before: Seq<u8>, h: SpecHead, after: Seq<u8>)
    requires
        encode_utf8(h.path).len() < 0x1_0000_0000,
        h.count < 0x1_0000_0000_0000_0000,
    ensures
        head_at(before + head_bytes(h) + after, before.len() as int) == Some(
            (h, (before.len() + head_bytes(h).len()) as int),
        ),
{
    let d = before + head_bytes(h) + after;
    let o = before.len() as int;
    let e = encode_utf8(h.path);
    let p = o + 4 + e.len();
    crate::bytes::lemma_pow256_values();
    crate::bytes::lemma_be_len(e.len(), 4);
    crate::bytes::lemma_be_len(h.fp.size as nat, 8);
    crate::bytes::lemma_be_len(i64_bits(h.fp.mtime_sec), 8);
    crate::bytes::lemma_be_len(h.fp.mtime_nsec as nat, 4);
    crate::bytes::lemma_be_len(h.count, 8);
    crate::bytes::lemma_be_value_of_be(e.len(), 4);
    crate::bytes::lemma_be_value_of_be(h.fp.size as nat, 8);
    crate::bytes::lemma_be_value_of_be(i64_bits(h.fp.mtime_sec), 8);
    crate::bytes::lemma_be_value_of_be(h.fp.mtime_nsec as nat, 4);
    crate::bytes::lemma_be_value_of_be(h.count, 8);
    assert(d.subrange(o, o + 4) =~= be(e.len(), 4));
    assert(d.subrange(o + 4, p) =~= e);
    assert(d.subrange(p, p + 8) =~= be(h.fp.size as nat, 8));
    assert(d.subrange(p + 8, p + 16) =~= be(i64_bits(h.fp.mtime_sec), 8));
    assert(d.subrange(p + 16, p + 20) =~= be(h.fp.mtime_nsec as nat, 4));
    assert(d.subrange(p + 20, p + 28) =~= be(h.count, 8));
    vstd::utf8::encode_utf8_valid_utf8(h.path);
    vstd::utf8::encode_utf8_decode_utf8(h.path);
}

proof fn lemma_heads_at(before: Seq<u8>, hs: Seq<SpecHead>, after: Seq<u8>)
    requires
        forall|i: int|
            0 <= i < hs.len() ==> encode_utf8((#[trigger] hs[i]).path).len() < 0x1_0000_0000
                && hs[i].count < 0x1_0000_0000_0000_0000,
    ensures
        heads_at(before + all_head_bytes(hs) + after, before.len() as int, hs.len()) == Some(
            (hs, (before.len() + all_head_bytes(hs).len()) as int),
        ),
    decreases hs.len(),
{
    if hs.len() > 0 {
        let b = head_bytes(hs[0]);
        let rest = hs.skip(1);
        assert forall|i: int| 0 <= i < rest.len() implies encode_utf8((#[trigger] rest[i]).path).len()
            < 0x1_0000_0000 && rest[i].count < 0x1_0000_0000_0000_0000 by {
            assert(rest[i] == hs[i + 1]);
        }
        lemma_heads_at(before + b, rest, after);
        lemma_head_at(before, hs[0], all_head_bytes(rest) + after);
        assert(before + all_head_bytes(hs) + after =~= before + b + (all_head_bytes(rest) + after));
        assert(before + all_head_bytes(hs) + after =~= (before + b) + all_head_bytes(rest) + after);
        assert(seq![hs[0]] + rest =~= hs);
    } else {
        assert(hs =~= Seq::<SpecHead>::empty());
    }
}

proof fn lemma_placed_len(es: Seq<SpecPlaced>)
    ensures
        all_placed_bytes(es).len() == 21 * es.len(),
    decreases es.len(),
{
    if es.len() > 0 {
        lemma_placed_len(es.skip(1));
        crate::bytes::lemma_be_len(es[0].file, 4);
    }
}

proof fn lemma_placed_at(es: Seq<SpecPlaced>, k: int)
    requires
        0 <= k < es.len(),
    ensures
        all_placed_bytes(es).len() == 21 * es.len(),
        all_placed_bytes(es).subrange(21 * k, 21 * k + 21) == placed_bytes(es[k]),
    decreases es.len(),
{
    lemma_placed_len(es);
    lemma_placed_len(es.skip(1));
    crate::bytes::lemma_be_len(es[0].file, 4);
    if k == 0 {
        assert(all_placed_bytes(es).subrange(0, 21) =~= placed_bytes(es[0]));
    } else {
        lemma_placed_at(es.skip(1), k - 1);
        assert(all_placed_bytes(es).subrange(21 * k, 21 * k + 21) =~= all_placed_bytes(
            es.skip(1),
        ).subrange(21 * (k - 1), 21 * (k - 1) + 21));
    }
}

proof fn lemma_placed_files(c: Seq<SpecRecord>)
    requires
        c.len() < 0x1_0000_0000,
    ensures
        forall|k: int|
            0 <= k < placed(c).len() ==> (#[trigger] placed(c)[k]).file < c.len()
                && c[placed(c)[k].file as int].uuids.contains(placed(c)[k].id),
        forall|i: int, id: Uuid|
            0 <= i < c.len() && #[trigger] c[i].uuids.contains(id) ==> placed(c).contains(
                SpecPlaced { id, file: i as nat },
            ),
    decreases c.len(),
{
    if c.len() > 0 {
        let d = c.drop_last();
        let n = d.len() as int;
        lemma_placed_files(d);
        let a = placed(d);
        let b = placed_of(c.last().uuids, n as nat);
        let r = placed(c);
        assert(r == a + b);
        assert forall|k: int| 0 <= k < r.len() implies (#[trigger] r[k]).file < c.len()
            && c[r[k].file as int].uuids.contains(r[k].id) by {
            if k < a.len() {
                assert(r[k] == a[k]);
                assert(d[a[k].file as int] == c[a[k].file as int]);
            } else {
                assert(r[k] == b[k - a.len()]);
                assert(c.last().uuids[k - a.len()] == r[k].id);
            }
        }
        assert forall|i: int, id: Uuid| 0 <= i < c.len() && #[trigger] c[i].uuids.contains(
            id,
        ) implies r.contains(SpecPlaced { id, file: i as nat }) by {
            let e = SpecPlaced { id, file: i as nat };
            if i < n {
                assert(d[i] == c[i]);
                assert(d[i].uuids.contains(id));
                let k = choose|k: int| 0 <= k < a.len() && a[k] == e;
                assert(r[k] == e);
            } else {
                let j = choose|j: int| 0 <= j < c.last().uuids.len() && c.last().uuids[j] == id;
                assert(b[j] == e);
                assert(r[a.len() + j] == e);
            }
        }
    }
}

proof fn lemma_entry_read(x: Seq<u8>, es: Seq<SpecPlaced>, k: int)
    requires
        0 <= k < es.len(),
        es[k].file < 0x1_0000_0000,
    ensures
        entries_at(x + all_placed_bytes(es), x.len() as int, es.len())[k] == es[k],
{
    let d = x + all_placed_bytes(es);
    let e = es[k];
    let o = x.len() + 21 * k;
    lemma_placed_at(es, k);
    crate::bytes::lemma_pow256_values();
    crate::bytes::lemma_be_len(e.file, 4);
    crate::bytes::lemma_be_value_of_be(e.file, 4);
    let b = all_placed_bytes(es).subrange(21 * k, 21 * k + 21);
    assert(d.subrange(o, o + 16) =~= b.take(16));
    assert(placed_bytes(e).take(16) =~= e.id.0@);
    crate::codec::lemma_uuid_at(d, o, e.id);
    assert(d.subrange(o + 16, o + 20) =~= b.subrange(16, 20));
    assert(placed_bytes(e).subrange(16, 20) =~= be(e.file, 4));
}

proof fn lemma_index_read(hs: Seq<SpecHead>, n: nat, tail: Seq<u8>)
    requires
        hs.len() < 0x1_0000_0000,
        n < 0x1_0000_0000_0000_0000,
        forall|i: int|
            0 <= i < hs.len() ==> encode_utf8((#[trigger] hs[i]).path).len() < 0x1_0000_0000
                && hs[i].count < 0x1_0000_0000_0000_0000,
    ensures
        ({
            let x = preamble() + be(hs.len(), 8) + all_head_bytes(hs) + be(n, 8);
            catalog_index(x + tail) == Ok::<(Seq<SpecHead>, int, nat), CatalogFault>(
                (hs, x.len() as int, n),
            )
        }),
{
    let x = preamble() + be(hs.len(), 8) + all_head_bytes(hs) + be(n, 8);
    let d = x + tail;
    let h = encode_utf8(HEADER@);
    crate::bytes::lemma_pow256_values();
    lemma_header_fits();
    crate::bytes::lemma_be_len(h.len(), 4);
    crate::bytes::lemma_be_value_of_be(h.len(), 4);
    crate::bytes::lemma_be_len(hs.len(), 8);
    crate::bytes::lemma_be_value_of_be(hs.len(), 8);
    crate::bytes::lemma_be_len(n, 8);
    crate::bytes::lemma_be_value_of_be(n, 8);
    let p = 10 + h.len() as int;
    let front = preamble() + be(hs.len(), 8);
    lemma_heads_at(front, hs, be(n, 8) + tail);
    assert(d =~= front + all_head_bytes(hs) + (be(n, 8) + tail));
    assert(d.take(5) =~= magic());
    assert(d[5] == VERSION);
    assert(d.subrange(6, 10) =~= be(h.len(), 4));
    assert(d.subrange(p, p + 8) =~= be(hs.len(), 8));
    let q = (front.len() + all_head_bytes(hs).len()) as int;
    assert(d.subrange(q, q + 8) =~= be(n, 8));
}

/// Where the entries start in the file of a catalog.
pub open spec fn entries_start(c: Seq<SpecRecord>) -> int {
    catalog_bytes(c).len() - 21 * sorted_placed(c).len()
}

/// Reading the file of a catalog gives its files and its sorted entries back.
pub proof fn saved_catalog_index(c: Seq<SpecRecord>)
    requires
        catalog_fits(c),
    ensures
        sorted_placed(c).len() == placed(c).len(),
        entries_start(c) > 0,
        catalog_index(catalog_bytes(c)) == Ok::<(Seq<SpecHead>, int, nat), CatalogFault>(
            (heads_of(c), entries_start(c), sorted_placed(c).len()),
        ),
        entries_at(catalog_bytes(c), entries_start(c), sorted_placed(c).len()) == sorted_placed(c),
{
    let es = sorted_placed(c);
    let hs = heads_of(c);
    let perm = crate::sort::sorted_is_in_order(placed(c), placed_keys(placed(c)));
    assert forall|i: int| 0 <= i < hs.len() implies encode_utf8((#[trigger] hs[i]).path).len()
        < 0x1_0000_0000 && hs[i].count < 0x1_0000_0000_0000_0000 by {
        assert(encode_utf8(c[i].path).len() < 0x1_0000_0000);
    }
    lemma_index_read(hs, es.len(), all_placed_bytes(es));
    lemma_placed_len(es);
    lemma_placed_files(c);
    let x = preamble() + be(hs.len(), 8) + all_head_bytes(hs) + be(es.len(), 8);
    assert(x.len() == entries_start(c));
    assert forall|k: int| 0 <= k < es.len() implies entries_at(
        catalog_bytes(c),
        entries_start(c),
        es.len(),
    )[k] == #[trigger] es[k] by {
        assert(es[k] == placed(c)[perm[k]]);
        lemma_entry_read(x, es, k);
    }
    assert(entries_at(catalog_bytes(c), entries_start(c), es.len()) =~= es);
}

proof fn lemma_ids_for(es: Seq<SpecPlaced>, file: int, id: Uuid)
    requires
        file >= 0,
    ensures
        ids_for(es, file).contains(id) <==> es.contains(SpecPlaced { id, file: file as nat }),
    decreases es.len(),
{
    let e = SpecPlaced { id, file: file as nat };
    if es.len() > 0 {
        let d = es.drop_last();
        lemma_ids_for(d, file, id);
        let r = ids_for(es, file);
        let r0 = ids_for(d, file);
        if es.contains(e) {
            let k = choose|k: int| 0 <= k < es.len() && es[k] == e;
            if k < d.len() {
                assert(d[k] == e);
                let j = choose|j: int| 0 <= j < r0.len() && r0[j] == id;
                assert(r[j] == id);
            } else {
                assert(r[r0.len() as int] == id);
            }
        }
        if r.contains(id) {
            let j = choose|j: int| 0 <= j < r.len() && r[j] == id;
            if j < r0.len() {
                assert(r0[j] == id);
                let k = choose|k: int| 0 <= k < d.len() && d[k] == e;
                assert(es[k] == e);
            } else {
                assert(es[es.len() - 1] == e);
            }
        }
    }
}

/// Loading a saved catalog gives the same files, with the same ids in each.
pub proof fn saved_catalog_loads(c: Seq<SpecRecord>, i: int, id: Uuid)
    requires
        catalog_fits(c),
        0 <= i < c.len(),
    ensures
        catalog_of(catalog_bytes(c)) is Ok,
        ({
            let r = catalog_of(catalog_bytes(c))->Ok_0;
            &&& r.len() == c.len()
            &&& r[i].path == c[i].path
            &&& r[i].fp == c[i].fp
            &&& r[i].uuids.contains(id) <==> c[i].uuids.contains(id)
        }),
{
    saved_catalog_index(c);
    let es = sorted_placed(c);
    let perm = crate::sort::sorted_is_in_order(placed(c), placed_keys(placed(c)));
    lemma_ids_for(es, i, id);
    lemma_placed_files(c);
    let e = SpecPlaced { id, file: i as nat };
    if c[i].uuids.contains(id) {
        let x = choose|x: int| 0 <= x < placed(c).len() && placed(c)[x] == e;
        assert(perm.contains(x));
        let k = choose|k: int| 0 <= k < perm.len() && perm[k] == x;
        assert(es[k] == e);
    }
    if es.contains(e) {
        let k = choose|k: int| 0 <= k < es.len() && es[k] == e;
        assert(placed(c)[perm[k]] == e);
    }
}

/// Whether entries are in the order of a catalog's file.
spec fn placed_in_order(es: Seq<SpecPlaced>) -> bool {
    forall|i: int, j: int|
        0 <= i < j < es.len() ==> bytes_le((#[trigger] es[i]).id.0@, (#[trigger] es[j]).id.0@) && (
        es[i].id == es[j].id ==> es[i].file <= es[j].file)
}

proof fn lemma_sorted_placed(c: Seq<SpecRecord>)
    requires
        catalog_fits(c),
    ensures
        placed_in_order(sorted_placed(c)),
{
    let es = sorted_placed(c);
    let ks = placed_keys(placed(c));
    let p = crate::sort::sorted_is_in_order(placed(c), ks);
    lemma_placed_files(c);
    crate::bytes::lemma_pow256_values();
    assert forall|i: int, j: int| 0 <= i < j < es.len() implies bytes_le(
        (#[trigger] es[i]).id.0@,
        (#[trigger] es[j]).id.0@,
    ) && (es[i].id == es[j].id ==> es[i].file <= es[j].file) by {
        let x = es[i];
        let y = es[j];
        assert(x == placed(c)[p[i]] && y == placed(c)[p[j]]);
        assert(crate::sort::goes_before(ks, p[i], p[j]));
        crate::sort::lemma_bytes_le_reflexive(placed_key(x));
        assert(bytes_le(placed_key(x), placed_key(y)));
        crate::sort::lemma_bytes_le_parts(x.id.0@, be(x.file, 4), y.id.0@, be(y.file, 4));
        crate::sort::lemma_bytes_le_reflexive(x.id.0@);
        crate::bytes::lemma_be_len(x.file, 4);
        crate::bytes::lemma_be_len(y.file, 4);
        crate::sort::lemma_bytes_le_numbers(be(x.file, 4), be(y.file, 4));
        crate::bytes::lemma_be_value_of_be(x.file, 4);
        crate::bytes::lemma_be_value_of_be(y.file, 4);
    }
}

/// The run of entries with an id, from where none before has it.
proof fn lemma_run_files(d: Seq<u8>, t: Table, es: Seq<SpecPlaced>, id: Uuid, i: int) -> (fs: Seq<
    nat,
>)
    requires
        t.size == 21,
        t.width == 21,
        t.count == es.len(),
        t.at(t.count as int) <= d.len(),
        entries_at(d, t.off as int, es.len()) == es,
        placed_in_order(es),
        0 <= i <= es.len(),
        forall|j: int| i <= j < es.len() ==> !bytes_lt((#[trigger] es[j]).id.0@, id.0@),
    ensures
        run_files(d, t, id, i) == Some(fs),
        i + fs.len() <= es.len(),
        forall|k: int|
            0 <= k < fs.len() ==> #[trigger] fs[k] == es[i + k].file && es[i + k].id == id,
        forall|j: int| i <= j < es.len() && (#[trigger] es[j]).id == id ==> j < i + fs.len(),
    decreases es.len() - i,
{
    if i == es.len() {
        Seq::<nat>::empty()
    } else {
        crate::search::lemma_entry_there(d, t, i);
        assert(entries_at(d, t.off as int, es.len())[i] == es[i]);
        assert(t.at(i) == t.off + 21 * i);
        if es[i].id != id {
            assert forall|j: int| i <= j < es.len() implies (#[trigger] es[j]).id != id by {
                if j > i && es[j].id == id {
                    assert(bytes_le(es[i].id.0@, es[j].id.0@));
                    if es[i].id.0@ == id.0@ {
                        crate::codec::lemma_same_bytes_same_id(es[i].id, id);
                    }
                }
            }
            Seq::<nat>::empty()
        } else {
            let rest = lemma_run_files(d, t, es, id, i + 1);
            let fs = seq![es[i].file] + rest;
            assert forall|k: int| 0 <= k < fs.len() implies #[trigger] fs[k] == es[i + k].file
                && es[i + k].id == id by {
                if k > 0 {
                    assert(rest[k - 1] == es[i + 1 + (k - 1)].file);
                }
            }
            fs
        }
    }
}

proof fn lemma_holders_gap(c: Seq<SpecRecord>, id: Uuid, a: int, b: int)
    requires
        0 <= a <= b <= c.len(),
        forall|i: int| a <= i < b ==> !(#[trigger] c[i]).uuids.contains(id),
    ensures
        holders(c.take(a), id) == holders(c.take(b), id),
    decreases b - a,
{
    if a < b {
        lemma_holders_gap(c, id, a, b - 1);
        assert(c.take(b).drop_last() =~= c.take(b - 1));
        assert(c.take(b).last() == c[b - 1]);
    }
}

proof fn lemma_holders_paths(c: Seq<SpecRecord>, id: Uuid, path: Seq<char>)
    requires
        holders(c, id).contains(path),
    ensures
        exists|i: int| 0 <= i < c.len() && (#[trigger] c[i]).path == path,
    decreases c.len(),
{
    let h = holders(c, id);
    let k = choose|k: int| 0 <= k < h.len() && h[k] == path;
    let h0 = holders(c.drop_last(), id);
    if k < h0.len() {
        assert(h0[k] == path);
        lemma_holders_paths(c.drop_last(), id, path);
        let i = choose|i: int|
            0 <= i < c.drop_last().len() && (#[trigger] c.drop_last()[i]).path == path;
        assert(c[i].path == path);
    } else {
        assert(c[c.len() - 1].path == path);
    }
}

/// The paths of a rising list of all files that hold the id up to its last are
/// those that a lookup gives up to there.
proof fn lemma_paths_once(c: Seq<SpecRecord>, id: Uuid, fs: Seq<nat>)
    requires
        distinct_paths(c),
        fs.len() > 0,
        forall|k: int| 0 <= k < fs.len() ==> (#[trigger] fs[k]) < c.len(),
        forall|k: int| 0 <= k < fs.len() ==> c[#[trigger] fs[k] as int].uuids.contains(id),
        forall|k: int, l: int| 0 <= k <= l < fs.len() ==> #[trigger] fs[k] <= #[trigger] fs[l],
        forall|i: int|
            0 <= i <= fs.last() && (#[trigger] c[i]).uuids.contains(id) ==> fs.contains(i as nat),
    ensures
        paths_once(fs, heads_of(c)) == holders(c.take(fs.last() as int + 1), id),
    decreases fs.len(),
{
    let g = fs.drop_last();
    let f = fs.last() as int;
    let hs = heads_of(c);
    assert(fs[fs.len() - 1] == f);
    assert(c.take(f + 1).drop_last() =~= c.take(f));
    assert(c.take(f + 1).last() == c[f]);
    if g.len() > 0 {
        assert forall|k: int| 0 <= k < g.len() implies (#[trigger] g[k]) == fs[k] by {}
        assert forall|i: int| 0 <= i <= g.last() && (#[trigger] c[i]).uuids.contains(
            id,
        ) implies g.contains(i as nat) by {
            assert(g[g.len() - 1] == fs[g.len() - 1]);
            assert(fs[g.len() - 1] <= fs[fs.len() - 1]);
            let k = choose|k: int| 0 <= k < fs.len() && fs[k] == i as nat;
            if k < g.len() {
                assert(g[k] == i as nat);
            } else {
                assert(g[g.len() - 1] == i as nat);
            }
        }
        lemma_paths_once(c, id, g);
        let last = g.last() as int;
        assert(fs[g.len() - 1] == last);
        assert(fs[g.len() - 1] <= fs[fs.len() - 1]);
        if last == f {
            let h = holders(c.take(f + 1), id);
            assert(h[h.len() - 1] == c[f].path);
            assert(paths_once(g, hs).contains(hs[f].path));
        } else {
            assert forall|i: int| last + 1 <= i < f implies !(#[trigger] c[i]).uuids.contains(
                id,
            ) by {
                if c[i].uuids.contains(id) {
                    let k = choose|k: int| 0 <= k < fs.len() && fs[k] == i as nat;
                    if k < g.len() {
                        assert(fs[k] <= fs[g.len() - 1]);
                    }
                }
            }
            lemma_holders_gap(c, id, last + 1, f);
        }
    } else {
        assert forall|i: int| 0 <= i < f implies !(#[trigger] c[i]).uuids.contains(id) by {
            if c[i].uuids.contains(id) {
                let k = choose|k: int| 0 <= k < fs.len() && fs[k] == i as nat;
            }
        }
        lemma_holders_gap(c, id, 0, f);
        assert(c.take(0) =~= Seq::<SpecRecord>::empty());
    }
    if paths_once(g, hs) == holders(c.take(f), id) {
        if holders(c.take(f), id).contains(c[f].path) {
            lemma_holders_paths(c.take(f), id, c[f].path);
            let i = choose|i: int|
                0 <= i < c.take(f).len() && (#[trigger] c.take(f)[i]).path == c[f].path;
            assert(c[i].path == c[f].path);
        }
    }
}

/// The entries of a saved catalog form a sorted table.
proof fn lemma_saved_table(c: Seq<SpecRecord>)
    requires
        catalog_fits(c),
        catalog_bytes(c).len() <= u64::MAX,
    ensures
        ({
            let d = catalog_bytes(c);
            let es = sorted_placed(c);
            let t = entry_table(entries_start(c), es.len());
            &&& t.count == es.len()
            &&& t.off == entries_start(c)
            &&& t.at(t.count as int) <= d.len()
            &&& crate::search::sorted_table(d, t)
            &&& forall|k: int| 0 <= k < es.len() ==> uuid_at(d, #[trigger] t.at(k)) == es[k].id
        }),
{
    let d = catalog_bytes(c);
    let es = sorted_placed(c);
    let off = entries_start(c);
    let t = entry_table(off, es.len());
    saved_catalog_index(c);
    lemma_sorted_placed(c);
    let read = entries_at(d, off, es.len());
    assert forall|k: int| 0 <= k < es.len() implies uuid_at(d, #[trigger] t.at(k)) == es[k].id by {
        assert(read[k] == es[k]);
        assert(t.at(k) == off + 21 * k);
    }
    assert forall|i: int, j: int| 0 <= i < j < t.count implies bytes_le(
        #[trigger] uuid_at(d, t.at(i)).0@,
        #[trigger] uuid_at(d, t.at(j)).0@,
    ) by {
        assert(bytes_le(es[i].id.0@, es[j].id.0@));
    }
}

/// The sorted entries name the files that hold the ids.
proof fn lemma_sorted_files(c: Seq<SpecRecord>)
    requires
        c.len() < 0x1_0000_0000,
    ensures
        forall|k: int|
            0 <= k < sorted_placed(c).len() ==> (#[trigger] sorted_placed(c)[k]).file < c.len()
                && c[sorted_placed(c)[k].file as int].uuids.contains(sorted_placed(c)[k].id),
        forall|i: int, id: Uuid|
            0 <= i < c.len() && #[trigger] c[i].uuids.contains(id) ==> sorted_placed(c).contains(
                SpecPlaced { id, file: i as nat },
            ),
{
    let es = sorted_placed(c);
    let perm = crate::sort::sorted_is_in_order(placed(c), placed_keys(placed(c)));
    lemma_placed_files(c);
    assert forall|k: int| 0 <= k < es.len() implies (#[trigger] es[k]).file < c.len()
        && c[es[k].file as int].uuids.contains(es[k].id) by {
        assert(es[k] == placed(c)[perm[k]]);
    }
    assert forall|i: int, id: Uuid| 0 <= i < c.len() && #[trigger] c[i].uuids.contains(
        id,
    ) implies es.contains(SpecPlaced { id, file: i as nat }) by {
        let e = SpecPlaced { id, file: i as nat };
        let x = choose|x: int| 0 <= x < placed(c).len() && placed(c)[x] == e;
        assert(perm.contains(x));
        let k = choose|k: int| 0 <= k < perm.len() && perm[k] == x;
        assert(es[k] == e);
    }
}

/// Where a lookup in a saved catalog starts.
proof fn lemma_found_start(c: Seq<SpecRecord>, id: Uuid) -> (lo: int)
    requires
        catalog_fits(c),
        catalog_bytes(c).len() <= u64::MAX,
    ensures
        0 <= lo <= sorted_placed(c).len(),
        bisected(
            catalog_bytes(c),
            entry_table(entries_start(c), sorted_placed(c).len()),
            id,
            0,
            sorted_placed(c).len() as int,
        ) == Some(lo),
        forall|j: int|
            lo <= j < sorted_placed(c).len() ==> !bytes_lt(
                (#[trigger] sorted_placed(c)[j]).id.0@,
                id.0@,
            ),
        forall|j: int| 0 <= j < lo ==> (#[trigger] sorted_placed(c)[j]).id != id,
{
    let d = catalog_bytes(c);
    let es = sorted_placed(c);
    let t = entry_table(entries_start(c), es.len());
    lemma_saved_table(c);
    let lo = crate::search::bisected_is_first(d, t, id, 0, t.count as int);
    assert forall|j: int| lo <= j < es.len() implies !bytes_lt((#[trigger] es[j]).id.0@, id.0@) by {
        assert(uuid_at(d, t.at(j)) == es[j].id);
    }
    assert forall|j: int| 0 <= j < lo implies (#[trigger] es[j]).id != id by {
        assert(uuid_at(d, t.at(j)) == es[j].id);
        assert(bytes_lt(uuid_at(d, t.at(j)).0@, id.0@));
    }
    lo
}

/// Whether entries name the files that hold their ids, and all of them.
spec fn names_files(c: Seq<SpecRecord>, es: Seq<SpecPlaced>) -> bool {
    &&& forall|k: int|
        0 <= k < es.len() ==> (#[trigger] es[k]).file < c.len()
            && c[es[k].file as int].uuids.contains(es[k].id)
    &&& forall|i: int, id: Uuid|
        0 <= i < c.len() && #[trigger] c[i].uuids.contains(id) ==> es.contains(
            SpecPlaced { id, file: i as nat },
        )
}

/// The numbers in the run of an id rise, and are those of all files that hold it.
proof fn lemma_run_names_all(
    c: Seq<SpecRecord>,
    d: Seq<u8>,
    t: Table,
    es: Seq<SpecPlaced>,
    id: Uuid,
    lo: int,
) -> (fs: Seq<nat>)
    requires
        t.size == 21,
        t.width == 21,
        t.count == es.len(),
        t.at(t.count as int) <= d.len(),
        entries_at(d, t.off as int, es.len()) == es,
        placed_in_order(es),
        names_files(c, es),
        0 <= lo <= es.len(),
        forall|j: int| lo <= j < es.len() ==> !bytes_lt((#[trigger] es[j]).id.0@, id.0@),
        forall|j: int| 0 <= j < lo ==> (#[trigger] es[j]).id != id,
    ensures
        run_files(d, t, id, lo) == Some(fs),
        forall|k: int| 0 <= k < fs.len() ==> (#[trigger] fs[k]) < c.len(),
        forall|k: int| 0 <= k < fs.len() ==> c[#[trigger] fs[k] as int].uuids.contains(id),
        forall|k: int, l: int| 0 <= k <= l < fs.len() ==> #[trigger] fs[k] <= #[trigger] fs[l],
        forall|i: int|
            0 <= i < c.len() && (#[trigger] c[i]).uuids.contains(id) ==> fs.contains(i as nat),
{
    let fs = lemma_run_files(d, t, es, id, lo);
    assert forall|k: int| 0 <= k < fs.len() implies (#[trigger] fs[k]) < c.len()
        && c[fs[k] as int].uuids.contains(id) by {
        assert(es[lo + k].file < c.len());
    }
    assert forall|k: int, l: int| 0 <= k <= l < fs.len() implies #[trigger] fs[k]
        <= #[trigger] fs[l] by {
        if k < l {
            assert(fs[k] == es[lo + k].file && fs[l] == es[lo + l].file);
        }
    }
    assert forall|i: int| 0 <= i < c.len() && (#[trigger] c[i]).uuids.contains(
        id,
    ) implies fs.contains(i as nat) by {
        let e = SpecPlaced { id, file: i as nat };
        assert(es.contains(e));
        let k = choose|k: int| 0 <= k < es.len() && es[k] == e;
        assert(es[k].id == id);
        assert(fs[k - lo] == i as nat);
    }
    fs
}

/// The numbers that a lookup in a saved catalog comes to: rising, and those of
/// all files that hold the id.
proof fn lemma_found_files(c: Seq<SpecRecord>, id: Uuid) -> (fs: Seq<nat>)
    requires
        catalog_fits(c),
        catalog_bytes(c).len() <= u64::MAX,
    ensures
        looked_up(
            catalog_bytes(c),
            heads_of(c),
            entry_table(entries_start(c), sorted_placed(c).len()),
            id,
        ) == Some(paths_once(fs, heads_of(c))),
        forall|k: int| 0 <= k < fs.len() ==> (#[trigger] fs[k]) < c.len(),
        forall|k: int| 0 <= k < fs.len() ==> c[#[trigger] fs[k] as int].uuids.contains(id),
        forall|k: int, l: int| 0 <= k <= l < fs.len() ==> #[trigger] fs[k] <= #[trigger] fs[l],
        forall|i: int|
            0 <= i < c.len() && (#[trigger] c[i]).uuids.contains(id) ==> fs.contains(i as nat),
{
    let d = catalog_bytes(c);
    let es = sorted_placed(c);
    let t = entry_table(entries_start(c), es.len());
    let lo = lemma_found_start(c, id);
    assert(t.count == es.len() && t.off == entries_start(c) && t.at(t.count as int) <= d.len()) by {
        lemma_saved_table(c);
    }
    assert(entries_at(d, t.off as int, es.len()) == es) by {
        saved_catalog_index(c);
    }
    lemma_sorted_placed(c);
    assert(names_files(c, es)) by {
        lemma_sorted_files(c);
    }
    lemma_run_names_all(c, d, t, es, id, lo)
}

/// A lookup in the file of a catalog gives what a lookup in the catalog gives.
pub proof fn reader_agrees_with_catalog(c: Seq<SpecRecord>, id: Uuid)
    requires
        catalog_fits(c),
        catalog_bytes(c).len() <= u64::MAX,
        distinct_paths(c),
    ensures
        looked_up(
            catalog_bytes(c),
            heads_of(c),
            entry_table(entries_start(c), sorted_placed(c).len()),
            id,
        ) == Some(holders(c, id)),
{
    let fs = lemma_found_files(c, id);
    if fs.len() > 0 {
        lemma_paths_once(c, id, fs);
        let f = fs.last() as int;
        assert(fs[fs.len() - 1] < c.len());
        assert forall|i: int| f + 1 <= i < c.len() implies !(#[trigger] c[i]).uuids.contains(
            id,
        ) by {
            if c[i].uuids.contains(id) {
                let k = choose|k: int| 0 <= k < fs.len() && fs[k] == i as nat;
                assert(fs[k] <= fs[fs.len() - 1]);
            }
        }
        lemma_holders_gap(c, id, f + 1, c.len() as int);
    } else {
        assert forall|i: int| 0 <= i < c.len() implies !(#[trigger] c[i]).uuids.contains(id) by {}
        lemma_holders_gap(c, id, 0, c.len() as int);
        assert(c.take(0) =~= Seq::<SpecRecord>::empty());
    }
    assert(c.take(c.len() as int) =~= c);
}

// ---------------------------------------------------------------------------
// Laws of what a catalog says
// ---------------------------------------------------------------------------

/// The files that hold an id are all those whose record lists it, in order.
pub proof fn every_holder_is_named(c: Seq<SpecRecord>, id: Uuid) -> (at: Seq<int>)
    ensures
        at.len() == holders(c, id).len(),
        forall|x: int|
            0 <= x < at.len() ==> 0 <= #[trigger] at[x] < c.len() && holders(c, id)[x]
                == c[at[x]].path && c[at[x]].uuids.contains(id),
        forall|x: int, y: int| 0 <= x < y < at.len() ==> #[trigger] at[x] < #[trigger] at[y],
        forall|i: int| 0 <= i < c.len() && (#[trigger] c[i]).uuids.contains(id) ==> at.contains(i),
    decreases c.len(),
{
    if c.len() == 0 {
        Seq::empty()
    } else {
        let d = c.drop_last();
        let rest = every_holder_is_named(d, id);
        let at = if c.last().uuids.contains(id) {
            rest.push(c.len() - 1)
        } else {
            rest
        };
        assert forall|i: int| 0 <= i < c.len() && (#[trigger] c[i]).uuids.contains(id) implies at.contains(
            i,
        ) by {
            if i < d.len() {
                assert(d[i] == c[i]);
                let x = choose|x: int| 0 <= x < rest.len() && rest[x] == i;
                assert(at[x] == i);
            } else {
                assert(at[rest.len() as int] == i);
            }
        }
        assert forall|x: int| 0 <= x < at.len() implies 0 <= #[trigger] at[x] < c.len() && holders(
            c,
            id,
        )[x] == c[at[x]].path && c[at[x]].uuids.contains(id) by {
            if x < rest.len() {
                assert(at[x] == rest[x]);
                assert(d[rest[x]] == c[rest[x]]);
            }
        }
        at
    }
}

/// A catalog from which a file was removed has every record but those with its path.
pub proof fn a_removed_file_is_gone(c: Seq<SpecRecord>, path: Seq<char>, r: SpecRecord)
    ensures
        removed(c, path).contains(r) <==> c.contains(r) && r.path != path,
{
    let p = |x: SpecRecord| x.path != path;
    let at = crate::tree::lemma_filtered(c, p);
    let f = c.filter(p);
    if c.contains(r) && p(r) {
        let i = choose|i: int| 0 <= i < c.len() && c[i] == r;
        let x = choose|x: int| 0 <= x < at.len() && at[x] == i;
        assert(f[x] == c[at[x]]);
    }
    if f.contains(r) {
        let x = choose|x: int| 0 <= x < f.len() && f[x] == r;
        assert(c[at[x]] == r && p(c[at[x]]));
    }
}

/// A catalog in which a file was recorded goes by path.
pub proof fn records_go_by_path(c: Seq<SpecRecord>, r: SpecRecord, i: int, j: int)
    requires
        0 <= i < j < upserted(c, r).len(),
    ensures
        crate::sort::bytes_le(
            encode_utf8(upserted(c, r)[i].path),
            encode_utf8(upserted(c, r)[j].path),
        ),
{
    let d = put_record(c, r);
    let p = crate::sort::sorted_is_in_order(d, path_keys(d));
    let u = upserted(c, r);
    assert(u[i] == d[p[i]] && u[j] == d[p[j]]);
    assert(crate::sort::goes_before(path_keys(d), p[i], p[j]));
    crate::sort::lemma_bytes_le_reflexive(encode_utf8(u[i].path));
}

/// A catalog begins with `XRCAT` and the version.
pub proof fn catalogs_begin_with_their_head(c: Seq<SpecRecord>)
    ensures
        catalog_bytes(c).len() >= 6,
        catalog_bytes(c)[0] == 0x58 && catalog_bytes(c)[1] == 0x52 && catalog_bytes(c)[2] == 0x43
            && catalog_bytes(c)[3] == 0x41 && catalog_bytes(c)[4] == 0x54 && catalog_bytes(c)[5] == 2,
{
}

} // verus!
