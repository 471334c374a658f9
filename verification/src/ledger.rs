//! Reading the index of a workspace: its logs are replayed over its table, and
//! questions are answered from blocks and logs together.
use crate::backend::{hit_models, source_models, Backend, BackendKind, FileNode, SpecHit};
use crate::bytes::{be_value, get_be, sub_bytes};
use crate::codec::{Node, SpecNode, Uuid};
use crate::idmap::{list_of, IdMap, IdSet};
use crate::index::{node_in, read_node_at};
use crate::sort::{arranged, key_views, order, sorted};
use crate::text::{join3, owned, same_text, text_views};
use crate::wsidx::{block_entry, block_fault, block_models, collect_match, data_views, dec_loc,
    dec_rel, dec_rev, file_at, file_current, file_models, find_file, find_path, fixed_prefix_len,
    has_number, is_current, keyed_table, ledger_matches, loc_of, num_at, prefix_fault, prefix_len,
    rd_file_rec, read_entry, read_prefix, record, rel_of, rev_of, stale_paths, starting_with,
    with_id, with_path, BlockInfo, FileEntry, Ledger, LocEntry, Manifest, Part, Print, RelEntry,
    SpecFile, SpecManifest, NO_BLOCK, OUT_OF_BOUNDS, REC_ENTRY, REC_FILE, REC_FILE_REMOVE};
use std::collections::{HashMap, HashSet};
use vstd::prelude::*;
use vstd::utf8::encode_utf8;

verus! {

broadcast use vstd::std_specs::hash::group_hash_axioms;

// ---------------------------------------------------------------------------
// Replaying logs
// ---------------------------------------------------------------------------

/// What logs say of files: the table, the newest generation of each, and those that
/// were taken out.
pub struct SpecReplay {
    pub files: Seq<SpecFile>,
    pub finals: Map<u32, u64>,
    pub removed: Set<u32>,
}

/// A log that is being replayed: what was said of files, the file that was named
/// last with its generation, and the entries met so far with theirs.
pub struct LogState {
    pub at: SpecReplay,
    pub cur: Option<(u32, u64)>,
    pub pending: Seq<(u32, u64, Seq<u8>)>,
}

/// The files once a record of a file is put in. It takes the place of one that is not of a
/// newer generation.
pub open spec fn files_put(fs: Seq<SpecFile>, f: SpecFile) -> Seq<SpecFile> {
    match with_id(fs, f.id) {
        Some(i) => if f.cur < fs[i].cur {
            fs
        } else {
            fs.update(i, f)
        },
        None => fs.push(f),
    }
}

/// The newer of two generations.
pub open spec fn newer(finals: Map<u32, u64>, id: u32, gen: u64) -> u64 {
    if finals.contains_key(id) && finals[id] >= gen {
        finals[id]
    } else {
        gen
    }
}

/// What a record of a file makes of the state.
pub open spec fn file_named(st: LogState, f: SpecFile) -> LogState {
    LogState {
        at: SpecReplay {
            files: files_put(st.at.files, f),
            finals: st.at.finals.insert(f.id, newer(st.at.finals, f.id, f.cur)),
            removed: st.at.removed.remove(f.id),
        },
        cur: Some((f.id, f.cur)),
        pending: st.pending,
    }
}

/// What a record makes of the state. Records that are not known change nothing.
pub open spec fn stepped(st: LogState, kind: u8, payload: Seq<u8>) -> Result<LogState, Seq<char>> {
    if kind == REC_FILE {
        match file_at(payload, 0) {
            Err(e) => Err(e),
            Ok((f, _)) => Ok(file_named(st, f)),
        }
    } else if kind == REC_FILE_REMOVE {
        match num_at(payload, 0, 4) {
            Err(e) => Err(e),
            Ok((id, _)) => Ok(
                LogState {
                    at: SpecReplay { removed: st.at.removed.insert(id as u32), ..st.at },
                    ..st
                },
            ),
        }
    } else if kind == REC_ENTRY && st.cur is Some {
        let c = st.cur->Some_0;
        Ok(LogState { pending: st.pending.push((c.0, c.1, payload)), ..st })
    } else {
        Ok(st)
    }
}

/// How long the payload of the record at `off` is.
pub open spec fn record_len(d: Seq<u8>, off: int) -> int {
    be_value(d.subrange(off, off + 4)) as int
}

/// What the records from `off` on make of the state, up to one that is cut short.
pub open spec fn replayed(st: LogState, d: Seq<u8>, off: int) -> Result<LogState, Seq<char>>
    decreases d.len() - off,
{
    if off < 0 || off + 5 > d.len() {
        Ok(st)
    } else {
        let n = record_len(d, off);
        if n < 0 || off + 5 + n > d.len() {
            Ok(st)
        } else {
            match stepped(st, d[off + 4], d.subrange(off + 5, off + 5 + n)) {
                Err(e) => Err(e),
                Ok(s) => replayed(s, d, off + 5 + n),
            }
        }
    }
}

/// The entries of the right size that belong to the newest generation of their file.
pub open spec fn live(
    pending: Seq<(u32, u64, Seq<u8>)>,
    finals: Map<u32, u64>,
    size: int,
) -> Seq<Seq<u8>>
    decreases pending.len(),
{
    if pending.len() == 0 {
        Seq::<Seq<u8>>::empty()
    } else {
        let r = live(pending.drop_last(), finals, size);
        let p = pending.last();
        if p.2.len() == size && (finals.contains_key(p.0) ==> finals[p.0] == p.1) {
            r.push(p.2)
        } else {
            r
        }
    }
}

/// What a log makes of what is known of files, and its entries that count.
pub open spec fn log_outcome(at: SpecReplay, log: Option<Seq<u8>>, kind: Ledger) -> Result<
    (SpecReplay, Seq<Seq<u8>>),
    Seq<char>,
> {
    match log {
        None => Ok((at, Seq::<Seq<u8>>::empty())),
        Some(d) => match prefix_fault(d, kind.code(), Part::Log) {
            Some(e) => Err(e),
            None => {
                let st = LogState {
                    at,
                    cur: None,
                    pending: Seq::<(u32, u64, Seq<u8>)>::empty(),
                };
                match replayed(st, d, prefix_len()) {
                    Err(e) => Err(e),
                    Ok(s) => Ok((s.at, live(s.pending, s.at.finals, kind.size()))),
                }
            },
        },
    }
}

/// What is known of files while logs are replayed.
#[derive(Debug)]
pub struct Replay {
    pub files: Vec<FileEntry>,
    pub finals: HashMap<u32, u64>,
    pub removed: HashSet<u32>,
}

impl View for Replay {
    type V = SpecReplay;

    open spec fn view(&self) -> SpecReplay {
        SpecReplay {
            files: file_models(self.files@),
            finals: self.finals@,
            removed: self.removed@,
        }
    }
}

/// The models of entries that were met.
pub open spec fn pending_models(s: Seq<(u32, u64, Vec<u8>)>) -> Seq<(u32, u64, Seq<u8>)> {
    Seq::new(s.len(), |i: int| (s[i].0, s[i].1, s[i].2@))
}

impl Replay {
    /// Takes in a record of a file.
    fn name_file(&mut self, f: FileEntry)
        ensures
            forall|st: LogState|
                st.at == old(self)@ ==> (#[trigger] file_named(st, f@)).at == final(self)@,
    {
        let id: u32 = f.id;
        let gen: u64 = match self.finals.get(&id) {
            Some(g) => if *g >= f.cur_gen {
                *g
            } else {
                f.cur_gen
            },
            None => f.cur_gen,
        };
        self.finals.insert(id, gen);
        self.removed.remove(&id);
        let ghost fs = file_models(self.files@);
        let ghost fm = f@;
        match find_file(&self.files, id) {
            Some(i) => {
                assert(fs[i as int] == self.files@[i as int]@);
                if f.cur_gen >= self.files[i].cur_gen {
                    self.files.set(i, f);
                    assert(file_models(self.files@) =~= fs.update(i as int, fm));
                }
            },
            None => {
                self.files.push(f);
                assert(file_models(self.files@) =~= fs.push(fm));
            },
        }
    }
}

/// Keeps the entries of the right size that belong to the newest generation of their
/// file.
fn keep_live(pending: Vec<(u32, u64, Vec<u8>)>, finals: &HashMap<u32, u64>, size: usize) -> (r: Vec<
    Vec<u8>,
>)
    ensures
        key_views(r@) == live(pending_models(pending@), finals@, size as int),
        forall|k: int| 0 <= k < r@.len() ==> (#[trigger] r@[k])@.len() == size,
{
    let ghost ps = pending_models(pending@);
    let mut out: Vec<Vec<u8>> = Vec::new();
    let mut i: usize = 0;
    assert(ps.take(0) =~= Seq::<(u32, u64, Seq<u8>)>::empty());
    assert(key_views(out@) =~= live(ps.take(0), finals@, size as int));
    while i < pending.len()
        invariant
            i <= pending@.len(),
            ps == pending_models(pending@),
            key_views(out@) == live(ps.take(i as int), finals@, size as int),
            forall|k: int| 0 <= k < out@.len() ==> (#[trigger] out@[k])@.len() == size,
        decreases pending@.len() - i,
    {
        proof {
            assert(ps.take(i + 1).drop_last() =~= ps.take(i as int));
            assert(ps.take(i + 1).last() == ps[i as int]);
        }
        let p = &pending[i];
        let counts: bool = match finals.get(&p.0) {
            Some(g) => *g == p.1,
            None => true,
        };
        if p.2.len() == size && counts {
            let e = sub_bytes(p.2.as_slice(), 0, size);
            assert(e@ =~= p.2@);
            let ghost o0 = out@;
            out.push(e);
            assert(key_views(out@) =~= key_views(o0).push(p.2@));
        }
        i = i + 1;
    }
    assert(ps.take(ps.len() as int) =~= ps);
    out
}

/// Replays a log.
fn load_log(start: Replay, log: Option<&[u8]>, kind: Ledger) -> (r: Result<
    (Replay, Vec<Vec<u8>>),
    String,
>)
    ensures
        match log_outcome(
            start@,
            match log {
                Some(d) => Some(d@),
                None => None,
            },
            kind,
        ) {
            Ok(w) => r is Ok && r->Ok_0.0@ == w.0 && key_views(r->Ok_0.1@) == w.1 && forall|k: int|
                0 <= k < r->Ok_0.1@.len() ==> (#[trigger] r->Ok_0.1@[k])@.len() == kind.size(),
            Err(e) => r is Err && r->Err_0@ == e,
        },
{
    let d = match log {
        None => {
            let none: Vec<Vec<u8>> = Vec::new();
            assert(key_views(none@) =~= Seq::<Seq<u8>>::empty());
            return Ok((start, none));
        },
        Some(d) => d,
    };
    match read_prefix(d, kind.byte(), Part::Log) {
        Err(e) => return Err(e),
        Ok(()) => {},
    }
    let ghost st0 = LogState { at: start@, cur: None, pending: Seq::<(u32, u64, Seq<u8>)>::empty() };
    let ghost want = replayed(st0, d@, prefix_len());
    let mut at = start;
    let mut cur: Option<(u32, u64)> = None;
    let mut pending: Vec<(u32, u64, Vec<u8>)> = Vec::new();
    let len: usize = d.len();
    let mut off: usize = fixed_prefix_len();
    assert(pending_models(pending@) =~= Seq::<(u32, u64, Seq<u8>)>::empty());
    loop
        invariant_except_break
            off <= len,
            len == d@.len(),
            log == Some(d),
            prefix_fault(d@, kind.code(), Part::Log) is None,
            st0 == (LogState {
                at: start@,
                cur: None,
                pending: Seq::<(u32, u64, Seq<u8>)>::empty(),
            }),
            want == replayed(st0, d@, prefix_len()),
            want == replayed(
                LogState { at: at@, cur, pending: pending_models(pending@) },
                d@,
                off as int,
            ),
        ensures
            want == Ok::<LogState, Seq<char>>(
                LogState { at: at@, cur, pending: pending_models(pending@) },
            ),
        decreases len - off,
    {
        let ghost st = LogState { at: at@, cur, pending: pending_models(pending@) };
        if len - off < 5 {
            break;
        }
        let n: u64 = get_be(d, off, 4);
        if n > (len - off - 5) as u64 {
            break;
        }
        let kind_byte: u8 = d[off + 4];
        let end: usize = off + 5 + n as usize;
        let payload = sub_bytes(d, off + 5, end);
        assert(payload@ =~= d@.subrange(off + 5, off + 5 + n));
        if kind_byte == REC_FILE {
            match rd_file_rec(payload.as_slice(), 0) {
                Err(e) => return Err(e),
                Ok((f, _)) => {
                    cur = Some((f.id, f.cur_gen));
                    let ghost fm = f@;
                    at.name_file(f);
                    assert(file_named(st, fm).at == at@);
                },
            }
        } else if kind_byte == REC_FILE_REMOVE {
            if payload.len() < 4 {
                return Err(owned(OUT_OF_BOUNDS));
            }
            proof {
                crate::bytes::lemma_pow256_values();
                crate::bytes::lemma_be_value_bound(payload@.subrange(0, 4));
            }
            let id: u32 = get_be(payload.as_slice(), 0, 4) as u32;
            at.removed.insert(id);
        } else if kind_byte == REC_ENTRY {
            if let Some((fid, g)) = cur {
                let ghost p0 = pending@;
                let ghost pm = payload@;
                pending.push((fid, g, payload));
                assert(pending_models(pending@) =~= pending_models(p0).push((fid, g, pm)));
            }
        }
        off = end;
    }
    let entries = keep_live(pending, &at.finals, kind.entry_size());
    Ok((at, entries))
}

// ---------------------------------------------------------------------------
// Loading an index
// ---------------------------------------------------------------------------

/// One ledger: its blocks with their bytes, and the entries of its log that count.
#[derive(Debug)]
pub struct Shelf {
    pub blocks: Vec<BlockInfo>,
    pub data: Vec<Vec<u8>>,
    pub log: Vec<Vec<u8>>,
}

impl Shelf {
    /// Every block has its bytes and keys, and entries have the right size.
    pub open spec fn wf(&self, kind: Ledger) -> bool {
        &&& self.blocks@.len() == self.data@.len()
        &&& crate::wsidx::keyed(block_models(self.blocks@))
        &&& forall|k: int|
            0 <= k < self.log@.len() ==> (#[trigger] self.log@[k])@.len() == kind.size()
    }

    /// What the blocks give for a key.
    pub open spec fn in_blocks(&self, kind: Ledger, key: Seq<u8>) -> Result<
        Seq<Seq<u8>>,
        Seq<char>,
    > {
        ledger_matches(block_models(self.blocks@), data_views(self.data@), kind, key)
    }

    /// What the log gives for a key.
    pub open spec fn in_log(&self, key: Seq<u8>) -> Seq<Seq<u8>> {
        starting_with(key_views(self.log@), key)
    }

    /// What the blocks give for a key.
    fn find_in_blocks(&self, kind: Ledger, key: &[u8]) -> (r: Result<Vec<Vec<u8>>, String>)
        requires
            self.wf(kind),
            key@.len() <= 32,
        ensures
            match self.in_blocks(kind, key@) {
                Ok(v) => r is Ok && key_views(r->Ok_0@) == v && forall|k: int|
                    0 <= k < r->Ok_0@.len() ==> (#[trigger] r->Ok_0@[k])@.len() == kind.size(),
                Err(e) => r is Err && r->Err_0@ == e,
            },
    {
        assert forall|i: int| 0 <= i < self.blocks@.len() implies (
        #[trigger] self.blocks@[i]).first@.len() == 32 && self.blocks@[i].last@.len() == 32 by {
            assert(block_models(self.blocks@)[i] == self.blocks@[i]@);
        }
        collect_match(&self.blocks, &self.data, kind, key)
    }

    /// What the log gives for a key.
    fn find_in_log(&self, kind: Ledger, key: &[u8]) -> (r: Vec<Vec<u8>>)
        requires
            self.wf(kind),
            key@.len() <= 32,
        ensures
            key_views(r@) == self.in_log(key@),
            forall|k: int| 0 <= k < r@.len() ==> (#[trigger] r@[k])@.len() == kind.size(),
    {
        let ghost es = key_views(self.log@);
        let ghost want = starting_with(es, key@);
        let mut out: Vec<Vec<u8>> = Vec::new();
        let mut i: usize = 0;
        assert(es.skip(0) =~= es);
        assert(key_views(out@) + want =~= want);
        while i < self.log.len()
            invariant
                i <= self.log@.len(),
                es == key_views(self.log@),
                self.wf(kind),
                key@.len() <= 32,
                want == key_views(out@) + starting_with(es.skip(i as int), key@),
                forall|k: int| 0 <= k < out@.len() ==> (#[trigger] out@[k])@.len() == kind.size(),
            decreases self.log@.len() - i,
        {
            proof {
                assert(es.skip(i as int)[0] == self.log@[i as int]@);
                assert(es.skip(i as int).skip(1) =~= es.skip(i + 1));
                assert(self.log@[i as int]@.len() == kind.size());
            }
            let e = self.log[i].as_slice();
            let front = sub_bytes(e, 0, key.len());
            assert(front@ =~= e@.take(key@.len() as int));
            if crate::bytes::same_bytes(front.as_slice(), key) {
                let c = sub_bytes(e, 0, e.len());
                assert(c@ =~= e@);
                let ghost o0 = out@;
                out.push(c);
                proof {
                    assert(key_views(out@) =~= key_views(o0).push(e@));
                    assert(key_views(o0) + (seq![e@] + starting_with(es.skip(i + 1), key@))
                        =~= key_views(out@) + starting_with(es.skip(i + 1), key@));
                }
            }
            i = i + 1;
        }
        assert(es.skip(es.len() as int) =~= Seq::<Seq<u8>>::empty());
        assert(key_views(out@) + Seq::<Seq<u8>>::empty() =~= key_views(out@));
        out
    }
}

/// The name of the first of `n` blocks that is not there.
pub open spec fn missing(
    bs: Seq<crate::wsidx::SpecBlock>,
    ds: Seq<Option<Vec<u8>>>,
    n: int,
) -> Option<Seq<char>>
    decreases n,
{
    if n <= 0 {
        None
    } else {
        match missing(bs, ds, n - 1) {
            Some(name) => Some(name),
            None => if ds[n - 1] is None {
                Some(bs[n - 1].name)
            } else {
                None
            },
        }
    }
}

/// What is said where a block is not there.
pub open spec fn missing_message(name: Seq<char>) -> Seq<char> {
    "F012：索引块缺失（"@ + name + "）"@
}

/// The bytes of blocks that are all there.
pub open spec fn block_contents(ds: Seq<Option<Vec<u8>>>) -> Seq<Seq<u8>> {
    Seq::new(ds.len(), |i: int| ds[i]->Some_0@)
}

/// Takes the bytes of blocks; or names the first that is not there.
fn take_blocks(blocks: &Vec<BlockInfo>, data: Vec<Option<Vec<u8>>>) -> (r: Result<
    Vec<Vec<u8>>,
    String,
>)
    requires
        blocks@.len() == data@.len(),
    ensures
        match missing(block_models(blocks@), data@, data@.len() as int) {
            Some(name) => r is Err && r->Err_0@ == missing_message(name),
            None => r is Ok && data_views(r->Ok_0@) == block_contents(data@),
        },
{
    let ghost bs = block_models(blocks@);
    let ghost ds = data@;
    let mut left = data;
    let mut out: Vec<Vec<u8>> = Vec::new();
    let mut i: usize = 0;
    assert(left@ =~= ds.skip(0));
    while i < blocks.len()
        invariant
            i <= blocks@.len(),
            blocks@.len() == ds.len(),
            bs == block_models(blocks@),
            ds == data@,
            left@ == ds.skip(i as int),
            missing(bs, ds, i as int) is None,
            out@.len() == i,
            forall|k: int| 0 <= k < i ==> (#[trigger] out@[k])@ == block_contents(ds)[k],
        decreases blocks@.len() - i,
    {
        let one = left.remove(0);
        assert(left@ =~= ds.skip(i + 1));
        assert(one == ds[i as int]);
        match one {
            Some(d) => out.push(d),
            None => {
                assert(missing(bs, ds, i + 1) == Some(bs[i as int].name));
                proof {
                    lemma_missing_stays(bs, ds, i + 1, ds.len() as int);
                }
                return Err(join3("F012：索引块缺失（", blocks[i].name.as_str(), "）"));
            },
        }
        i = i + 1;
    }
    assert(data_views(out@) =~= block_contents(ds));
    Ok(out)
}

proof fn lemma_missing_stays(
    bs: Seq<crate::wsidx::SpecBlock>,
    ds: Seq<Option<Vec<u8>>>,
    i: int,
    n: int,
)
    requires
        0 <= i <= n,
        missing(bs, ds, i) is Some,
    ensures
        missing(bs, ds, n) == missing(bs, ds, i),
    decreases n - i,
{
    if i < n {
        lemma_missing_stays(bs, ds, i, n - 1);
    }
}

/// The generations that a table gives: those of later records win.
pub open spec fn table_finals(fs: Seq<SpecFile>) -> Map<u32, u64>
    decreases fs.len(),
{
    if fs.len() == 0 {
        Map::<u32, u64>::empty()
    } else {
        table_finals(fs.drop_last()).insert(fs.last().id, fs.last().cur)
    }
}

/// What is known of files before logs are replayed.
pub open spec fn table_replay(fs: Seq<SpecFile>) -> SpecReplay {
    SpecReplay { files: fs, finals: table_finals(fs), removed: Set::<u32>::empty() }
}

/// What a loaded index holds: what is known of files, and the entries of the logs
/// that count.
pub struct SpecLoaded {
    pub at: SpecReplay,
    pub loc: Seq<Seq<u8>>,
    pub rel: Seq<Seq<u8>>,
    pub rev: Seq<Seq<u8>>,
}

/// What the logs make of a table.
pub open spec fn logs_outcome(
    fs: Seq<SpecFile>,
    loc: Option<Seq<u8>>,
    rel: Option<Seq<u8>>,
    rev: Option<Seq<u8>>,
) -> Result<SpecLoaded, Seq<char>> {
    match log_outcome(table_replay(fs), loc, Ledger::Loc) {
        Err(e) => Err(e),
        Ok((a, loc_es)) => match log_outcome(a, rel, Ledger::Rel) {
            Err(e) => Err(e),
            Ok((b, rel_es)) => match log_outcome(b, rev, Ledger::Rev) {
                Err(e) => Err(e),
                Ok((at, rev_es)) => Ok(
                    SpecLoaded { at, loc: loc_es, rel: rel_es, rev: rev_es },
                ),
            },
        },
    }
}

/// A loaded index.
#[derive(Debug)]
pub struct Loaded {
    pub at: Replay,
    pub loc: Shelf,
    pub rel: Shelf,
    pub rev: Shelf,
}

impl Loaded {
    /// Its ledgers are sound.
    pub open spec fn wf(&self) -> bool {
        self.loc.wf(Ledger::Loc) && self.rel.wf(Ledger::Rel) && self.rev.wf(Ledger::Rev)
    }
}

/// The bytes of the blocks of each ledger, as far as they are there.
#[derive(Debug)]
pub struct BlockFiles {
    pub loc: Vec<Option<Vec<u8>>>,
    pub rel: Vec<Option<Vec<u8>>>,
    pub rev: Vec<Option<Vec<u8>>>,
}

impl BlockFiles {
    /// There is one for every block of the table.
    pub open spec fn fits(&self, m: SpecManifest) -> bool {
        &&& self.loc@.len() == m.loc.blocks.len()
        &&& self.rel@.len() == m.rel.blocks.len()
        &&& self.rev@.len() == m.rev.blocks.len()
    }

    /// The name of the first block that is not there.
    pub open spec fn missing(&self, m: SpecManifest) -> Option<Seq<char>> {
        match missing(m.loc.blocks, self.loc@, self.loc@.len() as int) {
            Some(n) => Some(n),
            None => match missing(m.rel.blocks, self.rel@, self.rel@.len() as int) {
                Some(n) => Some(n),
                None => missing(m.rev.blocks, self.rev@, self.rev@.len() as int),
            },
        }
    }
}

/// The bytes of an optional file.
pub open spec fn bytes_view(d: Option<&[u8]>) -> Option<Seq<u8>> {
    match d {
        Some(b) => Some(b@),
        None => None,
    }
}

/// What the table says of files before logs are replayed.
fn start_replay(files: Vec<FileEntry>) -> (r: Replay)
    ensures
        r@ == table_replay(file_models(files@)),
{
    let ghost fs = file_models(files@);
    let mut finals: HashMap<u32, u64> = HashMap::new();
    let mut i: usize = 0;
    assert(fs.take(0) =~= Seq::<SpecFile>::empty());
    while i < files.len()
        invariant
            i <= files@.len(),
            fs == file_models(files@),
            finals@ == table_finals(fs.take(i as int)),
        decreases files@.len() - i,
    {
        proof {
            assert(fs.take(i + 1).drop_last() =~= fs.take(i as int));
            assert(fs.take(i + 1).last() == files@[i as int]@);
        }
        finals.insert(files[i].id, files[i].cur_gen);
        i = i + 1;
    }
    assert(fs.take(fs.len() as int) =~= fs);
    let removed: HashSet<u32> = HashSet::new();
    Replay { files, finals, removed }
}

/// Loads an index: its table, the bytes of its blocks and its logs.
pub fn load_index(
    m: Manifest,
    blocks: BlockFiles,
    loc_log: Option<&[u8]>,
    rel_log: Option<&[u8]>,
    rev_log: Option<&[u8]>,
) -> (r: Result<Loaded, String>)
    requires
        keyed_table(m@),
        blocks.fits(m@),
    ensures
        match blocks.missing(m@) {
            Some(name) => r is Err && r->Err_0@ == missing_message(name),
            None => match logs_outcome(
                m@.files,
                bytes_view(loc_log),
                bytes_view(rel_log),
                bytes_view(rev_log),
            ) {
                Err(e) => r is Err && r->Err_0@ == e,
                Ok(w) => r is Ok && {
                    let l = r->Ok_0;
                    &&& l.wf()
                    &&& l.at@ == w.at
                    &&& block_models(l.loc.blocks@) == m@.loc.blocks
                    &&& block_models(l.rel.blocks@) == m@.rel.blocks
                    &&& block_models(l.rev.blocks@) == m@.rev.blocks
                    &&& data_views(l.loc.data@) == block_contents(blocks.loc@)
                    &&& data_views(l.rel.data@) == block_contents(blocks.rel@)
                    &&& data_views(l.rev.data@) == block_contents(blocks.rev@)
                    &&& key_views(l.loc.log@) == w.loc
                    &&& key_views(l.rel.log@) == w.rel
                    &&& key_views(l.rev.log@) == w.rev
                },
            },
        },
{
    let loc_data = match take_blocks(&m.loc.blocks, blocks.loc) {
        Ok(v) => v,
        Err(e) => return Err(e),
    };
    let rel_data = match take_blocks(&m.rel.blocks, blocks.rel) {
        Ok(v) => v,
        Err(e) => return Err(e),
    };
    let rev_data = match take_blocks(&m.rev.blocks, blocks.rev) {
        Ok(v) => v,
        Err(e) => return Err(e),
    };
    proof {
        assert(data_views(loc_data@).len() == loc_data@.len());
        assert(data_views(rel_data@).len() == rel_data@.len());
        assert(data_views(rev_data@).len() == rev_data@.len());
    }
    let at = start_replay(m.files);
    let (at, loc_es) = match load_log(at, loc_log, Ledger::Loc) {
        Ok(x) => x,
        Err(e) => return Err(e),
    };
    let (at, rel_es) = match load_log(at, rel_log, Ledger::Rel) {
        Ok(x) => x,
        Err(e) => return Err(e),
    };
    let (at, rev_es) = match load_log(at, rev_log, Ledger::Rev) {
        Ok(x) => x,
        Err(e) => return Err(e),
    };
    let loc = Shelf { blocks: m.loc.blocks, data: loc_data, log: loc_es };
    let rel = Shelf { blocks: m.rel.blocks, data: rel_data, log: rel_es };
    let rev = Shelf { blocks: m.rev.blocks, data: rev_data, log: rev_es };
    Ok(Loaded { at, loc, rel, rev })
}

// ---------------------------------------------------------------------------
// Opening an index for questions
// ---------------------------------------------------------------------------

/// The file that an entry speaks of.
pub open spec fn file_of(kind: Ledger, e: Seq<u8>) -> u32 {
    match kind {
        Ledger::Loc => loc_of(e).file_id,
        Ledger::Rel => rel_of(e).file_id,
        Ledger::Rev => rev_of(e).file_id,
    }
}

/// The file that an entry speaks of.
fn entry_file(kind: Ledger, e: &[u8]) -> (r: u32)
    requires
        e@.len() == kind.size(),
    ensures
        r == file_of(kind, e@),
{
    match kind {
        Ledger::Loc => dec_loc(e).file_id,
        Ledger::Rel => dec_rel(e).file_id,
        Ledger::Rev => dec_rev(e).file_id,
    }
}

/// The numbers of the files that are not as they were when they were indexed.
pub open spec fn stale_ids(fs: Seq<SpecFile>, now: Seq<Option<Print>>) -> Set<u32>
    decreases fs.len(),
{
    if fs.len() == 0 {
        Set::<u32>::empty()
    } else {
        let r = stale_ids(fs.drop_last(), now);
        if is_current(fs.last(), now[fs.len() - 1]) {
            r
        } else {
            r.insert(fs.last().id)
        }
    }
}

/// The entries that speak of files that are not among those given.
pub open spec fn spoken(es: Seq<Seq<u8>>, kind: Ledger, removed: Set<u32>) -> Seq<Seq<u8>>
    decreases es.len(),
{
    if es.len() == 0 {
        es
    } else {
        let r = spoken(es.drop_last(), kind, removed);
        if removed.contains(file_of(kind, es.last())) {
            r
        } else {
            r.push(es.last())
        }
    }
}

/// Whether two entries speak of one node in one file.
pub open spec fn same_place(a: Seq<u8>, b: Seq<u8>) -> bool {
    loc_of(a).uuid == loc_of(b).uuid && loc_of(a).file_id == loc_of(b).file_id
}

/// The entries after which no other speaks of the same node in the same file.
pub open spec fn latest(es: Seq<Seq<u8>>) -> Seq<Seq<u8>>
    decreases es.len(),
{
    if es.len() == 0 {
        es
    } else {
        let r = latest(es.skip(1));
        if exists|j: int| 0 < j < es.len() && same_place(#[trigger] es[j], es[0]) {
            r
        } else {
            seq![es[0]] + r
        }
    }
}

/// Keeps the entries that speak of files that are not among those given.
fn keep_spoken(es: Vec<Vec<u8>>, kind: Ledger, removed: &HashSet<u32>) -> (r: Vec<Vec<u8>>)
    requires
        forall|k: int| 0 <= k < es@.len() ==> (#[trigger] es@[k])@.len() == kind.size(),
    ensures
        key_views(r@) == spoken(key_views(es@), kind, removed@),
        forall|k: int| 0 <= k < r@.len() ==> (#[trigger] r@[k])@.len() == kind.size(),
{
    let ghost ks = key_views(es@);
    let mut out: Vec<Vec<u8>> = Vec::new();
    let mut i: usize = 0;
    assert(ks.take(0) =~= Seq::<Seq<u8>>::empty());
    assert(key_views(out@) =~= spoken(ks.take(0), kind, removed@));
    while i < es.len()
        invariant
            i <= es@.len(),
            ks == key_views(es@),
            forall|k: int| 0 <= k < es@.len() ==> (#[trigger] es@[k])@.len() == kind.size(),
            key_views(out@) == spoken(ks.take(i as int), kind, removed@),
            forall|k: int| 0 <= k < out@.len() ==> (#[trigger] out@[k])@.len() == kind.size(),
        decreases es@.len() - i,
    {
        proof {
            assert(ks.take(i + 1).drop_last() =~= ks.take(i as int));
            assert(ks.take(i + 1).last() == es@[i as int]@);
        }
        let f: u32 = entry_file(kind, es[i].as_slice());
        if !removed.contains(&f) {
            let c = sub_bytes(es[i].as_slice(), 0, es[i].len());
            assert(c@ =~= es@[i as int]@);
            let ghost o0 = out@;
            out.push(c);
            assert(key_views(out@) =~= key_views(o0).push(es@[i as int]@));
        }
        i = i + 1;
    }
    assert(ks.take(ks.len() as int) =~= ks);
    out
}

/// Keeps the entries after which no other speaks of the same node in the same file.
fn keep_latest(es: Vec<Vec<u8>>) -> (r: Vec<Vec<u8>>)
    requires
        forall|k: int| 0 <= k < es@.len() ==> (#[trigger] es@[k])@.len() == Ledger::Loc.size(),
    ensures
        key_views(r@) == latest(key_views(es@)),
        forall|k: int| 0 <= k < r@.len() ==> (#[trigger] r@[k])@.len() == Ledger::Loc.size(),
{
    let ghost ks = key_views(es@);
    let mut met: IdMap<Vec<u32>> = IdMap::new();
    let mut back: Vec<Vec<u8>> = Vec::new();
    let mut i: usize = es.len();
    assert(ks.skip(ks.len() as int) =~= Seq::<Seq<u8>>::empty());
    assert(key_views(back@).reverse() =~= Seq::<Seq<u8>>::empty());
    while i > 0
        invariant
            i <= es@.len(),
            ks == key_views(es@),
            forall|k: int| 0 <= k < es@.len() ==> (#[trigger] es@[k])@.len() == Ledger::Loc.size(),
            forall|k: int|
                0 <= k < back@.len() ==> (#[trigger] back@[k])@.len() == Ledger::Loc.size(),
            key_views(back@).reverse() == latest(ks.skip(i as int)),
            forall|u: Uuid, f: u32| #[trigger]
                list_of(met@, u).contains(f) <==> exists|j: int|
                    i <= j < es@.len() && loc_of(#[trigger] ks[j]).uuid == u && loc_of(ks[j]).file_id
                        == f,
        decreases i,
    {
        i = i - 1;
        let ghost m0 = met@;
        let e = dec_loc(es[i].as_slice());
        let ghost rest = ks.skip(i as int);
        proof {
            assert(rest[0] == ks[i as int]);
            assert(rest.skip(1) =~= ks.skip(i + 1));
            assert(e == loc_of(ks[i as int]));
        }
        let known: bool = match met.get(e.uuid) {
            Some(v) => has_number(v, e.file_id),
            None => false,
        };
        proof {
            assert(known == list_of(met@, e.uuid).contains(e.file_id));
            if known {
                let j = choose|j: int|
                    i + 1 <= j < es@.len() && loc_of(#[trigger] ks[j]).uuid == e.uuid && loc_of(
                        ks[j],
                    ).file_id == e.file_id;
                assert(rest[j - i] == ks[j]);
                assert(same_place(rest[j - i], rest[0]));
            } else {
                assert forall|j: int| 0 < j < rest.len() implies !same_place(
                    #[trigger] rest[j],
                    rest[0],
                ) by {
                    assert(rest[j] == ks[i + j]);
                }
            }
        }
        if !known {
            let c = sub_bytes(es[i].as_slice(), 0, es[i].len());
            assert(c@ =~= es@[i as int]@);
            let ghost b0 = back@;
            back.push(c);
            met.push_to(e.uuid, e.file_id);
            proof {
                assert(key_views(back@) =~= key_views(b0).push(ks[i as int]));
                assert(key_views(back@).reverse() =~= seq![ks[i as int]] + key_views(b0).reverse());
                assert forall|u: Uuid, f: u32| #[trigger]
                    list_of(met@, u).contains(f) <==> list_of(m0, u).contains(f) || (u == e.uuid && f
                        == e.file_id) by {
                    if u == e.uuid {
                        let a = list_of(m0, u);
                        let b = list_of(met@, u);
                        assert(b =~= a.push(e.file_id));
                        if a.contains(f) {
                            let k = choose|k: int| 0 <= k < a.len() && a[k] == f;
                            assert(b[k] == f);
                        }
                        if f == e.file_id {
                            assert(b[a.len() as int] == f);
                        }
                        if b.contains(f) {
                            let k = choose|k: int| 0 <= k < b.len() && b[k] == f;
                            if k < a.len() {
                                assert(a[k] == f);
                            }
                        }
                    }
                }
            }
        }
        proof {
            assert forall|u: Uuid, f: u32| #[trigger]
                list_of(met@, u).contains(f) <==> exists|j: int|
                    i <= j < es@.len() && loc_of(#[trigger] ks[j]).uuid == u && loc_of(ks[j]).file_id
                        == f by {
                if u == e.uuid && f == e.file_id {
                    assert(loc_of(ks[i as int]).uuid == u);
                }
                if list_of(m0, u).contains(f) {
                    let j = choose|j: int|
                        i + 1 <= j < es@.len() && loc_of(#[trigger] ks[j]).uuid == u && loc_of(
                            ks[j],
                        ).file_id == f;
                    assert(i <= j < es@.len() && loc_of(ks[j]).uuid == u);
                }
            }
        }
    }
    assert(ks.skip(0) =~= ks);
    let mut out: Vec<Vec<u8>> = Vec::new();
    let mut k: usize = back.len();
    let ghost rev = key_views(back@).reverse();
    assert(key_views(out@) =~= rev.take(0));
    while k > 0
        invariant
            k <= back@.len(),
            rev == key_views(back@).reverse(),
            rev.len() == back@.len(),
            key_views(out@) == rev.take(back@.len() - k),
            forall|j: int|
                0 <= j < back@.len() ==> (#[trigger] back@[j])@.len() == Ledger::Loc.size(),
            forall|j: int| 0 <= j < out@.len() ==> (#[trigger] out@[j])@.len() == Ledger::Loc.size(),
        decreases k,
    {
        k = k - 1;
        let c = sub_bytes(back[k].as_slice(), 0, back[k].len());
        assert(c@ =~= back@[k as int]@);
        let ghost o0 = out@;
        out.push(c);
        proof {
            assert(key_views(out@) =~= key_views(o0).push(back@[k as int]@));
            assert(rev[back@.len() - k - 1] == back@[k as int]@);
            assert(rev.take(back@.len() - k) =~= rev.take(back@.len() - k - 1).push(
                rev[back@.len() - k - 1],
            ));
        }
    }
    assert(rev.take(rev.len() as int) =~= rev);
    out
}

/// An index that is open for questions, with what is known now of its files: their
/// prints, and their first bytes or why those could not be read.
#[derive(Debug)]
pub struct Reader {
    pub at: Replay,
    pub loc: Shelf,
    pub rel: Shelf,
    pub rev: Shelf,
    pub now: Vec<Option<Print>>,
    pub heads: Vec<Result<Vec<u8>, String>>,
    pub stale_files: Vec<String>,
}

impl Reader {
    /// Its ledgers are sound, and something is known of every file.
    pub open spec fn wf(&self) -> bool {
        &&& self.loc.wf(Ledger::Loc)
        &&& self.rel.wf(Ledger::Rel)
        &&& self.rev.wf(Ledger::Rev)
        &&& self.now@.len() == self.at.files@.len()
        &&& self.heads@.len() == self.at.files@.len()
    }

    /// Opens a loaded index: entries of files that changed or were taken out do not
    /// count.
    pub fn open(
        index: Loaded,
        now: Vec<Option<Print>>,
        heads: Vec<Result<Vec<u8>, String>>,
    ) -> (r: Reader)
        requires
            index.wf(),
            now@.len() == index.at.files@.len(),
            heads@.len() == index.at.files@.len(),
        ensures
            r.wf(),
            r.now == now,
            r.heads == heads,
            ({
                let fs = index.at@.files;
                let gone = index.at@.removed.union(stale_ids(fs, now@));
                &&& r.at@ == (SpecReplay { removed: gone, ..index.at@ })
                &&& text_views(r.stale_files@) == stale_paths(fs, now@)
                &&& r.loc.blocks == index.loc.blocks && r.loc.data == index.loc.data
                &&& r.rel.blocks == index.rel.blocks && r.rel.data == index.rel.data
                &&& r.rev.blocks == index.rev.blocks && r.rev.data == index.rev.data
                &&& key_views(r.loc.log@) == latest(
                    spoken(key_views(index.loc.log@), Ledger::Loc, gone),
                )
                &&& key_views(r.rel.log@) == spoken(key_views(index.rel.log@), Ledger::Rel, gone)
                &&& key_views(r.rev.log@) == spoken(key_views(index.rev.log@), Ledger::Rev, gone)
            }),
    {
        let ghost fs = index.at@.files;
        let ghost r0 = index.at@.removed;
        let mut at = index.at;
        let mut stale: Vec<String> = Vec::new();
        let mut i: usize = 0;
        proof {
            assert(fs.take(0) =~= Seq::<SpecFile>::empty());
            assert(at.removed@ =~= r0.union(stale_ids(fs.take(0), now@)));
            assert(text_views(stale@) =~= stale_paths(fs.take(0), now@));
        }
        while i < at.files.len()
            invariant
                i <= at.files@.len(),
                fs == file_models(at.files@),
                now@.len() == at.files@.len(),
                at.finals == index.at.finals,
                at.files == index.at.files,
                at.removed@ == r0.union(stale_ids(fs.take(i as int), now@)),
                text_views(stale@) == stale_paths(fs.take(i as int), now@),
            decreases at.files@.len() - i,
        {
            proof {
                assert(fs.take(i + 1).drop_last() =~= fs.take(i as int));
                assert(fs.take(i + 1).last() == at.files@[i as int]@);
            }
            if !file_current(&at.files[i], now[i]) {
                let ghost s0 = stale@;
                let ghost g0 = at.removed@;
                stale.push(at.files[i].path.clone());
                let id: u32 = at.files[i].id;
                at.removed.insert(id);
                proof {
                    assert(text_views(stale@) =~= text_views(s0).push(at.files@[i as int].path@));
                    assert(at.removed@ =~= r0.union(stale_ids(fs.take(i + 1), now@)));
                }
            }
            i = i + 1;
        }
        assert(fs.take(fs.len() as int) =~= fs);
        let loc_log = keep_latest(keep_spoken(index.loc.log, Ledger::Loc, &at.removed));
        let rel_log = keep_spoken(index.rel.log, Ledger::Rel, &at.removed);
        let rev_log = keep_spoken(index.rev.log, Ledger::Rev, &at.removed);
        Reader {
            at,
            loc: Shelf { blocks: index.loc.blocks, data: index.loc.data, log: loc_log },
            rel: Shelf { blocks: index.rel.blocks, data: index.rel.data, log: rel_log },
            rev: Shelf { blocks: index.rev.blocks, data: index.rev.data, log: rev_log },
            now,
            heads,
            stale_files: stale,
        }
    }
}

// ---------------------------------------------------------------------------
// Questions
// ---------------------------------------------------------------------------

/// Where a node is: in which file, where the nodes of the file start, and the place
/// and length among them.
#[derive(Debug)]
pub struct Hit {
    pub file: String,
    pub data_start: u64,
    pub off: u64,
    pub len: u64,
}

/// What a place is: the model of [`Hit`].
#[verifier::ext_equal]
pub struct SpecPlace {
    pub file: Seq<char>,
    pub start: u64,
    pub off: u64,
    pub len: u64,
}

impl View for Hit {
    type V = SpecPlace;

    open spec fn view(&self) -> SpecPlace {
        SpecPlace { file: self.file@, start: self.data_start, off: self.off, len: self.len }
    }
}

impl Clone for Hit {
    fn clone(&self) -> (r: Self)
        ensures
            r@ == self@,
    {
        Hit {
            file: self.file.clone(),
            data_start: self.data_start,
            off: self.off,
            len: self.len,
        }
    }
}

/// The models of places.
pub open spec fn place_models(s: Seq<Hit>) -> Seq<SpecPlace> {
    Seq::new(s.len(), |i: int| s[i]@)
}

/// A place that an entry gives: the number of the file, the place and the length.
pub type Spot = (u32, u64, u64);

/// The spots that entries give.
pub open spec fn loc_spots(es: Seq<Seq<u8>>) -> Seq<Spot> {
    Seq::new(es.len(), |i: int| (loc_of(es[i]).file_id, loc_of(es[i]).off, loc_of(es[i]).len))
}

/// The entries of blocks that still hold.
pub open spec fn holding(r: Reader, es: Seq<Seq<u8>>, kind: Ledger) -> Seq<Seq<u8>>
    decreases es.len(),
{
    if es.len() == 0 {
        es
    } else {
        let front = holding(r, es.drop_last(), kind);
        let f = file_of(kind, es.last());
        if r.block_holds(f) && r.is_fresh(f) {
            front.push(es.last())
        } else {
            front
        }
    }
}

/// The entries that speak of files that are as they were.
pub open spec fn of_fresh(r: Reader, es: Seq<Seq<u8>>) -> Seq<Seq<u8>>
    decreases es.len(),
{
    if es.len() == 0 {
        es
    } else {
        let front = of_fresh(r, es.drop_last());
        if r.is_fresh(loc_of(es.last()).file_id) {
            front.push(es.last())
        } else {
            front
        }
    }
}

/// The places of spots; or what is wrong with the first that has none.
pub open spec fn places(r: Reader, spots: Seq<Spot>) -> Result<Seq<SpecPlace>, Seq<char>>
    decreases spots.len(),
{
    if spots.len() == 0 {
        Ok(Seq::<SpecPlace>::empty())
    } else {
        match places(r, spots.drop_last()) {
            Err(e) => Err(e),
            Ok(ps) => match r.place(spots.last()) {
                Err(e) => Err(e),
                Ok(p) => Ok(ps.push(p)),
            },
        }
    }
}

/// The places after which no other is in the same file.
pub open spec fn last_per_file(ps: Seq<SpecPlace>) -> Seq<SpecPlace>
    decreases ps.len(),
{
    if ps.len() == 0 {
        ps
    } else {
        let r = last_per_file(ps.skip(1));
        if exists|j: int| 0 < j < ps.len() && (#[trigger] ps[j]).file == ps[0].file {
            r
        } else {
            seq![ps[0]] + r
        }
    }
}

/// The keys of places: their files.
pub open spec fn file_keys(ps: Seq<SpecPlace>) -> Seq<Seq<u8>> {
    Seq::new(ps.len(), |i: int| encode_utf8(ps[i].file))
}

/// One place per file, the last, by file.
pub open spec fn by_file(ps: Seq<SpecPlace>) -> Seq<SpecPlace> {
    sorted(last_per_file(ps), file_keys(last_per_file(ps)))
}

/// The ids, each where it stands first.
pub open spec fn first_ids(ids: Seq<Uuid>) -> Seq<Uuid>
    decreases ids.len(),
{
    if ids.len() == 0 {
        ids
    } else {
        let r = first_ids(ids.drop_last());
        if ids.drop_last().contains(ids.last()) {
            r
        } else {
            r.push(ids.last())
        }
    }
}

/// The roots that entries give.
pub open spec fn roots_in(es: Seq<Seq<u8>>) -> Seq<Uuid> {
    Seq::new(es.len(), |i: int| loc_of(es[i]).root)
}

/// The children that entries give.
pub open spec fn rels_in(es: Seq<Seq<u8>>) -> Seq<RelEntry> {
    Seq::new(es.len(), |i: int| rel_of(es[i]))
}

/// The keys of children: their ids.
pub open spec fn child_keys(es: Seq<RelEntry>) -> Seq<Seq<u8>> {
    Seq::new(es.len(), |i: int| es[i].child.0@)
}

/// The entries without those that follow one of the same child.
pub open spec fn one_per_child(es: Seq<RelEntry>) -> Seq<RelEntry>
    decreases es.len(),
{
    if es.len() == 0 {
        es
    } else {
        let r = one_per_child(es.drop_last());
        if r.len() > 0 && r.last().child == es.last().child {
            r
        } else {
            r.push(es.last())
        }
    }
}

/// The key under which the children of a node in a tree, or all nodes of the tree,
/// are filed.
pub open spec fn rel_key(root: Uuid, parent: Option<Uuid>) -> Seq<u8> {
    match parent {
        Some(p) => root.0@ + p.0@,
        None => root.0@,
    }
}

/// The places of children whose ids were not met before, with the ids met then; or
/// what is wrong with the first that has none.
pub open spec fn child_places(r: Reader, es: Seq<RelEntry>, seen: Set<Uuid>) -> Result<
    (Seq<SpecPlace>, Set<Uuid>),
    Seq<char>,
>
    decreases es.len(),
{
    if es.len() == 0 {
        Ok((Seq::<SpecPlace>::empty(), seen))
    } else {
        match child_places(r, es.drop_last(), seen) {
            Err(e) => Err(e),
            Ok((ps, met)) => {
                let c = es.last();
                if met.contains(c.child) {
                    Ok((ps, met))
                } else {
                    match r.place((c.file_id, c.off, c.len)) {
                        Err(e) => Err(e),
                        Ok(p) => Ok((ps.push(p), met.insert(c.child))),
                    }
                }
            },
        }
    }
}

/// The places of the children of a node in the trees with the roots.
pub open spec fn children_in(r: Reader, roots: Seq<Uuid>, parent: Uuid) -> Result<
    (Seq<SpecPlace>, Set<Uuid>),
    Seq<char>,
>
    decreases roots.len(),
{
    if roots.len() == 0 {
        Ok((Seq::<SpecPlace>::empty(), Set::<Uuid>::empty()))
    } else {
        match children_in(r, roots.drop_last(), parent) {
            Err(e) => Err(e),
            Ok((ps, met)) => match r.rels(roots.last(), Some(parent)) {
                Err(e) => Err(e),
                Ok(es) => match child_places(r, es, met) {
                    Err(e) => Err(e),
                    Ok((more, all)) => Ok((ps + more, all)),
                },
            },
        }
    }
}

/// The spots that children are at.
pub open spec fn rel_spots(es: Seq<RelEntry>) -> Seq<Spot> {
    Seq::new(es.len(), |i: int| (es[i].file_id, es[i].off, es[i].len))
}

/// The nodes that entries say refer to one, with their files, as far as these are
/// known.
pub open spec fn sources_in(r: Reader, es: Seq<Seq<u8>>) -> Seq<(Seq<char>, Uuid)>
    decreases es.len(),
{
    if es.len() == 0 {
        Seq::<(Seq<char>, Uuid)>::empty()
    } else {
        let front = sources_in(r, es.drop_last());
        match with_id(r.at@.files, rev_of(es.last()).file_id) {
            Some(i) => front.push((r.at@.files[i].path, rev_of(es.last()).source)),
            None => front,
        }
    }
}

/// The keys of sources: their ids.
pub open spec fn source_keys(ss: Seq<(Seq<char>, Uuid)>) -> Seq<Seq<u8>> {
    Seq::new(ss.len(), |i: int| ss[i].1.0@)
}

/// The items without those that follow one like them.
pub open spec fn without_repeats(ss: Seq<(Seq<char>, Uuid)>) -> Seq<(Seq<char>, Uuid)>
    decreases ss.len(),
{
    if ss.len() == 0 {
        ss
    } else {
        let r = without_repeats(ss.drop_last());
        if r.len() > 0 && r.last() == ss.last() {
            r
        } else {
            r.push(ss.last())
        }
    }
}

impl Reader {
    /// Whether the file is covered and as it was when it was indexed.
    pub open spec fn is_fresh(self, id: u32) -> bool {
        &&& !self.at@.removed.contains(id)
        &&& match with_id(self.at@.files, id) {
            Some(i) => is_current(self.at@.files[i], self.now@[i]),
            None => false,
        }
    }

    /// Whether entries of the file in blocks belong to its newest generation.
    pub open spec fn block_holds(self, id: u32) -> bool {
        &&& !self.at@.removed.contains(id)
        &&& match with_id(self.at@.files, id) {
            Some(i) => self.at@.finals.contains_key(id) ==> self.at@.files[i].gen
                == self.at@.finals[id],
            None => false,
        }
    }

    /// Where the nodes of the file start.
    pub open spec fn start_of(self, id: u32) -> Result<u64, Seq<char>> {
        match with_id(self.at@.files, id) {
            None => Err(NO_BLOCK@),
            Some(i) => match self.heads@[i] {
                Err(e) => Err(e@),
                Ok(h) => if h@.len() < 9 {
                    Err("F003：文件头不完整"@)
                } else {
                    Ok((9 + be_value(h@.subrange(5, 9))) as u64)
                },
            },
        }
    }

    /// The place of a spot.
    pub open spec fn place(self, s: Spot) -> Result<SpecPlace, Seq<char>> {
        match with_id(self.at@.files, s.0) {
            None => Err(NO_BLOCK@),
            Some(i) => match self.start_of(s.0) {
                Err(e) => Err(e),
                Ok(start) => Ok(
                    SpecPlace { file: self.at@.files[i].path, start, off: s.1, len: s.2 },
                ),
            },
        }
    }

    /// A ledger.
    pub open spec fn shelf(self, kind: Ledger) -> Shelf {
        match kind {
            Ledger::Loc => self.loc,
            Ledger::Rel => self.rel,
            Ledger::Rev => self.rev,
        }
    }

    /// The entries of blocks under a key that still hold.
    pub open spec fn held(self, kind: Ledger, key: Seq<u8>) -> Result<Seq<Seq<u8>>, Seq<char>> {
        match self.shelf(kind).in_blocks(kind, key) {
            Err(e) => Err(e),
            Ok(es) => Ok(holding(self, es, kind)),
        }
    }

    /// Where the node is, once per file; what the log says of a file goes before what
    /// the blocks say.
    pub open spec fn found(self, id: Uuid) -> Result<Seq<SpecPlace>, Seq<char>> {
        match self.held(Ledger::Loc, id.0@) {
            Err(e) => Err(e),
            Ok(es) => match places(
                self,
                loc_spots(es) + loc_spots(of_fresh(self, self.loc.in_log(id.0@))),
            ) {
                Err(e) => Err(e),
                Ok(ps) => Ok(by_file(ps)),
            },
        }
    }

    /// The roots of the trees that the node is in.
    pub open spec fn tree_roots(self, id: Uuid) -> Result<Seq<Uuid>, Seq<char>> {
        match self.held(Ledger::Loc, id.0@) {
            Err(e) => Err(e),
            Ok(es) => Ok(
                first_ids(roots_in(es) + roots_in(of_fresh(self, self.loc.in_log(id.0@)))),
            ),
        }
    }

    /// The children of a node in a tree, or all nodes of the tree below its root, each
    /// once, by id.
    pub open spec fn rels(self, root: Uuid, parent: Option<Uuid>) -> Result<
        Seq<RelEntry>,
        Seq<char>,
    > {
        let key = rel_key(root, parent);
        match self.held(Ledger::Rel, key) {
            Err(e) => Err(e),
            Ok(es) => {
                let all = rels_in(self.rel.in_log(key) + es);
                Ok(one_per_child(sorted(all, child_keys(all))))
            },
        }
    }

    /// The roots under which the children of a node are filed: those of the trees that it is
    /// in, and the node itself, for the files that have children of it but not the node.
    pub open spec fn filing_roots(self, parent: Uuid) -> Result<Seq<Uuid>, Seq<char>> {
        match self.tree_roots(parent) {
            Err(e) => Err(e),
            Ok(roots) => Ok(
                if roots.contains(parent) {
                    roots
                } else {
                    roots.push(parent)
                },
            ),
        }
    }

    /// The children of a node in all files, each once.
    pub open spec fn children_found(self, parent: Uuid) -> Result<Seq<SpecPlace>, Seq<char>> {
        match self.filing_roots(parent) {
            Err(e) => Err(e),
            Ok(roots) => match children_in(self, roots, parent) {
                Err(e) => Err(e),
                Ok((ps, _)) => Ok(ps),
            },
        }
    }

    /// The nodes that refer to the node, with their files, by id.
    pub open spec fn sources(self, target: Uuid) -> Result<Seq<(Seq<char>, Uuid)>, Seq<char>> {
        match self.held(Ledger::Rev, target.0@) {
            Err(e) => Err(e),
            Ok(es) => {
                let all = sources_in(self, self.rev.in_log(target.0@) + es);
                Ok(without_repeats(sorted(all, source_keys(all))))
            },
        }
    }

    /// Whether the file is covered and as it was when it was indexed.
    fn file_fresh(&self, id: u32) -> (r: bool)
        requires
            self.wf(),
        ensures
            r == self.is_fresh(id),
    {
        if self.at.removed.contains(&id) {
            return false;
        }
        match find_file(&self.at.files, id) {
            Some(i) => file_current(&self.at.files[i], self.now[i]),
            None => false,
        }
    }

    /// Whether entries of the file in blocks belong to its newest generation.
    fn block_valid(&self, id: u32) -> (r: bool)
        requires
            self.wf(),
        ensures
            r == self.block_holds(id),
    {
        if self.at.removed.contains(&id) {
            return false;
        }
        match find_file(&self.at.files, id) {
            Some(i) => match self.at.finals.get(&id) {
                Some(g) => self.at.files[i].gen == *g,
                None => true,
            },
            None => false,
        }
    }

    /// The place of a spot.
    fn hit(&self, s: Spot) -> (r: Result<Hit, String>)
        requires
            self.wf(),
        ensures
            match self.place(s) {
                Ok(p) => r is Ok && r->Ok_0@ == p,
                Err(e) => r is Err && r->Err_0@ == e,
            },
    {
        match find_file(&self.at.files, s.0) {
            None => Err(owned(NO_BLOCK)),
            Some(i) => match &self.heads[i] {
                Err(e) => Err(e.clone()),
                Ok(h) => {
                    if h.len() < 9 {
                        return Err(owned("F003：文件头不完整"));
                    }
                    proof {
                        crate::bytes::lemma_pow256_values();
                        crate::bytes::lemma_be_value_bound(h@.subrange(5, 9));
                    }
                    let n: u64 = get_be(h.as_slice(), 5, 4);
                    Ok(
                        Hit {
                            file: self.at.files[i].path.clone(),
                            data_start: 9 + n,
                            off: s.1,
                            len: s.2,
                        },
                    )
                },
            },
        }
    }

    /// The entries of blocks under a key that still hold.
    fn held_entries(&self, shelf: &Shelf, kind: Ledger, key: &[u8]) -> (r: Result<
        Vec<Vec<u8>>,
        String,
    >)
        requires
            self.wf(),
            *shelf == self.shelf(kind),
            key@.len() <= 32,
        ensures
            match self.held(kind, key@) {
                Ok(v) => r is Ok && key_views(r->Ok_0@) == v && forall|k: int|
                    0 <= k < r->Ok_0@.len() ==> (#[trigger] r->Ok_0@[k])@.len() == kind.size(),
                Err(e) => r is Err && r->Err_0@ == e,
            },
    {
        let es = match shelf.find_in_blocks(kind, key) {
            Ok(v) => v,
            Err(e) => return Err(e),
        };
        let ghost ks = key_views(es@);
        let mut out: Vec<Vec<u8>> = Vec::new();
        let mut i: usize = 0;
        assert(ks.take(0) =~= Seq::<Seq<u8>>::empty());
        assert(key_views(out@) =~= holding(*self, ks.take(0), kind));
        while i < es.len()
            invariant
                i <= es@.len(),
                self.wf(),
                ks == key_views(es@),
                forall|k: int| 0 <= k < es@.len() ==> (#[trigger] es@[k])@.len() == kind.size(),
                key_views(out@) == holding(*self, ks.take(i as int), kind),
                forall|k: int| 0 <= k < out@.len() ==> (#[trigger] out@[k])@.len() == kind.size(),
            decreases es@.len() - i,
        {
            proof {
                assert(ks.take(i + 1).drop_last() =~= ks.take(i as int));
                assert(ks.take(i + 1).last() == es@[i as int]@);
            }
            let f: u32 = entry_file(kind, es[i].as_slice());
            if self.block_valid(f) && self.file_fresh(f) {
                let c = sub_bytes(es[i].as_slice(), 0, es[i].len());
                assert(c@ =~= es@[i as int]@);
                let ghost o0 = out@;
                out.push(c);
                assert(key_views(out@) =~= key_views(o0).push(es@[i as int]@));
            }
            i = i + 1;
        }
        assert(ks.take(ks.len() as int) =~= ks);
        Ok(out)
    }

    /// The entries of the log that say where a node is, in files that are as they
    /// were.
    fn fresh_log(&self, id: Uuid) -> (r: Vec<LocEntry>)
        requires
            self.wf(),
        ensures
            ({
                let es = of_fresh(*self, self.loc.in_log(id.0@));
                r@ == Seq::new(es.len(), |i: int| loc_of(es[i]))
            }),
    {
        let es = self.loc.find_in_log(Ledger::Loc, id.0.as_slice());
        let ghost ks = key_views(es@);
        let mut out: Vec<LocEntry> = Vec::new();
        let mut i: usize = 0;
        assert(ks.take(0) =~= Seq::<Seq<u8>>::empty());
        while i < es.len()
            invariant
                i <= es@.len(),
                self.wf(),
                ks == key_views(es@),
                forall|k: int|
                    0 <= k < es@.len() ==> (#[trigger] es@[k])@.len() == Ledger::Loc.size(),
                out@.len() == of_fresh(*self, ks.take(i as int)).len(),
                forall|k: int|
                    0 <= k < out@.len() ==> #[trigger] out@[k] == loc_of(
                        of_fresh(*self, ks.take(i as int))[k],
                    ),
            decreases es@.len() - i,
        {
            proof {
                assert(ks.take(i + 1).drop_last() =~= ks.take(i as int));
                assert(ks.take(i + 1).last() == es@[i as int]@);
            }
            let e = dec_loc(es[i].as_slice());
            if self.file_fresh(e.file_id) {
                out.push(e);
            }
            i = i + 1;
        }
        assert(ks.take(ks.len() as int) =~= ks);
        out
    }

    /// The places of spots; or what is wrong with the first that has none.
    fn gather_places(&self, spots: &Vec<Spot>) -> (r: Result<Vec<Hit>, String>)
        requires
            self.wf(),
        ensures
            match places(*self, spots@) {
                Ok(ps) => r is Ok && place_models(r->Ok_0@) == ps,
                Err(e) => r is Err && r->Err_0@ == e,
            },
    {
        let mut out: Vec<Hit> = Vec::new();
        let mut i: usize = 0;
        assert(spots@.take(0) =~= Seq::<Spot>::empty());
        assert(place_models(out@) =~= Seq::<SpecPlace>::empty());
        while i < spots.len()
            invariant
                i <= spots@.len(),
                self.wf(),
                places(*self, spots@.take(i as int)) == Ok::<Seq<SpecPlace>, Seq<char>>(
                    place_models(out@),
                ),
            decreases spots@.len() - i,
        {
            proof {
                assert(spots@.take(i + 1).drop_last() =~= spots@.take(i as int));
                assert(spots@.take(i + 1).last() == spots@[i as int]);
            }
            match self.hit(spots[i]) {
                Ok(h) => {
                    let ghost o0 = out@;
                    let ghost hm = h@;
                    out.push(h);
                    assert(place_models(out@) =~= place_models(o0).push(hm));
                },
                Err(e) => {
                    proof {
                        lemma_places_fail(*self, spots@, i + 1);
                    }
                    return Err(e);
                },
            }
            i = i + 1;
        }
        assert(spots@.take(spots@.len() as int) =~= spots@);
        Ok(out)
    }

    /// Where the node is, once per file, by file.
    pub fn locate(&self, id: Uuid) -> (r: Result<Vec<Hit>, String>)
        requires
            self.wf(),
        ensures
            match self.found(id) {
                Ok(ps) => r is Ok && place_models(r->Ok_0@) == ps,
                Err(e) => r is Err && r->Err_0@ == e,
            },
    {
        let held = match self.held_entries(&self.loc, Ledger::Loc, id.0.as_slice()) {
            Ok(v) => v,
            Err(e) => return Err(e),
        };
        let ghost hs = key_views(held@);
        let ghost fs = of_fresh(*self, self.loc.in_log(id.0@));
        let ghost want = loc_spots(hs) + loc_spots(fs);
        let mut spots: Vec<Spot> = Vec::new();
        let mut i: usize = 0;
        while i < held.len()
            invariant
                i <= held@.len(),
                hs == key_views(held@),
                forall|k: int|
                    0 <= k < held@.len() ==> (#[trigger] held@[k])@.len() == Ledger::Loc.size(),
                spots@ == loc_spots(hs).take(i as int),
            decreases held@.len() - i,
        {
            let e = dec_loc(held[i].as_slice());
            spots.push((e.file_id, e.off, e.len));
            proof {
                assert(hs[i as int] == held@[i as int]@);
                assert(loc_spots(hs).take(i + 1) =~= loc_spots(hs).take(i as int).push(
                    loc_spots(hs)[i as int],
                ));
            }
            i = i + 1;
        }
        let logged = self.fresh_log(id);
        let mut k: usize = 0;
        assert(spots@ =~= loc_spots(hs) + loc_spots(fs).take(0));
        while k < logged.len()
            invariant
                k <= logged@.len(),
                logged@ == Seq::new(fs.len(), |i: int| loc_of(fs[i])),
                spots@ == loc_spots(hs) + loc_spots(fs).take(k as int),
            decreases logged@.len() - k,
        {
            let e = logged[k];
            spots.push((e.file_id, e.off, e.len));
            assert(loc_spots(fs).take(k + 1) =~= loc_spots(fs).take(k as int).push(
                loc_spots(fs)[k as int],
            ));
            k = k + 1;
        }
        assert(spots@ =~= want);
        match self.gather_places(&spots) {
            Err(e) => Err(e),
            Ok(hits) => Ok(arrange_by_file(&hits)),
        }
    }
}

proof fn lemma_places_fail(r: Reader, spots: Seq<Spot>, i: int)
    requires
        0 <= i <= spots.len(),
        places(r, spots.take(i)) is Err,
    ensures
        places(r, spots) == places(r, spots.take(i)),
    decreases spots.len(),
{
    if i < spots.len() {
        let d = spots.drop_last();
        assert(d.take(i) =~= spots.take(i));
        lemma_places_fail(r, d, i);
    } else {
        assert(spots.take(i) =~= spots);
    }
}

/// One place per file, the last, by file.
fn arrange_by_file(hits: &Vec<Hit>) -> (r: Vec<Hit>)
    ensures
        place_models(r@) == by_file(place_models(hits@)),
{
    let ghost ps = place_models(hits@);
    let ghost want = last_per_file(ps);
    let mut last: Vec<usize> = Vec::new();
    let mut keys: Vec<Vec<u8>> = Vec::new();
    let mut i: usize = 0;
    assert(ps.skip(0) =~= ps);
    let ghost mut done: Seq<SpecPlace> = Seq::empty();
    assert(done + want =~= want);
    while i < hits.len()
        invariant
            i <= hits@.len(),
            ps == place_models(hits@),
            want == last_per_file(ps),
            want == done + last_per_file(ps.skip(i as int)),
            last@.len() == done.len(),
            keys@.len() == done.len(),
            forall|k: int| 0 <= k < last@.len() ==> #[trigger] last@[k] < hits@.len(),
            forall|k: int| 0 <= k < last@.len() ==> done[k] == hits@[#[trigger] last@[k] as int]@,
            forall|k: int| 0 <= k < keys@.len() ==> (#[trigger] keys@[k])@ == encode_utf8(done[k].file),
        decreases hits@.len() - i,
    {
        let ghost rest = ps.skip(i as int);
        proof {
            assert(rest[0] == hits@[i as int]@);
            assert(rest.skip(1) =~= ps.skip(i + 1));
        }
        let mut again: bool = false;
        let mut j: usize = i + 1;
        while j < hits.len()
            invariant
                i < j <= hits@.len(),
                ps == place_models(hits@),
                rest == ps.skip(i as int),
                again == exists|k: int| 0 < k < j - i && (#[trigger] rest[k]).file == rest[0].file,
            decreases hits@.len() - j,
        {
            proof {
                assert(rest[j - i] == hits@[j as int]@);
                assert(rest[0] == hits@[i as int]@);
            }
            if same_text(hits[j].file.as_str(), hits[i].file.as_str()) {
                again = true;
                assert(rest[j - i].file == rest[0].file);
            }
            j = j + 1;
        }
        if !again {
            let b = hits[i].file.as_str().as_bytes();
            let key = sub_bytes(b, 0, b.len());
            assert(key@ =~= encode_utf8(hits@[i as int].file@));
            last.push(i);
            keys.push(key);
            proof {
                assert(done + (seq![rest[0]] + last_per_file(ps.skip(i + 1))) =~= done.push(rest[0])
                    + last_per_file(ps.skip(i + 1)));
                done = done.push(rest[0]);
            }
        }
        i = i + 1;
    }
    proof {
        assert(ps.skip(ps.len() as int) =~= Seq::<SpecPlace>::empty());
        assert(done =~= want);
        assert(key_views(keys@) =~= file_keys(want));
    }
    let pos = order(&keys);
    let ghost p = crate::model::ints(pos@);
    let ghost arr = arranged(want, p);
    let mut out: Vec<Hit> = Vec::new();
    let mut k: usize = 0;
    assert(place_models(out@) =~= arr.take(0));
    while k < pos.len()
        invariant
            k <= pos@.len(),
            p == crate::model::ints(pos@),
            arr == arranged(want, p),
            last@.len() == want.len(),
            forall|j: int| 0 <= j < pos@.len() ==> #[trigger] pos@[j] < last@.len(),
            forall|j: int| 0 <= j < last@.len() ==> #[trigger] last@[j] < hits@.len(),
            forall|j: int| 0 <= j < last@.len() ==> want[j] == hits@[#[trigger] last@[j] as int]@,
            place_models(out@) == arr.take(k as int),
        decreases pos@.len() - k,
    {
        let ghost o0 = out@;
        let x: usize = last[pos[k]];
        out.push(hits[x].clone());
        proof {
            assert(p[k as int] == pos@[k as int]);
            assert(want[p[k as int]] == hits@[x as int]@);
            assert(place_models(out@) =~= place_models(o0).push(want[p[k as int]]));
            assert(arr.take(k + 1) =~= arr.take(k as int).push(want[p[k as int]]));
        }
        k = k + 1;
    }
    proof {
        assert(arr.take(arr.len() as int) =~= arr);
        crate::sort::lemma_sorted_is(want, file_keys(want), p);
    }
    out
}

impl Reader {
    /// The roots of the trees that the node is in.
    fn roots_of(&self, id: Uuid) -> (r: Result<Vec<Uuid>, String>)
        requires
            self.wf(),
        ensures
            match self.tree_roots(id) {
                Ok(v) => r is Ok && r->Ok_0@ == v,
                Err(e) => r is Err && r->Err_0@ == e,
            },
    {
        let held = match self.held_entries(&self.loc, Ledger::Loc, id.0.as_slice()) {
            Ok(v) => v,
            Err(e) => return Err(e),
        };
        let logged = self.fresh_log(id);
        let ghost hs = key_views(held@);
        let ghost fs = of_fresh(*self, self.loc.in_log(id.0@));
        let ghost all = roots_in(hs) + roots_in(fs);
        let mut out: Vec<Uuid> = Vec::new();
        let mut i: usize = 0;
        assert(all.take(0) =~= Seq::<Uuid>::empty());
        while i < held.len()
            invariant
                i <= held@.len(),
                hs == key_views(held@),
                all == roots_in(hs) + roots_in(fs),
                forall|k: int|
                    0 <= k < held@.len() ==> (#[trigger] held@[k])@.len() == Ledger::Loc.size(),
                out@ == first_ids(all.take(i as int)),
            decreases held@.len() - i,
        {
            let e = dec_loc(held[i].as_slice());
            proof {
                assert(hs[i as int] == held@[i as int]@);
                assert(all[i as int] == e.root);
            }
            add_first(&mut out, e.root, Ghost(all), Ghost(i as int));
            i = i + 1;
        }
        let mut k: usize = 0;
        while k < logged.len()
            invariant
                k <= logged@.len(),
                hs.len() == held@.len(),
                all == roots_in(hs) + roots_in(fs),
                logged@ == Seq::new(fs.len(), |i: int| loc_of(fs[i])),
                out@ == first_ids(all.take(held@.len() + k)),
            decreases logged@.len() - k,
        {
            let e = logged[k];
            assert(all[held@.len() + k] == e.root);
            add_first(&mut out, e.root, Ghost(all), Ghost(held@.len() + k));
            k = k + 1;
        }
        assert(all.take(all.len() as int) =~= all);
        Ok(out)
    }

    /// The children of a node in a tree, or all nodes of the tree below its root.
    fn rel_entries(&self, root: Uuid, parent: Option<Uuid>) -> (r: Result<Vec<RelEntry>, String>)
        requires
            self.wf(),
        ensures
            match self.rels(root, parent) {
                Ok(v) => r is Ok && r->Ok_0@ == v,
                Err(e) => r is Err && r->Err_0@ == e,
            },
    {
        let mut key: Vec<u8> = Vec::new();
        crate::bytes::put_slice(&mut key, root.0.as_slice());
        if let Some(p) = parent {
            crate::bytes::put_slice(&mut key, p.0.as_slice());
        }
        assert(key@ =~= rel_key(root, parent));
        let logged = self.rel.find_in_log(Ledger::Rel, key.as_slice());
        let held = match self.held_entries(&self.rel, Ledger::Rel, key.as_slice()) {
            Ok(v) => v,
            Err(e) => return Err(e),
        };
        let ghost raw = key_views(logged@) + key_views(held@);
        let ghost all = rels_in(raw);
        let mut items: Vec<RelEntry> = Vec::new();
        let mut keys: Vec<Vec<u8>> = Vec::new();
        let mut i: usize = 0;
        while i < logged.len()
            invariant
                i <= logged@.len(),
                raw == key_views(logged@) + key_views(held@),
                all == rels_in(raw),
                forall|k: int|
                    0 <= k < logged@.len() ==> (#[trigger] logged@[k])@.len() == Ledger::Rel.size(),
                items@ == all.take(i as int),
                key_views(keys@) == child_keys(all).take(i as int),
            decreases logged@.len() - i,
        {
            let e = dec_rel(logged[i].as_slice());
            let c = sub_bytes(e.child.0.as_slice(), 0, 16);
            assert(c@ =~= e.child.0@);
            let ghost k0 = keys@;
            items.push(e);
            keys.push(c);
            proof {
                assert(raw[i as int] == logged@[i as int]@);
                assert(all.take(i + 1) =~= all.take(i as int).push(e));
                assert(key_views(keys@) =~= key_views(k0).push(e.child.0@));
                assert(child_keys(all).take(i + 1) =~= child_keys(all).take(i as int).push(
                    e.child.0@,
                ));
            }
            i = i + 1;
        }
        let mut j: usize = 0;
        while j < held.len()
            invariant
                j <= held@.len(),
                raw == key_views(logged@) + key_views(held@),
                all == rels_in(raw),
                forall|k: int|
                    0 <= k < held@.len() ==> (#[trigger] held@[k])@.len() == Ledger::Rel.size(),
                items@ == all.take(logged@.len() + j),
                key_views(keys@) == child_keys(all).take(logged@.len() + j),
            decreases held@.len() - j,
        {
            let e = dec_rel(held[j].as_slice());
            let c = sub_bytes(e.child.0.as_slice(), 0, 16);
            assert(c@ =~= e.child.0@);
            let ghost k0 = keys@;
            let ghost at = logged@.len() + j;
            items.push(e);
            keys.push(c);
            proof {
                assert(raw[at] == held@[j as int]@);
                assert(all.take(at + 1) =~= all.take(at).push(e));
                assert(key_views(keys@) =~= key_views(k0).push(e.child.0@));
                assert(child_keys(all).take(at + 1) =~= child_keys(all).take(at).push(e.child.0@));
            }
            j = j + 1;
        }
        proof {
            assert(all.take(all.len() as int) =~= all);
            assert(child_keys(all).take(all.len() as int) =~= child_keys(all));
            assert(key_views(keys@).len() == keys@.len());
        }
        let arr = crate::sort::sort_by_keys(&items, &keys);
        let mut out: Vec<RelEntry> = Vec::new();
        let mut k: usize = 0;
        assert(arr@.take(0) =~= Seq::<RelEntry>::empty());
        while k < arr.len()
            invariant
                k <= arr@.len(),
                out@ == one_per_child(arr@.take(k as int)),
            decreases arr@.len() - k,
        {
            proof {
                assert(arr@.take(k + 1).drop_last() =~= arr@.take(k as int));
                assert(arr@.take(k + 1).last() == arr@[k as int]);
            }
            let e = arr[k];
            if !(out.len() > 0 && out[out.len() - 1].child == e.child) {
                out.push(e);
            }
            k = k + 1;
        }
        assert(arr@.take(arr@.len() as int) =~= arr@);
        Ok(out)
    }

    /// The children of a node in all files, each once.
    pub fn children_of(&self, parent: Uuid) -> (r: Result<Vec<Hit>, String>)
        requires
            self.wf(),
        ensures
            match self.children_found(parent) {
                Ok(ps) => r is Ok && place_models(r->Ok_0@) == ps,
                Err(e) => r is Err && r->Err_0@ == e,
            },
    {
        let mut roots = match self.roots_of(parent) {
            Ok(v) => v,
            Err(e) => return Err(e),
        };
        if !holds_id(&roots, parent) {
            roots.push(parent);
        }
        let mut out: Vec<Hit> = Vec::new();
        let mut seen = IdSet::new();
        let mut i: usize = 0;
        assert(roots@.take(0) =~= Seq::<Uuid>::empty());
        assert(place_models(out@) =~= Seq::<SpecPlace>::empty());
        while i < roots.len()
            invariant
                i <= roots@.len(),
                self.wf(),
                self.filing_roots(parent) == Ok::<Seq<Uuid>, Seq<char>>(roots@),
                children_in(*self, roots@.take(i as int), parent) == Ok::<
                    (Seq<SpecPlace>, Set<Uuid>),
                    Seq<char>,
                >((place_models(out@), seen@)),
            decreases roots@.len() - i,
        {
            proof {
                assert(roots@.take(i + 1).drop_last() =~= roots@.take(i as int));
                assert(roots@.take(i + 1).last() == roots@[i as int]);
            }
            let es = match self.rel_entries(roots[i], Some(parent)) {
                Ok(v) => v,
                Err(e) => {
                    proof {
                        lemma_children_fail(*self, roots@, parent, i + 1);
                    }
                    return Err(e);
                },
            };
            let ghost before = place_models(out@);
            let ghost s0 = seen@;
            let mut k: usize = 0;
            assert(es@.take(0) =~= Seq::<RelEntry>::empty());
            assert(before + Seq::<SpecPlace>::empty() =~= before);
            while k < es.len()
                invariant
                    k <= es@.len(),
                    i < roots@.len(),
                    self.wf(),
                    self.filing_roots(parent) == Ok::<Seq<Uuid>, Seq<char>>(roots@),
                    roots@.take(i + 1).drop_last() == roots@.take(i as int),
                    roots@.take(i + 1).last() == roots@[i as int],
                    children_in(*self, roots@.take(i as int), parent) == Ok::<
                        (Seq<SpecPlace>, Set<Uuid>),
                        Seq<char>,
                    >((before, s0)),
                    self.rels(roots@[i as int], Some(parent)) == Ok::<Seq<RelEntry>, Seq<char>>(
                        es@,
                    ),
                    child_places(*self, es@.take(k as int), s0) is Ok,
                    place_models(out@) == before + child_places(
                        *self,
                        es@.take(k as int),
                        s0,
                    )->Ok_0.0,
                    seen@ == child_places(*self, es@.take(k as int), s0)->Ok_0.1,
                decreases es@.len() - k,
            {
                proof {
                    assert(es@.take(k + 1).drop_last() =~= es@.take(k as int));
                    assert(es@.take(k + 1).last() == es@[k as int]);
                }
                let c = es[k];
                let ghost was = child_places(*self, es@.take(k as int), s0)->Ok_0;
                if seen.insert(c.child) {
                    match self.hit((c.file_id, c.off, c.len)) {
                        Ok(h) => {
                            let ghost o0 = out@;
                            let ghost hm = h@;
                            out.push(h);
                            proof {
                                assert(place_models(out@) =~= place_models(o0).push(hm));
                                assert(before + was.0.push(hm) =~= place_models(out@));
                            }
                        },
                        Err(e) => {
                            proof {
                                lemma_child_places_fail(*self, es@, s0, k + 1);
                                lemma_children_fail(*self, roots@, parent, i + 1);
                            }
                            return Err(e);
                        },
                    }
                } else {
                    assert(was.1.insert(c.child) =~= was.1);
                }
                k = k + 1;
            }
            assert(es@.take(es@.len() as int) =~= es@);
            i = i + 1;
        }
        assert(roots@.take(roots@.len() as int) =~= roots@);
        Ok(out)
    }

    /// The sources that entries give, with the rows of their files, and their keys.
    fn source_rows(&self, raw: &Vec<Vec<u8>>) -> (r: (Vec<(usize, Uuid)>, Vec<Vec<u8>>))
        requires
            self.wf(),
            forall|k: int| 0 <= k < raw@.len() ==> (#[trigger] raw@[k])@.len() == Ledger::Rev.size(),
        ensures
            self.are_rows(r.0@, sources_in(*self, key_views(raw@))),
            key_views(r.1@) == source_keys(sources_in(*self, key_views(raw@))),
    {
        let ghost ks = key_views(raw@);
        let mut rows: Vec<(usize, Uuid)> = Vec::new();
        let mut keys: Vec<Vec<u8>> = Vec::new();
        let mut i: usize = 0;
        assert(ks.take(0) =~= Seq::<Seq<u8>>::empty());
        assert(key_views(keys@) =~= source_keys(sources_in(*self, ks.take(0))));
        while i < raw.len()
            invariant
                i <= raw@.len(),
                self.wf(),
                ks == key_views(raw@),
                forall|k: int|
                    0 <= k < raw@.len() ==> (#[trigger] raw@[k])@.len() == Ledger::Rev.size(),
                self.are_rows(rows@, sources_in(*self, ks.take(i as int))),
                key_views(keys@) == source_keys(sources_in(*self, ks.take(i as int))),
            decreases raw@.len() - i,
        {
            let e = dec_rev(raw[i].as_slice());
            let ghost was = sources_in(*self, ks.take(i as int));
            proof {
                assert(ks.take(i + 1).drop_last() =~= ks.take(i as int));
                assert(ks.take(i + 1).last() == raw@[i as int]@);
            }
            if let Some(row) = find_file(&self.at.files, e.file_id) {
                let key = sub_bytes(e.source.0.as_slice(), 0, 16);
                assert(key@ =~= e.source.0@);
                let ghost k0 = keys@;
                rows.push((row, e.source));
                keys.push(key);
                proof {
                    let now = sources_in(*self, ks.take(i + 1));
                    assert(now == was.push((self.at@.files[row as int].path, e.source)));
                    assert(key_views(keys@) =~= key_views(k0).push(e.source.0@));
                    assert(source_keys(now) =~= source_keys(was).push(e.source.0@));
                }
            }
            i = i + 1;
        }
        assert(ks.take(ks.len() as int) =~= ks);
        (rows, keys)
    }

    /// Whether the rows are those of the sources.
    pub open spec fn are_rows(self, rows: Seq<(usize, Uuid)>, ss: Seq<(Seq<char>, Uuid)>) -> bool {
        let fs = self.at@.files;
        &&& rows.len() == ss.len()
        &&& forall|k: int| 0 <= k < rows.len() ==> (#[trigger] rows[k]).0 < fs.len()
        &&& forall|k: int|
            0 <= k < rows.len() ==> ss[k] == (fs[(#[trigger] rows[k]).0 as int].path, rows[k].1)
    }

    /// The sources in the order of their keys, without repeats.
    fn arrange_sources(
        &self,
        rows: &Vec<(usize, Uuid)>,
        keys: &Vec<Vec<u8>>,
        Ghost(all): Ghost<Seq<(Seq<char>, Uuid)>>,
    ) -> (r: Vec<(String, Uuid)>)
        requires
            self.wf(),
            self.are_rows(rows@, all),
            key_views(keys@) == source_keys(all),
        ensures
            source_models(r@) == without_repeats(sorted(all, source_keys(all))),
    {
        let ghost fs = self.at@.files;
        assert(key_views(keys@).len() == keys@.len());
        let pos = order(keys);
        let ghost p = crate::model::ints(pos@);
        let ghost arr = arranged(all, p);
        let mut out: Vec<(String, Uuid)> = Vec::new();
        let mut k: usize = 0;
        assert(arr.take(0) =~= Seq::<(Seq<char>, Uuid)>::empty());
        assert(source_models(out@) =~= without_repeats(arr.take(0)));
        while k < pos.len()
            invariant
                k <= pos@.len(),
                self.wf(),
                fs == self.at@.files,
                p == crate::model::ints(pos@),
                arr == arranged(all, p),
                self.are_rows(rows@, all),
                forall|j: int| 0 <= j < pos@.len() ==> #[trigger] pos@[j] < rows@.len(),
                source_models(out@) == without_repeats(arr.take(k as int)),
            decreases pos@.len() - k,
        {
            let x: usize = pos[k];
            let (row, source) = rows[x];
            let ghost item = arr[k as int];
            proof {
                assert(p[k as int] == x);
                assert(rows@[x as int].0 < fs.len());
                assert(fs[row as int] == self.at.files@[row as int]@);
                assert(item == (fs[row as int].path, source));
                assert(arr.take(k + 1).drop_last() =~= arr.take(k as int));
                assert(arr.take(k + 1).last() == item);
            }
            let path = self.at.files[row].path.as_str();
            let again: bool = if out.len() > 0 {
                let last = &out[out.len() - 1];
                assert(source_models(out@).last() == (last.0@, last.1));
                last.1 == source && same_text(last.0.as_str(), path)
            } else {
                false
            };
            assert(source_models(out@).len() == out@.len());
            if !again {
                let ghost o0 = out@;
                out.push((owned(path), source));
                assert(source_models(out@) =~= source_models(o0).push(item));
            }
            k = k + 1;
        }
        proof {
            assert(arr.take(arr.len() as int) =~= arr);
            crate::sort::lemma_sorted_is(all, source_keys(all), p);
        }
        out
    }

    /// The nodes that refer to the node, with their files, by id.
    pub fn references(&self, target: Uuid) -> (r: Result<Vec<(String, Uuid)>, String>)
        requires
            self.wf(),
        ensures
            match self.sources(target) {
                Ok(v) => r is Ok && source_models(r->Ok_0@) == v,
                Err(e) => r is Err && r->Err_0@ == e,
            },
    {
        let mut raw = self.rev.find_in_log(Ledger::Rev, target.0.as_slice());
        let held = match self.held_entries(&self.rev, Ledger::Rev, target.0.as_slice()) {
            Ok(v) => v,
            Err(e) => return Err(e),
        };
        let ghost front = key_views(raw@);
        let ghost hs = key_views(held@);
        let mut i: usize = 0;
        assert(front + hs.take(0) =~= front);
        while i < held.len()
            invariant
                i <= held@.len(),
                hs == key_views(held@),
                forall|k: int|
                    0 <= k < raw@.len() ==> (#[trigger] raw@[k])@.len() == Ledger::Rev.size(),
                forall|k: int|
                    0 <= k < held@.len() ==> (#[trigger] held@[k])@.len() == Ledger::Rev.size(),
                key_views(raw@) == front + hs.take(i as int),
            decreases held@.len() - i,
        {
            let c = sub_bytes(held[i].as_slice(), 0, held[i].len());
            assert(c@ =~= held@[i as int]@);
            let ghost r0 = raw@;
            raw.push(c);
            proof {
                assert(key_views(raw@) =~= key_views(r0).push(hs[i as int]));
                assert(front + hs.take(i + 1) =~= (front + hs.take(i as int)).push(hs[i as int]));
            }
            i = i + 1;
        }
        assert(hs.take(hs.len() as int) =~= hs);
        let (rows, keys) = self.source_rows(&raw);
        Ok(self.arrange_sources(&rows, &keys, Ghost(sources_in(*self, front + hs))))
    }

    /// The nodes of the tree below its root.
    pub fn subtree(&self, root: Uuid) -> (r: Result<Vec<Hit>, String>)
        requires
            self.wf(),
        ensures
            match self.rels(root, None) {
                Err(e) => r is Err && r->Err_0@ == e,
                Ok(es) => match places(*self, rel_spots(es)) {
                    Ok(ps) => r is Ok && place_models(r->Ok_0@) == ps,
                    Err(e) => r is Err && r->Err_0@ == e,
                },
            },
    {
        let es = match self.rel_entries(root, None) {
            Ok(v) => v,
            Err(e) => return Err(e),
        };
        let mut spots: Vec<Spot> = Vec::new();
        let mut i: usize = 0;
        while i < es.len()
            invariant
                i <= es@.len(),
                spots@ == rel_spots(es@).take(i as int),
            decreases es@.len() - i,
        {
            spots.push((es[i].file_id, es[i].off, es[i].len));
            assert(rel_spots(es@).take(i + 1) =~= rel_spots(es@).take(i as int).push(
                rel_spots(es@)[i as int],
            ));
            i = i + 1;
        }
        assert(rel_spots(es@).take(es@.len() as int) =~= rel_spots(es@));
        self.gather_places(&spots)
    }

    /// Where the root of a tree is: the first place by file.
    pub fn root_hit(&self, root: Uuid) -> (r: Result<Option<Hit>, String>)
        requires
            self.wf(),
        ensures
            match self.found(root) {
                Err(e) => r is Err && r->Err_0@ == e,
                Ok(ps) => r is Ok && match r->Ok_0 {
                    Some(h) => ps.len() > 0 && h@ == ps[0],
                    None => ps.len() == 0,
                },
            },
    {
        match self.locate(root) {
            Err(e) => Err(e),
            Ok(hits) => {
                assert(place_models(hits@).len() == hits@.len());
                if hits.len() > 0 {
                    assert(place_models(hits@)[0] == hits@[0]@);
                    Ok(Some(hits[0].clone()))
                } else {
                    Ok(None)
                }
            },
        }
    }

    /// The root of a tree that the node is in.
    pub fn root_of(&self, id: Uuid) -> (r: Option<Uuid>)
        requires
            self.wf(),
        ensures
            r == (match self.tree_roots(id) {
                Ok(v) => if v.len() > 0 {
                    Some(v[0])
                } else {
                    None
                },
                Err(_) => None,
            }),
    {
        match self.roots_of(id) {
            Ok(v) => if v.len() > 0 {
                Some(v[0])
            } else {
                None
            },
            Err(_) => None,
        }
    }

    /// How many files are covered.
    pub fn file_count(&self) -> (r: usize)
        ensures
            r == self.at@.files.len(),
    {
        self.at.files.len()
    }

    /// Whether the file with the path is covered and as it was when it was indexed; the
    /// path as it was given is tried first, then the real one.
    pub fn covers(&self, path: &str, resolved: Option<&str>) -> (r: bool)
        requires
            self.wf(),
        ensures
            r == self.is_covered(path@, crate::backend::opt_view(resolved)),
    {
        let id: u32 = match self.number_of(path) {
            Some(id) => id,
            None => match resolved {
                Some(p) => match self.number_of(p) {
                    Some(id) => id,
                    None => return false,
                },
                None => return false,
            },
        };
        match find_file(&self.at.files, id) {
            Some(i) => file_current(&self.at.files[i], self.now[i]),
            None => false,
        }
    }

    /// The number of the last file with the path.
    fn number_of(&self, path: &str) -> (r: Option<u32>)
        ensures
            r == last_number(self.at@.files, path@),
    {
        let ghost fs = self.at@.files;
        let mut i: usize = self.at.files.len();
        assert(fs.take(fs.len() as int) =~= fs);
        while i > 0
            invariant
                i <= self.at.files@.len(),
                fs == file_models(self.at.files@),
                last_number(fs, path@) == last_number(fs.take(i as int), path@),
            decreases i,
        {
            i = i - 1;
            proof {
                assert(fs.take(i + 1).drop_last() =~= fs.take(i as int));
                assert(fs.take(i + 1).last() == self.at.files@[i as int]@);
            }
            if same_text(self.at.files[i].path.as_str(), path) {
                return Some(self.at.files[i].id);
            }
        }
        None
    }

    /// Whether the file with the path is covered and as it was when it was indexed.
    pub open spec fn is_covered(self, path: Seq<char>, resolved: Option<Seq<char>>) -> bool {
        let fs = self.at@.files;
        let number = match last_number(fs, path) {
            Some(id) => Some(id),
            None => match resolved {
                Some(p) => last_number(fs, p),
                None => None,
            },
        };
        match number {
            Some(id) => match with_id(fs, id) {
                Some(i) => is_current(fs[i], self.now@[i]),
                None => false,
            },
            None => false,
        }
    }
}

/// The number of the last file with the path.
pub open spec fn last_number(fs: Seq<SpecFile>, path: Seq<char>) -> Option<u32>
    decreases fs.len(),
{
    if fs.len() == 0 {
        None
    } else if fs.last().path == path {
        Some(fs.last().id)
    } else {
        last_number(fs.drop_last(), path)
    }
}

/// Appends an id unless it is there.
fn add_first(out: &mut Vec<Uuid>, id: Uuid, Ghost(all): Ghost<Seq<Uuid>>, Ghost(i): Ghost<int>)
    requires
        0 <= i < all.len(),
        all[i] == id,
        old(out)@ == first_ids(all.take(i)),
    ensures
        final(out)@ == first_ids(all.take(i + 1)),
{
    proof {
        assert(all.take(i + 1).drop_last() =~= all.take(i));
        assert(all.take(i + 1).last() == id);
        lemma_first_ids(all.take(i), id);
    }
    let ghost known = old(out)@.contains(id);
    let ghost want = first_ids(all.take(i + 1));
    let mut k: usize = 0;
    while k < out.len()
        invariant
            k <= out@.len(),
            out@ == old(out)@,
            known == old(out)@.contains(id),
            want == first_ids(all.take(i + 1)),
            known ==> want == old(out)@,
            forall|j: int| 0 <= j < k ==> out@[j] != id,
        decreases out@.len() - k,
    {
        if out[k] == id {
            assert(old(out)@[k as int] == id);
            return ;
        }
        k = k + 1;
    }
    assert(!out@.contains(id));
    out.push(id);
}

proof fn lemma_first_ids(ids: Seq<Uuid>, id: Uuid)
    ensures
        first_ids(ids).contains(id) == ids.contains(id),
    decreases ids.len(),
{
    if ids.len() > 0 {
        let d = ids.drop_last();
        let f = first_ids(d);
        lemma_first_ids(d, id);
        lemma_first_ids(d, ids.last());
        assert(ids =~= d.push(ids.last()));
        if d.contains(id) {
            let k = choose|k: int| 0 <= k < d.len() && d[k] == id;
            assert(ids[k] == id);
        }
        if ids.contains(id) && !d.contains(id) {
            let k = choose|k: int| 0 <= k < ids.len() && ids[k] == id;
            if k < d.len() {
                assert(d[k] == id);
            }
            assert(id == ids.last());
        }
        if id == ids.last() {
            assert(ids[ids.len() - 1] == id);
        }
        let g = f.push(ids.last());
        if f.contains(id) {
            let k = choose|k: int| 0 <= k < f.len() && f[k] == id;
            assert(g[k] == id);
        }
        assert(g[f.len() as int] == ids.last());
        if g.contains(id) && !f.contains(id) {
            let k = choose|k: int| 0 <= k < g.len() && g[k] == id;
            if k < f.len() {
                assert(f[k] == id);
            }
        }
    }
}

proof fn lemma_child_places_fail(r: Reader, es: Seq<RelEntry>, seen: Set<Uuid>, i: int)
    requires
        0 <= i <= es.len(),
        child_places(r, es.take(i), seen) is Err,
    ensures
        child_places(r, es, seen) == child_places(r, es.take(i), seen),
    decreases es.len(),
{
    if i < es.len() {
        let d = es.drop_last();
        assert(d.take(i) =~= es.take(i));
        lemma_child_places_fail(r, d, seen, i);
    } else {
        assert(es.take(i) =~= es);
    }
}

/// Whether an id is among ids.
fn holds_id(ids: &Vec<Uuid>, id: Uuid) -> (r: bool)
    ensures
        r == ids@.contains(id),
{
    let mut i: usize = 0;
    while i < ids.len()
        invariant
            i <= ids@.len(),
            forall|k: int| 0 <= k < i ==> ids@[k] != id,
        decreases ids@.len() - i,
    {
        if ids[i] == id {
            return true;
        }
        i = i + 1;
    }
    false
}

proof fn lemma_children_fail(r: Reader, roots: Seq<Uuid>, parent: Uuid, i: int)
    requires
        0 <= i <= roots.len(),
        children_in(r, roots.take(i), parent) is Err,
    ensures
        children_in(r, roots, parent) == children_in(r, roots.take(i), parent),
    decreases roots.len(),
{
    if i < roots.len() {
        let d = roots.drop_last();
        assert(d.take(i) =~= roots.take(i));
        lemma_children_fail(r, d, parent, i);
    } else {
        assert(roots.take(i) =~= roots);
    }
}

// ---------------------------------------------------------------------------
// Looking over an index
// ---------------------------------------------------------------------------

/// The entries of a block from `i` up to `n`, as far as the file holds them.
pub open spec fn entries_from(d: Seq<u8>, size: int, i: int, n: int) -> Seq<Seq<u8>>
    decreases n - i,
{
    if i >= n {
        Seq::<Seq<u8>>::empty()
    } else {
        match block_entry(d, size, i) {
            Some(e) => seq![e] + entries_from(d, size, i + 1, n),
            None => Seq::<Seq<u8>>::empty(),
        }
    }
}

/// The entries of the first block of a ledger.
pub open spec fn first_block(s: Shelf, kind: Ledger) -> Seq<Seq<u8>> {
    if s.data@.len() == 0 || block_fault(s.data@[0]@, kind) is Some {
        Seq::<Seq<u8>>::empty()
    } else {
        let d = s.data@[0]@;
        entries_from(d, kind.size(), 0, crate::wsidx::block_count(d) as int)
    }
}

/// The first items, at most as many as wanted.
pub open spec fn some_of<T>(s: Seq<T>, limit: nat) -> Seq<T> {
    if s.len() <= limit {
        s
    } else {
        s.take(limit as int)
    }
}

/// The edges that entries give: sources and targets.
pub open spec fn edges_in(es: Seq<Seq<u8>>) -> Seq<(Uuid, Uuid)> {
    Seq::new(es.len(), |i: int| (rev_of(es[i]).source, rev_of(es[i]).target))
}

/// The ids that entries speak of.
pub open spec fn ids_in(es: Seq<Seq<u8>>) -> Seq<Uuid> {
    Seq::new(es.len(), |i: int| loc_of(es[i]).uuid)
}

/// The ids of the roots among what entries speak of.
pub open spec fn root_ids(es: Seq<Seq<u8>>) -> Seq<Uuid>
    decreases es.len(),
{
    if es.len() == 0 {
        Seq::<Uuid>::empty()
    } else {
        let r = root_ids(es.drop_last());
        let e = loc_of(es.last());
        if e.uuid == e.root {
            r.push(e.uuid)
        } else {
            r
        }
    }
}

impl Shelf {
    /// The entries of the log, then those of the first block.
    pub open spec fn looked_over(self, kind: Ledger) -> Seq<Seq<u8>> {
        key_views(self.log@) + first_block(self, kind)
    }

    /// The entries of the log and the first block; where there is a limit, at most as many
    /// of the first as that.
    fn look_over(&self, kind: Ledger, limit: Option<usize>) -> (r: Vec<Vec<u8>>)
        requires
            self.wf(kind),
        ensures
            key_views(r@) == (match limit {
                Some(n) => some_of(self.looked_over(kind), n as nat),
                None => self.looked_over(kind),
            }),
            forall|k: int| 0 <= k < r@.len() ==> (#[trigger] r@[k])@.len() == kind.size(),
    {
        let ghost ls = key_views(self.log@);
        let ghost all = self.looked_over(kind);
        let mut out: Vec<Vec<u8>> = Vec::new();
        let mut i: usize = 0;
        assert(key_views(out@) =~= all.take(0));
        if let Some(n) = limit {
            if n == 0 {
                assert(key_views(out@) =~= some_of(all, 0));
                return out;
            }
        }
        while i < self.log.len()
            invariant
                i <= self.log@.len(),
                self.wf(kind),
                ls == key_views(self.log@),
                all == self.looked_over(kind),
                out@.len() == i,
                limit is None || i < limit->Some_0,
                key_views(out@) == all.take(i as int),
                forall|k: int| 0 <= k < out@.len() ==> (#[trigger] out@[k])@.len() == kind.size(),
            decreases self.log@.len() - i,
        {
            let c = sub_bytes(self.log[i].as_slice(), 0, self.log[i].len());
            assert(c@ =~= self.log@[i as int]@);
            let ghost o0 = out@;
            out.push(c);
            proof {
                assert(key_views(out@) =~= key_views(o0).push(ls[i as int]));
                assert(all[i as int] == ls[i as int]);
                assert(all.take(i + 1) =~= all.take(i as int).push(all[i as int]));
            }
            i = i + 1;
            if let Some(n) = limit {
                if i >= n {
                    assert(all.len() >= i);
                    assert(key_views(out@) =~= some_of(all, n as nat));
                    return out;
                }
            }
        }
        assert(all.take(ls.len() as int) =~= ls);
        if self.data.len() == 0 {
            assert(all =~= ls);
            return out;
        }
        let d = self.data[0].as_slice();
        match read_prefix(d, kind.byte(), Part::Block) {
            Err(_) => {
                assert(all =~= ls);
                return out;
            },
            Ok(()) => {},
        }
        let base: usize = fixed_prefix_len();
        if d.len() - base < 8 {
            assert(all =~= ls);
            return out;
        }
        let n: u64 = get_be(d, base, 8);
        let size: usize = kind.entry_size();
        let mut j: u64 = 0;
        assert(ls + entries_from(d@, size as int, 0, n as int) =~= all);
        while j < n
            invariant
                j <= n,
                size == kind.size(),
                size <= 68,
                all == self.looked_over(kind),
                all == key_views(out@) + entries_from(d@, size as int, j as int, n as int),
                limit is None || out@.len() < limit->Some_0,
                forall|k: int| 0 <= k < out@.len() ==> (#[trigger] out@[k])@.len() == kind.size(),
            decreases n - j,
        {
            let ghost more = entries_from(d@, size as int, j + 1, n as int);
            match read_entry(d, size, j) {
                None => {
                    assert(all =~= key_views(out@));
                    return out;
                },
                Some(e) => {
                    let ghost o0 = out@;
                    let ghost em = e@;
                    out.push(e);
                    proof {
                        assert(key_views(out@) =~= key_views(o0).push(em));
                        assert(key_views(o0) + (seq![em] + more) =~= key_views(out@) + more);
                    }
                },
            }
            j = j + 1;
            if let Some(m) = limit {
                if out.len() >= m {
                    proof {
                        assert(all.take(out@.len() as int) =~= key_views(out@));
                        assert(key_views(out@) =~= some_of(all, m as nat));
                    }
                    return out;
                }
            }
        }
        assert(all =~= key_views(out@));
        out
    }
}

impl Reader {
    /// Edges from sources to targets, at most as many as wanted: those of the log, then those of the first block.
    pub fn edges(&self, limit: usize) -> (r: Vec<(Uuid, Uuid)>)
        requires
            self.wf(),
        ensures
            r@ == some_of(edges_in(self.rev.looked_over(Ledger::Rev)), limit as nat),
    {
        let es = self.rev.look_over(Ledger::Rev, Some(limit));
        let ghost ks = key_views(es@);
        let mut out: Vec<(Uuid, Uuid)> = Vec::new();
        let mut i: usize = 0;
        while i < es.len()
            invariant
                i <= es@.len(),
                ks == key_views(es@),
                forall|k: int|
                    0 <= k < es@.len() ==> (#[trigger] es@[k])@.len() == Ledger::Rev.size(),
                out@ == edges_in(ks).take(i as int),
            decreases es@.len() - i,
        {
            let e = dec_rev(es[i].as_slice());
            out.push((e.source, e.target));
            proof {
                assert(ks[i as int] == es@[i as int]@);
                assert(edges_in(ks).take(i + 1) =~= edges_in(ks).take(i as int).push(
                    edges_in(ks)[i as int],
                ));
            }
            i = i + 1;
        }
        assert(out@ =~= edges_in(ks));
        assert(out@ =~= some_of(edges_in(self.rev.looked_over(Ledger::Rev)), limit as nat));
        out
    }

    /// Ids of nodes, at most as many as wanted: those of the
    /// log, then those of the first block.
    pub fn sample_nodes(&self, n: usize) -> (r: Vec<Uuid>)
        requires
            self.wf(),
        ensures
            r@ == some_of(ids_in(self.loc.looked_over(Ledger::Loc)), n as nat),
    {
        let es = self.loc.look_over(Ledger::Loc, Some(n));
        let ghost ks = key_views(es@);
        let mut out: Vec<Uuid> = Vec::new();
        let mut i: usize = 0;
        while i < es.len()
            invariant
                i <= es@.len(),
                ks == key_views(es@),
                forall|k: int|
                    0 <= k < es@.len() ==> (#[trigger] es@[k])@.len() == Ledger::Loc.size(),
                out@ == ids_in(ks).take(i as int),
            decreases es@.len() - i,
        {
            let e = dec_loc(es[i].as_slice());
            out.push(e.uuid);
            proof {
                assert(ks[i as int] == es@[i as int]@);
                assert(ids_in(ks).take(i + 1) =~= ids_in(ks).take(i as int).push(
                    ids_in(ks)[i as int],
                ));
            }
            i = i + 1;
        }
        assert(out@ =~= ids_in(ks));
        assert(out@ =~= some_of(ids_in(self.loc.looked_over(Ledger::Loc)), n as nat));
        out
    }

    /// Ids of roots, each once, at most as many as wanted:
    /// those of the log, then those of the first block.
    pub fn roots(&self, limit: usize) -> (r: Vec<Uuid>)
        requires
            self.wf(),
        ensures
            r@ == some_of(
                first_ids(root_ids(self.loc.looked_over(Ledger::Loc))),
                limit as nat,
            ),
    {
        if limit == 0 {
            let out: Vec<Uuid> = Vec::new();
            assert(out@ =~= some_of(first_ids(root_ids(self.loc.looked_over(Ledger::Loc))), 0));
            return out;
        }
        let es = self.loc.look_over(Ledger::Loc, None);
        let ghost ks = key_views(es@);
        let mut seen = IdSet::new();
        let mut out: Vec<Uuid> = Vec::new();
        let mut i: usize = 0;
        assert(ks.take(0) =~= Seq::<Seq<u8>>::empty());
        while i < es.len()
            invariant
                i <= es@.len(),
                ks == key_views(es@),
                ks == self.loc.looked_over(Ledger::Loc),
                forall|k: int|
                    0 <= k < es@.len() ==> (#[trigger] es@[k])@.len() == Ledger::Loc.size(),
                out@ == first_ids(root_ids(ks.take(i as int))),
                seen@ == root_ids(ks.take(i as int)).to_set(),
                out@.len() < limit,
            decreases es@.len() - i,
        {
            let e = dec_loc(es[i].as_slice());
            let ghost was = root_ids(ks.take(i as int));
            proof {
                assert(ks.take(i + 1).drop_last() =~= ks.take(i as int));
                assert(ks.take(i + 1).last() == es@[i as int]@);
            }
            if e.uuid == e.root {
                let ghost s0 = seen@;
                let fresh = seen.insert(e.uuid);
                proof {
                    let now = was.push(e.uuid);
                    assert(now.drop_last() =~= was);
                    assert(seen@ =~= now.to_set()) by {
                        assert forall|x: Uuid| now.contains(x) <==> was.contains(x) || x
                            == e.uuid by {
                            if was.contains(x) {
                                let k = choose|k: int| 0 <= k < was.len() && was[k] == x;
                                assert(now[k] == x);
                            }
                            assert(now[was.len() as int] == e.uuid);
                        }
                    }
                }
                if fresh {
                    out.push(e.uuid);
                    if out.len() >= limit {
                        proof {
                            lemma_first_roots(ks, i + 1);
                            assert(out@ =~= some_of(first_ids(root_ids(ks)), limit as nat));
                        }
                        return out;
                    }
                }
            }
            i = i + 1;
        }
        assert(ks.take(ks.len() as int) =~= ks);
        out
    }
}

/// Roots that were met first stay first.
proof fn lemma_first_roots(es: Seq<Seq<u8>>, i: int)
    requires
        0 <= i <= es.len(),
    ensures
        first_ids(root_ids(es.take(i))).len() <= first_ids(root_ids(es)).len(),
        first_ids(root_ids(es)).take(first_ids(root_ids(es.take(i))).len() as int) == first_ids(
            root_ids(es.take(i)),
        ),
    decreases es.len(),
{
    if i < es.len() {
        let d = es.drop_last();
        assert(d.take(i) =~= es.take(i));
        lemma_first_roots(d, i);
        let a = first_ids(root_ids(d));
        let n = first_ids(root_ids(es.take(i))).len() as int;
        let e = loc_of(es.last());
        if e.uuid == e.root {
            assert(root_ids(es).drop_last() =~= root_ids(d));
            assert(a.push(e.uuid).take(n) =~= a.take(n));
        }
    } else {
        assert(es.take(i) =~= es);
        let a = first_ids(root_ids(es));
        assert(a.take(a.len() as int) =~= a);
    }
}

// ---------------------------------------------------------------------------
// A workspace that is read through its index
// ---------------------------------------------------------------------------

/// A workspace that is read through its index, with the bytes of its files or why
/// they could not be read.
#[derive(Debug)]
pub struct WorkspaceBackend {
    pub reader: Reader,
    pub data: Vec<Result<Vec<u8>, String>>,
}

impl WorkspaceBackend {
    /// Opens a workspace over an index that is open.
    pub fn open(reader: Reader, data: Vec<Result<Vec<u8>, String>>) -> (r: WorkspaceBackend)
        requires
            reader.wf(),
            data@.len() == reader.at.files@.len(),
        ensures
            r.wf(),
            r.reader == reader,
            r.data == data,
    {
        WorkspaceBackend { reader, data }
    }

    /// The node at a place.
    pub open spec fn node_at_place(self, p: SpecPlace) -> Result<SpecNode, Seq<char>> {
        match with_path(self.reader.at@.files, p.file) {
            Some(i) => match self.data@[i] {
                Ok(d) => node_in(d@, p.start, p.off, p.len),
                Err(e) => Err(e@),
            },
            None => Err(NO_BLOCK@),
        }
    }

    /// The node at a place.
    pub fn read_node_at_hit(&self, h: &Hit) -> (r: Result<Node, String>)
        requires
            self.wf(),
        ensures
            match self.node_at_place(h@) {
                Ok(n) => r is Ok && r->Ok_0@ == n,
                Err(e) => r is Err && r->Err_0@ == e,
            },
    {
        match find_path(&self.reader.at.files, h.file.as_str()) {
            Some(i) => match &self.data[i] {
                Ok(d) => read_node_at(d.as_slice(), h.data_start, h.off, h.len),
                Err(e) => Err(e.clone()),
            },
            None => Err(owned(NO_BLOCK)),
        }
    }

    /// The nodes at places, as far as they can be read.
    fn read_hits(&self, hits: &Vec<Hit>) -> (r: Vec<FileNode>)
        requires
            self.wf(),
        ensures
            hit_models(r@) == nodes_read(*self, place_models(hits@)),
    {
        let ghost ps = place_models(hits@);
        let mut out: Vec<FileNode> = Vec::new();
        let mut i: usize = 0;
        assert(ps.take(0) =~= Seq::<SpecPlace>::empty());
        assert(hit_models(out@) =~= nodes_read(*self, ps.take(0)));
        while i < hits.len()
            invariant
                i <= hits@.len(),
                self.wf(),
                ps == place_models(hits@),
                hit_models(out@) == nodes_read(*self, ps.take(i as int)),
            decreases hits@.len() - i,
        {
            proof {
                assert(ps.take(i + 1).drop_last() =~= ps.take(i as int));
                assert(ps.take(i + 1).last() == hits@[i as int]@);
            }
            if let Ok(n) = self.read_node_at_hit(&hits[i]) {
                let ghost o0 = out@;
                let ghost nm = n@;
                out.push((hits[i].file.clone(), n));
                assert(hit_models(out@) =~= hit_models(o0).push(
                    SpecHit { file: hits@[i as int].file@, node: nm },
                ));
            }
            i = i + 1;
        }
        assert(ps.take(ps.len() as int) =~= ps);
        out
    }
}

/// The nodes at places, as far as they can be read.
pub open spec fn nodes_read(b: WorkspaceBackend, ps: Seq<SpecPlace>) -> Seq<SpecHit>
    decreases ps.len(),
{
    if ps.len() == 0 {
        Seq::<SpecHit>::empty()
    } else {
        let r = nodes_read(b, ps.drop_last());
        match b.node_at_place(ps.last()) {
            Ok(n) => r.push(SpecHit { file: ps.last().file, node: n }),
            Err(_) => r,
        }
    }
}

impl Backend for WorkspaceBackend {
    open spec fn wf(&self) -> bool {
        self.reader.wf() && self.data@.len() == self.reader.at.files@.len()
    }

    open spec fn located(&self, id: Uuid) -> Seq<SpecHit> {
        match self.reader.found(id) {
            Ok(ps) => nodes_read(*self, ps),
            Err(_) => Seq::<SpecHit>::empty(),
        }
    }

    open spec fn below(&self, id: Uuid) -> Seq<SpecHit> {
        match self.reader.children_found(id) {
            Ok(ps) => nodes_read(*self, ps),
            Err(_) => Seq::<SpecHit>::empty(),
        }
    }

    open spec fn referring(&self, id: Uuid) -> Seq<(Seq<char>, Uuid)> {
        match self.reader.sources(id) {
            Ok(ss) => ss,
            Err(_) => Seq::<(Seq<char>, Uuid)>::empty(),
        }
    }

    open spec fn of_kind(&self) -> BackendKind {
        BackendKind::Workspace
    }

    open spec fn covered(&self) -> nat {
        self.reader.at.files@.len()
    }

    fn kind(&self) -> (r: BackendKind) {
        BackendKind::Workspace
    }

    fn file_count(&self) -> (r: usize) {
        self.reader.file_count()
    }

    fn locate(&self, id: Uuid) -> (r: Vec<FileNode>) {
        match self.reader.locate(id) {
            Ok(hits) => self.read_hits(&hits),
            Err(_) => {
                let none: Vec<FileNode> = Vec::new();
                assert(hit_models(none@) =~= Seq::<SpecHit>::empty());
                none
            },
        }
    }

    fn children(&self, parent: Uuid) -> (r: Vec<FileNode>) {
        match self.reader.children_of(parent) {
            Ok(hits) => self.read_hits(&hits),
            Err(_) => {
                let none: Vec<FileNode> = Vec::new();
                assert(hit_models(none@) =~= Seq::<SpecHit>::empty());
                none
            },
        }
    }

    fn references(&self, target: Uuid) -> (r: Vec<(String, Uuid)>) {
        match self.reader.references(target) {
            Ok(v) => v,
            Err(_) => {
                let none: Vec<(String, Uuid)> = Vec::new();
                assert(source_models(none@) =~= Seq::<(Seq<char>, Uuid)>::empty());
                none
            },
        }
    }
}

// ---------------------------------------------------------------------------
// What is logged is replayed
// ---------------------------------------------------------------------------

/// Whether records stand from `off` to the end, none of them cut short.
pub open spec fn whole(d: Seq<u8>, off: int) -> bool
    decreases d.len() - off,
{
    if off == d.len() {
        true
    } else if off < 0 || off + 5 > d.len() {
        false
    } else {
        let n = record_len(d, off);
        0 <= n && off + 5 + n <= d.len() && whole(d, off + 5 + n)
    }
}

/// Records that are put behind whole ones are replayed after them.
proof fn lemma_replay_behind(st: LogState, d: Seq<u8>, x: Seq<u8>, off: int)
    requires
        0 <= off <= d.len(),
        whole(d, off),
    ensures
        replayed(st, d + x, off) == (match replayed(st, d, off) {
            Err(e) => Err::<LogState, Seq<char>>(e),
            Ok(s) => replayed(s, d + x, d.len() as int),
        }),
    decreases d.len() - off,
{
    let w = d + x;
    if off < d.len() {
        let n = record_len(d, off);
        assert(w.subrange(off, off + 4) =~= d.subrange(off, off + 4));
        assert(w.subrange(off + 5, off + 5 + n) =~= d.subrange(off + 5, off + 5 + n));
        assert(w[off + 4] == d[off + 4]);
        match stepped(st, d[off + 4], d.subrange(off + 5, off + 5 + n)) {
            Err(_) => {},
            Ok(s) => {
                lemma_replay_behind(s, d, x, off + 5 + n);
            },
        }
    }
}

/// A record is read as it was written.
proof fn lemma_record_read(a: Seq<u8>, kind: u8, payload: Seq<u8>, b: Seq<u8>)
    requires
        payload.len() < 0x1_0000_0000,
    ensures
        ({
            let d = a + record(kind, payload) + b;
            let off = a.len() as int;
            &&& off + 5 + payload.len() <= d.len()
            &&& record_len(d, off) == payload.len()
            &&& d[off + 4] == kind
            &&& d.subrange(off + 5, off + 5 + payload.len()) == payload
        }),
{
    let d = a + record(kind, payload) + b;
    let off = a.len() as int;
    crate::bytes::lemma_pow256_values();
    crate::bytes::lemma_be_len(payload.len(), 4);
    crate::bytes::lemma_be_value_of_be(payload.len(), 4);
    assert(d.subrange(off, off + 4) =~= crate::bytes::be(payload.len(), 4));
    assert(d.subrange(off + 5, off + 5 + payload.len()) =~= payload);
}

/// Entries with the file and the generation that they belong to.
pub open spec fn tagged(es: Seq<Seq<u8>>, id: u32, gen: u64) -> Seq<(u32, u64, Seq<u8>)> {
    Seq::new(es.len(), |i: int| (id, gen, es[i]))
}

/// Records of entries behind that of a file are entries of that file.
proof fn lemma_entries_replayed(st: LogState, a: Seq<u8>, es: Seq<Seq<u8>>, k: int)
    requires
        0 <= k <= es.len(),
        st.cur is Some,
        forall|i: int| 0 <= i < es.len() ==> (#[trigger] es[i]).len() < 0x1_0000_0000,
    ensures
        ({
            let d = a + crate::wsidx::entry_records(es);
            let c = st.cur->Some_0;
            let mid = a.len() + crate::wsidx::entry_records(es.take(k)).len();
            replayed(st, d, a.len() as int) == replayed(
                LogState { pending: st.pending + tagged(es.take(k), c.0, c.1), ..st },
                d,
                mid as int,
            )
        }),
    decreases k,
{
    let d = a + crate::wsidx::entry_records(es);
    let c = st.cur->Some_0;
    if k == 0 {
        assert(es.take(0) =~= Seq::<Seq<u8>>::empty());
        assert(st.pending + tagged(es.take(0), c.0, c.1) =~= st.pending);
    } else {
        lemma_entries_replayed(st, a, es, k - 1);
        let before = crate::wsidx::entry_records(es.take(k - 1));
        let s = LogState { pending: st.pending + tagged(es.take(k - 1), c.0, c.1), ..st };
        assert(es.take(k).drop_last() =~= es.take(k - 1));
        assert(es.take(k).last() == es[k - 1]);
        let rest = lemma_entry_split(es, k);
        let one = record(REC_ENTRY, es[k - 1]);
        assert(d =~= (a + before) + one + rest);
        lemma_record_read(a + before, REC_ENTRY, es[k - 1], rest);
        let t = LogState { pending: st.pending + tagged(es.take(k), c.0, c.1), ..st };
        assert(s.pending.push((c.0, c.1, es[k - 1])) =~= t.pending);
        assert(crate::wsidx::entry_records(es.take(k)) == before + one);
        assert((before + one).len() == before.len() + 5 + es[k - 1].len()) by {
            crate::bytes::lemma_be_len(es[k - 1].len(), 4);
        }
    }
}

/// The records of entries are those of the first ones and some more.
proof fn lemma_entry_split(es: Seq<Seq<u8>>, k: int) -> (rest: Seq<u8>)
    requires
        0 <= k <= es.len(),
    ensures
        crate::wsidx::entry_records(es) == crate::wsidx::entry_records(es.take(k)) + rest,
    decreases es.len() - k,
{
    if k == es.len() {
        assert(es.take(k) =~= es);
        assert(crate::wsidx::entry_records(es) + Seq::<u8>::empty()
            =~= crate::wsidx::entry_records(es));
        Seq::<u8>::empty()
    } else {
        let more = lemma_entry_split(es, k + 1);
        let one = record(REC_ENTRY, es[k]);
        assert(es.take(k + 1).drop_last() =~= es.take(k));
        assert(es.take(k + 1).last() == es[k]);
        assert(crate::wsidx::entry_records(es.take(k)) + (one + more)
            =~= crate::wsidx::entry_records(es.take(k)) + one + more);
        one + more
    }
}

/// What the log of an indexed file makes of the state: the file is named, and its
/// entries are met under its generation.
proof fn lemma_file_log_replayed(
    st: LogState,
    a: Seq<u8>,
    f: SpecFile,
    e: crate::wsidx::FileEntries,
    kind: Ledger,
)
    requires
        crate::wsidx::file_fits(f),
        crate::wsidx::file_bytes(f).len() < 0x1_0000_0000,
    ensures
        replayed(st, a + crate::wsidx::log_of_file(f, e, kind), a.len() as int) == Ok::<
            LogState,
            Seq<char>,
        >(
            LogState {
                pending: st.pending + tagged(e.ledger(kind), f.id, f.cur),
                ..file_named(st, f)
            },
        ),
{
    let es = e.ledger(kind);
    let fb = crate::wsidx::file_bytes(f);
    let head = record(REC_FILE, fb);
    let tail = crate::wsidx::entry_records(es);
    let d = a + crate::wsidx::log_of_file(f, e, kind);
    assert(d =~= a + head + tail);
    lemma_record_read(a, REC_FILE, fb, tail);
    assert(Seq::<u8>::empty() + fb + Seq::<u8>::empty() =~= fb);
    crate::wsidx::lemma_file_at(Seq::<u8>::empty(), f, Seq::<u8>::empty());
    let s = file_named(st, f);
    crate::wsidx::lemma_ledger_sizes(e, kind);
    lemma_entries_replayed(s, a + head, es, es.len() as int);
    assert(es.take(es.len() as int) =~= es);
    assert(d =~= (a + head) + tail);
    assert(head.len() == 5 + fb.len()) by {
        crate::bytes::lemma_be_len(fb.len(), 4);
    }
}

proof fn lemma_live_split(
    a: Seq<(u32, u64, Seq<u8>)>,
    b: Seq<(u32, u64, Seq<u8>)>,
    finals: Map<u32, u64>,
    size: int,
)
    ensures
        live(a + b, finals, size) == live(a, finals, size) + live(b, finals, size),
    decreases b.len(),
{
    if b.len() == 0 {
        assert(a + b =~= a);
        assert(live(a, finals, size) + Seq::<Seq<u8>>::empty() =~= live(a, finals, size));
    } else {
        let d = b.drop_last();
        lemma_live_split(a, d, finals, size);
        assert((a + b).drop_last() =~= a + d);
        assert((a + b).last() == b.last());
        assert(live(a, finals, size) + live(d, finals, size).push(b.last().2) =~= (live(
            a,
            finals,
            size,
        ) + live(d, finals, size)).push(b.last().2));
    }
}

proof fn lemma_live_tagged(
    es: Seq<Seq<u8>>,
    id: u32,
    gen: u64,
    finals: Map<u32, u64>,
    size: int,
)
    requires
        finals.contains_key(id),
        finals[id] == gen,
        forall|i: int| 0 <= i < es.len() ==> (#[trigger] es[i]).len() == size,
    ensures
        live(tagged(es, id, gen), finals, size) == es,
    decreases es.len(),
{
    if es.len() > 0 {
        let d = es.drop_last();
        lemma_live_tagged(d, id, gen, finals, size);
        assert(tagged(es, id, gen).drop_last() =~= tagged(d, id, gen));
        assert(d.push(es.last()) =~= es);
        assert(es[es.len() - 1].len() == size);
    } else {
        assert(live(tagged(es, id, gen), finals, size) =~= es);
    }
}

/// What indexing a file anew appends to a log is replayed: the table gets its record
/// and its new generation, and its entries count behind those that were there and
/// still do.
pub proof fn appended_file_is_replayed(
    at: SpecReplay,
    log: Seq<u8>,
    f: SpecFile,
    e: crate::wsidx::FileEntries,
    kind: Ledger,
) -> (before: LogState)
    requires
        log_outcome(at, Some(log), kind) is Ok,
        whole(log, prefix_len()),
        crate::wsidx::file_fits(f),
        crate::wsidx::file_bytes(f).len() < 0x1_0000_0000,
        log_outcome(at, Some(log), kind)->Ok_0.0.finals.contains_key(f.id) ==> log_outcome(
            at,
            Some(log),
            kind,
        )->Ok_0.0.finals[f.id] < f.cur,
    ensures
        ({
            let was = log_outcome(at, Some(log), kind)->Ok_0;
            let now = file_named(before, f).at;
            &&& before.at == was.0
            &&& live(before.pending, was.0.finals, kind.size()) == was.1
            &&& now.finals.contains_key(f.id) && now.finals[f.id] == f.cur
            &&& !now.removed.contains(f.id)
            &&& log_outcome(at, Some(log + crate::wsidx::log_of_file(f, e, kind)), kind) == Ok::<
                (SpecReplay, Seq<Seq<u8>>),
                Seq<char>,
            >((now, live(before.pending, now.finals, kind.size()) + e.ledger(kind)))
        }),
{
    let st = LogState { at, cur: None, pending: Seq::<(u32, u64, Seq<u8>)>::empty() };
    let x = crate::wsidx::log_of_file(f, e, kind);
    let d = log + x;
    let p = prefix_len();
    assert(prefix_fault(log, kind.code(), Part::Log) is None);
    assert(d.take(5) =~= log.take(5));
    assert(prefix_fault(d, kind.code(), Part::Log) is None);
    lemma_replay_behind(st, log, x, p);
    let s = replayed(st, log, p)->Ok_0;
    lemma_file_log_replayed(s, log, f, e, kind);
    let n = file_named(s, f);
    lemma_live_split(s.pending, tagged(e.ledger(kind), f.id, f.cur), n.at.finals, kind.size());
    crate::wsidx::lemma_ledger_sizes(e, kind);
    lemma_live_tagged(e.ledger(kind), f.id, f.cur, n.at.finals, kind.size());
    s
}

/// No entry of a block speaks for a file whose newest generation is not that of its
/// entries in blocks.
pub proof fn superseded_blocks_are_silent(r: Reader, es: Seq<Seq<u8>>, kind: Ledger, id: u32, i: int)
    requires
        with_id(r.at@.files, id) == Some(i),
        r.at@.finals.contains_key(id),
        r.at@.files[i].gen != r.at@.finals[id],
    ensures
        forall|k: int|
            0 <= k < holding(r, es, kind).len() ==> file_of(
                kind,
                #[trigger] holding(r, es, kind)[k],
            ) != id,
    decreases es.len(),
{
    if es.len() > 0 {
        let front = holding(r, es.drop_last(), kind);
        superseded_blocks_are_silent(r, es.drop_last(), kind, id, i);
        assert forall|k: int| 0 <= k < holding(r, es, kind).len() implies file_of(
            kind,
            #[trigger] holding(r, es, kind)[k],
        ) != id by {
            if k < front.len() {
                assert(holding(r, es, kind)[k] == front[k]);
            }
        }
    }
}

/// Nothing speaks for a file that was taken out or is not as it was when it was
/// indexed: neither blocks nor logs.
pub proof fn stale_files_are_silent(r: Reader, es: Seq<Seq<u8>>, kind: Ledger, id: u32)
    requires
        r.at@.removed.contains(id),
    ensures
        forall|k: int|
            0 <= k < holding(r, es, kind).len() ==> file_of(
                kind,
                #[trigger] holding(r, es, kind)[k],
            ) != id,
        forall|k: int|
            0 <= k < spoken(es, kind, r.at@.removed).len() ==> file_of(
                kind,
                #[trigger] spoken(es, kind, r.at@.removed)[k],
            ) != id,
    decreases es.len(),
{
    if es.len() > 0 {
        let removed = r.at@.removed;
        let held = holding(r, es.drop_last(), kind);
        let said = spoken(es.drop_last(), kind, removed);
        stale_files_are_silent(r, es.drop_last(), kind, id);
        assert forall|k: int| 0 <= k < holding(r, es, kind).len() implies file_of(
            kind,
            #[trigger] holding(r, es, kind)[k],
        ) != id by {
            if k < held.len() {
                assert(holding(r, es, kind)[k] == held[k]);
            }
        }
        assert forall|k: int| 0 <= k < spoken(es, kind, removed).len() implies file_of(
            kind,
            #[trigger] spoken(es, kind, removed)[k],
        ) != id by {
            if k < said.len() {
                assert(spoken(es, kind, removed)[k] == said[k]);
            }
        }
    }
}

// ---------------------------------------------------------------------------
// Laws of what ledgers say
// ---------------------------------------------------------------------------

/// No more than so many are given: the first ones, and all where there are no more.
pub proof fn the_first_are_given<T>(s: Seq<T>, limit: nat)
    ensures
        some_of(s, limit).len() <= limit,
        some_of(s, limit) == s.take(some_of(s, limit).len() as int),
        s.len() <= limit ==> some_of(s, limit) == s,
        s.len() > limit ==> some_of(s, limit).len() == limit,
{
    assert(s.take(s.len() as int) =~= s);
}

/// The numbers that are stale are those of the files that are gone or have another size or
/// time.
pub proof fn stale_numbers(fs: Seq<SpecFile>, now: Seq<Option<Print>>, id: u32)
    ensures
        stale_ids(fs, now).contains(id) <==> exists|i: int|
            0 <= i < fs.len() && (#[trigger] fs[i]).id == id && now[i] != Some(
                (fs[i].size, fs[i].sec, fs[i].nsec),
            ),
    decreases fs.len(),
{
    if fs.len() > 0 {
        let d = fs.drop_last();
        stale_numbers(d, now, id);
        let l = fs.len() - 1;
        if stale_ids(d, now).contains(id) {
            let i = choose|i: int|
                0 <= i < d.len() && (#[trigger] d[i]).id == id && now[i] != Some(
                    (d[i].size, d[i].sec, d[i].nsec),
                );
            assert(fs[i] == d[i]);
        } else if stale_ids(fs, now).contains(id) {
            assert(fs[l].id == id);
        }
        if exists|i: int|
            0 <= i < fs.len() && (#[trigger] fs[i]).id == id && now[i] != Some(
                (fs[i].size, fs[i].sec, fs[i].nsec),
            ) {
            let i = choose|i: int|
                0 <= i < fs.len() && (#[trigger] fs[i]).id == id && now[i] != Some(
                    (fs[i].size, fs[i].sec, fs[i].nsec),
                );
            if i < l {
                assert(d[i] == fs[i]);
            }
        }
    }
}

/// Of the places in one file the last one stays: a place is left exactly if none after it is
/// in its file.
pub proof fn the_last_place_in_a_file_counts(ps: Seq<SpecPlace>, p: SpecPlace)
    ensures
        last_per_file(ps).contains(p) <==> exists|i: int|
            0 <= i < ps.len() && ps[i] == p && forall|j: int|
                i < j < ps.len() ==> (#[trigger] ps[j]).file != (#[trigger] ps[i]).file,
        forall|x: int, y: int|
            0 <= x < y < last_per_file(ps).len() ==> (#[trigger] last_per_file(ps)[x]).file != (
            #[trigger] last_per_file(ps)[y]).file,
    decreases ps.len(),
{
    if ps.len() > 0 {
        let d = ps.skip(1);
        let r = last_per_file(d);
        let s = last_per_file(ps);
        the_last_place_in_a_file_counts(d, p);
        let later = exists|j: int| 0 < j < ps.len() && (#[trigger] ps[j]).file == ps[0].file;
        if s.contains(p) {
            let k = choose|k: int| 0 <= k < s.len() && s[k] == p;
            if !later && k == 0 {
                assert(ps[0] == p);
                assert forall|j: int| 0 < j < ps.len() implies (#[trigger] ps[j]).file
                    != ps[0].file by {}
            } else {
                let x = if later {
                    k
                } else {
                    k - 1
                };
                assert(r[x] == p);
                assert(r.contains(p));
                let i = choose|i: int|
                    0 <= i < d.len() && d[i] == p && forall|j: int|
                        i < j < d.len() ==> (#[trigger] d[j]).file != (#[trigger] d[i]).file;
                assert(ps[i + 1] == p);
                assert forall|j: int| i + 1 < j < ps.len() implies (#[trigger] ps[j]).file != ps[i
                    + 1].file by {
                    assert(d[j - 1] == ps[j]);
                }
            }
        }
        if exists|i: int|
            0 <= i < ps.len() && ps[i] == p && forall|j: int|
                i < j < ps.len() ==> (#[trigger] ps[j]).file != (#[trigger] ps[i]).file {
            let i = choose|i: int|
                0 <= i < ps.len() && ps[i] == p && forall|j: int|
                    i < j < ps.len() ==> (#[trigger] ps[j]).file != (#[trigger] ps[i]).file;
            if i == 0 {
                assert(!later);
                assert(s[0] == p);
            } else {
                assert(d[i - 1] == p);
                assert forall|j: int| i - 1 < j < d.len() implies (#[trigger] d[j]).file != d[i
                    - 1].file by {
                    assert(ps[j + 1] == d[j]);
                }
                assert(r.contains(p));
                let x = choose|x: int| 0 <= x < r.len() && r[x] == p;
                if later {
                    assert(s[x] == p);
                } else {
                    assert(s[x + 1] == p);
                }
            }
        }
        assert forall|x: int, y: int| 0 <= x < y < s.len() implies (#[trigger] s[x]).file != (
        #[trigger] s[y]).file by {
            if later {
                assert(r[x].file != r[y].file);
            } else if x > 0 {
                assert(r[x - 1].file != r[y - 1].file);
            } else {
                lemma_places_stay(d, y - 1);
                let q = r[y - 1];
                let i = choose|i: int| 0 <= i < d.len() && d[i] == q;
                assert(ps[i + 1] == q);
            }
        }
    }
}

proof fn lemma_places_stay(ps: Seq<SpecPlace>, k: int)
    requires
        0 <= k < last_per_file(ps).len(),
    ensures
        ps.contains(last_per_file(ps)[k]),
    decreases ps.len(),
{
    let d = ps.skip(1);
    let r = last_per_file(d);
    let s = last_per_file(ps);
    let later = exists|j: int| 0 < j < ps.len() && (#[trigger] ps[j]).file == ps[0].file;
    if !later && k == 0 {
        assert(ps[0] == s[0]);
    } else {
        let x = if later {
            k
        } else {
            k - 1
        };
        lemma_places_stay(d, x);
        let i = choose|i: int| 0 <= i < d.len() && d[i] == r[x];
        assert(ps[i + 1] == s[k]);
    }
}

/// Ids are listed once each, all of them.
pub proof fn ids_are_listed_once(ids: Seq<Uuid>, id: Uuid)
    ensures
        first_ids(ids).contains(id) <==> ids.contains(id),
        first_ids(ids).no_duplicates(),
    decreases ids.len(),
{
    if ids.len() > 0 {
        let d = ids.drop_last();
        let l = ids.last();
        let r = first_ids(d);
        let s = first_ids(ids);
        ids_are_listed_once(d, id);
        ids_are_listed_once(d, l);
        if ids.contains(id) {
            let k = choose|k: int| 0 <= k < ids.len() && ids[k] == id;
            if k < d.len() {
                assert(d[k] == id);
                let x = choose|x: int| 0 <= x < r.len() && r[x] == id;
                assert(s[x] == id);
            } else if !d.contains(l) {
                assert(s[r.len() as int] == id);
            }
        }
        if s.contains(id) {
            let k = choose|k: int| 0 <= k < s.len() && s[k] == id;
            if k < r.len() {
                assert(r[k] == id);
                let x = choose|x: int| 0 <= x < d.len() && d[x] == id;
                assert(ids[x] == id);
            } else {
                assert(ids[ids.len() - 1] == id);
            }
        }
    }
}

/// What is spoken are the entries of the files that were not removed, all of them in order.
pub proof fn entries_of_files_that_count_are_spoken(es: Seq<Seq<u8>>, kind: Ledger, removed: Set<u32>) -> (at: Seq<int>)
    ensures
        at.len() == spoken(es, kind, removed).len(),
        forall|x: int|
            0 <= x < at.len() ==> 0 <= #[trigger] at[x] < es.len() && spoken(es, kind, removed)[x] == es[at[x]]
                && !removed.contains(file_of(kind, es[at[x]])),
        forall|x: int, y: int| 0 <= x < y < at.len() ==> #[trigger] at[x] < #[trigger] at[y],
        forall|i: int| 0 <= i < es.len() && !removed.contains(file_of(kind, #[trigger] es[i])) ==> at.contains(i),
    decreases es.len(),
{
    if es.len() == 0 {
        Seq::empty()
    } else {
        let d = es.drop_last();
        let rest = entries_of_files_that_count_are_spoken(d, kind, removed);
        let at = if !removed.contains(file_of(kind, es[es.len() - 1])) {
            rest.push(es.len() - 1)
        } else {
            rest
        };
        assert forall|i: int| 0 <= i < es.len() && !removed.contains(file_of(kind, #[trigger] es[i])) implies at.contains(i) by {
            if i < d.len() {
                assert(d[i] == es[i]);
                let x = choose|x: int| 0 <= x < rest.len() && rest[x] == i;
                assert(at[x] == i);
            } else {
                assert(at[rest.len() as int] == i);
            }
        }
        assert forall|x: int| 0 <= x < at.len() implies 0 <= #[trigger] at[x] < es.len()
            && spoken(es, kind, removed)[x] == es[at[x]] && !removed.contains(file_of(kind, es[at[x]])) by {
            if x < rest.len() {
                assert(at[x] == rest[x]);
                assert(d[rest[x]] == es[rest[x]]);
            }
        }
        at
    }
}

/// What is taken are the entries of the files that are fresh, all of them in order.
pub proof fn entries_of_fresh_files_are_taken(r: Reader, es: Seq<Seq<u8>>) -> (at: Seq<int>)
    ensures
        at.len() == of_fresh(r, es).len(),
        forall|x: int|
            0 <= x < at.len() ==> 0 <= #[trigger] at[x] < es.len() && of_fresh(r, es)[x] == es[at[x]]
                && r.is_fresh(loc_of(es[at[x]]).file_id),
        forall|x: int, y: int| 0 <= x < y < at.len() ==> #[trigger] at[x] < #[trigger] at[y],
        forall|i: int| 0 <= i < es.len() && r.is_fresh(loc_of(#[trigger] es[i]).file_id) ==> at.contains(i),
    decreases es.len(),
{
    if es.len() == 0 {
        Seq::empty()
    } else {
        let d = es.drop_last();
        let rest = entries_of_fresh_files_are_taken(r, d);
        let at = if r.is_fresh(loc_of(es[es.len() - 1]).file_id) {
            rest.push(es.len() - 1)
        } else {
            rest
        };
        assert forall|i: int| 0 <= i < es.len() && r.is_fresh(loc_of(#[trigger] es[i]).file_id) implies at.contains(i) by {
            if i < d.len() {
                assert(d[i] == es[i]);
                let x = choose|x: int| 0 <= x < rest.len() && rest[x] == i;
                assert(at[x] == i);
            } else {
                assert(at[rest.len() as int] == i);
            }
        }
        assert forall|x: int| 0 <= x < at.len() implies 0 <= #[trigger] at[x] < es.len()
            && of_fresh(r, es)[x] == es[at[x]] && r.is_fresh(loc_of(es[at[x]]).file_id) by {
            if x < rest.len() {
                assert(at[x] == rest[x]);
                assert(d[rest[x]] == es[rest[x]]);
            }
        }
        at
    }
}

/// The roots are the nodes that are entered as their own, all of them in order.
pub proof fn roots_are_their_own(es: Seq<Seq<u8>>) -> (at: Seq<int>)
    ensures
        at.len() == root_ids(es).len(),
        forall|x: int|
            0 <= x < at.len() ==> 0 <= #[trigger] at[x] < es.len() && root_ids(es)[x] == loc_of(es[at[x]]).uuid
                && loc_of(es[at[x]]).uuid == loc_of(es[at[x]]).root,
        forall|x: int, y: int| 0 <= x < y < at.len() ==> #[trigger] at[x] < #[trigger] at[y],
        forall|i: int| 0 <= i < es.len() && loc_of(#[trigger] es[i]).uuid == loc_of(es[i]).root ==> at.contains(i),
    decreases es.len(),
{
    if es.len() == 0 {
        Seq::empty()
    } else {
        let d = es.drop_last();
        let rest = roots_are_their_own(d);
        let at = if loc_of(es[es.len() - 1]).uuid == loc_of(es[es.len() - 1]).root {
            rest.push(es.len() - 1)
        } else {
            rest
        };
        assert forall|i: int| 0 <= i < es.len() && loc_of(#[trigger] es[i]).uuid == loc_of(es[i]).root implies at.contains(i) by {
            if i < d.len() {
                assert(d[i] == es[i]);
                let x = choose|x: int| 0 <= x < rest.len() && rest[x] == i;
                assert(at[x] == i);
            } else {
                assert(at[rest.len() as int] == i);
            }
        }
        assert forall|x: int| 0 <= x < at.len() implies 0 <= #[trigger] at[x] < es.len()
            && root_ids(es)[x] == loc_of(es[at[x]]).uuid && loc_of(es[at[x]]).uuid == loc_of(es[at[x]]).root by {
            if x < rest.len() {
                assert(at[x] == rest[x]);
                assert(d[rest[x]] == es[rest[x]]);
            }
        }
        at
    }
}

} // verus!
