//! The index of a workspace: three ledgers of sorted blocks and append-only logs,
//! and the table of the files that they cover.
use crate::bytes::{be, be_value, get_be, i64_bits, i64_from_bits, i64_of_bits, i64_to_bits, put_be,
    put_slice, sub_bytes};
use crate::codec::{read_uuid, uuid_at, Uuid};
use crate::index::{all_children, build, file_recs_of, indexes, place, NodeIndex};
use crate::search::flat;
use crate::sort::{arranged, bytes_before, bytes_le, bytes_lt, key_views, order, sorted};
use crate::text::{decimal, decimal_text, join2, join3, lossy, lossy_text, owned, same_text,
    text_views};
use vstd::prelude::*;
use vstd::utf8::encode_utf8;

verus! {

/// The version of the file formats.
pub const VERSION: u8 = 1;

/// How many entries a block holds at most.
pub const BLOCK_ENTRIES: usize = 1_000_000;

/// The size of an entry that says where a node is.
pub const LOC_ENTRY: usize = 52;

/// The size of an entry that says what is below a node.
pub const REL_ENTRY: usize = 68;

/// The size of an entry that says who refers to a node.
pub const REV_ENTRY: usize = 36;

/// The text that stands at the head of every file.
pub const HEADER: &'static str = "XiRang workspace index (XWSIX) v1\nThree ledgers per workspace: loc (id -> file+offset+root), rel (root+parent -> child), rev (target -> source).\nEach ledger = block table in index.manifest + sorted blocks (<=1M entries) + append-only log.\nUnknown record types must be skipped by length; fingerprints (size+mtime) decide staleness.";

/// The bytes that every file starts with.
pub open spec fn magic() -> Seq<u8> {
    seq![0x58u8, 0x57u8, 0x53u8, 0x49u8, 0x58u8]
}

/// One of the ledgers.
#[derive(Clone, Copy, Debug, PartialEq, Eq, Structural)]
pub enum Ledger {
    /// Where nodes are.
    Loc,
    /// What is below them.
    Rel,
    /// Who refers to them.
    Rev,
}

impl Ledger {
    /// The byte that stands for the ledger.
    pub open spec fn code(self) -> u8 {
        match self {
            Ledger::Loc => 1,
            Ledger::Rel => 2,
            Ledger::Rev => 3,
        }
    }

    /// The name of the ledger.
    pub open spec fn text(self) -> Seq<char> {
        match self {
            Ledger::Loc => "loc"@,
            Ledger::Rel => "rel"@,
            Ledger::Rev => "rev"@,
        }
    }

    /// The size of an entry.
    pub open spec fn size(self) -> int {
        match self {
            Ledger::Loc => 52,
            Ledger::Rel => 68,
            Ledger::Rev => 36,
        }
    }

    /// The byte that stands for the ledger.
    pub fn byte(self) -> (r: u8)
        ensures
            r == self.code(),
    {
        match self {
            Ledger::Loc => 1,
            Ledger::Rel => 2,
            Ledger::Rev => 3,
        }
    }

    /// The name of the ledger.
    pub fn name(self) -> (r: &'static str)
        ensures
            r@ == self.text(),
    {
        match self {
            Ledger::Loc => "loc",
            Ledger::Rel => "rel",
            Ledger::Rev => "rev",
        }
    }

    /// The size of an entry.
    pub fn entry_size(self) -> (r: usize)
        ensures
            r == self.size(),
    {
        match self {
            Ledger::Loc => LOC_ENTRY,
            Ledger::Rel => REL_ENTRY,
            Ledger::Rev => REV_ENTRY,
        }
    }
}

// ---------------------------------------------------------------------------
// Entries
// ---------------------------------------------------------------------------

/// Where a node is: in which file, at which place among its nodes, in the tree of
/// which root.
#[derive(Clone, Copy, Debug)]
pub struct LocEntry {
    pub uuid: Uuid,
    pub file_id: u32,
    pub off: u64,
    pub len: u64,
    pub root: Uuid,
}

/// A child of a node, and where it is.
#[derive(Clone, Copy, Debug)]
pub struct RelEntry {
    pub root: Uuid,
    pub parent: Uuid,
    pub child: Uuid,
    pub file_id: u32,
    pub off: u64,
    pub len: u64,
}

/// A node that refers to another.
#[derive(Clone, Copy, Debug)]
pub struct RevEntry {
    pub target: Uuid,
    pub source: Uuid,
    pub file_id: u32,
}

/// The bytes of an entry that says where a node is.
pub open spec fn loc_bytes(e: LocEntry) -> Seq<u8> {
    e.uuid.0@ + be(e.file_id as nat, 4) + be(e.off as nat, 8) + be(e.len as nat, 8) + e.root.0@
}

/// The bytes of an entry that says what is below a node.
pub open spec fn rel_bytes(e: RelEntry) -> Seq<u8> {
    e.root.0@ + e.parent.0@ + e.child.0@ + be(e.file_id as nat, 4) + be(e.off as nat, 8) + be(
        e.len as nat,
        8,
    )
}

/// The bytes of an entry that says who refers to a node.
pub open spec fn rev_bytes(e: RevEntry) -> Seq<u8> {
    e.target.0@ + e.source.0@ + be(e.file_id as nat, 4)
}

/// The entry in the bytes.
pub open spec fn loc_of(b: Seq<u8>) -> LocEntry {
    LocEntry {
        uuid: uuid_at(b, 0),
        file_id: be_value(b.subrange(16, 20)) as u32,
        off: be_value(b.subrange(20, 28)) as u64,
        len: be_value(b.subrange(28, 36)) as u64,
        root: uuid_at(b, 36),
    }
}

/// The entry in the bytes.
pub open spec fn rel_of(b: Seq<u8>) -> RelEntry {
    RelEntry {
        root: uuid_at(b, 0),
        parent: uuid_at(b, 16),
        child: uuid_at(b, 32),
        file_id: be_value(b.subrange(48, 52)) as u32,
        off: be_value(b.subrange(52, 60)) as u64,
        len: be_value(b.subrange(60, 68)) as u64,
    }
}

/// The entry in the bytes.
pub open spec fn rev_of(b: Seq<u8>) -> RevEntry {
    RevEntry {
        target: uuid_at(b, 0),
        source: uuid_at(b, 16),
        file_id: be_value(b.subrange(32, 36)) as u32,
    }
}

/// The bytes of an entry.
pub fn enc_loc(e: &LocEntry) -> (r: Vec<u8>)
    ensures
        r@ == loc_bytes(*e),
{
    let mut o: Vec<u8> = Vec::new();
    put_slice(&mut o, e.uuid.0.as_slice());
    put_be(&mut o, e.file_id as u64, 4);
    put_be(&mut o, e.off, 8);
    put_be(&mut o, e.len, 8);
    put_slice(&mut o, e.root.0.as_slice());
    assert(o@ =~= loc_bytes(*e));
    o
}

/// The entry in the bytes.
pub fn dec_loc(b: &[u8]) -> (r: LocEntry)
    requires
        b@.len() == 52,
    ensures
        r == loc_of(b@),
{
    proof {
        crate::bytes::lemma_pow256_values();
        crate::bytes::lemma_be_value_bound(b@.subrange(16, 20));
    }
    LocEntry {
        uuid: read_uuid(b, 0),
        file_id: get_be(b, 16, 4) as u32,
        off: get_be(b, 20, 8),
        len: get_be(b, 28, 8),
        root: read_uuid(b, 36),
    }
}

/// The bytes of an entry.
pub fn enc_rel(e: &RelEntry) -> (r: Vec<u8>)
    ensures
        r@ == rel_bytes(*e),
{
    let mut o: Vec<u8> = Vec::new();
    put_slice(&mut o, e.root.0.as_slice());
    put_slice(&mut o, e.parent.0.as_slice());
    put_slice(&mut o, e.child.0.as_slice());
    put_be(&mut o, e.file_id as u64, 4);
    put_be(&mut o, e.off, 8);
    put_be(&mut o, e.len, 8);
    assert(o@ =~= rel_bytes(*e));
    o
}

/// The entry in the bytes.
pub fn dec_rel(b: &[u8]) -> (r: RelEntry)
    requires
        b@.len() == 68,
    ensures
        r == rel_of(b@),
{
    proof {
        crate::bytes::lemma_pow256_values();
        crate::bytes::lemma_be_value_bound(b@.subrange(48, 52));
    }
    RelEntry {
        root: read_uuid(b, 0),
        parent: read_uuid(b, 16),
        child: read_uuid(b, 32),
        file_id: get_be(b, 48, 4) as u32,
        off: get_be(b, 52, 8),
        len: get_be(b, 60, 8),
    }
}

/// The bytes of an entry.
pub fn enc_rev(e: &RevEntry) -> (r: Vec<u8>)
    ensures
        r@ == rev_bytes(*e),
{
    let mut o: Vec<u8> = Vec::new();
    put_slice(&mut o, e.target.0.as_slice());
    put_slice(&mut o, e.source.0.as_slice());
    put_be(&mut o, e.file_id as u64, 4);
    assert(o@ =~= rev_bytes(*e));
    o
}

/// The entry in the bytes.
pub fn dec_rev(b: &[u8]) -> (r: RevEntry)
    requires
        b@.len() == 36,
    ensures
        r == rev_of(b@),
{
    proof {
        crate::bytes::lemma_pow256_values();
        crate::bytes::lemma_be_value_bound(b@.subrange(32, 36));
    }
    RevEntry {
        target: read_uuid(b, 0),
        source: read_uuid(b, 16),
        file_id: get_be(b, 32, 4) as u32,
    }
}

proof fn lemma_number(s: Seq<u8>, n: nat, k: nat)
    requires
        s == be(n, k),
        n < crate::bytes::pow256(k),
    ensures
        be_value(s) == n,
        s.len() == k,
{
    crate::bytes::lemma_be_value_of_be(n, k);
    crate::bytes::lemma_be_len(n, k);
}

/// Reading an entry gives back what was written.
pub proof fn loc_round_trip(e: LocEntry)
    ensures
        loc_bytes(e).len() == 52,
        loc_of(loc_bytes(e)) == e,
        loc_bytes(e).take(16) == e.uuid.0@,
{
    let b = loc_bytes(e);
    crate::bytes::lemma_pow256_values();
    crate::bytes::lemma_be_len(e.file_id as nat, 4);
    crate::bytes::lemma_be_len(e.off as nat, 8);
    crate::bytes::lemma_be_len(e.len as nat, 8);
    assert(b.subrange(0, 16) =~= e.uuid.0@);
    assert(b.take(16) =~= e.uuid.0@);
    assert(b.subrange(36, 52) =~= e.root.0@);
    crate::codec::lemma_uuid_at(b, 0, e.uuid);
    crate::codec::lemma_uuid_at(b, 36, e.root);
    assert(b.subrange(16, 20) =~= be(e.file_id as nat, 4));
    assert(b.subrange(20, 28) =~= be(e.off as nat, 8));
    assert(b.subrange(28, 36) =~= be(e.len as nat, 8));
    lemma_number(b.subrange(16, 20), e.file_id as nat, 4);
    lemma_number(b.subrange(20, 28), e.off as nat, 8);
    lemma_number(b.subrange(28, 36), e.len as nat, 8);
}

/// Reading an entry gives back what was written.
pub proof fn rel_round_trip(e: RelEntry)
    ensures
        rel_bytes(e).len() == 68,
        rel_of(rel_bytes(e)) == e,
        rel_bytes(e).take(32) == e.root.0@ + e.parent.0@,
{
    let b = rel_bytes(e);
    crate::bytes::lemma_pow256_values();
    crate::bytes::lemma_be_len(e.file_id as nat, 4);
    crate::bytes::lemma_be_len(e.off as nat, 8);
    crate::bytes::lemma_be_len(e.len as nat, 8);
    assert(b.subrange(0, 16) =~= e.root.0@);
    assert(b.subrange(16, 32) =~= e.parent.0@);
    assert(b.subrange(32, 48) =~= e.child.0@);
    assert(b.take(32) =~= e.root.0@ + e.parent.0@);
    crate::codec::lemma_uuid_at(b, 0, e.root);
    crate::codec::lemma_uuid_at(b, 16, e.parent);
    crate::codec::lemma_uuid_at(b, 32, e.child);
    assert(b.subrange(48, 52) =~= be(e.file_id as nat, 4));
    assert(b.subrange(52, 60) =~= be(e.off as nat, 8));
    assert(b.subrange(60, 68) =~= be(e.len as nat, 8));
    lemma_number(b.subrange(48, 52), e.file_id as nat, 4);
    lemma_number(b.subrange(52, 60), e.off as nat, 8);
    lemma_number(b.subrange(60, 68), e.len as nat, 8);
}

/// Reading an entry gives back what was written.
pub proof fn rev_round_trip(e: RevEntry)
    ensures
        rev_bytes(e).len() == 36,
        rev_of(rev_bytes(e)) == e,
        rev_bytes(e).take(16) == e.target.0@,
{
    let b = rev_bytes(e);
    crate::bytes::lemma_pow256_values();
    crate::bytes::lemma_be_len(e.file_id as nat, 4);
    assert(b.subrange(0, 16) =~= e.target.0@);
    assert(b.take(16) =~= e.target.0@);
    assert(b.subrange(16, 32) =~= e.source.0@);
    crate::codec::lemma_uuid_at(b, 0, e.target);
    crate::codec::lemma_uuid_at(b, 16, e.source);
    assert(b.subrange(32, 36) =~= be(e.file_id as nat, 4));
    lemma_number(b.subrange(32, 36), e.file_id as nat, 4);
}

// ---------------------------------------------------------------------------
// The head of the files
// ---------------------------------------------------------------------------

/// What a file of the index is.
#[derive(Clone, Copy, Debug, PartialEq, Eq, Structural)]
pub enum Part {
    Block,
    Log,
    Table,
}

impl Part {
    /// The byte that stands for it.
    pub open spec fn code(self) -> u8 {
        match self {
            Part::Block => 1,
            Part::Log => 2,
            Part::Table => 3,
        }
    }

    /// The byte that stands for it.
    pub fn byte(self) -> (r: u8)
        ensures
            r == self.code(),
    {
        match self {
            Part::Block => 1,
            Part::Log => 2,
            Part::Table => 3,
        }
    }
}

/// The head of a file.
pub open spec fn prefix(kind: u8, part: Part) -> Seq<u8> {
    magic() + seq![VERSION, kind, part.code()] + be(encode_utf8(HEADER@).len(), 4) + encode_utf8(
        HEADER@,
    )
}

/// The length of the head of every file.
pub open spec fn prefix_len() -> int {
    12 + encode_utf8(HEADER@).len() as int
}

/// Appends the head of a file.
pub fn write_prefix(o: &mut Vec<u8>, kind: u8, part: Part)
    ensures
        final(o)@ == old(o)@ + prefix(kind, part),
{
    let header = HEADER.as_bytes();
    o.push(0x58);
    o.push(0x57);
    o.push(0x53);
    o.push(0x49);
    o.push(0x58);
    o.push(VERSION);
    o.push(kind);
    o.push(part.byte());
    put_be(o, header.len() as u64, 4);
    put_slice(o, header);
    assert(o@ =~= old(o)@ + prefix(kind, part));
}

/// The length of the head of every file.
pub fn fixed_prefix_len() -> (r: usize)
    ensures
        r == prefix_len(),
{
    proof {
        lemma_header_len();
    }
    12 + HEADER.as_bytes().len()
}

proof fn lemma_header_len()
    ensures
        encode_utf8(HEADER@).len() < 0x1_0000,
{
    reveal_strlit("XiRang workspace index (XWSIX) v1\nThree ledgers per workspace: loc (id -> file+offset+root), rel (root+parent -> child), rev (target -> source).\nEach ledger = block table in index.manifest + sorted blocks (<=1M entries) + append-only log.\nUnknown record types must be skipped by length; fingerprints (size+mtime) decide staleness.");
    crate::header::lemma_utf8_len(HEADER@);
}

/// What is wrong with the head of a file, if anything.
pub open spec fn prefix_fault(data: Seq<u8>, kind: u8, part: Part) -> Option<Seq<char>> {
    if data.len() < prefix_len() {
        Some("F013：索引文件损坏（读不到文件头）"@)
    } else if data.take(5) != magic() {
        Some("F013：索引文件损坏（魔数不符）"@)
    } else if data[5] != VERSION {
        Some("F013：索引版本不支持"@)
    } else if data[6] != kind || data[7] != part.code() {
        Some("F013：索引文件类型不符"@)
    } else {
        None
    }
}

/// Checks the head of a file.
pub fn read_prefix(data: &[u8], kind: u8, part: Part) -> (r: Result<(), String>)
    ensures
        match prefix_fault(data@, kind, part) {
            Some(e) => r is Err && r->Err_0@ == e,
            None => r is Ok && data@.len() >= prefix_len(),
        },
{
    if data.len() < fixed_prefix_len() {
        return Err(owned("F013：索引文件损坏（读不到文件头）"));
    }
    if !(data[0] == 0x58 && data[1] == 0x57 && data[2] == 0x53 && data[3] == 0x49 && data[4]
        == 0x58) {
        proof {
            assert(forall|i: int| 0 <= i < 5 ==> data@.take(5)[i] == data@[i]);
            assert(magic()[0] == 0x58 && magic()[1] == 0x57 && magic()[2] == 0x53 && magic()[3]
                == 0x49 && magic()[4] == 0x58);
        }
        return Err(owned("F013：索引文件损坏（魔数不符）"));
    }
    assert(data@.take(5) =~= magic());
    if data[5] != VERSION {
        return Err(owned("F013：索引版本不支持"));
    }
    if data[6] != kind || data[7] != part.byte() {
        return Err(owned("F013：索引文件类型不符"));
    }
    Ok(())
}

/// A head that was written is accepted.
pub proof fn written_prefix_is_read(kind: u8, part: Part, rest: Seq<u8>)
    ensures
        prefix(kind, part).len() == prefix_len(),
        prefix_fault(prefix(kind, part) + rest, kind, part) is None,
        (prefix(kind, part) + rest).skip(prefix_len()) == rest,
{
    let d = prefix(kind, part) + rest;
    crate::bytes::lemma_be_len(encode_utf8(HEADER@).len(), 4);
    assert(d.take(5) =~= magic());
    assert(d[5] == VERSION);
    assert(d[6] == kind);
    assert(d[7] == part.code());
    assert(d.skip(prefix_len()) =~= rest);
}

// ---------------------------------------------------------------------------
// Records of files
// ---------------------------------------------------------------------------

/// A file that the index covers.
#[derive(Debug)]
pub struct FileEntry {
    pub id: u32,
    pub path: String,
    pub size: u64,
    pub mtime_sec: i64,
    pub mtime_nsec: u32,
    pub uuid_count: u64,
    /// The generation of the file's entries in the blocks.
    pub gen: u64,
    /// The generation of its latest entries.
    pub cur_gen: u64,
}

/// What a covered file is: the model of [`FileEntry`].
pub struct SpecFile {
    pub id: u32,
    pub path: Seq<char>,
    pub size: u64,
    pub sec: i64,
    pub nsec: u32,
    pub count: u64,
    pub gen: u64,
    pub cur: u64,
}

impl View for FileEntry {
    type V = SpecFile;

    open spec fn view(&self) -> SpecFile {
        SpecFile {
            id: self.id,
            path: self.path@,
            size: self.size,
            sec: self.mtime_sec,
            nsec: self.mtime_nsec,
            count: self.uuid_count,
            gen: self.gen,
            cur: self.cur_gen,
        }
    }
}

impl Clone for FileEntry {
    fn clone(&self) -> (r: Self)
        ensures
            r@ == self@,
    {
        FileEntry {
            id: self.id,
            path: self.path.clone(),
            size: self.size,
            mtime_sec: self.mtime_sec,
            mtime_nsec: self.mtime_nsec,
            uuid_count: self.uuid_count,
            gen: self.gen,
            cur_gen: self.cur_gen,
        }
    }
}

/// The models of covered files.
pub open spec fn file_models(s: Seq<FileEntry>) -> Seq<SpecFile> {
    Seq::new(s.len(), |i: int| s[i]@)
}

/// The bytes of the record of a file.
#[verifier::opaque]
pub open spec fn file_bytes(f: SpecFile) -> Seq<u8> {
    be(f.id as nat, 4) + be(encode_utf8(f.path).len(), 4) + encode_utf8(f.path) + be(
        f.size as nat,
        8,
    ) + be(i64_bits(f.sec), 8) + be(f.nsec as nat, 4) + be(f.count as nat, 8) + be(
        f.gen as nat,
        8,
    ) + be(f.cur as nat, 8)
}

/// The message where a file of the index ends too early.
pub const OUT_OF_BOUNDS: &'static str = "F013：索引文件损坏（越界）";

/// The record of a file at `off` and where it ends.
#[verifier::opaque]
pub open spec fn file_at(data: Seq<u8>, off: int) -> Result<(SpecFile, int), Seq<char>> {
    if off + 8 > data.len() {
        Err(OUT_OF_BOUNDS@)
    } else {
        let n = be_value(data.subrange(off + 4, off + 8)) as int;
        let p = off + 8 + n;
        if p > data.len() {
            Err("F013：索引文件损坏（文件表越界）"@)
        } else if p + 44 > data.len() {
            Err(OUT_OF_BOUNDS@)
        } else {
            Ok(
                (
                    SpecFile {
                        id: be_value(data.subrange(off, off + 4)) as u32,
                        path: lossy_text(data.subrange(off + 8, p)),
                        size: be_value(data.subrange(p, p + 8)) as u64,
                        sec: i64_of_bits(be_value(data.subrange(p + 8, p + 16))),
                        nsec: be_value(data.subrange(p + 16, p + 20)) as u32,
                        count: be_value(data.subrange(p + 20, p + 28)) as u64,
                        gen: be_value(data.subrange(p + 28, p + 36)) as u64,
                        cur: be_value(data.subrange(p + 36, p + 44)) as u64,
                    },
                    p + 44,
                ),
            )
        }
    }
}

/// Appends the record of a file.
pub fn enc_file_rec(f: &FileEntry, o: &mut Vec<u8>)
    ensures
        final(o)@ == old(o)@ + file_bytes(f@),
{
    proof {
        reveal(file_bytes);
    }
    let b = f.path.as_str().as_bytes();
    put_be(o, f.id as u64, 4);
    put_be(o, b.len() as u64, 4);
    put_slice(o, b);
    put_be(o, f.size, 8);
    put_be(o, i64_to_bits(f.mtime_sec), 8);
    put_be(o, f.mtime_nsec as u64, 4);
    put_be(o, f.uuid_count, 8);
    put_be(o, f.gen, 8);
    put_be(o, f.cur_gen, 8);
    assert(o@ =~= old(o)@ + file_bytes(f@));
}

/// Reads the record of a file.
pub fn rd_file_rec(b: &[u8], off: usize) -> (r: Result<(FileEntry, usize), String>)
    requires
        off <= b@.len(),
    ensures
        match r {
            Ok((f, end)) => file_at(b@, off as int) == Ok::<(SpecFile, int), Seq<char>>(
                (f@, end as int),
            ) && off < end <= b@.len(),
            Err(e) => file_at(b@, off as int) == Err::<(SpecFile, int), Seq<char>>(e@),
        },
{
    proof {
        reveal(file_at);
    }
    let len: usize = b.len();
    if len - off < 8 {
        return Err(owned(OUT_OF_BOUNDS));
    }
    let id: u64 = get_be(b, off, 4);
    let n: u64 = get_be(b, off + 4, 4);
    if n > (len - off - 8) as u64 {
        return Err(owned("F013：索引文件损坏（文件表越界）"));
    }
    let p: usize = off + 8 + n as usize;
    if len - p < 44 {
        return Err(owned(OUT_OF_BOUNDS));
    }
    proof {
        crate::bytes::lemma_pow256_values();
        crate::bytes::lemma_be_value_bound(b@.subrange(off as int, off + 4));
        crate::bytes::lemma_be_value_bound(b@.subrange(p + 16, p + 20));
    }
    let raw = sub_bytes(b, off + 8, p);
    let path = lossy(raw.as_slice());
    Ok(
        (
            FileEntry {
                id: id as u32,
                path,
                size: get_be(b, p, 8),
                mtime_sec: i64_from_bits(get_be(b, p + 8, 8)),
                mtime_nsec: get_be(b, p + 16, 4) as u32,
                uuid_count: get_be(b, p + 20, 8),
                gen: get_be(b, p + 28, 8),
                cur_gen: get_be(b, p + 36, 8),
            },
            p + 44,
        ),
    )
}

// ---------------------------------------------------------------------------
// The table of files and blocks
// ---------------------------------------------------------------------------

/// A block of a ledger: its number, the first bytes of its first and last entries,
/// how many entries it holds, and its file.
#[derive(Debug)]
pub struct BlockInfo {
    pub index: u32,
    pub first: Vec<u8>,
    pub last: Vec<u8>,
    pub count: u64,
    pub name: String,
}

/// What a block is: the model of [`BlockInfo`].
pub struct SpecBlock {
    pub index: u32,
    pub first: Seq<u8>,
    pub last: Seq<u8>,
    pub count: u64,
    pub name: Seq<char>,
}

impl View for BlockInfo {
    type V = SpecBlock;

    open spec fn view(&self) -> SpecBlock {
        SpecBlock {
            index: self.index,
            first: self.first@,
            last: self.last@,
            count: self.count,
            name: self.name@,
        }
    }
}

impl Clone for BlockInfo {
    fn clone(&self) -> (r: Self)
        ensures
            r@ == self@,
    {
        let first = sub_bytes(self.first.as_slice(), 0, self.first.len());
        let last = sub_bytes(self.last.as_slice(), 0, self.last.len());
        assert(first@ =~= self.first@);
        assert(last@ =~= self.last@);
        BlockInfo { index: self.index, first, last, count: self.count, name: self.name.clone() }
    }
}

/// The models of blocks.
pub open spec fn block_models(s: Seq<BlockInfo>) -> Seq<SpecBlock> {
    Seq::new(s.len(), |i: int| s[i]@)
}

/// The blocks of a ledger, and how many bytes its blocks and its log take.
#[derive(Debug)]
pub struct LedgerInfo {
    pub blocks: Vec<BlockInfo>,
    pub log_bytes: u64,
    pub base_bytes: u64,
}

/// What a ledger is: the model of [`LedgerInfo`].
pub struct SpecLedger {
    pub blocks: Seq<SpecBlock>,
    pub log_bytes: u64,
    pub base_bytes: u64,
}

impl View for LedgerInfo {
    type V = SpecLedger;

    open spec fn view(&self) -> SpecLedger {
        SpecLedger {
            blocks: block_models(self.blocks@),
            log_bytes: self.log_bytes,
            base_bytes: self.base_bytes,
        }
    }
}

impl LedgerInfo {
    /// A ledger without blocks.
    pub fn empty() -> (r: Self)
        ensures
            r@ == no_ledger(),
    {
        let r = LedgerInfo { blocks: Vec::new(), log_bytes: 0, base_bytes: 0 };
        assert(r@.blocks =~= Seq::<SpecBlock>::empty());
        r
    }
}

/// A ledger without blocks.
pub open spec fn no_ledger() -> SpecLedger {
    SpecLedger { blocks: Seq::<SpecBlock>::empty(), log_bytes: 0, base_bytes: 0 }
}

/// The table of an index: its generation, the files that it covers, and its
/// ledgers.
#[derive(Debug)]
pub struct Manifest {
    pub generation: u64,
    pub next_file_id: u32,
    pub files: Vec<FileEntry>,
    pub loc: LedgerInfo,
    pub rel: LedgerInfo,
    pub rev: LedgerInfo,
}

/// What a table is: the model of [`Manifest`].
pub struct SpecManifest {
    pub generation: u64,
    pub next_id: u32,
    pub files: Seq<SpecFile>,
    pub loc: SpecLedger,
    pub rel: SpecLedger,
    pub rev: SpecLedger,
}

impl View for Manifest {
    type V = SpecManifest;

    open spec fn view(&self) -> SpecManifest {
        SpecManifest {
            generation: self.generation,
            next_id: self.next_file_id,
            files: file_models(self.files@),
            loc: self.loc@,
            rel: self.rel@,
            rev: self.rev@,
        }
    }
}

/// The table of an index that is not there.
pub open spec fn no_manifest() -> SpecManifest {
    SpecManifest {
        generation: 0,
        next_id: 0,
        files: Seq::<SpecFile>::empty(),
        loc: no_ledger(),
        rel: no_ledger(),
        rev: no_ledger(),
    }
}

impl Default for Manifest {
    /// The table of an index that is not there.
    fn default() -> (r: Self)
        ensures
            r@ == no_manifest(),
    {
        let r = Manifest {
            generation: 0,
            next_file_id: 0,
            files: Vec::new(),
            loc: LedgerInfo::empty(),
            rel: LedgerInfo::empty(),
            rev: LedgerInfo::empty(),
        };
        assert(r@.files =~= Seq::<SpecFile>::empty());
        r
    }
}

/// The bytes of the records of files.
pub open spec fn files_bytes(fs: Seq<SpecFile>) -> Seq<u8>
    decreases fs.len(),
{
    if fs.len() == 0 {
        Seq::<u8>::empty()
    } else {
        file_bytes(fs[0]) + files_bytes(fs.skip(1))
    }
}

/// The bytes of a block in the table.
#[verifier::opaque]
pub open spec fn block_bytes(b: SpecBlock) -> Seq<u8> {
    be(b.index as nat, 4) + b.first + b.last + be(b.count as nat, 8) + be(
        encode_utf8(b.name).len(),
        4,
    ) + encode_utf8(b.name)
}

/// The bytes of blocks in the table.
pub open spec fn blocks_bytes(bs: Seq<SpecBlock>) -> Seq<u8>
    decreases bs.len(),
{
    if bs.len() == 0 {
        Seq::<u8>::empty()
    } else {
        block_bytes(bs[0]) + blocks_bytes(bs.skip(1))
    }
}

/// The bytes of a ledger in the table.
#[verifier::opaque]
pub open spec fn ledger_bytes(l: SpecLedger) -> Seq<u8> {
    be(l.blocks.len(), 8) + blocks_bytes(l.blocks) + be(l.log_bytes as nat, 8) + be(
        l.base_bytes as nat,
        8,
    )
}

/// The bytes of a table.
pub open spec fn manifest_bytes(m: SpecManifest) -> Seq<u8> {
    prefix(0, Part::Table) + be(m.generation as nat, 8) + be(m.next_id as nat, 4) + be(
        m.files.len(),
        8,
    ) + files_bytes(m.files) + ledger_bytes(m.loc) + ledger_bytes(m.rel) + ledger_bytes(m.rev)
}

/// Appends the bytes of a ledger.
fn enc_ledger(l: &LedgerInfo, o: &mut Vec<u8>)
    ensures
        final(o)@ == old(o)@ + ledger_bytes(l@),
{
    proof {
        reveal(block_bytes);
        reveal(ledger_bytes);
    }
    let ghost bs = l@.blocks;
    put_be(o, l.blocks.len() as u64, 8);
    let ghost base = o@;
    let mut i: usize = 0;
    assert(bs.skip(0) =~= bs);
    while i < l.blocks.len()
        invariant
            i <= l.blocks@.len(),
            bs == block_models(l.blocks@),
            o@ + blocks_bytes(bs.skip(i as int)) == base + blocks_bytes(bs),
        decreases l.blocks@.len() - i,
    {
        let b = &l.blocks[i];
        let ghost o0 = o@;
        put_be(o, b.index as u64, 4);
        put_slice(o, b.first.as_slice());
        put_slice(o, b.last.as_slice());
        put_be(o, b.count, 8);
        let name = b.name.as_str().as_bytes();
        put_be(o, name.len() as u64, 4);
        put_slice(o, name);
        proof {
            let r = bs.skip(i as int);
            assert(r[0] == b@);
            assert(r.skip(1) =~= bs.skip(i + 1));
            reveal(block_bytes);
            assert(o@ =~= o0 + block_bytes(b@));
            assert(o@ + blocks_bytes(bs.skip(i + 1)) =~= o0 + blocks_bytes(r));
        }
        i = i + 1;
    }
    assert(bs.skip(bs.len() as int) =~= Seq::<SpecBlock>::empty());
    assert(o@ =~= base + blocks_bytes(bs));
    put_be(o, l.log_bytes, 8);
    put_be(o, l.base_bytes, 8);
    assert(o@ =~= old(o)@ + ledger_bytes(l@));
}

/// The bytes of a table.
pub fn enc_manifest(m: &Manifest) -> (r: Vec<u8>)
    ensures
        r@ == manifest_bytes(m@),
{
    let ghost fs = m@.files;
    let mut o: Vec<u8> = Vec::new();
    write_prefix(&mut o, 0, Part::Table);
    put_be(&mut o, m.generation, 8);
    put_be(&mut o, m.next_file_id as u64, 4);
    put_be(&mut o, m.files.len() as u64, 8);
    let ghost base = o@;
    let mut i: usize = 0;
    assert(fs.skip(0) =~= fs);
    while i < m.files.len()
        invariant
            i <= m.files@.len(),
            fs == file_models(m.files@),
            o@ + files_bytes(fs.skip(i as int)) == base + files_bytes(fs),
        decreases m.files@.len() - i,
    {
        let ghost o0 = o@;
        enc_file_rec(&m.files[i], &mut o);
        proof {
            let r = fs.skip(i as int);
            assert(r[0] == m.files@[i as int]@);
            assert(r.skip(1) =~= fs.skip(i + 1));
            assert(o@ + files_bytes(fs.skip(i + 1)) =~= o0 + files_bytes(r));
        }
        i = i + 1;
    }
    assert(fs.skip(fs.len() as int) =~= Seq::<SpecFile>::empty());
    assert(o@ =~= base + files_bytes(fs));
    enc_ledger(&m.loc, &mut o);
    enc_ledger(&m.rel, &mut o);
    enc_ledger(&m.rev, &mut o);
    assert(o@ =~= manifest_bytes(m@));
    o
}

/// The number in `k` bytes at `off` and where it ends.
pub open spec fn num_at(data: Seq<u8>, off: int, k: int) -> Result<(nat, int), Seq<char>> {
    if off + k > data.len() {
        Err(OUT_OF_BOUNDS@)
    } else {
        Ok((be_value(data.subrange(off, off + k)), off + k))
    }
}

/// The records of `n` files at `off` and where they end.
pub open spec fn files_at(data: Seq<u8>, off: int, n: nat) -> Result<
    (Seq<SpecFile>, int),
    Seq<char>,
>
    decreases n,
{
    if n == 0 {
        Ok((Seq::<SpecFile>::empty(), off))
    } else {
        match file_at(data, off) {
            Err(e) => Err(e),
            Ok((f, p)) => match files_at(data, p, (n - 1) as nat) {
                Err(e) => Err(e),
                Ok((fs, end)) => Ok((seq![f] + fs, end)),
            },
        }
    }
}

/// The block at `off` and where it ends.
#[verifier::opaque]
pub open spec fn block_at(data: Seq<u8>, off: int) -> Result<(SpecBlock, int), Seq<char>> {
    let len = data.len() as int;
    if off + 4 > len {
        Err(OUT_OF_BOUNDS@)
    } else if off + 68 > len {
        Err("F013：索引文件损坏（边界越界）"@)
    } else if off + 80 > len {
        Err(OUT_OF_BOUNDS@)
    } else {
        let n = be_value(data.subrange(off + 76, off + 80)) as int;
        let p = off + 80 + n;
        if p > len {
            Err("F013：索引文件损坏（块表越界）"@)
        } else {
            Ok(
                (
                    SpecBlock {
                        index: be_value(data.subrange(off, off + 4)) as u32,
                        first: data.subrange(off + 4, off + 36),
                        last: data.subrange(off + 36, off + 68),
                        count: be_value(data.subrange(off + 68, off + 76)) as u64,
                        name: lossy_text(data.subrange(off + 80, p)),
                    },
                    p,
                ),
            )
        }
    }
}

/// The `n` blocks at `off` and where they end.
pub open spec fn blocks_at(data: Seq<u8>, off: int, n: nat) -> Result<
    (Seq<SpecBlock>, int),
    Seq<char>,
>
    decreases n,
{
    if n == 0 {
        Ok((Seq::<SpecBlock>::empty(), off))
    } else {
        match block_at(data, off) {
            Err(e) => Err(e),
            Ok((b, p)) => match blocks_at(data, p, (n - 1) as nat) {
                Err(e) => Err(e),
                Ok((bs, end)) => Ok((seq![b] + bs, end)),
            },
        }
    }
}

/// The ledger at `off` and where it ends.
#[verifier::opaque]
pub open spec fn ledger_at(data: Seq<u8>, off: int) -> Result<(SpecLedger, int), Seq<char>> {
    match num_at(data, off, 8) {
        Err(e) => Err(e),
        Ok((n, p)) => match blocks_at(data, p, n) {
            Err(e) => Err(e),
            Ok((blocks, q)) => if q + 16 > data.len() {
                Err(OUT_OF_BOUNDS@)
            } else {
                Ok(
                    (
                        SpecLedger {
                            blocks,
                            log_bytes: be_value(data.subrange(q, q + 8)) as u64,
                            base_bytes: be_value(data.subrange(q + 8, q + 16)) as u64,
                        },
                        q + 16,
                    ),
                )
            },
        },
    }
}

/// The table in the bytes, which start with the head of a file.
pub open spec fn manifest_of(data: Seq<u8>) -> Result<SpecManifest, Seq<char>> {
    let s = prefix_len();
    if s + 20 > data.len() {
        Err(OUT_OF_BOUNDS@)
    } else {
        match files_at(data, s + 20, be_value(data.subrange(s + 12, s + 20))) {
            Err(e) => Err(e),
            Ok((files, p)) => match ledger_at(data, p) {
                Err(e) => Err(e),
                Ok((loc, q)) => match ledger_at(data, q) {
                    Err(e) => Err(e),
                    Ok((rel, r)) => match ledger_at(data, r) {
                        Err(e) => Err(e),
                        Ok((rev, _)) => Ok(
                            SpecManifest {
                                generation: be_value(data.subrange(s, s + 8)) as u64,
                                next_id: be_value(data.subrange(s + 8, s + 12)) as u32,
                                files,
                                loc,
                                rel,
                                rev,
                            },
                        ),
                    },
                },
            },
        }
    }
}

/// Whether the blocks have keys of full length.
pub open spec fn keyed(bs: Seq<SpecBlock>) -> bool {
    forall|i: int|
        0 <= i < bs.len() ==> (#[trigger] bs[i]).first.len() == 32 && bs[i].last.len() == 32
}

/// Whether the blocks of all ledgers have keys of full length.
pub open spec fn keyed_table(m: SpecManifest) -> bool {
    keyed(m.loc.blocks) && keyed(m.rel.blocks) && keyed(m.rev.blocks)
}

/// Reads a block of the table.
fn rd_block(b: &[u8], off: usize) -> (r: Result<(BlockInfo, usize), String>)
    requires
        off <= b@.len(),
    ensures
        match r {
            Ok((x, end)) => block_at(b@, off as int) == Ok::<(SpecBlock, int), Seq<char>>(
                (x@, end as int),
            ) && off < end <= b@.len() && x@.first.len() == 32 && x@.last.len() == 32,
            Err(e) => block_at(b@, off as int) == Err::<(SpecBlock, int), Seq<char>>(e@),
        },
{
    proof {
        reveal(block_at);
    }
    let len: usize = b.len();
    if len - off < 4 {
        return Err(owned(OUT_OF_BOUNDS));
    }
    if len - off < 68 {
        return Err(owned("F013：索引文件损坏（边界越界）"));
    }
    if len - off < 80 {
        return Err(owned(OUT_OF_BOUNDS));
    }
    let n: u64 = get_be(b, off + 76, 4);
    if n > (len - off - 80) as u64 {
        return Err(owned("F013：索引文件损坏（块表越界）"));
    }
    proof {
        crate::bytes::lemma_pow256_values();
        crate::bytes::lemma_be_value_bound(b@.subrange(off as int, off + 4));
    }
    let p: usize = off + 80 + n as usize;
    let raw = sub_bytes(b, off + 80, p);
    Ok(
        (
            BlockInfo {
                index: get_be(b, off, 4) as u32,
                first: sub_bytes(b, off + 4, off + 36),
                last: sub_bytes(b, off + 36, off + 68),
                count: get_be(b, off + 68, 8),
                name: lossy(raw.as_slice()),
            },
            p,
        ),
    )
}

/// Reads a ledger of the table.
fn rd_ledger(b: &[u8], off: usize) -> (r: Result<(LedgerInfo, usize), String>)
    requires
        off <= b@.len(),
    ensures
        match r {
            Ok((x, end)) => ledger_at(b@, off as int) == Ok::<(SpecLedger, int), Seq<char>>(
                (x@, end as int),
            ) && end <= b@.len() && keyed(x@.blocks),
            Err(e) => ledger_at(b@, off as int) == Err::<(SpecLedger, int), Seq<char>>(e@),
        },
{
    proof {
        reveal(ledger_at);
    }
    let len: usize = b.len();
    if len - off < 8 {
        return Err(owned(OUT_OF_BOUNDS));
    }
    let n: u64 = get_be(b, off, 8);
    let ghost want = blocks_at(b@, off + 8, n as nat);
    let mut blocks: Vec<BlockInfo> = Vec::new();
    let mut p: usize = off + 8;
    let mut i: u64 = 0;
    proof {
        assert(block_models(blocks@) =~= Seq::<SpecBlock>::empty());
        if want is Ok {
            assert(Seq::<SpecBlock>::empty() + want->Ok_0.0 =~= want->Ok_0.0);
        }
    }
    while i < n
        invariant
            i <= n,
            p <= b@.len(),
            want == blocks_at(b@, off + 8, n as nat),
            keyed(block_models(blocks@)),
            off + 8 <= b@.len(),
            n as nat == be_value(b@.subrange(off as int, off + 8)),
            want == (match blocks_at(b@, p as int, (n - i) as nat) {
                Ok((bs, end)) => Ok::<(Seq<SpecBlock>, int), Seq<char>>(
                    (block_models(blocks@) + bs, end),
                ),
                Err(e) => Err(e),
            }),
        decreases n - i,
    {
        let ghost b0 = blocks@;
        match rd_block(b, p) {
            Err(e) => {
                proof {
                    reveal(ledger_at);
                }
                return Err(e);
            },
            Ok((x, end)) => {
                let ghost m = x@;
                blocks.push(x);
                proof {
                    assert(block_models(blocks@) =~= block_models(b0).push(m));
                    match blocks_at(b@, end as int, (n - i - 1) as nat) {
                        Ok((bs, e)) => {
                            assert(block_models(b0) + (seq![m] + bs) =~= block_models(blocks@) + bs);
                        },
                        Err(_) => {},
                    }
                }
                p = end;
            },
        }
        i = i + 1;
    }
    assert(block_models(blocks@) + Seq::<SpecBlock>::empty() =~= block_models(blocks@));
    if len - p < 16 {
        return Err(owned(OUT_OF_BOUNDS));
    }
    let log_bytes: u64 = get_be(b, p, 8);
    let base_bytes: u64 = get_be(b, p + 8, 8);
    Ok((LedgerInfo { blocks, log_bytes, base_bytes }, p + 16))
}

/// Reads the records of files.
fn rd_files(b: &[u8], off: usize, n: u64) -> (r: Result<(Vec<FileEntry>, usize), String>)
    requires
        off <= b@.len(),
    ensures
        match r {
            Ok((x, end)) => files_at(b@, off as int, n as nat) == Ok::<
                (Seq<SpecFile>, int),
                Seq<char>,
            >((file_models(x@), end as int)) && end <= b@.len(),
            Err(e) => files_at(b@, off as int, n as nat) == Err::<(Seq<SpecFile>, int), Seq<char>>(
                e@,
            ),
        },
{
    let ghost want = files_at(b@, off as int, n as nat);
    let mut files: Vec<FileEntry> = Vec::new();
    let mut p: usize = off;
    let mut i: u64 = 0;
    proof {
        assert(file_models(files@) =~= Seq::<SpecFile>::empty());
        if want is Ok {
            assert(Seq::<SpecFile>::empty() + want->Ok_0.0 =~= want->Ok_0.0);
        }
    }
    while i < n
        invariant
            i <= n,
            p <= b@.len(),
            want == files_at(b@, off as int, n as nat),
            want == (match files_at(b@, p as int, (n - i) as nat) {
                Ok((fs, end)) => Ok::<(Seq<SpecFile>, int), Seq<char>>(
                    (file_models(files@) + fs, end),
                ),
                Err(e) => Err(e),
            }),
        decreases n - i,
    {
        let ghost f0 = files@;
        match rd_file_rec(b, p) {
            Err(e) => return Err(e),
            Ok((x, end)) => {
                let ghost m = x@;
                files.push(x);
                proof {
                    assert(file_models(files@) =~= file_models(f0).push(m));
                    match files_at(b@, end as int, (n - i - 1) as nat) {
                        Ok((fs, e)) => {
                            assert(file_models(f0) + (seq![m] + fs) =~= file_models(files@) + fs);
                        },
                        Err(_) => {},
                    }
                }
                p = end;
            },
        }
        i = i + 1;
    }
    assert(file_models(files@) + Seq::<SpecFile>::empty() =~= file_models(files@));
    Ok((files, p))
}

/// Reads a table.
pub fn dec_manifest(b: &[u8]) -> (r: Result<Manifest, String>)
    ensures
        match manifest_of(b@) {
            Ok(m) => r is Ok && r->Ok_0@ == m && keyed_table(m),
            Err(e) => r is Err && r->Err_0@ == e,
        },
{
    let len: usize = b.len();
    let s: usize = fixed_prefix_len();
    proof {
        lemma_header_len();
    }
    if len < s || len - s < 20 {
        return Err(owned(OUT_OF_BOUNDS));
    }
    proof {
        crate::bytes::lemma_pow256_values();
        crate::bytes::lemma_be_value_bound(b@.subrange(s + 8, s + 12));
    }
    let generation: u64 = get_be(b, s, 8);
    let next_file_id: u32 = get_be(b, s + 8, 4) as u32;
    let n: u64 = get_be(b, s + 12, 8);
    let (files, p) = match rd_files(b, s + 20, n) {
        Ok(x) => x,
        Err(e) => return Err(e),
    };
    let (loc, q) = match rd_ledger(b, p) {
        Ok(x) => x,
        Err(e) => return Err(e),
    };
    let (rel, t) = match rd_ledger(b, q) {
        Ok(x) => x,
        Err(e) => return Err(e),
    };
    let (rev, _end) = match rd_ledger(b, t) {
        Ok(x) => x,
        Err(e) => return Err(e),
    };
    Ok(Manifest { generation, next_file_id, files, loc, rel, rev })
}

/// The table of an index: what its file says, or an empty one where it has none.
pub fn read_manifest(data: Option<&[u8]>) -> (r: Result<Manifest, String>)
    ensures
        match data {
            None => r is Ok && r->Ok_0@ == no_manifest(),
            Some(b) => match manifest_of(b@) {
                Ok(m) => r is Ok && r->Ok_0@ == m && keyed_table(m),
                Err(e) => r is Err && r->Err_0@ == e,
            },
        },
{
    match data {
        None => Ok(Manifest::default()),
        Some(b) => dec_manifest(b),
    }
}

// ---------------------------------------------------------------------------
// Reading a table gives back what was written
// ---------------------------------------------------------------------------

/// Whether the lengths of a file's record fit their fields.
pub open spec fn file_fits(f: SpecFile) -> bool {
    encode_utf8(f.path).len() < 0x1_0000_0000
}

/// Whether the lengths of a block's fields are right, or fit.
pub open spec fn block_fits(b: SpecBlock) -> bool {
    b.first.len() == 32 && b.last.len() == 32 && encode_utf8(b.name).len() < 0x1_0000_0000
}

/// Whether a ledger fits the table.
pub open spec fn ledger_fits(l: SpecLedger) -> bool {
    &&& l.blocks.len() < 0x1_0000_0000_0000_0000
    &&& forall|i: int| 0 <= i < l.blocks.len() ==> block_fits(#[trigger] l.blocks[i])
}

/// Whether a table fits its file.
pub open spec fn manifest_fits(m: SpecManifest) -> bool {
    &&& m.files.len() < 0x1_0000_0000_0000_0000
    &&& forall|i: int| 0 <= i < m.files.len() ==> file_fits(#[trigger] m.files[i])
    &&& ledger_fits(m.loc)
    &&& ledger_fits(m.rel)
    &&& ledger_fits(m.rev)
}

pub proof fn lemma_file_at(before: Seq<u8>, f: SpecFile, after: Seq<u8>)
    requires
        file_fits(f),
    ensures
        file_at(before + file_bytes(f) + after, before.len() as int) == Ok::<
            (SpecFile, int),
            Seq<char>,
        >((f, (before.len() + file_bytes(f).len()) as int)),
{
    reveal(file_at);
    reveal(file_bytes);
    let d = before + file_bytes(f) + after;
    let o = before.len() as int;
    let e = encode_utf8(f.path);
    let p = o + 8 + e.len();
    crate::bytes::lemma_pow256_values();
    crate::bytes::lemma_be_len(f.id as nat, 4);
    crate::bytes::lemma_be_len(e.len(), 4);
    crate::bytes::lemma_be_len(f.size as nat, 8);
    crate::bytes::lemma_be_len(i64_bits(f.sec), 8);
    crate::bytes::lemma_be_len(f.nsec as nat, 4);
    crate::bytes::lemma_be_len(f.count as nat, 8);
    crate::bytes::lemma_be_len(f.gen as nat, 8);
    crate::bytes::lemma_be_len(f.cur as nat, 8);
    assert(d.subrange(o, o + 4) =~= be(f.id as nat, 4));
    assert(d.subrange(o + 4, o + 8) =~= be(e.len(), 4));
    assert(d.subrange(o + 8, p) =~= e);
    assert(d.subrange(p, p + 8) =~= be(f.size as nat, 8));
    assert(d.subrange(p + 8, p + 16) =~= be(i64_bits(f.sec), 8));
    assert(d.subrange(p + 16, p + 20) =~= be(f.nsec as nat, 4));
    assert(d.subrange(p + 20, p + 28) =~= be(f.count as nat, 8));
    assert(d.subrange(p + 28, p + 36) =~= be(f.gen as nat, 8));
    assert(d.subrange(p + 36, p + 44) =~= be(f.cur as nat, 8));
    lemma_number(d.subrange(o, o + 4), f.id as nat, 4);
    lemma_number(d.subrange(o + 4, o + 8), e.len(), 4);
    lemma_number(d.subrange(p, p + 8), f.size as nat, 8);
    lemma_number(d.subrange(p + 8, p + 16), i64_bits(f.sec), 8);
    lemma_number(d.subrange(p + 16, p + 20), f.nsec as nat, 4);
    lemma_number(d.subrange(p + 20, p + 28), f.count as nat, 8);
    lemma_number(d.subrange(p + 28, p + 36), f.gen as nat, 8);
    lemma_number(d.subrange(p + 36, p + 44), f.cur as nat, 8);
    vstd::utf8::encode_utf8_valid_utf8(f.path);
    vstd::utf8::encode_utf8_decode_utf8(f.path);
}

proof fn lemma_files_at(before: Seq<u8>, fs: Seq<SpecFile>, after: Seq<u8>)
    requires
        forall|i: int| 0 <= i < fs.len() ==> file_fits(#[trigger] fs[i]),
    ensures
        files_at(before + files_bytes(fs) + after, before.len() as int, fs.len()) == Ok::<
            (Seq<SpecFile>, int),
            Seq<char>,
        >((fs, (before.len() + files_bytes(fs).len()) as int)),
    decreases fs.len(),
{
    if fs.len() > 0 {
        let b = file_bytes(fs[0]);
        let rest = fs.skip(1);
        assert forall|i: int| 0 <= i < rest.len() implies file_fits(#[trigger] rest[i]) by {
            assert(rest[i] == fs[i + 1]);
        }
        lemma_files_at(before + b, rest, after);
        lemma_file_at(before, fs[0], files_bytes(rest) + after);
        assert(before + files_bytes(fs) + after =~= before + b + (files_bytes(rest) + after));
        assert(before + files_bytes(fs) + after =~= (before + b) + files_bytes(rest) + after);
        assert(seq![fs[0]] + rest =~= fs);
    } else {
        assert(fs =~= Seq::<SpecFile>::empty());
    }
}

proof fn lemma_block_at(before: Seq<u8>, b: SpecBlock, after: Seq<u8>)
    requires
        block_fits(b),
    ensures
        block_at(before + block_bytes(b) + after, before.len() as int) == Ok::<
            (SpecBlock, int),
            Seq<char>,
        >((b, (before.len() + block_bytes(b).len()) as int)),
{
    reveal(block_at);
    reveal(block_bytes);
    let d = before + block_bytes(b) + after;
    let o = before.len() as int;
    let e = encode_utf8(b.name);
    crate::bytes::lemma_pow256_values();
    crate::bytes::lemma_be_len(b.index as nat, 4);
    crate::bytes::lemma_be_len(b.count as nat, 8);
    crate::bytes::lemma_be_len(e.len(), 4);
    assert(d.subrange(o, o + 4) =~= be(b.index as nat, 4));
    assert(d.subrange(o + 4, o + 36) =~= b.first);
    assert(d.subrange(o + 36, o + 68) =~= b.last);
    assert(d.subrange(o + 68, o + 76) =~= be(b.count as nat, 8));
    assert(d.subrange(o + 76, o + 80) =~= be(e.len(), 4));
    assert(d.subrange(o + 80, o + 80 + e.len()) =~= e);
    lemma_number(d.subrange(o, o + 4), b.index as nat, 4);
    lemma_number(d.subrange(o + 68, o + 76), b.count as nat, 8);
    lemma_number(d.subrange(o + 76, o + 80), e.len(), 4);
    vstd::utf8::encode_utf8_valid_utf8(b.name);
    vstd::utf8::encode_utf8_decode_utf8(b.name);
}

proof fn lemma_blocks_at(before: Seq<u8>, bs: Seq<SpecBlock>, after: Seq<u8>)
    requires
        forall|i: int| 0 <= i < bs.len() ==> block_fits(#[trigger] bs[i]),
    ensures
        blocks_at(before + blocks_bytes(bs) + after, before.len() as int, bs.len()) == Ok::<
            (Seq<SpecBlock>, int),
            Seq<char>,
        >((bs, (before.len() + blocks_bytes(bs).len()) as int)),
    decreases bs.len(),
{
    if bs.len() > 0 {
        let b = block_bytes(bs[0]);
        let rest = bs.skip(1);
        assert forall|i: int| 0 <= i < rest.len() implies block_fits(#[trigger] rest[i]) by {
            assert(rest[i] == bs[i + 1]);
        }
        lemma_blocks_at(before + b, rest, after);
        lemma_block_at(before, bs[0], blocks_bytes(rest) + after);
        assert(before + blocks_bytes(bs) + after =~= before + b + (blocks_bytes(rest) + after));
        assert(before + blocks_bytes(bs) + after =~= (before + b) + blocks_bytes(rest) + after);
        assert(seq![bs[0]] + rest =~= bs);
    } else {
        assert(bs =~= Seq::<SpecBlock>::empty());
    }
}

proof fn lemma_ledger_at(before: Seq<u8>, l: SpecLedger, after: Seq<u8>)
    requires
        ledger_fits(l),
    ensures
        ledger_at(before + ledger_bytes(l) + after, before.len() as int) == Ok::<
            (SpecLedger, int),
            Seq<char>,
        >((l, (before.len() + ledger_bytes(l).len()) as int)),
{
    reveal(ledger_at);
    reveal(ledger_bytes);
    let d = before + ledger_bytes(l) + after;
    let o = before.len() as int;
    let n = be(l.blocks.len(), 8);
    let tail = be(l.log_bytes as nat, 8) + be(l.base_bytes as nat, 8);
    crate::bytes::lemma_pow256_values();
    crate::bytes::lemma_be_len(l.blocks.len(), 8);
    crate::bytes::lemma_be_len(l.log_bytes as nat, 8);
    crate::bytes::lemma_be_len(l.base_bytes as nat, 8);
    assert(d.subrange(o, o + 8) =~= n);
    lemma_number(d.subrange(o, o + 8), l.blocks.len(), 8);
    lemma_blocks_at(before + n, l.blocks, tail + after);
    assert(d =~= (before + n) + blocks_bytes(l.blocks) + (tail + after));
    let q = o + 8 + blocks_bytes(l.blocks).len();
    assert(d.subrange(q, q + 8) =~= be(l.log_bytes as nat, 8));
    assert(d.subrange(q + 8, q + 16) =~= be(l.base_bytes as nat, 8));
    lemma_number(d.subrange(q, q + 8), l.log_bytes as nat, 8);
    lemma_number(d.subrange(q + 8, q + 16), l.base_bytes as nat, 8);
}

/// Reading a table gives back what was written.
pub proof fn manifest_round_trip(m: SpecManifest)
    requires
        manifest_fits(m),
    ensures
        manifest_of(manifest_bytes(m)) == Ok::<SpecManifest, Seq<char>>(m),
{
    let d = manifest_bytes(m);
    let pre = prefix(0, Part::Table);
    let s = prefix_len();
    let g = be(m.generation as nat, 8);
    let x = be(m.next_id as nat, 4);
    let c = be(m.files.len(), 8);
    let fb = files_bytes(m.files);
    let a = ledger_bytes(m.loc);
    let b = ledger_bytes(m.rel);
    let e = ledger_bytes(m.rev);
    written_prefix_is_read(0, Part::Table, Seq::<u8>::empty());
    crate::bytes::lemma_pow256_values();
    crate::bytes::lemma_be_len(m.generation as nat, 8);
    crate::bytes::lemma_be_len(m.next_id as nat, 4);
    crate::bytes::lemma_be_len(m.files.len(), 8);
    assert(d.subrange(s, s + 8) =~= g);
    assert(d.subrange(s + 8, s + 12) =~= x);
    assert(d.subrange(s + 12, s + 20) =~= c);
    lemma_number(d.subrange(s, s + 8), m.generation as nat, 8);
    lemma_number(d.subrange(s + 8, s + 12), m.next_id as nat, 4);
    lemma_number(d.subrange(s + 12, s + 20), m.files.len(), 8);
    let f0 = pre + g + x + c;
    assert(d =~= f0 + fb + (a + b + e));
    lemma_files_at(f0, m.files, a + b + e);
    assert(d =~= (f0 + fb) + a + (b + e));
    lemma_ledger_at(f0 + fb, m.loc, b + e);
    assert(d =~= (f0 + fb + a) + b + e);
    lemma_ledger_at(f0 + fb + a, m.rel, e);
    assert(d =~= (f0 + fb + a + b) + e + Seq::<u8>::empty());
    lemma_ledger_at(f0 + fb + a + b, m.rev, Seq::<u8>::empty());
}

// ---------------------------------------------------------------------------
// The entries of a file
// ---------------------------------------------------------------------------

/// The entries of one file in the three ledgers.
#[derive(Debug)]
pub struct FileEntries {
    pub loc: Vec<LocEntry>,
    pub rel: Vec<RelEntry>,
    pub rev: Vec<RevEntry>,
}

impl FileEntries {
    /// How many entries there are.
    pub fn len(&self) -> (r: usize)
        requires
            self.loc@.len() + self.rel@.len() + self.rev@.len() <= usize::MAX,
        ensures
            r == self.loc@.len() + self.rel@.len() + self.rev@.len(),
    {
        self.loc.len() + self.rel.len() + self.rev.len()
    }

    /// Whether there are none.
    pub fn is_empty(&self) -> (r: bool)
        ensures
            r == (self.loc@.len() + self.rel@.len() + self.rev@.len() == 0),
    {
        self.loc.len() == 0 && self.rel.len() == 0 && self.rev.len() == 0
    }

    /// The bytes of the entries of a ledger.
    pub open spec fn ledger(&self, kind: Ledger) -> Seq<Seq<u8>> {
        match kind {
            Ledger::Loc => Seq::new(self.loc@.len(), |i: int| loc_bytes(self.loc@[i])),
            Ledger::Rel => Seq::new(self.rel@.len(), |i: int| rel_bytes(self.rel@[i])),
            Ledger::Rev => Seq::new(self.rev@.len(), |i: int| rev_bytes(self.rev@[i])),
        }
    }

    /// The bytes of the entries of a ledger.
    pub fn bytes(&self, kind: Ledger) -> (r: Vec<Vec<u8>>)
        ensures
            key_views(r@) == self.ledger(kind),
    {
        let mut out: Vec<Vec<u8>> = Vec::new();
        let n: usize = match kind {
            Ledger::Loc => self.loc.len(),
            Ledger::Rel => self.rel.len(),
            Ledger::Rev => self.rev.len(),
        };
        let mut i: usize = 0;
        while i < n
            invariant
                i <= n,
                n == self.ledger(kind).len(),
                out@.len() == i,
                forall|k: int| 0 <= k < i ==> (#[trigger] out@[k])@ == self.ledger(kind)[k],
            decreases n - i,
        {
            let e = match kind {
                Ledger::Loc => enc_loc(&self.loc[i]),
                Ledger::Rel => enc_rel(&self.rel[i]),
                Ledger::Rev => enc_rev(&self.rev[i]),
            };
            out.push(e);
            i = i + 1;
        }
        assert(key_views(out@) =~= self.ledger(kind));
        out
    }
}

/// Where the nodes of an index are.
pub open spec fn index_locs(idx: NodeIndex, fid: u32) -> Seq<LocEntry> {
    Seq::new(
        idx.assign.order().len(),
        |k: int|
            LocEntry {
                uuid: idx.assign.order()[k],
                file_id: fid,
                off: place(idx, all_children(idx), idx.assign.order()[k]).0,
                len: place(idx, all_children(idx), idx.assign.order()[k]).1,
                root: idx.assign@[idx.assign.order()[k]],
            },
    )
}

/// The root of the tree of a parent; the parent itself where it has none.
pub open spec fn tree_of_parent(idx: NodeIndex, p: Uuid) -> Uuid {
    if idx.assign@.contains_key(p) {
        idx.assign@[p]
    } else {
        p
    }
}

/// What is below the nodes of an index.
pub open spec fn index_rels(idx: NodeIndex, fid: u32) -> Seq<RelEntry> {
    Seq::new(
        all_children(idx).len(),
        |k: int|
            RelEntry {
                root: tree_of_parent(idx, all_children(idx)[k].0),
                parent: all_children(idx)[k].0,
                child: all_children(idx)[k].1.0,
                file_id: fid,
                off: all_children(idx)[k].1.1,
                len: all_children(idx)[k].1.2,
            },
    )
}

/// Who refers to the first `k` targets of an index.
pub open spec fn index_revs(idx: NodeIndex, fid: u32, k: nat) -> Seq<RevEntry>
    decreases k,
{
    if k == 0 {
        Seq::<RevEntry>::empty()
    } else {
        index_revs(idx, fid, (k - 1) as nat) + revs_to(
            idx.reverse.order()[k - 1],
            idx.reverse@[idx.reverse.order()[k - 1]]@,
            fid,
        )
    }
}

/// Who refers to one target.
pub open spec fn revs_to(t: Uuid, srcs: Seq<Uuid>, fid: u32) -> Seq<RevEntry> {
    Seq::new(srcs.len(), |j: int| RevEntry { target: t, source: srcs[j], file_id: fid })
}

/// The keys by which entries of a file are sorted.
pub open spec fn loc_keys(s: Seq<LocEntry>) -> Seq<Seq<u8>> {
    Seq::new(s.len(), |i: int| s[i].uuid.0@)
}

pub open spec fn rel_keys(s: Seq<RelEntry>) -> Seq<Seq<u8>> {
    Seq::new(s.len(), |i: int| s[i].root.0@ + s[i].parent.0@ + s[i].child.0@)
}

pub open spec fn rev_keys(s: Seq<RevEntry>) -> Seq<Seq<u8>> {
    Seq::new(s.len(), |i: int| s[i].target.0@ + s[i].source.0@)
}

/// Whether entries are those of an index, sorted.
pub open spec fn lists_index(e: FileEntries, idx: NodeIndex, fid: u32) -> bool {
    let revs = index_revs(idx, fid, idx.reverse.order().len());
    &&& e.loc@ == sorted(index_locs(idx, fid), loc_keys(index_locs(idx, fid)))
    &&& e.rel@ == sorted(index_rels(idx, fid), rel_keys(index_rels(idx, fid)))
    &&& e.rev@ == sorted(revs, rev_keys(revs))
}

/// Lists who refers to whom.
fn list_revs(idx: &NodeIndex, fid: u32) -> (r: Vec<RevEntry>)
    requires
        idx.wf(),
    ensures
        r@ == index_revs(*idx, fid, idx.reverse.order().len()),
{
    let ids = idx.reverse.ids();
    let mut out: Vec<RevEntry> = Vec::new();
    let mut i: usize = 0;
    while i < ids.len()
        invariant
            i <= ids@.len(),
            ids@ == idx.reverse.order(),
            idx.wf(),
            out@ == index_revs(*idx, fid, i as nat),
        decreases ids@.len() - i,
    {
        let id = ids[i];
        assert(idx.reverse.order().contains(ids@[i as int]));
        assert(idx.reverse@.contains_key(id));
        let ghost before = out@;
        if let Some(list) = idx.reverse.get(id) {
            let mut j: usize = 0;
            assert(before + revs_to(id, list@, fid).take(0) =~= before);
            while j < list.len()
                invariant
                    j <= list@.len(),
                    out@ == before + revs_to(id, list@, fid).take(j as int),
                decreases list@.len() - j,
            {
                out.push(RevEntry { target: id, source: list[j], file_id: fid });
                assert(revs_to(id, list@, fid).take(j + 1) =~= revs_to(id, list@, fid).take(
                    j as int,
                ).push(revs_to(id, list@, fid)[j as int]));
                j = j + 1;
            }
            assert(revs_to(id, list@, fid).take(list@.len() as int) =~= revs_to(id, list@, fid));
        }
        i = i + 1;
    }
    out
}

/// Lists where the nodes are.
fn list_locs(idx: &NodeIndex, cs: &Vec<(Uuid, (Uuid, u64, u64))>, fid: u32) -> (r: Vec<LocEntry>)
    requires
        idx.wf(),
        cs@ == all_children(*idx),
    ensures
        r@ == index_locs(*idx, fid),
{
    let places = crate::index::locate_children(cs);
    let ids = idx.assign.ids();
    let mut out: Vec<LocEntry> = Vec::new();
    let mut i: usize = 0;
    while i < ids.len()
        invariant
            i <= ids@.len(),
            ids@ == idx.assign.order(),
            idx.wf(),
            cs@ == all_children(*idx),
            forall|idx: NodeIndex, id: Uuid| #[trigger]
                place(idx, cs@, id) == (if places@.contains_key(id) {
                    places@[id]
                } else if idx.roots@.contains_key(id) {
                    idx.roots@[id]
                } else {
                    (0u64, 0u64)
                }),
            out@.len() == i,
            forall|k: int| 0 <= k < i ==> #[trigger] out@[k] == index_locs(*idx, fid)[k],
        decreases ids@.len() - i,
    {
        let id = ids[i];
        assert(idx.assign.order().contains(ids@[i as int]));
        assert(idx.assign@.contains_key(id));
        assert(place(*idx, cs@, id) == place(*idx, all_children(*idx), id));
        let at: (u64, u64) = match places.get(id) {
            Some(at) => *at,
            None => match idx.roots.get(id) {
                Some(at) => *at,
                None => (0, 0),
            },
        };
        let root = match idx.assign.get(id) {
            Some(r) => *r,
            None => id,
        };
        out.push(LocEntry { uuid: id, file_id: fid, off: at.0, len: at.1, root });
        i = i + 1;
    }
    assert(out@ =~= index_locs(*idx, fid));
    out
}

/// Lists what is below the nodes.
fn list_rels(idx: &NodeIndex, cs: &Vec<(Uuid, (Uuid, u64, u64))>, fid: u32) -> (r: Vec<RelEntry>)
    requires
        cs@ == all_children(*idx),
    ensures
        r@ == index_rels(*idx, fid),
{
    let mut out: Vec<RelEntry> = Vec::new();
    let mut i: usize = 0;
    while i < cs.len()
        invariant
            i <= cs@.len(),
            cs@ == all_children(*idx),
            out@.len() == i,
            forall|k: int| 0 <= k < i ==> #[trigger] out@[k] == index_rels(*idx, fid)[k],
        decreases cs@.len() - i,
    {
        let c = cs[i];
        let root = match idx.assign.get(c.0) {
            Some(r) => *r,
            None => c.0,
        };
        out.push(
            RelEntry { root, parent: c.0, child: c.1.0, file_id: fid, off: c.1.1, len: c.1.2 },
        );
        i = i + 1;
    }
    assert(out@ =~= index_rels(*idx, fid));
    out
}

/// The entries of an index.
pub fn entries_of(idx: &NodeIndex, file_id: u32) -> (r: FileEntries)
    requires
        idx.wf(),
    ensures
        lists_index(r, *idx, file_id),
{
    let cs = crate::index::list_children(idx);
    let locs = list_locs(idx, &cs, file_id);
    let rels = list_rels(idx, &cs, file_id);
    let revs = list_revs(idx, file_id);
    let mut lk: Vec<Vec<u8>> = Vec::new();
    let mut i: usize = 0;
    while i < locs.len()
        invariant
            i <= locs@.len(),
            lk@.len() == i,
            forall|k: int| 0 <= k < i ==> (#[trigger] lk@[k])@ == loc_keys(locs@)[k],
        decreases locs@.len() - i,
    {
        let key = sub_bytes(locs[i].uuid.0.as_slice(), 0, 16);
        assert(key@ =~= loc_keys(locs@)[i as int]);
        lk.push(key);
        i = i + 1;
    }
    assert(key_views(lk@) =~= loc_keys(locs@));
    let mut rk: Vec<Vec<u8>> = Vec::new();
    let mut j: usize = 0;
    while j < rels.len()
        invariant
            j <= rels@.len(),
            rk@.len() == j,
            forall|k: int| 0 <= k < j ==> (#[trigger] rk@[k])@ == rel_keys(rels@)[k],
        decreases rels@.len() - j,
    {
        let mut key = sub_bytes(rels[j].root.0.as_slice(), 0, 16);
        put_slice(&mut key, rels[j].parent.0.as_slice());
        put_slice(&mut key, rels[j].child.0.as_slice());
        assert(key@ =~= rel_keys(rels@)[j as int]);
        rk.push(key);
        j = j + 1;
    }
    assert(key_views(rk@) =~= rel_keys(rels@));
    let mut vk: Vec<Vec<u8>> = Vec::new();
    let mut n: usize = 0;
    while n < revs.len()
        invariant
            n <= revs@.len(),
            vk@.len() == n,
            forall|k: int| 0 <= k < n ==> (#[trigger] vk@[k])@ == rev_keys(revs@)[k],
        decreases revs@.len() - n,
    {
        let mut key = sub_bytes(revs[n].target.0.as_slice(), 0, 16);
        put_slice(&mut key, revs[n].source.0.as_slice());
        assert(key@ =~= rev_keys(revs@)[n as int]);
        vk.push(key);
        n = n + 1;
    }
    assert(key_views(vk@) =~= rev_keys(revs@));
    FileEntries {
        loc: crate::sort::sort_by_keys(&locs, &lk),
        rel: crate::sort::sort_by_keys(&rels, &rk),
        rev: crate::sort::sort_by_keys(&revs, &vk),
    }
}

/// Whether entries are those of a file with the nodes.
pub open spec fn lists_file(e: FileEntries, recs: Seq<crate::index::SpecRec>, fid: u32) -> bool {
    exists|idx: NodeIndex| #[trigger] indexes(idx, recs) && lists_index(e, idx, fid)
}

/// The entries of a file, of which these are the bytes.
pub fn scan_file(data: &[u8], file_id: u32) -> (r: Result<FileEntries, String>)
    ensures
        match file_recs_of(data@) {
            Err(e) => r is Err && r->Err_0@ == e,
            Ok(recs) => r is Ok && lists_file(r->Ok_0, recs, file_id),
        },
{
    match build(data) {
        Err(e) => Err(e),
        Ok(idx) => {
            let r = entries_of(&idx, file_id);
            assert(indexes(idx, file_recs_of(data@)->Ok_0));
            Ok(r)
        },
    }
}

// ---------------------------------------------------------------------------
// Blocks
// ---------------------------------------------------------------------------

/// A number in four digits or more.
pub open spec fn four_digits(n: nat) -> Seq<char> {
    let d = decimal(n);
    if d.len() >= 4 {
        d
    } else if d.len() == 3 {
        "0"@ + d
    } else if d.len() == 2 {
        "00"@ + d
    } else {
        "000"@ + d
    }
}

/// A number in four digits or more.
fn four_digits_text(n: u64) -> (r: String)
    ensures
        r@ == four_digits(n as nat),
{
    let d = decimal_text(n);
    let len: usize = crate::text::chars_of(d.as_str()).len();
    if len >= 4 {
        d
    } else if len == 3 {
        join2("0", d.as_str())
    } else if len == 2 {
        join2("00", d.as_str())
    } else {
        join2("000", d.as_str())
    }
}

/// The name of the file of a block.
pub open spec fn block_name(kind: Ledger, generation: u64, i: nat) -> Seq<char> {
    kind.text() + "-g"@ + decimal(generation as nat) + ("-"@ + four_digits(i) + ".blk"@)
}

/// The name of the file of a block.
pub fn block_file_name(kind: Ledger, generation: u64, i: u64) -> (r: String)
    ensures
        r@ == block_name(kind, generation, i as nat),
{
    let g = decimal_text(generation);
    let front = join3(kind.name(), "-g", g.as_str());
    let d = four_digits_text(i);
    let back = join3("-", d.as_str(), ".blk");
    join2(front.as_str(), back.as_str())
}

/// The name of the log of a ledger.
pub fn log_file_name(kind: Ledger) -> (r: String)
    ensures
        r@ == kind.text() + ".log"@,
{
    join2(kind.name(), ".log")
}

/// Entries in runs of `b`, the last of which may be shorter.
pub open spec fn chunks(es: Seq<Seq<u8>>, b: nat) -> Seq<Seq<Seq<u8>>>
    decreases es.len(),
{
    if es.len() == 0 || b == 0 {
        Seq::<Seq<Seq<u8>>>::empty()
    } else if es.len() <= b {
        seq![es]
    } else {
        seq![es.take(b as int)] + chunks(es.skip(b as int), b)
    }
}

/// The bytes of the file of a block.
pub open spec fn block_data(kind: Ledger, c: Seq<Seq<u8>>) -> Seq<u8> {
    prefix(kind.code(), Part::Block) + be(c.len(), 8) + flat(c)
}

/// What the table says of a block.
pub open spec fn block_info(kind: Ledger, generation: u64, i: nat, c: Seq<Seq<u8>>) -> SpecBlock {
    SpecBlock {
        index: (i % 0x1_0000_0000) as u32,
        first: c[0].take(32),
        last: c.last().take(32),
        count: c.len() as u64,
        name: block_name(kind, generation, i % 0x1_0000_0000),
    }
}

/// Whether `infos` and `files` are the blocks of a ledger with the entries.
pub open spec fn are_blocks(
    kind: Ledger,
    generation: u64,
    es: Seq<Seq<u8>>,
    infos: Seq<SpecBlock>,
    files: Seq<(String, Vec<u8>)>,
) -> bool {
    let cs = chunks(es, BLOCK_ENTRIES as nat);
    &&& infos.len() == cs.len()
    &&& files.len() == cs.len()
    &&& forall|i: int|
        0 <= i < cs.len() ==> #[trigger] infos[i] == block_info(kind, generation, i as nat, cs[i])
    &&& forall|i: int|
        0 <= i < cs.len() ==> (#[trigger] files[i]).0@ == block_name(
            kind,
            generation,
            (i % 0x1_0000_0000) as nat,
        ) && files[i].1@ == block_data(kind, cs[i])
}

/// The bytes of the files of blocks, summed.
pub open spec fn sum_bytes(files: Seq<(String, Vec<u8>)>) -> int
    decreases files.len(),
{
    if files.len() == 0 {
        0
    } else {
        sum_bytes(files.drop_last()) + files.last().1@.len()
    }
}

/// The blocks of a ledger with the entries, which are sorted: what the table says
/// of them, and their files.
pub fn write_blocks(kind: Ledger, generation: u64, entries: &Vec<Vec<u8>>) -> (r: (
    LedgerInfo,
    Vec<(String, Vec<u8>)>,
))
    requires
        entries@.len() < 0x1_0000_0000_0000,
        forall|i: int| 0 <= i < entries@.len() ==> (#[trigger] entries@[i])@.len() == kind.size(),
    ensures
        are_blocks(kind, generation, key_views(entries@), r.0@.blocks, r.1@),
        r.0.log_bytes == 0,
        r.0.base_bytes == sum_bytes(r.1@),
{
    let ghost es = key_views(entries@);
    let ghost cs = chunks(es, BLOCK_ENTRIES as nat);
    let mut infos: Vec<BlockInfo> = Vec::new();
    let mut files: Vec<(String, Vec<u8>)> = Vec::new();
    let mut base: u64 = 0;
    let mut start: usize = 0;
    let mut i: u64 = 0;
    let n: usize = entries.len();
    proof {
        assert(es.skip(0) =~= es);
        assert(Seq::<Seq<Seq<u8>>>::empty() + cs =~= cs);
        assert(cs.take(0) =~= Seq::<Seq<Seq<u8>>>::empty());
        lemma_header_len();
        crate::bytes::lemma_be_len(encode_utf8(HEADER@).len(), 4);
    }
    while start < n
        invariant
            start <= n,
            n == entries@.len(),
            n < 0x1_0000_0000_0000,
            es == key_views(entries@),
            cs == chunks(es, BLOCK_ENTRIES as nat),
            forall|k: int| 0 <= k < n ==> (#[trigger] entries@[k])@.len() == kind.size(),
            infos@.len() == i,
            files@.len() == i,
            i <= start,
            i <= cs.len(),
            prefix_len() < 0x1_0100,
            cs == cs.take(i as int) + chunks(es.skip(start as int), BLOCK_ENTRIES as nat),
            forall|k: int|
                0 <= k < i ==> (#[trigger] infos@[k])@ == block_info(
                    kind,
                    generation,
                    k as nat,
                    cs[k],
                ),
            forall|k: int|
                0 <= k < i ==> (#[trigger] files@[k]).0@ == block_name(
                    kind,
                    generation,
                    (k % 0x1_0000_0000) as nat,
                ) && files@[k].1@ == block_data(kind, cs[k]),
            base == sum_bytes(files@),
            start == i * 1_000_000 || start == n,
            i * 1_000_000 <= start + 999_999,
            base <= start * 68 + i * 0x2_0000,
        decreases n - start,
    {
        let left: usize = n - start;
        let size: usize = if left < BLOCK_ENTRIES {
            left
        } else {
            BLOCK_ENTRIES
        };
        let end: usize = start + size;
        let ghost rest = es.skip(start as int);
        let ghost c = es.subrange(start as int, end as int);
        proof {
            assert(rest.take(size as int) =~= c);
            assert(rest.skip(size as int) =~= es.skip(end as int));
            if rest.len() <= BLOCK_ENTRIES {
                assert(c =~= rest);
                assert(es.skip(end as int) =~= Seq::<Seq<u8>>::empty());
                assert(chunks(rest, BLOCK_ENTRIES as nat) =~= seq![c] + chunks(
                    es.skip(end as int),
                    BLOCK_ENTRIES as nat,
                ));
            }
            assert(cs[i as int] == c);
            assert(cs.take(i + 1) =~= cs.take(i as int).push(c));
            assert(cs =~= cs.take(i + 1) + chunks(es.skip(end as int), BLOCK_ENTRIES as nat));
        }
        let mut o: Vec<u8> = Vec::new();
        write_prefix(&mut o, kind.byte(), Part::Block);
        put_be(&mut o, size as u64, 8);
        let ghost front = o@;
        let mut k: usize = start;
        assert(c.take(0) =~= Seq::<Seq<u8>>::empty());
        assert(front + flat(c.take(0)) =~= front);
        while k < end
            invariant
                start <= k <= end,
                end <= n,
                n == entries@.len(),
                es == key_views(entries@),
                c == es.subrange(start as int, end as int),
                o@ == front + flat(c.take(k - start)),
            decreases end - k,
        {
            put_slice(&mut o, entries[k].as_slice());
            proof {
                assert(c.take(k + 1 - start).drop_last() =~= c.take(k - start));
                assert(c.take(k + 1 - start).last() == entries@[k as int]@);
                assert(o@ =~= front + flat(c.take(k + 1 - start)));
            }
            k = k + 1;
        }
        proof {
            assert(c.take(end - start) =~= c);
            assert(o@ =~= block_data(kind, c));
            assert forall|x: int| 0 <= x < c.len() implies (#[trigger] c[x]).len()
                == kind.size() as nat by {
                assert(entries@[start + x]@.len() == kind.size());
            }
            crate::search::lemma_flat_len(c, kind.size() as nat);
            crate::bytes::lemma_be_len(encode_utf8(HEADER@).len(), 4);
            crate::bytes::lemma_be_len(c.len(), 8);
            let z = c.len() as int;
            let w = kind.size();
            assert(z * w <= z * 68) by (nonlinear_arith)
                requires
                    w <= 68,
                    z >= 0,
            ;
            assert(entries@[start as int]@.len() == kind.size());
            assert(entries@[end - 1]@.len() == kind.size());
            assert(c[0] == entries@[start as int]@);
            assert(c.last() == entries@[end - 1]@);
        }
        let first = sub_bytes(entries[start].as_slice(), 0, 32);
        let last = sub_bytes(entries[end - 1].as_slice(), 0, 32);
        let num: u64 = i % 0x1_0000_0000;
        let name = block_file_name(kind, generation, num);
        proof {
            assert(first@ =~= c[0].take(32));
            assert(last@ =~= c.last().take(32));
        }
        base = base + o.len() as u64;
        let ghost f0 = files@;
        infos.push(
            BlockInfo { index: num as u32, first, last, count: size as u64, name: name.clone() },
        );
        files.push((name, o));
        assert(files@.drop_last() =~= f0);
        start = end;
        i = i + 1;
    }
    proof {
        assert(es.skip(n as int) =~= Seq::<Seq<u8>>::empty());
        assert(cs =~= cs.take(i as int));
    }
    let info = LedgerInfo { blocks: infos, log_bytes: 0, base_bytes: base };
    (info, files)
}

// ---------------------------------------------------------------------------
// Looking into blocks
// ---------------------------------------------------------------------------

/// The message where a block is not as it should be.
pub const NO_BLOCK: &'static str = "F012：索引块缺失";

/// How many entries a block says it has.
pub open spec fn block_count(d: Seq<u8>) -> nat {
    be_value(d.subrange(prefix_len(), prefix_len() + 8))
}

/// Why a block cannot be opened, if so.
pub open spec fn block_fault(d: Seq<u8>, kind: Ledger) -> Option<Seq<char>> {
    match prefix_fault(d, kind.code(), Part::Block) {
        Some(e) => Some(e),
        None => if d.len() < prefix_len() + 8 {
            Some(NO_BLOCK@)
        } else {
            None
        },
    }
}

/// An entry of a block; `None` where the file ends before it does.
pub open spec fn block_entry(d: Seq<u8>, size: int, i: int) -> Option<Seq<u8>> {
    let o = prefix_len() + 8 + i * size;
    if o + size <= d.len() {
        Some(d.subrange(o, o + size))
    } else {
        None
    }
}

/// The first entry from `lo` up to `hi` that does not come before the key, as
/// halving finds it.
pub open spec fn block_bound(d: Seq<u8>, size: int, key: Seq<u8>, lo: int, hi: int) -> Option<int>
    decreases hi - lo,
{
    if lo >= hi {
        Some(lo)
    } else {
        let mid = lo + (hi - lo) / 2;
        match block_entry(d, size, mid) {
            None => None,
            Some(e) => if bytes_lt(e.take(key.len() as int), key) {
                block_bound(d, size, key, mid + 1, hi)
            } else {
                block_bound(d, size, key, lo, mid)
            },
        }
    }
}

/// The entries that start with the key from entry `i` on, up to one that comes
/// behind it; and whether there was one.
pub open spec fn block_gather(d: Seq<u8>, size: int, key: Seq<u8>, i: int, n: int) -> Option<
    (Seq<Seq<u8>>, bool),
>
    decreases n - i,
{
    if i >= n {
        Some((Seq::<Seq<u8>>::empty(), false))
    } else {
        match block_entry(d, size, i) {
            None => None,
            Some(e) => {
                let p = e.take(key.len() as int);
                if bytes_lt(key, p) {
                    Some((Seq::<Seq<u8>>::empty(), true))
                } else {
                    match block_gather(d, size, key, i + 1, n) {
                        None => None,
                        Some((r, stop)) => if p == key {
                            Some((seq![e] + r, stop))
                        } else {
                            Some((r, stop))
                        },
                    }
                }
            },
        }
    }
}

/// What one block gives for a key.
pub open spec fn block_matches(d: Seq<u8>, kind: Ledger, key: Seq<u8>) -> Result<
    (Seq<Seq<u8>>, bool),
    Seq<char>,
> {
    match block_fault(d, kind) {
        Some(e) => Err(e),
        None => match block_bound(d, kind.size(), key, 0, block_count(d) as int) {
            None => Err(NO_BLOCK@),
            Some(lo) => match block_gather(d, kind.size(), key, lo, block_count(d) as int) {
                None => Err(NO_BLOCK@),
                Some(r) => Ok(r),
            },
        },
    }
}

/// The first block from `lo` up to `hi` whose last entry does not come before the
/// key, as halving finds it.
pub open spec fn first_candidate(bs: Seq<SpecBlock>, key: Seq<u8>, lo: int, hi: int) -> int
    decreases hi - lo,
{
    if lo >= hi {
        lo
    } else {
        let mid = lo + (hi - lo) / 2;
        if bytes_lt(bs[mid].last.take(key.len() as int), key) {
            first_candidate(bs, key, mid + 1, hi)
        } else {
            first_candidate(bs, key, lo, mid)
        }
    }
}

/// What the blocks from `j` on give for a key, up to one that starts behind it.
pub open spec fn matches_from(
    bs: Seq<SpecBlock>,
    ds: Seq<Seq<u8>>,
    kind: Ledger,
    key: Seq<u8>,
    j: int,
) -> Result<Seq<Seq<u8>>, Seq<char>>
    decreases bs.len() - j,
{
    if j >= bs.len() || bytes_lt(key, bs[j].first.take(key.len() as int)) {
        Ok(Seq::<Seq<u8>>::empty())
    } else {
        match block_matches(ds[j], kind, key) {
            Err(e) => Err(e),
            Ok((r, stop)) => if stop {
                Ok(r)
            } else {
                match matches_from(bs, ds, kind, key, j + 1) {
                    Err(e) => Err(e),
                    Ok(more) => Ok(r + more),
                }
            },
        }
    }
}

/// What the blocks of a ledger give for a key.
pub open spec fn ledger_matches(
    bs: Seq<SpecBlock>,
    ds: Seq<Seq<u8>>,
    kind: Ledger,
    key: Seq<u8>,
) -> Result<Seq<Seq<u8>>, Seq<char>> {
    matches_from(bs, ds, kind, key, first_candidate(bs, key, 0, bs.len() as int))
}

/// Whether the first bytes come before the key.
fn comes_before(a: &[u8], key: &[u8]) -> (r: bool)
    requires
        a@.len() >= key@.len(),
    ensures
        r == bytes_lt(a@.take(key@.len() as int), key@),
{
    let p = sub_bytes(a, 0, key.len());
    assert(p@ =~= a@.take(key@.len() as int));
    bytes_before(p.as_slice(), key) && !crate::bytes::same_bytes(p.as_slice(), key)
}

/// Whether the key comes before the first bytes.
fn goes_behind(a: &[u8], key: &[u8]) -> (r: bool)
    requires
        a@.len() >= key@.len(),
    ensures
        r == bytes_lt(key@, a@.take(key@.len() as int)),
{
    let p = sub_bytes(a, 0, key.len());
    assert(p@ =~= a@.take(key@.len() as int));
    bytes_before(key, p.as_slice()) && !crate::bytes::same_bytes(p.as_slice(), key)
}

/// Reads an entry of a block.
pub fn read_entry(d: &[u8], size: usize, i: u64) -> (r: Option<Vec<u8>>)
    requires
        size <= 68,
    ensures
        match r {
            Some(e) => block_entry(d@, size as int, i as int) == Some(e@) && e@.len() == size,
            None => block_entry(d@, size as int, i as int) is None,
        },
{
    let len: usize = d.len();
    let base: usize = fixed_prefix_len();
    proof {
        lemma_header_len();
        let a = i as int;
        let s = size as int;
        assert(0 <= a * s <= 0xffff_ffff_ffff_ffff * 68) by (nonlinear_arith)
            requires
                0 <= a <= 0xffff_ffff_ffff_ffff,
                0 <= s <= 68,
        ;
    }
    let o: u128 = base as u128 + 8 + i as u128 * size as u128;
    if o + size as u128 > len as u128 {
        return None;
    }
    let p: usize = o as usize;
    Some(sub_bytes(d, p, p + size))
}

/// What one block gives for a key.
fn match_block(d: &[u8], kind: Ledger, key: &[u8]) -> (r: Result<(Vec<Vec<u8>>, bool), String>)
    requires
        key@.len() <= 32,
    ensures
        match r {
            Ok((v, stop)) => block_matches(d@, kind, key@) == Ok::<
                (Seq<Seq<u8>>, bool),
                Seq<char>,
            >((key_views(v@), stop)) && forall|k: int|
                0 <= k < v@.len() ==> (#[trigger] v@[k])@.len() == kind.size(),
            Err(e) => block_matches(d@, kind, key@) == Err::<(Seq<Seq<u8>>, bool), Seq<char>>(e@),
        },
{
    match read_prefix(d, kind.byte(), Part::Block) {
        Err(e) => return Err(e),
        Ok(()) => {},
    }
    let len: usize = d.len();
    let base: usize = fixed_prefix_len();
    proof {
        lemma_header_len();
    }
    if len - base < 8 {
        return Err(owned(NO_BLOCK));
    }
    let n: u64 = get_be(d, base, 8);
    let size: usize = kind.entry_size();
    let mut lo: u64 = 0;
    let mut hi: u64 = n;
    while lo < hi
        invariant
            lo <= hi <= n,
            size == kind.size(),
            36 <= size <= 68,
            key@.len() <= 32,
            block_fault(d@, kind) is None,
            n == block_count(d@),
            block_bound(d@, size as int, key@, 0, n as int) == block_bound(
                d@,
                size as int,
                key@,
                lo as int,
                hi as int,
            ),
        decreases hi - lo,
    {
        let mid: u64 = lo + (hi - lo) / 2;
        let e = match read_entry(d, size, mid) {
            Some(e) => e,
            None => return Err(owned(NO_BLOCK)),
        };
        if comes_before(e.as_slice(), key) {
            lo = mid + 1;
        } else {
            hi = mid;
        }
    }
    let ghost want = block_gather(d@, size as int, key@, lo as int, n as int);
    let mut out: Vec<Vec<u8>> = Vec::new();
    let mut i: u64 = lo;
    proof {
        if want is Some {
            assert(key_views(out@) + want->Some_0.0 =~= want->Some_0.0);
        }
    }
    while i < n
        invariant
            lo <= i <= n,
            size == kind.size(),
            36 <= size <= 68,
            key@.len() <= 32,
            block_fault(d@, kind) is None,
            n == block_count(d@),
            block_bound(d@, size as int, key@, 0, n as int) == Some(lo as int),
            want == block_gather(d@, size as int, key@, lo as int, n as int),
            want == (match block_gather(d@, size as int, key@, i as int, n as int) {
                None => None,
                Some((r, stop)) => Some((key_views(out@) + r, stop)),
            }),
            forall|k: int| 0 <= k < out@.len() ==> (#[trigger] out@[k])@.len() == size,
        decreases n - i,
    {
        let e = match read_entry(d, size, i) {
            Some(e) => e,
            None => return Err(owned(NO_BLOCK)),
        };
        if goes_behind(e.as_slice(), key) {
            assert(key_views(out@) + Seq::<Seq<u8>>::empty() =~= key_views(out@));
            return Ok((out, true));
        }
        let p = sub_bytes(e.as_slice(), 0, key.len());
        assert(p@ =~= e@.take(key@.len() as int));
        let ghost o0 = out@;
        let ghost ev = e@;
        if crate::bytes::same_bytes(p.as_slice(), key) {
            out.push(e);
            proof {
                assert(key_views(out@) =~= key_views(o0).push(ev));
                match block_gather(d@, size as int, key@, i + 1, n as int) {
                    Some((r, stop)) => {
                        assert(key_views(o0) + (seq![ev] + r) =~= key_views(out@) + r);
                    },
                    None => {},
                }
            }
        }
        i = i + 1;
    }
    assert(key_views(out@) + Seq::<Seq<u8>>::empty() =~= key_views(out@));
    Ok((out, false))
}

/// The bytes of files.
pub open spec fn data_views(s: Seq<Vec<u8>>) -> Seq<Seq<u8>> {
    Seq::new(s.len(), |i: int| s[i]@)
}

/// What the blocks of a ledger give for a key.
pub fn collect_match(
    blocks: &Vec<BlockInfo>,
    data: &Vec<Vec<u8>>,
    kind: Ledger,
    key: &[u8],
) -> (r: Result<Vec<Vec<u8>>, String>)
    requires
        blocks@.len() == data@.len(),
        key@.len() <= 32,
        forall|i: int|
            0 <= i < blocks@.len() ==> (#[trigger] blocks@[i]).first@.len() == 32
                && blocks@[i].last@.len() == 32,
    ensures
        match r {
            Ok(v) => ledger_matches(block_models(blocks@), data_views(data@), kind, key@) == Ok::<
                Seq<Seq<u8>>,
                Seq<char>,
            >(key_views(v@)) && forall|k: int|
                0 <= k < v@.len() ==> (#[trigger] v@[k])@.len() == kind.size(),
            Err(e) => ledger_matches(block_models(blocks@), data_views(data@), kind, key@)
                == Err::<Seq<Seq<u8>>, Seq<char>>(e@),
        },
{
    let ghost bs = block_models(blocks@);
    let ghost ds = data_views(data@);
    let mut lo: usize = 0;
    let mut hi: usize = blocks.len();
    while lo < hi
        invariant
            lo <= hi <= blocks@.len(),
            bs == block_models(blocks@),
            key@.len() <= 32,
            forall|i: int|
                0 <= i < blocks@.len() ==> (#[trigger] blocks@[i]).first@.len() == 32
                    && blocks@[i].last@.len() == 32,
            first_candidate(bs, key@, 0, bs.len() as int) == first_candidate(
                bs,
                key@,
                lo as int,
                hi as int,
            ),
        decreases hi - lo,
    {
        let mid: usize = lo + (hi - lo) / 2;
        assert(blocks@[mid as int].last@.len() == 32);
        if comes_before(blocks[mid].last.as_slice(), key) {
            lo = mid + 1;
        } else {
            hi = mid;
        }
    }
    let ghost want = matches_from(bs, ds, kind, key@, lo as int);
    let mut out: Vec<Vec<u8>> = Vec::new();
    let mut j: usize = lo;
    proof {
        if want is Ok {
            assert(key_views(out@) + want->Ok_0 =~= want->Ok_0);
        }
    }
    while j < blocks.len()
        invariant
            lo <= j <= blocks@.len(),
            blocks@.len() == data@.len(),
            bs == block_models(blocks@),
            ds == data_views(data@),
            key@.len() <= 32,
            forall|i: int|
                0 <= i < blocks@.len() ==> (#[trigger] blocks@[i]).first@.len() == 32
                    && blocks@[i].last@.len() == 32,
            first_candidate(bs, key@, 0, bs.len() as int) == lo,
            want == matches_from(bs, ds, kind, key@, lo as int),
            want == (match matches_from(bs, ds, kind, key@, j as int) {
                Ok(r) => Ok::<Seq<Seq<u8>>, Seq<char>>(key_views(out@) + r),
                Err(e) => Err(e),
            }),
            forall|k: int| 0 <= k < out@.len() ==> (#[trigger] out@[k])@.len() == kind.size(),
        decreases blocks@.len() - j,
    {
        assert(blocks@[j as int].first@.len() == 32);
        assert(bs[j as int] == blocks@[j as int]@);
        assert(ds[j as int] == data@[j as int]@);
        if goes_behind(blocks[j].first.as_slice(), key) {
            assert(key_views(out@) + Seq::<Seq<u8>>::empty() =~= key_views(out@));
            return Ok(out);
        }
        let (found, stop) = match match_block(data[j].as_slice(), kind, key) {
            Ok(x) => x,
            Err(e) => return Err(e),
        };
        let ghost o0 = key_views(out@);
        let ghost f = key_views(found@);
        let mut k: usize = 0;
        assert(o0 + f.take(0) =~= o0);
        while k < found.len()
            invariant
                k <= found@.len(),
                f == key_views(found@),
                key_views(out@) == o0 + f.take(k as int),
                forall|x: int| 0 <= x < found@.len() ==> (#[trigger] found@[x])@.len() == kind.size(),
                forall|x: int| 0 <= x < out@.len() ==> (#[trigger] out@[x])@.len() == kind.size(),
            decreases found@.len() - k,
        {
            let ghost o1 = out@;
            let e = sub_bytes(found[k].as_slice(), 0, found[k].len());
            assert(e@ =~= f[k as int]);
            assert(found@[k as int]@.len() == kind.size());
            out.push(e);
            proof {
                assert(key_views(out@) =~= key_views(o1).push(f[k as int]));
                assert(f.take(k + 1) =~= f.take(k as int).push(f[k as int]));
            }
            k = k + 1;
        }
        assert(f.take(f.len() as int) =~= f);
        if stop {
            return Ok(out);
        }
        proof {
            match matches_from(bs, ds, kind, key@, j + 1) {
                Ok(more) => {
                    assert(o0 + (f + more) =~= key_views(out@) + more);
                },
                Err(_) => {},
            }
        }
        j = j + 1;
    }
    assert(key_views(out@) + Seq::<Seq<u8>>::empty() =~= key_views(out@));
    Ok(out)
}

// ---------------------------------------------------------------------------
// A lookup in a ledger finds everything
// ---------------------------------------------------------------------------

/// The entries that start with the key, in order.
pub open spec fn starting_with(es: Seq<Seq<u8>>, key: Seq<u8>) -> Seq<Seq<u8>>
    decreases es.len(),
{
    if es.len() == 0 {
        es
    } else if es[0].take(key.len() as int) == key {
        seq![es[0]] + starting_with(es.skip(1), key)
    } else {
        starting_with(es.skip(1), key)
    }
}

proof fn lemma_starting_none(es: Seq<Seq<u8>>, key: Seq<u8>)
    requires
        forall|i: int| 0 <= i < es.len() ==> (#[trigger] es[i]).take(key.len() as int) != key,
    ensures
        starting_with(es, key) == Seq::<Seq<u8>>::empty(),
    decreases es.len(),
{
    if es.len() > 0 {
        assert(es[0].take(key.len() as int) != key);
        assert forall|i: int| 0 <= i < es.skip(1).len() implies (#[trigger] es.skip(1)[i]).take(
            key.len() as int,
        ) != key by {
            assert(es[i + 1].take(key.len() as int) != key);
        }
        lemma_starting_none(es.skip(1), key);
    } else {
        assert(es =~= Seq::<Seq<u8>>::empty());
    }
}

proof fn lemma_starting_split(a: Seq<Seq<u8>>, b: Seq<Seq<u8>>, key: Seq<u8>)
    ensures
        starting_with(a + b, key) == starting_with(a, key) + starting_with(b, key),
    decreases a.len(),
{
    if a.len() == 0 {
        assert(a + b =~= b);
        assert(starting_with(a, key) =~= Seq::<Seq<u8>>::empty());
        assert(starting_with(a, key) + starting_with(b, key) =~= starting_with(b, key));
    } else {
        lemma_starting_split(a.skip(1), b, key);
        assert((a + b).skip(1) =~= a.skip(1) + b);
        assert((a + b)[0] == a[0]);
        assert(starting_with(a + b, key) =~= starting_with(a, key) + starting_with(b, key));
    }
}

/// Whether entries have the size and do not descend.
pub open spec fn in_sequence(es: Seq<Seq<u8>>, size: int) -> bool {
    &&& forall|i: int| 0 <= i < es.len() ==> (#[trigger] es[i]).len() == size
    &&& forall|i: int, j: int|
        0 <= i < j < es.len() ==> bytes_le(#[trigger] es[i], #[trigger] es[j])
}

proof fn lemma_prefix_le(a: Seq<u8>, b: Seq<u8>, k: int)
    requires
        bytes_le(a, b),
        a.len() == b.len(),
        0 <= k <= a.len(),
    ensures
        bytes_le(a.take(k), b.take(k)),
{
    assert(a =~= a.take(k) + a.skip(k));
    assert(b =~= b.take(k) + b.skip(k));
    crate::sort::lemma_bytes_le_parts(a.take(k), a.skip(k), b.take(k), b.skip(k));
    crate::sort::lemma_bytes_le_reflexive(a.take(k));
}

/// In a sequence the leading bytes do not descend.
proof fn lemma_prefixes(es: Seq<Seq<u8>>, size: int, k: int)
    requires
        in_sequence(es, size),
        0 <= k <= size,
    ensures
        forall|i: int, j: int|
            0 <= i <= j < es.len() ==> bytes_le(
                (#[trigger] es[i]).take(k),
                (#[trigger] es[j]).take(k),
            ),
{
    assert forall|i: int, j: int| 0 <= i <= j < es.len() implies bytes_le(
        (#[trigger] es[i]).take(k),
        (#[trigger] es[j]).take(k),
    ) by {
        if i < j {
            lemma_prefix_le(es[i], es[j], k);
        } else {
            crate::sort::lemma_bytes_le_reflexive(es[i].take(k));
        }
    }
}

proof fn lemma_block_data(kind: Ledger, c: Seq<Seq<u8>>)
    requires
        c.len() < 0x1_0000_0000_0000_0000,
        forall|i: int| 0 <= i < c.len() ==> (#[trigger] c[i]).len() == kind.size(),
    ensures
        block_fault(block_data(kind, c), kind) is None,
        block_count(block_data(kind, c)) == c.len(),
        forall|i: int|
            0 <= i < c.len() ==> #[trigger] block_entry(block_data(kind, c), kind.size(), i)
                == Some(c[i]),
{
    let d = block_data(kind, c);
    let pre = prefix(kind.code(), Part::Block);
    let n = be(c.len(), 8);
    let size = kind.size();
    crate::bytes::lemma_pow256_values();
    crate::bytes::lemma_be_len(c.len(), 8);
    crate::bytes::lemma_be_value_of_be(c.len(), 8);
    written_prefix_is_read(kind.code(), Part::Block, n + flat(c));
    assert(d =~= pre + (n + flat(c)));
    assert(d.subrange(prefix_len(), prefix_len() + 8) =~= n);
    assert forall|i: int| 0 <= i < c.len() implies #[trigger] block_entry(d, size, i) == Some(
        c[i],
    ) by {
        crate::search::lemma_flat_at(c, size as nat, i);
        let o = prefix_len() + 8 + i * size;
        assert(d.subrange(o, o + size) =~= flat(c).subrange(i * size, i * size + size));
    }
}

proof fn lemma_block_bound(
    d: Seq<u8>,
    size: int,
    c: Seq<Seq<u8>>,
    key: Seq<u8>,
    lo: int,
    hi: int,
) -> (r: int)
    requires
        in_sequence(c, size),
        key.len() <= size,
        forall|i: int| 0 <= i < c.len() ==> #[trigger] block_entry(d, size, i) == Some(c[i]),
        0 <= lo <= hi <= c.len(),
        forall|i: int| 0 <= i < lo ==> bytes_lt((#[trigger] c[i]).take(key.len() as int), key),
        forall|i: int|
            hi <= i < c.len() ==> !bytes_lt((#[trigger] c[i]).take(key.len() as int), key),
    ensures
        block_bound(d, size, key, lo, hi) == Some(r),
        lo <= r <= hi,
        forall|i: int| 0 <= i < r ==> bytes_lt((#[trigger] c[i]).take(key.len() as int), key),
        forall|i: int|
            r <= i < c.len() ==> !bytes_lt((#[trigger] c[i]).take(key.len() as int), key),
    decreases hi - lo,
{
    let k = key.len() as int;
    lemma_prefixes(c, size, k);
    if lo >= hi {
        lo
    } else {
        let mid = lo + (hi - lo) / 2;
        assert(block_entry(d, size, mid) == Some(c[mid]));
        if bytes_lt(c[mid].take(k), key) {
            assert forall|i: int| 0 <= i < mid + 1 implies bytes_lt(
                (#[trigger] c[i]).take(k),
                key,
            ) by {
                crate::search::lemma_le_lt(c[i].take(k), c[mid].take(k), key);
            }
            lemma_block_bound(d, size, c, key, mid + 1, hi)
        } else {
            assert forall|i: int| mid <= i < c.len() implies !bytes_lt(
                (#[trigger] c[i]).take(k),
                key,
            ) by {
                if bytes_lt(c[i].take(k), key) {
                    crate::search::lemma_le_lt(c[mid].take(k), c[i].take(k), key);
                }
            }
            lemma_block_bound(d, size, c, key, lo, mid)
        }
    }
}

proof fn lemma_block_gather(d: Seq<u8>, size: int, c: Seq<Seq<u8>>, key: Seq<u8>, i: int) -> (stop:
    bool)
    requires
        in_sequence(c, size),
        key.len() <= size,
        forall|x: int| 0 <= x < c.len() ==> #[trigger] block_entry(d, size, x) == Some(c[x]),
        0 <= i <= c.len(),
    ensures
        block_gather(d, size, key, i, c.len() as int) == Some((starting_with(c.skip(i), key), stop)),
        stop ==> c.len() > 0 && bytes_lt(key, c.last().take(key.len() as int)),
    decreases c.len() - i,
{
    let k = key.len() as int;
    let s = c.skip(i);
    lemma_prefixes(c, size, k);
    if i >= c.len() {
        assert(s =~= Seq::<Seq<u8>>::empty());
        false
    } else {
        assert(block_entry(d, size, i) == Some(c[i]));
        assert(s[0] == c[i]);
        assert(s.skip(1) =~= c.skip(i + 1));
        if bytes_lt(key, c[i].take(k)) {
            assert forall|x: int| 0 <= x < s.len() implies (#[trigger] s[x]).take(k) != key by {
                assert(s[x] == c[i + x]);
                assert(bytes_le(c[i].take(k), c[i + x].take(k)));
                if c[i + x].take(k) == key {
                    crate::sort::lemma_bytes_le_antisymmetric(key, c[i].take(k));
                }
            }
            lemma_starting_none(s, key);
            let z = c.len() - 1;
            assert(bytes_le(c[i].take(k), c[z].take(k)));
            crate::sort::lemma_bytes_le_transitive(key, c[i].take(k), c[z].take(k));
            if key == c[z].take(k) {
                crate::sort::lemma_bytes_le_antisymmetric(key, c[i].take(k));
            }
            true
        } else {
            lemma_block_gather(d, size, c, key, i + 1)
        }
    }
}

/// The bytes of a block with the entries give all that start with the key.
proof fn lemma_matches_of(d: Seq<u8>, kind: Ledger, c: Seq<Seq<u8>>, key: Seq<u8>) -> (stop: bool)
    requires
        block_fault(d, kind) is None,
        block_count(d) == c.len(),
        forall|i: int| 0 <= i < c.len() ==> #[trigger] block_entry(d, kind.size(), i) == Some(c[i]),
        in_sequence(c, kind.size()),
        key.len() <= 32,
    ensures
        block_matches(d, kind, key) == Ok::<(Seq<Seq<u8>>, bool), Seq<char>>(
            (starting_with(c, key), stop),
        ),
        stop ==> c.len() > 0 && bytes_lt(key, c.last().take(key.len() as int)),
{
    let k = key.len() as int;
    let lo = lemma_block_bound(d, kind.size(), c, key, 0, c.len() as int);
    let stop = lemma_block_gather(d, kind.size(), c, key, lo);
    assert(starting_with(c, key) == starting_with(c.skip(lo), key)) by {
        assert forall|i: int| 0 <= i < c.take(lo).len() implies (#[trigger] c.take(lo)[i]).take(k)
            != key by {
            assert(bytes_lt(c[i].take(k), key));
        }
        lemma_starting_none(c.take(lo), key);
        lemma_starting_split(c.take(lo), c.skip(lo), key);
        assert(c.take(lo) + c.skip(lo) =~= c);
        assert(Seq::<Seq<u8>>::empty() + starting_with(c.skip(lo), key) =~= starting_with(
            c.skip(lo),
            key,
        ));
    }
    stop
}

/// A block gives all its entries that start with the key.
proof fn lemma_block_matches(kind: Ledger, c: Seq<Seq<u8>>, key: Seq<u8>) -> (stop: bool)
    requires
        c.len() < 0x1_0000_0000_0000_0000,
        in_sequence(c, kind.size()),
        key.len() <= 32,
    ensures
        block_matches(block_data(kind, c), kind, key) == Ok::<(Seq<Seq<u8>>, bool), Seq<char>>(
            (starting_with(c, key), stop),
        ),
        stop ==> c.len() > 0 && bytes_lt(key, c.last().take(key.len() as int)),
{
    lemma_block_data(kind, c);
    lemma_matches_of(block_data(kind, c), kind, c, key)
}

/// The least of two numbers.
pub open spec fn least(a: int, b: int) -> int {
    if a < b {
        a
    } else {
        b
    }
}

proof fn lemma_chunks(es: Seq<Seq<u8>>, b: nat, j: int)
    requires
        b > 0,
        0 <= j < chunks(es, b).len(),
    ensures
        0 <= j * b < es.len(),
        chunks(es, b)[j] == es.subrange(j * b, least((j + 1) * b, es.len() as int)),
        j + 1 < chunks(es, b).len() ==> (j + 1) * b < es.len(),
        j + 1 == chunks(es, b).len() ==> (j + 1) * b >= es.len(),
    decreases es.len(),
{
    let cs = chunks(es, b);
    let bi = b as int;
    if es.len() <= b {
        assert(es.subrange(0, es.len() as int) =~= es);
        assert(j == 0);
        assert(0 * bi == 0 && 1 * bi == bi);
    } else {
        let rest = es.skip(bi);
        let more = chunks(rest, b);
        if j == 0 {
            assert(0 * bi == 0 && 1 * bi == bi);
            assert(es.take(bi) =~= es.subrange(0, bi));
            assert(rest.len() > 0);
        } else {
            lemma_chunks(rest, b, j - 1);
            assert((j - 1) * bi + bi == j * bi) by (nonlinear_arith);
            assert(j * bi + bi == (j + 1) * bi) by (nonlinear_arith);
            assert(cs[j] == more[j - 1]);
            assert(rest.subrange((j - 1) * bi, least(j * bi, rest.len() as int)) =~= es.subrange(
                j * bi,
                least((j + 1) * bi, es.len() as int),
            ));
        }
    }
}

/// The blocks from `j` on give all entries in them that start with the key.
proof fn lemma_matches_from(
    bs: Seq<SpecBlock>,
    ds: Seq<Seq<u8>>,
    kind: Ledger,
    generation: u64,
    es: Seq<Seq<u8>>,
    key: Seq<u8>,
    j: int,
)
    requires
        in_sequence(es, kind.size()),
        key.len() <= 32,
        bs.len() == chunks(es, BLOCK_ENTRIES as nat).len(),
        ds.len() == bs.len(),
        forall|i: int|
            0 <= i < bs.len() ==> #[trigger] bs[i] == block_info(
                kind,
                generation,
                i as nat,
                chunks(es, BLOCK_ENTRIES as nat)[i],
            ),
        forall|i: int|
            0 <= i < bs.len() ==> #[trigger] ds[i] == block_data(
                kind,
                chunks(es, BLOCK_ENTRIES as nat)[i],
            ),
        0 <= j <= bs.len(),
    ensures
        matches_from(bs, ds, kind, key, j) == Ok::<Seq<Seq<u8>>, Seq<char>>(
            starting_with(es.skip(least(j * 1_000_000, es.len() as int)), key),
        ),
    decreases bs.len() - j,
{
    let b = BLOCK_ENTRIES as nat;
    let cs = chunks(es, b);
    let k = key.len() as int;
    let n = es.len() as int;
    let from = least(j * 1_000_000, n);
    let rest = es.skip(from);
    lemma_prefixes(es, kind.size(), k);
    if j >= bs.len() {
        if bs.len() > 0 {
            lemma_chunks(es, b, bs.len() - 1);
        } else if es.len() > 0 {
            assert(cs.len() > 0);
        }
        assert(rest =~= Seq::<Seq<u8>>::empty());
    } else {
        lemma_chunks(es, b, j);
        let to = least((j + 1) * 1_000_000, n);
        let c = cs[j];
        assert(c == es.subrange(from, to));
        assert(from < to);
        assert(bs[j].first.take(k) =~= c[0].take(k));
        assert(c[0] == es[from]);
        assert(rest =~= c + es.skip(to));
        lemma_starting_split(c, es.skip(to), key);
        if bytes_lt(key, c[0].take(k)) {
            assert forall|i: int| 0 <= i < rest.len() implies (#[trigger] rest[i]).take(k) != key by {
                assert(rest[i] == es[from + i]);
                assert(bytes_le(es[from].take(k), es[from + i].take(k)));
                if es[from + i].take(k) == key {
                    crate::sort::lemma_bytes_le_antisymmetric(key, c[0].take(k));
                }
            }
            lemma_starting_none(rest, key);
        } else {
            assert(in_sequence(c, kind.size())) by {
                assert forall|i: int| 0 <= i < c.len() implies (#[trigger] c[i]).len()
                    == kind.size() by {
                    assert(es[from + i].len() == kind.size());
                }
                assert forall|i: int, l: int| 0 <= i < l < c.len() implies bytes_le(
                    #[trigger] c[i],
                    #[trigger] c[l],
                ) by {
                    assert(bytes_le(es[from + i], es[from + l]));
                }
            }
            let stop = lemma_block_matches(kind, c, key);
            assert(ds[j] == block_data(kind, c));
            if stop {
                let more = es.skip(to);
                assert(c.last() == es[to - 1]);
                assert forall|i: int| 0 <= i < more.len() implies (#[trigger] more[i]).take(k)
                    != key by {
                    assert(more[i] == es[to + i]);
                    assert(bytes_le(es[to - 1].take(k), es[to + i].take(k)));
                    if es[to + i].take(k) == key {
                        crate::sort::lemma_bytes_le_antisymmetric(key, c.last().take(k));
                    }
                }
                lemma_starting_none(more, key);
                assert(starting_with(c, key) + Seq::<Seq<u8>>::empty() =~= starting_with(c, key));
            } else {
                lemma_matches_from(bs, ds, kind, generation, es, key, j + 1);
            }
        }
    }
}

proof fn lemma_first_candidate(
    bs: Seq<SpecBlock>,
    kind: Ledger,
    generation: u64,
    es: Seq<Seq<u8>>,
    key: Seq<u8>,
    lo: int,
    hi: int,
)
    requires
        in_sequence(es, kind.size()),
        key.len() <= 32,
        bs.len() == chunks(es, BLOCK_ENTRIES as nat).len(),
        forall|i: int|
            0 <= i < bs.len() ==> #[trigger] bs[i] == block_info(
                kind,
                generation,
                i as nat,
                chunks(es, BLOCK_ENTRIES as nat)[i],
            ),
        0 <= lo <= hi <= bs.len(),
        forall|x: int|
            0 <= x < least(lo * 1_000_000, es.len() as int) ==> bytes_lt(
                (#[trigger] es[x]).take(key.len() as int),
                key,
            ),
    ensures
        lo <= first_candidate(bs, key, lo, hi) <= hi,
        forall|x: int|
            0 <= x < least(first_candidate(bs, key, lo, hi) * 1_000_000, es.len() as int)
                ==> bytes_lt((#[trigger] es[x]).take(key.len() as int), key),
    decreases hi - lo,
{
    let k = key.len() as int;
    let n = es.len() as int;
    if lo < hi {
        let mid = lo + (hi - lo) / 2;
        let b = BLOCK_ENTRIES as nat;
        lemma_chunks(es, b, mid);
        lemma_prefixes(es, kind.size(), k);
        let c = chunks(es, b)[mid];
        let to = least((mid + 1) * 1_000_000, n);
        assert(c.last() == es[to - 1]);
        assert(bs[mid].last.take(k) =~= es[to - 1].take(k));
        if bytes_lt(bs[mid].last.take(k), key) {
            assert forall|x: int| 0 <= x < to implies bytes_lt(
                (#[trigger] es[x]).take(k),
                key,
            ) by {
                crate::search::lemma_le_lt(es[x].take(k), es[to - 1].take(k), key);
            }
            lemma_first_candidate(bs, kind, generation, es, key, mid + 1, hi);
        } else {
            lemma_first_candidate(bs, kind, generation, es, key, lo, mid);
        }
    }
}

/// A lookup in the blocks of a ledger gives all entries that start with the key,
/// in order, and nothing else.
pub proof fn ledger_lookup_is_complete(
    kind: Ledger,
    generation: u64,
    es: Seq<Seq<u8>>,
    bs: Seq<SpecBlock>,
    files: Seq<(String, Vec<u8>)>,
    key: Seq<u8>,
)
    requires
        in_sequence(es, kind.size()),
        key.len() <= 32,
        are_blocks(kind, generation, es, bs, files),
    ensures
        ledger_matches(bs, Seq::new(files.len(), |i: int| files[i].1@), kind, key) == Ok::<
            Seq<Seq<u8>>,
            Seq<char>,
        >(starting_with(es, key)),
{
    let ds = Seq::new(files.len(), |i: int| files[i].1@);
    let k = key.len() as int;
    let n = es.len() as int;
    let b = BLOCK_ENTRIES as nat;
    assert forall|i: int| 0 <= i < bs.len() implies #[trigger] ds[i] == block_data(
        kind,
        chunks(es, b)[i],
    ) by {
        assert(files[i].1@ == block_data(kind, chunks(es, b)[i]));
    }
    lemma_first_candidate(bs, kind, generation, es, key, 0, bs.len() as int);
    let j = first_candidate(bs, key, 0, bs.len() as int);
    lemma_matches_from(bs, ds, kind, generation, es, key, j);
    let from = least(j * 1_000_000, n);
    let a = es.take(from);
    assert forall|i: int| 0 <= i < a.len() implies (#[trigger] a[i]).take(k) != key by {
        assert(bytes_lt(es[i].take(k), key));
    }
    lemma_starting_none(a, key);
    lemma_starting_split(a, es.skip(from), key);
    assert(a + es.skip(from) =~= es);
    assert(Seq::<Seq<u8>>::empty() + starting_with(es.skip(from), key) =~= starting_with(
        es.skip(from),
        key,
    ));
}

// ---------------------------------------------------------------------------
// Building the ledgers
// ---------------------------------------------------------------------------

/// What tells whether a file is still the one that was indexed: its size, and the
/// seconds and nanoseconds of its last change.
pub type Print = (u64, i64, u32);

/// A file to index: its path, its print (none where it is not there), and its
/// bytes, or why they could not be read.
#[derive(Debug)]
pub struct Target {
    pub path: String,
    pub print: Option<Print>,
    pub data: Result<Vec<u8>, String>,
}

/// A file with its entries.
#[derive(Debug)]
pub struct Scanned {
    pub file: FileEntry,
    pub entries: FileEntries,
}

/// The files that are there.
pub open spec fn present(ts: Seq<Target>) -> Seq<Target>
    decreases ts.len(),
{
    if ts.len() == 0 {
        ts
    } else if ts.last().print is Some {
        present(ts.drop_last()).push(ts.last())
    } else {
        present(ts.drop_last())
    }
}

/// Why a file cannot be scanned, if so.
pub open spec fn scan_fault(t: Target) -> Option<Seq<char>> {
    match t.data {
        Err(e) => Some(e@),
        Ok(d) => match file_recs_of(d@) {
            Err(e) => Some(e),
            Ok(_) => None,
        },
    }
}

/// Whether a scan is that of the file with the number.
pub open spec fn is_scan(s: Scanned, t: Target, generation: u64, id: u32) -> bool {
    &&& t.print is Some
    &&& t.data is Ok
    &&& file_recs_of(t.data->Ok_0@) is Ok
    &&& lists_file(s.entries, file_recs_of(t.data->Ok_0@)->Ok_0, id)
    &&& s.file@ == (SpecFile {
        id,
        path: t.path@,
        size: t.print->Some_0.0,
        sec: t.print->Some_0.1,
        nsec: t.print->Some_0.2,
        count: s.entries.loc@.len() as u64,
        gen: generation,
        cur: generation,
    })
}

/// Scans the files that are there, numbered from one; or says why the first that
/// cannot be scanned cannot.
pub fn scan_targets(targets: &Vec<Target>, generation: u64) -> (r: Result<Vec<Scanned>, String>)
    requires
        targets@.len() < u32::MAX,
    ensures
        match r {
            Ok(v) => v@.len() == present(targets@).len() && forall|k: int|
                0 <= k < v@.len() ==> is_scan(
                    #[trigger] v@[k],
                    present(targets@)[k],
                    generation,
                    (k + 1) as u32,
                ),
            Err(e) => exists|k: int|
                0 <= k < present(targets@).len() && scan_fault(#[trigger] present(targets@)[k])
                    == Some(e@) && forall|j: int|
                    0 <= j < k ==> scan_fault(#[trigger] present(targets@)[j]) is None,
        },
{
    let ghost all = present(targets@);
    let mut out: Vec<Scanned> = Vec::new();
    let mut i: usize = 0;
    assert(targets@.take(0) =~= Seq::<Target>::empty());
    while i < targets.len()
        invariant
            i <= targets@.len(),
            targets@.len() < u32::MAX,
            all == present(targets@),
            out@.len() == present(targets@.take(i as int)).len(),
            out@.len() <= i,
            forall|k: int|
                0 <= k < out@.len() ==> is_scan(
                    #[trigger] out@[k],
                    present(targets@.take(i as int))[k],
                    generation,
                    (k + 1) as u32,
                ),
        decreases targets@.len() - i,
    {
        let ghost before = present(targets@.take(i as int));
        proof {
            assert(targets@.take(i + 1).drop_last() =~= targets@.take(i as int));
            assert(targets@.take(i + 1).last() == targets@[i as int]);
        }
        let t = &targets[i];
        if let Some(print) = t.print {
            let id: u32 = out.len() as u32 + 1;
            proof {
                lemma_present(targets@, i as int);
                lemma_scanned_so_far(out@, before, generation);
            }
            let data = match &t.data {
                Ok(d) => d,
                Err(e) => {
                    let ghost k = before.len() as int;
                    assert(scan_fault(all[k]) == Some(e@));
                    return Err(e.clone());
                },
            };
            let entries = match scan_file(data.as_slice(), id) {
                Ok(e) => e,
                Err(e) => {
                    let ghost k = before.len() as int;
                    assert(scan_fault(all[k]) == Some(e@));
                    return Err(e);
                },
            };
            let file = FileEntry {
                id,
                path: t.path.clone(),
                size: print.0,
                mtime_sec: print.1,
                mtime_nsec: print.2,
                uuid_count: entries.loc.len() as u64,
                gen: generation,
                cur_gen: generation,
            };
            out.push(Scanned { file, entries });
        }
        i = i + 1;
    }
    assert(targets@.take(targets@.len() as int) =~= targets@);
    Ok(out)
}

proof fn lemma_scanned_so_far(v: Seq<Scanned>, ts: Seq<Target>, generation: u64)
    requires
        v.len() == ts.len(),
        forall|k: int|
            0 <= k < v.len() ==> is_scan(#[trigger] v[k], ts[k], generation, (k + 1) as u32),
    ensures
        forall|j: int| 0 <= j < ts.len() ==> scan_fault(#[trigger] ts[j]) is None,
{
    assert forall|j: int| 0 <= j < ts.len() implies scan_fault(#[trigger] ts[j]) is None by {
        assert(is_scan(v[j], ts[j], generation, (j + 1) as u32));
    }
}

/// The files that are there up to a position start the list of all.
proof fn lemma_present(ts: Seq<Target>, i: int)
    requires
        0 <= i < ts.len(),
        ts[i].print is Some,
    ensures
        ({
            let a = present(ts.take(i));
            let all = present(ts);
            &&& a.len() < all.len()
            &&& all[a.len() as int] == ts[i]
            &&& forall|j: int| 0 <= j < a.len() ==> #[trigger] all[j] == a[j]
        }),
    decreases ts.len(),
{
    let d = ts.drop_last();
    if i == ts.len() - 1 {
        assert(ts.take(i) =~= d);
    } else {
        lemma_present(d, i);
        assert(d.take(i) =~= ts.take(i));
    }
}

/// The entries of a ledger of all scans, one after the other.
pub open spec fn gathered(scans: Seq<Scanned>, kind: Ledger) -> Seq<Seq<u8>>
    decreases scans.len(),
{
    if scans.len() == 0 {
        Seq::<Seq<u8>>::empty()
    } else {
        gathered(scans.drop_last(), kind) + scans.last().entries.ledger(kind)
    }
}

/// The entries of a file have the size of their ledger.
pub proof fn lemma_ledger_sizes(e: FileEntries, kind: Ledger)
    ensures
        forall|k: int|
            0 <= k < e.ledger(kind).len() ==> (#[trigger] e.ledger(kind)[k]).len() == kind.size(),
{
    assert forall|k: int| 0 <= k < e.ledger(kind).len() implies (
    #[trigger] e.ledger(kind)[k]).len() == kind.size() by {
        match kind {
            Ledger::Loc => {
                loc_round_trip(e.loc@[k]);
            },
            Ledger::Rel => {
                rel_round_trip(e.rel@[k]);
            },
            Ledger::Rev => {
                rev_round_trip(e.rev@[k]);
            },
        }
    }
}

proof fn lemma_gathered_sizes(scans: Seq<Scanned>, kind: Ledger)
    ensures
        forall|i: int|
            0 <= i < gathered(scans, kind).len() ==> (#[trigger] gathered(scans, kind)[i]).len()
                == kind.size(),
    decreases scans.len(),
{
    if scans.len() > 0 {
        lemma_gathered_sizes(scans.drop_last(), kind);
        let a = gathered(scans.drop_last(), kind);
        let b = scans.last().entries.ledger(kind);
        let r = gathered(scans, kind);
        assert forall|i: int| 0 <= i < r.len() implies (#[trigger] r[i]).len() == kind.size() by {
            if i < a.len() {
                assert(r[i] == a[i]);
            } else {
                let x = i - a.len();
                assert(r[i] == b[x]);
                lemma_ledger_sizes(scans.last().entries, kind);
            }
        }
    }
}

/// The entries of a ledger of all scans, sorted.
fn gather(scans: &Vec<Scanned>, kind: Ledger) -> (r: Vec<Vec<u8>>)
    ensures
        key_views(r@) == sorted(gathered(scans@, kind), gathered(scans@, kind)),
        r@.len() == gathered(scans@, kind).len(),
        forall|i: int| 0 <= i < r@.len() ==> (#[trigger] r@[i])@.len() == kind.size(),
{
    let mut all: Vec<Vec<u8>> = Vec::new();
    let mut i: usize = 0;
    assert(scans@.take(0) =~= Seq::<Scanned>::empty());
    assert(key_views(all@) =~= gathered(scans@.take(0), kind));
    while i < scans.len()
        invariant
            i <= scans@.len(),
            key_views(all@) == gathered(scans@.take(i as int), kind),
        decreases scans@.len() - i,
    {
        proof {
            assert(scans@.take(i + 1).drop_last() =~= scans@.take(i as int));
            assert(scans@.take(i + 1).last() == scans@[i as int]);
        }
        let ghost before = key_views(all@);
        let bytes = scans[i].entries.bytes(kind);
        let ghost part = key_views(bytes@);
        let mut k: usize = 0;
        assert(before + part.take(0) =~= before);
        while k < bytes.len()
            invariant
                k <= bytes@.len(),
                part == key_views(bytes@),
                key_views(all@) == before + part.take(k as int),
            decreases bytes@.len() - k,
        {
            let ghost a0 = all@;
            let e = sub_bytes(bytes[k].as_slice(), 0, bytes[k].len());
            assert(e@ =~= part[k as int]);
            all.push(e);
            proof {
                assert(key_views(all@) =~= key_views(a0).push(part[k as int]));
                assert(part.take(k + 1) =~= part.take(k as int).push(part[k as int]));
            }
            k = k + 1;
        }
        assert(part.take(part.len() as int) =~= part);
        i = i + 1;
    }
    assert(scans@.take(scans@.len() as int) =~= scans@);
    let ghost g = gathered(scans@, kind);
    assert(key_views(all@).len() == all@.len());
    let pos = order(&all);
    let ghost p = crate::model::ints(pos@);
    let ghost want = arranged(g, p);
    let mut out: Vec<Vec<u8>> = Vec::new();
    let mut k: usize = 0;
    proof {
        lemma_gathered_sizes(scans@, kind);
    }
    assert(key_views(out@) =~= want.take(0));
    while k < pos.len()
        invariant
            k <= pos@.len(),
            p == crate::model::ints(pos@),
            g == key_views(all@),
            want == arranged(g, p),
            forall|j: int| 0 <= j < pos@.len() ==> #[trigger] pos@[j] < all@.len(),
            forall|j: int| 0 <= j < g.len() ==> (#[trigger] g[j]).len() == kind.size(),
            out@.len() == k,
            key_views(out@) == want.take(k as int),
            forall|j: int| 0 <= j < out@.len() ==> (#[trigger] out@[j])@.len() == kind.size(),
        decreases pos@.len() - k,
    {
        let ghost o0 = out@;
        let e = sub_bytes(all[pos[k]].as_slice(), 0, all[pos[k]].len());
        proof {
            assert(g[p[k as int]] == all@[pos@[k as int] as int]@);
            assert(e@ =~= g[p[k as int]]);
            assert(g[p[k as int]].len() == kind.size());
        }
        out.push(e);
        proof {
            assert(key_views(out@) =~= key_views(o0).push(g[p[k as int]]));
            assert(want.take(k + 1) =~= want.take(k as int).push(g[p[k as int]]));
        }
        k = k + 1;
    }
    proof {
        assert(want.take(want.len() as int) =~= want);
        crate::sort::lemma_sorted_is(g, g, p);
    }
    out
}

/// What was done: how many files and entries, blocks and bytes.
#[derive(Clone, Copy, Debug)]
pub struct Stats {
    pub files: usize,
    pub loc: u64,
    pub rel: u64,
    pub rev: u64,
    pub blocks: usize,
    pub bytes_written: u64,
    pub log_bytes: u64,
}

/// A new index that is ready to be put in place: its table and the files of its
/// blocks.
#[derive(Debug)]
pub struct Prepared {
    pub manifest: Manifest,
    pub loc_files: Vec<(String, Vec<u8>)>,
    pub rel_files: Vec<(String, Vec<u8>)>,
    pub rev_files: Vec<(String, Vec<u8>)>,
    pub stats: Stats,
}

/// The sorted entries of a ledger of all scans.
pub open spec fn ledger_entries(scans: Seq<Scanned>, kind: Ledger) -> Seq<Seq<u8>> {
    sorted(gathered(scans, kind), gathered(scans, kind))
}

/// The models of the files of scans.
pub open spec fn scanned_files(scans: Seq<Scanned>) -> Seq<SpecFile> {
    Seq::new(scans.len(), |i: int| scans[i].file@)
}

/// Builds the ledgers of scanned files; the logs stay as they are, with the sizes
/// given.
pub fn build_ledgers(scans: &Vec<Scanned>, generation: u64, logs: (u64, u64, u64)) -> (r: Prepared)
    requires
        scans@.len() < u32::MAX,
        gathered(scans@, Ledger::Loc).len() < 0x1_0000_0000_0000,
        gathered(scans@, Ledger::Rel).len() < 0x1_0000_0000_0000,
        gathered(scans@, Ledger::Rev).len() < 0x1_0000_0000_0000,
        logs.0 + logs.1 + logs.2 <= u64::MAX,
    ensures
        ({
            let m = r.manifest@;
            let loc = ledger_entries(scans@, Ledger::Loc);
            let rel = ledger_entries(scans@, Ledger::Rel);
            let rev = ledger_entries(scans@, Ledger::Rev);
            &&& m.generation == generation
            &&& m.next_id == scans@.len() + 1
            &&& m.files == scanned_files(scans@)
            &&& are_blocks(Ledger::Loc, generation, loc, m.loc.blocks, r.loc_files@)
            &&& are_blocks(Ledger::Rel, generation, rel, m.rel.blocks, r.rel_files@)
            &&& are_blocks(Ledger::Rev, generation, rev, m.rev.blocks, r.rev_files@)
            &&& m.loc.log_bytes == logs.0
            &&& m.rel.log_bytes == logs.1
            &&& m.rev.log_bytes == logs.2
            &&& m.loc.base_bytes == sum_bytes(r.loc_files@)
            &&& m.rel.base_bytes == sum_bytes(r.rel_files@)
            &&& m.rev.base_bytes == sum_bytes(r.rev_files@)
            &&& r.stats.files == scans@.len()
            &&& r.stats.loc == gathered(scans@, Ledger::Loc).len()
            &&& r.stats.rel == gathered(scans@, Ledger::Rel).len()
            &&& r.stats.rev == gathered(scans@, Ledger::Rev).len()
            &&& r.stats.blocks == r.loc_files@.len() + r.rel_files@.len() + r.rev_files@.len()
            &&& r.stats.bytes_written == 0
            &&& r.stats.log_bytes == logs.0 + logs.1 + logs.2
        }),
{
    let loc = gather(scans, Ledger::Loc);
    let rel = gather(scans, Ledger::Rel);
    let rev = gather(scans, Ledger::Rev);
    let (mut loc_info, loc_files) = write_blocks(Ledger::Loc, generation, &loc);
    let (mut rel_info, rel_files) = write_blocks(Ledger::Rel, generation, &rel);
    let (mut rev_info, rev_files) = write_blocks(Ledger::Rev, generation, &rev);
    loc_info.log_bytes = logs.0;
    rel_info.log_bytes = logs.1;
    rev_info.log_bytes = logs.2;
    proof {
        lemma_chunks_len(ledger_entries(scans@, Ledger::Loc), BLOCK_ENTRIES as nat);
        lemma_chunks_len(ledger_entries(scans@, Ledger::Rel), BLOCK_ENTRIES as nat);
        lemma_chunks_len(ledger_entries(scans@, Ledger::Rev), BLOCK_ENTRIES as nat);
        assert(key_views(loc@).len() == loc@.len());
        assert(key_views(rel@).len() == rel@.len());
        assert(key_views(rev@).len() == rev@.len());
    }
    let mut files: Vec<FileEntry> = Vec::new();
    let mut i: usize = 0;
    while i < scans.len()
        invariant
            i <= scans@.len(),
            files@.len() == i,
            forall|k: int| 0 <= k < i ==> (#[trigger] files@[k])@ == scans@[k].file@,
        decreases scans@.len() - i,
    {
        files.push(scans[i].file.clone());
        i = i + 1;
    }
    assert(file_models(files@) =~= scanned_files(scans@));
    let blocks: u128 = loc_files.len() as u128 + rel_files.len() as u128 + rev_files.len() as u128;
    let stats = Stats {
        files: scans.len(),
        loc: loc.len() as u64,
        rel: rel.len() as u64,
        rev: rev.len() as u64,
        blocks: blocks as usize,
        bytes_written: 0,
        log_bytes: logs.0 + logs.1 + logs.2,
    };
    let manifest = Manifest {
        generation,
        next_file_id: scans.len() as u32 + 1,
        files,
        loc: loc_info,
        rel: rel_info,
        rev: rev_info,
    };
    Prepared { manifest, loc_files, rel_files, rev_files, stats }
}

proof fn lemma_chunks_len(es: Seq<Seq<u8>>, b: nat)
    requires
        b >= 1_000_000,
    ensures
        chunks(es, b).len() * 1_000_000 <= es.len() + 1_000_000,
    decreases es.len(),
{
    if es.len() > b {
        lemma_chunks_len(es.skip(b as int), b);
    }
}

/// The sorted entries of a ledger are in sequence, so a lookup in its blocks finds
/// all that start with a key.
pub proof fn built_ledger_lookup(
    scans: Seq<Scanned>,
    kind: Ledger,
    generation: u64,
    bs: Seq<SpecBlock>,
    files: Seq<(String, Vec<u8>)>,
    key: Seq<u8>,
)
    requires
        are_blocks(kind, generation, ledger_entries(scans, kind), bs, files),
        key.len() <= 32,
    ensures
        ledger_matches(bs, Seq::new(files.len(), |i: int| files[i].1@), kind, key) == Ok::<
            Seq<Seq<u8>>,
            Seq<char>,
        >(starting_with(ledger_entries(scans, kind), key)),
{
    let g = gathered(scans, kind);
    let es = ledger_entries(scans, kind);
    lemma_gathered_sizes(scans, kind);
    let p = crate::sort::sorted_members(g, g);
    assert(in_sequence(es, kind.size())) by {
        assert forall|i: int| 0 <= i < es.len() implies (#[trigger] es[i]).len() == kind.size() by {
            assert(es[i] == g[p[i]]);
        }
        assert forall|i: int, j: int| 0 <= i < j < es.len() implies bytes_le(
            #[trigger] es[i],
            #[trigger] es[j],
        ) by {
            assert(es[i] == g[p[i]] && es[j] == g[p[j]]);
        }
    }
    ledger_lookup_is_complete(kind, generation, es, bs, files, key);
}

// ---------------------------------------------------------------------------
// Logs
// ---------------------------------------------------------------------------

/// A record of a log: an entry of the file that was named last.
pub const REC_ENTRY: u8 = 1;

/// A record of a log: a file.
pub const REC_FILE: u8 = 3;

/// A record of a log: a file that is no longer covered.
pub const REC_FILE_REMOVE: u8 = 4;

/// The bytes of a record.
pub open spec fn record(kind: u8, payload: Seq<u8>) -> Seq<u8> {
    be(payload.len(), 4) + seq![kind] + payload
}

/// Appends a record.
pub fn push_rec(out: &mut Vec<u8>, kind: u8, payload: &[u8])
    ensures
        final(out)@ == old(out)@ + record(kind, payload@),
{
    put_be(out, payload.len() as u64, 4);
    out.push(kind);
    put_slice(out, payload);
    assert(out@ =~= old(out)@ + record(kind, payload@));
}

/// The records of entries, one after the other.
pub open spec fn entry_records(es: Seq<Seq<u8>>) -> Seq<u8>
    decreases es.len(),
{
    if es.len() == 0 {
        Seq::<u8>::empty()
    } else {
        entry_records(es.drop_last()) + record(REC_ENTRY, es.last())
    }
}

/// What an indexed file adds to the log of a ledger.
pub open spec fn log_of_file(f: SpecFile, e: FileEntries, kind: Ledger) -> Seq<u8> {
    record(REC_FILE, file_bytes(f)) + entry_records(e.ledger(kind))
}

/// What an indexed file adds to the log of a ledger.
fn make_log(rec: &FileEntry, entries: &FileEntries, kind: Ledger) -> (r: Vec<u8>)
    ensures
        r@ == log_of_file(rec@, *entries, kind),
{
    let mut payload: Vec<u8> = Vec::new();
    enc_file_rec(rec, &mut payload);
    assert(payload@ =~= file_bytes(rec@));
    let mut out: Vec<u8> = Vec::new();
    push_rec(&mut out, REC_FILE, payload.as_slice());
    let ghost base = out@;
    let bytes = entries.bytes(kind);
    let ghost es = key_views(bytes@);
    let mut i: usize = 0;
    assert(es.take(0) =~= Seq::<Seq<u8>>::empty());
    assert(base + entry_records(es.take(0)) =~= base);
    while i < bytes.len()
        invariant
            i <= bytes@.len(),
            es == key_views(bytes@),
            out@ == base + entry_records(es.take(i as int)),
        decreases bytes@.len() - i,
    {
        push_rec(&mut out, REC_ENTRY, bytes[i].as_slice());
        proof {
            assert(es.take(i + 1).drop_last() =~= es.take(i as int));
            assert(es.take(i + 1).last() == bytes@[i as int]@);
            assert(out@ =~= base + entry_records(es.take(i + 1)));
        }
        i = i + 1;
    }
    assert(es.take(es.len() as int) =~= es);
    assert(out@ =~= log_of_file(rec@, *entries, kind));
    out
}

/// The position of the first file with the path.
pub open spec fn with_path(fs: Seq<SpecFile>, path: Seq<char>) -> Option<int>
    decreases fs.len(),
{
    if fs.len() == 0 {
        None
    } else {
        match with_path(fs.drop_last(), path) {
            Some(i) => Some(i),
            None => if fs.last().path == path {
                Some(fs.len() - 1)
            } else {
                None
            },
        }
    }
}

/// The position of the first file with the number.
pub open spec fn with_id(fs: Seq<SpecFile>, id: u32) -> Option<int>
    decreases fs.len(),
{
    if fs.len() == 0 {
        None
    } else {
        match with_id(fs.drop_last(), id) {
            Some(i) => Some(i),
            None => if fs.last().id == id {
                Some(fs.len() - 1)
            } else {
                None
            },
        }
    }
}

pub proof fn lemma_with_path(fs: Seq<SpecFile>, path: Seq<char>)
    ensures
        match with_path(fs, path) {
            Some(i) => 0 <= i < fs.len() && fs[i].path == path && forall|j: int|
                0 <= j < i ==> (#[trigger] fs[j]).path != path,
            None => forall|j: int| 0 <= j < fs.len() ==> (#[trigger] fs[j]).path != path,
        },
    decreases fs.len(),
{
    if fs.len() > 0 {
        let d = fs.drop_last();
        lemma_with_path(d, path);
        assert forall|j: int| 0 <= j < d.len() implies (#[trigger] fs[j]) == d[j] by {}
    }
}

pub proof fn lemma_with_id(fs: Seq<SpecFile>, id: u32)
    ensures
        match with_id(fs, id) {
            Some(i) => 0 <= i < fs.len() && fs[i].id == id && forall|j: int|
                0 <= j < i ==> (#[trigger] fs[j]).id != id,
            None => forall|j: int| 0 <= j < fs.len() ==> (#[trigger] fs[j]).id != id,
        },
    decreases fs.len(),
{
    if fs.len() > 0 {
        let d = fs.drop_last();
        lemma_with_id(d, id);
        assert forall|j: int| 0 <= j < d.len() implies (#[trigger] fs[j]) == d[j] by {}
    }
}

/// The first file with the path.
pub fn find_path(files: &Vec<FileEntry>, path: &str) -> (r: Option<usize>)
    ensures
        match r {
            Some(i) => with_path(file_models(files@), path@) == Some(i as int) && i < files@.len(),
            None => with_path(file_models(files@), path@) is None,
        },
{
    let ghost fs = file_models(files@);
    proof {
        lemma_with_path(fs, path@);
    }
    let mut i: usize = 0;
    while i < files.len()
        invariant
            i <= files@.len(),
            fs == file_models(files@),
            match with_path(fs, path@) {
                Some(k) => 0 <= k < fs.len() && fs[k].path == path@ && forall|j: int|
                    0 <= j < k ==> (#[trigger] fs[j]).path != path@,
                None => forall|j: int| 0 <= j < fs.len() ==> (#[trigger] fs[j]).path != path@,
            },
            forall|j: int| 0 <= j < i ==> (#[trigger] fs[j]).path != path@,
        decreases files@.len() - i,
    {
        assert(fs[i as int] == files@[i as int]@);
        if same_text(files[i].path.as_str(), path) {
            return Some(i);
        }
        i = i + 1;
    }
    None
}

/// The first file with the number.
pub fn find_file(files: &Vec<FileEntry>, id: u32) -> (r: Option<usize>)
    ensures
        match r {
            Some(i) => with_id(file_models(files@), id) == Some(i as int) && i < files@.len(),
            None => with_id(file_models(files@), id) is None,
        },
{
    let ghost fs = file_models(files@);
    proof {
        lemma_with_id(fs, id);
    }
    let mut i: usize = 0;
    while i < files.len()
        invariant
            i <= files@.len(),
            fs == file_models(files@),
            match with_id(fs, id) {
                Some(k) => 0 <= k < fs.len() && fs[k].id == id && forall|j: int|
                    0 <= j < k ==> (#[trigger] fs[j]).id != id,
                None => forall|j: int| 0 <= j < fs.len() ==> (#[trigger] fs[j]).id != id,
            },
            forall|j: int| 0 <= j < i ==> (#[trigger] fs[j]).id != id,
        decreases files@.len() - i,
    {
        assert(fs[i as int] == files@[i as int]@);
        if files[i].id == id {
            return Some(i);
        }
        i = i + 1;
    }
    None
}

/// What indexing a file anew changes: the table, and what the logs get.
#[derive(Debug)]
pub struct Append {
    pub manifest: Manifest,
    pub loc_log: Vec<u8>,
    pub rel_log: Vec<u8>,
    pub rev_log: Vec<u8>,
    pub entries: FileEntries,
}

/// The number that a file gets.
pub open spec fn number_for(m: SpecManifest, path: Seq<char>) -> u32 {
    match with_path(m.files, path) {
        Some(i) => m.files[i].id,
        None => if m.next_id >= 1 {
            m.next_id
        } else {
            1
        },
    }
}

/// The files once a file that was not covered is put in.
pub open spec fn files_with(m: SpecManifest, path: Seq<char>, print: Print) -> Seq<SpecFile> {
    match with_path(m.files, path) {
        Some(_) => m.files,
        None => m.files.push(
            SpecFile {
                id: number_for(m, path),
                path,
                size: print.0,
                sec: print.1,
                nsec: print.2,
                count: 0,
                gen: 0,
                cur: 0,
            },
        ),
    }
}

/// Whether `u` is the table `m` once a file was indexed anew, of which `rec` is the
/// record.
pub open spec fn file_indexed(
    m: SpecManifest,
    u: SpecManifest,
    path: Seq<char>,
    print: Print,
    count: nat,
    rec: SpecFile,
) -> bool {
    let id = number_for(m, path);
    let fs = files_with(m, path, print);
    let at = with_id(fs, id);
    &&& at is Some
    &&& rec == (SpecFile {
        id,
        path,
        size: print.0,
        sec: print.1,
        nsec: print.2,
        count: count as u64,
        gen: fs[at->Some_0].gen,
        cur: (m.generation + 1) as u64,
    })
    &&& u.files == fs.update(at->Some_0, rec)
    &&& u.generation == m.generation + 1
    &&& u.next_id == (if with_path(m.files, path) is Some {
        m.next_id as int
    } else {
        id + 1
    })
    &&& u.loc.blocks == m.loc.blocks
    &&& u.rel.blocks == m.rel.blocks
    &&& u.rev.blocks == m.rev.blocks
    &&& u.loc.base_bytes == m.loc.base_bytes
    &&& u.rel.base_bytes == m.rel.base_bytes
    &&& u.rev.base_bytes == m.rev.base_bytes
}

/// Indexes a file anew: its entries go to the logs under a new generation, which
/// makes those before it void.
pub fn append_file(m: Manifest, path: &str, print: Print, data: &[u8]) -> (r: Result<Append, String>)
    requires
        m.generation < u64::MAX,
        m.next_file_id < u32::MAX,
    ensures
        match file_recs_of(data@) {
            Err(e) => r is Err && r->Err_0@ == e,
            Ok(recs) => r is Ok && {
                let a = r->Ok_0;
                let id = number_for(m@, path@);
                let at = with_id(files_with(m@, path@, print), id)->Some_0;
                let rec = a.manifest@.files[at];
                &&& lists_file(a.entries, recs, id)
                &&& file_indexed(m@, a.manifest@, path@, print, a.entries.loc@.len(), rec)
                &&& a.loc_log@ == log_of_file(rec, a.entries, Ledger::Loc)
                &&& a.rel_log@ == log_of_file(rec, a.entries, Ledger::Rel)
                &&& a.rev_log@ == log_of_file(rec, a.entries, Ledger::Rev)
            },
        },
{
    let ghost old_m = m@;
    let mut m = m;
    let id: u32 = match find_path(&m.files, path) {
        Some(i) => m.files[i].id,
        None => {
            let id: u32 = if m.next_file_id >= 1 {
                m.next_file_id
            } else {
                1
            };
            let ghost f0 = m.files@;
            m.next_file_id = id + 1;
            m.files.push(
                FileEntry {
                    id,
                    path: owned(path),
                    size: print.0,
                    mtime_sec: print.1,
                    mtime_nsec: print.2,
                    uuid_count: 0,
                    gen: 0,
                    cur_gen: 0,
                },
            );
            assert(file_models(m.files@) =~= files_with(old_m, path@, print));
            id
        },
    };
    let ghost fs = file_models(m.files@);
    assert(fs == files_with(old_m, path@, print));
    proof {
        lemma_with_path(old_m.files, path@);
        lemma_with_id(fs, id);
        match with_path(old_m.files, path@) {
            Some(i) => {
                assert(fs[i].id == id);
            },
            None => {
                assert(fs[fs.len() - 1].id == id);
            },
        }
    }
    let entries = match scan_file(data, id) {
        Ok(e) => e,
        Err(e) => return Err(e),
    };
    let at: usize = match find_file(&m.files, id) {
        Some(i) => i,
        None => 0,
    };
    let gen: u64 = m.files[at].gen;
    assert(fs[at as int] == m.files@[at as int]@);
    let rec = FileEntry {
        id,
        path: owned(path),
        size: print.0,
        mtime_sec: print.1,
        mtime_nsec: print.2,
        uuid_count: entries.loc.len() as u64,
        gen,
        cur_gen: m.generation + 1,
    };
    let loc_log = make_log(&rec, &entries, Ledger::Loc);
    let rel_log = make_log(&rec, &entries, Ledger::Rel);
    let rev_log = make_log(&rec, &entries, Ledger::Rev);
    let ghost rm = rec@;
    m.generation = m.generation + 1;
    m.files.set(at, rec);
    assert(file_models(m.files@) =~= fs.update(at as int, rm));
    Ok(Append { manifest: m, loc_log, rel_log, rev_log, entries })
}

/// The files for which `keep` holds at their positions.
pub open spec fn kept_files(fs: Seq<SpecFile>, keep: Seq<bool>) -> Seq<SpecFile>
    decreases fs.len(),
{
    if fs.len() == 0 {
        fs
    } else {
        let r = kept_files(fs.drop_last(), keep);
        if keep[fs.len() - 1] {
            r.push(fs.last())
        } else {
            r
        }
    }
}

/// The records that take files out, one after the other.
pub open spec fn removal_records(ids: Seq<u32>) -> Seq<u8>
    decreases ids.len(),
{
    if ids.len() == 0 {
        Seq::<u8>::empty()
    } else {
        removal_records(ids.drop_last()) + record(REC_FILE_REMOVE, be(ids.last() as nat, 4))
    }
}

/// The numbers of the files for which `keep` does not hold.
pub open spec fn dropped_ids(fs: Seq<SpecFile>, keep: Seq<bool>) -> Seq<u32>
    decreases fs.len(),
{
    if fs.len() == 0 {
        Seq::<u32>::empty()
    } else {
        let r = dropped_ids(fs.drop_last(), keep);
        if keep[fs.len() - 1] {
            r
        } else {
            r.push(fs.last().id)
        }
    }
}

/// The records that take files out.
fn make_removals(ids: &Vec<u32>) -> (r: Vec<u8>)
    ensures
        r@ == removal_records(ids@),
{
    let mut out: Vec<u8> = Vec::new();
    let mut i: usize = 0;
    assert(ids@.take(0) =~= Seq::<u32>::empty());
    while i < ids.len()
        invariant
            i <= ids@.len(),
            out@ == removal_records(ids@.take(i as int)),
        decreases ids@.len() - i,
    {
        let mut p: Vec<u8> = Vec::new();
        put_be(&mut p, ids[i] as u64, 4);
        assert(p@ =~= be(ids@[i as int] as nat, 4));
        push_rec(&mut out, REC_FILE_REMOVE, p.as_slice());
        proof {
            assert(ids@.take(i + 1).drop_last() =~= ids@.take(i as int));
            assert(ids@.take(i + 1).last() == ids@[i as int]);
        }
        i = i + 1;
    }
    assert(ids@.take(ids@.len() as int) =~= ids@);
    out
}

/// What taking files out changes: the table, what every log gets, and how many
/// files were taken out.
#[derive(Debug)]
pub struct Removal {
    pub manifest: Manifest,
    pub log: Vec<u8>,
    pub removed: usize,
}

/// Takes out the files for which `keep` does not hold.
fn take_out(m: Manifest, keep: &Vec<bool>) -> (r: Removal)
    requires
        keep@.len() == m.files@.len(),
    ensures
        r.manifest@ == (SpecManifest { files: kept_files(m@.files, keep@), ..m@ }),
        r.log@ == removal_records(dropped_ids(m@.files, keep@)),
        r.removed == dropped_ids(m@.files, keep@).len(),
{
    let ghost fs = m@.files;
    let mut kept: Vec<FileEntry> = Vec::new();
    let mut ids: Vec<u32> = Vec::new();
    let mut i: usize = 0;
    assert(fs.take(0) =~= Seq::<SpecFile>::empty());
    assert(file_models(kept@) =~= kept_files(fs.take(0), keep@));
    while i < m.files.len()
        invariant
            i <= m.files@.len(),
            fs == file_models(m.files@),
            keep@.len() == m.files@.len(),
            file_models(kept@) == kept_files(fs.take(i as int), keep@),
            ids@ == dropped_ids(fs.take(i as int), keep@),
        decreases m.files@.len() - i,
    {
        proof {
            assert(fs.take(i + 1).drop_last() =~= fs.take(i as int));
            assert(fs.take(i + 1).last() == m.files@[i as int]@);
        }
        if keep[i] {
            let ghost k0 = kept@;
            kept.push(m.files[i].clone());
            assert(file_models(kept@) =~= file_models(k0).push(fs[i as int]));
        } else {
            ids.push(m.files[i].id);
        }
        i = i + 1;
    }
    assert(fs.take(fs.len() as int) =~= fs);
    let log = make_removals(&ids);
    let removed: usize = ids.len();
    let manifest = Manifest {
        generation: m.generation,
        next_file_id: m.next_file_id,
        files: kept,
        loc: m.loc,
        rel: m.rel,
        rev: m.rev,
    };
    Removal { manifest, log, removed }
}

/// Takes out the files that are no longer there.
pub fn gc(m: Manifest, exists: &Vec<bool>) -> (r: Removal)
    requires
        exists@.len() == m.files@.len(),
    ensures
        r.manifest@ == (SpecManifest { files: kept_files(m@.files, exists@), ..m@ }),
        r.log@ == removal_records(dropped_ids(m@.files, exists@)),
        r.removed == dropped_ids(m@.files, exists@).len(),
{
    take_out(m, exists)
}

/// The numbers of the files whose paths are among those given.
pub open spec fn doomed_ids(fs: Seq<SpecFile>, paths: Seq<Seq<char>>) -> Seq<u32>
    decreases fs.len(),
{
    if fs.len() == 0 {
        Seq::<u32>::empty()
    } else {
        let r = doomed_ids(fs.drop_last(), paths);
        if paths.contains(fs.last().path) {
            r.push(fs.last().id)
        } else {
            r
        }
    }
}

/// The files whose numbers are not among those given.
pub open spec fn spared(fs: Seq<SpecFile>, ids: Seq<u32>) -> Seq<SpecFile>
    decreases fs.len(),
{
    if fs.len() == 0 {
        fs
    } else {
        let r = spared(fs.drop_last(), ids);
        if ids.contains(fs.last().id) {
            r
        } else {
            r.push(fs.last())
        }
    }
}

/// Whether a number is among others.
pub fn has_number(v: &Vec<u32>, n: u32) -> (r: bool)
    ensures
        r == v@.contains(n),
{
    let mut i: usize = 0;
    while i < v.len()
        invariant
            i <= v@.len(),
            forall|j: int| 0 <= j < i ==> v@[j] != n,
        decreases v@.len() - i,
    {
        if v[i] == n {
            assert(v@[i as int] == n);
            return true;
        }
        i = i + 1;
    }
    false
}

/// Takes out the files with the paths.
pub fn forget_files(m: Manifest, paths: &Vec<String>) -> (r: Removal)
    ensures
        ({
            let ids = doomed_ids(m@.files, text_views(paths@));
            &&& r.manifest@ == (SpecManifest { files: spared(m@.files, ids), ..m@ })
            &&& r.log@ == removal_records(ids)
            &&& r.removed == ids.len()
        }),
{
    let ghost fs = m@.files;
    let ghost ps = text_views(paths@);
    let mut ids: Vec<u32> = Vec::new();
    let mut i: usize = 0;
    assert(fs.take(0) =~= Seq::<SpecFile>::empty());
    while i < m.files.len()
        invariant
            i <= m.files@.len(),
            fs == file_models(m.files@),
            ps == text_views(paths@),
            ids@ == doomed_ids(fs.take(i as int), ps),
        decreases m.files@.len() - i,
    {
        proof {
            assert(fs.take(i + 1).drop_last() =~= fs.take(i as int));
            assert(fs.take(i + 1).last() == m.files@[i as int]@);
        }
        if crate::catalog::has_text(paths, m.files[i].path.as_str()) {
            ids.push(m.files[i].id);
        }
        i = i + 1;
    }
    assert(fs.take(fs.len() as int) =~= fs);
    let mut kept: Vec<FileEntry> = Vec::new();
    let mut k: usize = 0;
    assert(file_models(kept@) =~= spared(fs.take(0), ids@));
    while k < m.files.len()
        invariant
            k <= m.files@.len(),
            fs == file_models(m.files@),
            file_models(kept@) == spared(fs.take(k as int), ids@),
        decreases m.files@.len() - k,
    {
        proof {
            assert(fs.take(k + 1).drop_last() =~= fs.take(k as int));
            assert(fs.take(k + 1).last() == m.files@[k as int]@);
        }
        if !has_number(&ids, m.files[k].id) {
            let ghost k0 = kept@;
            kept.push(m.files[k].clone());
            assert(file_models(kept@) =~= file_models(k0).push(fs[k as int]));
        }
        k = k + 1;
    }
    let log = make_removals(&ids);
    let removed: usize = ids.len();
    let manifest = Manifest {
        generation: m.generation,
        next_file_id: m.next_file_id,
        files: kept,
        loc: m.loc,
        rel: m.rel,
        rev: m.rev,
    };
    Removal { manifest, log, removed }
}

// ---------------------------------------------------------------------------
// The state of an index
// ---------------------------------------------------------------------------

/// Whether a file is as it was when it was indexed.
pub open spec fn is_current(f: SpecFile, now: Option<Print>) -> bool {
    now == Some((f.size, f.sec, f.nsec))
}

/// Whether a file is as it was when it was indexed.
pub fn file_current(f: &FileEntry, now: Option<Print>) -> (r: bool)
    ensures
        r == is_current(f@, now),
{
    match now {
        Some(p) => p.0 == f.size && p.1 == f.mtime_sec && p.2 == f.mtime_nsec,
        None => false,
    }
}

/// The numbers of a list, summed.
pub open spec fn sum(s: Seq<u64>) -> int
    decreases s.len(),
{
    if s.len() == 0 {
        0
    } else {
        sum(s.drop_last()) + s.last()
    }
}

/// The node counts of files.
pub open spec fn counts(fs: Seq<SpecFile>) -> Seq<u64> {
    Seq::new(fs.len(), |i: int| fs[i].count)
}

/// The entry counts of blocks.
pub open spec fn block_counts(bs: Seq<SpecBlock>) -> Seq<u64> {
    Seq::new(bs.len(), |i: int| bs[i].count)
}

/// The numbers of a list, summed; `None` where the sum takes more than 64 bits.
fn checked_sum(v: &Vec<u64>) -> (r: Option<u64>)
    ensures
        match r {
            Some(n) => n == sum(v@),
            None => sum(v@) > u64::MAX,
        },
{
    let mut n: u64 = 0;
    let mut i: usize = 0;
    assert(v@.take(0) =~= Seq::<u64>::empty());
    while i < v.len()
        invariant
            i <= v@.len(),
            n == sum(v@.take(i as int)),
        decreases v@.len() - i,
    {
        proof {
            assert(v@.take(i + 1).drop_last() =~= v@.take(i as int));
            lemma_sum_grows(v@, i + 1);
        }
        if v[i] > u64::MAX - n {
            return None;
        }
        n = n + v[i];
        i = i + 1;
    }
    assert(v@.take(v@.len() as int) =~= v@);
    Some(n)
}

proof fn lemma_sum_grows(s: Seq<u64>, i: int)
    requires
        0 <= i <= s.len(),
    ensures
        sum(s.take(i)) <= sum(s),
    decreases s.len() - i,
{
    if i < s.len() {
        lemma_sum_grows(s, i + 1);
        assert(s.take(i + 1).drop_last() =~= s.take(i));
    } else {
        assert(s.take(i) =~= s);
    }
}

/// The state of an index.
#[derive(Debug)]
pub struct Status {
    pub version: u8,
    pub generation: u64,
    pub files: usize,
    pub uuid_total: u64,
    pub loc_blocks: usize,
    pub rel_blocks: usize,
    pub rev_blocks: usize,
    pub loc_entries: u64,
    pub rel_entries: u64,
    pub rev_entries: u64,
    pub log_bytes: u64,
    pub base_bytes: u64,
    /// The size of the directory that keeps the index.
    pub index_bytes: u64,
    pub stale_files: Vec<String>,
    pub need_compact: bool,
}

/// The paths of the files that are not as they were when they were indexed.
pub open spec fn stale_paths(fs: Seq<SpecFile>, now: Seq<Option<Print>>) -> Seq<Seq<char>>
    decreases fs.len(),
{
    if fs.len() == 0 {
        Seq::<Seq<char>>::empty()
    } else {
        let r = stale_paths(fs.drop_last(), now);
        if is_current(fs.last(), now[fs.len() - 1]) {
            r
        } else {
            r.push(fs.last().path)
        }
    }
}

/// Whether the sums in the state of an index take no more than 64 bits.
pub open spec fn totals_fit(m: SpecManifest) -> bool {
    &&& sum(counts(m.files)) <= u64::MAX
    &&& sum(block_counts(m.loc.blocks)) <= u64::MAX
    &&& sum(block_counts(m.rel.blocks)) <= u64::MAX
    &&& sum(block_counts(m.rev.blocks)) <= u64::MAX
    &&& m.loc.log_bytes + m.rel.log_bytes + m.rev.log_bytes <= u64::MAX
    &&& m.loc.base_bytes + m.rel.base_bytes + m.rev.base_bytes <= u64::MAX
}

/// Whether a state is that of the index.
pub open spec fn is_status(
    s: Status,
    m: SpecManifest,
    now: Seq<Option<Print>>,
    index_bytes: u64,
    past_share: bool,
) -> bool {
    &&& s.version == VERSION
    &&& s.generation == m.generation
    &&& s.files == m.files.len()
    &&& s.uuid_total == sum(counts(m.files))
    &&& s.loc_blocks == m.loc.blocks.len()
    &&& s.rel_blocks == m.rel.blocks.len()
    &&& s.rev_blocks == m.rev.blocks.len()
    &&& s.loc_entries == sum(block_counts(m.loc.blocks))
    &&& s.rel_entries == sum(block_counts(m.rel.blocks))
    &&& s.rev_entries == sum(block_counts(m.rev.blocks))
    &&& s.log_bytes == m.loc.log_bytes + m.rel.log_bytes + m.rev.log_bytes
    &&& s.base_bytes == m.loc.base_bytes + m.rel.base_bytes + m.rev.base_bytes
    &&& s.index_bytes == index_bytes
    &&& text_views(s.stale_files@) == stale_paths(m.files, now)
    &&& s.need_compact == (s.base_bytes >= 1_000_000 && past_share)
}

/// Adds three numbers; `None` where the sum takes more than 64 bits.
fn add_three(a: u64, b: u64, c: u64) -> (r: Option<u64>)
    ensures
        match r {
            Some(n) => n == a + b + c,
            None => a + b + c > u64::MAX,
        },
{
    let n: u128 = a as u128 + b as u128 + c as u128;
    if n > u64::MAX as u128 {
        None
    } else {
        Some(n as u64)
    }
}

/// The entry counts of the blocks of a ledger, summed.
fn entry_sum(l: &LedgerInfo) -> (r: Option<u64>)
    ensures
        match r {
            Some(n) => n == sum(block_counts(l@.blocks)),
            None => sum(block_counts(l@.blocks)) > u64::MAX,
        },
{
    let mut v: Vec<u64> = Vec::new();
    let mut i: usize = 0;
    while i < l.blocks.len()
        invariant
            i <= l.blocks@.len(),
            v@.len() == i,
            forall|k: int| 0 <= k < i ==> #[trigger] v@[k] == l.blocks@[k].count,
        decreases l.blocks@.len() - i,
    {
        v.push(l.blocks[i].count);
        i = i + 1;
    }
    assert(v@ =~= block_counts(l@.blocks));
    checked_sum(&v)
}

/// The state of an index, given what its files are now and whether its logs are past
/// their share of its blocks; `None` where a sum takes more than 64 bits.
pub fn status(m: &Manifest, now: &Vec<Option<Print>>, past_share: bool) -> (r: Option<Status>)
    requires
        now@.len() == m.files@.len(),
    ensures
        r is Some <==> totals_fit(m@),
        r is Some ==> is_status(r->Some_0, m@, now@, 0, past_share),
{
    let ghost fs = m@.files;
    let base_bytes: u64 = match add_three(m.loc.base_bytes, m.rel.base_bytes, m.rev.base_bytes) {
        Some(n) => n,
        None => return None,
    };
    let log_bytes: u64 = match add_three(m.loc.log_bytes, m.rel.log_bytes, m.rev.log_bytes) {
        Some(n) => n,
        None => return None,
    };
    let loc_entries: u64 = match entry_sum(&m.loc) {
        Some(n) => n,
        None => return None,
    };
    let rel_entries: u64 = match entry_sum(&m.rel) {
        Some(n) => n,
        None => return None,
    };
    let rev_entries: u64 = match entry_sum(&m.rev) {
        Some(n) => n,
        None => return None,
    };
    let mut v: Vec<u64> = Vec::new();
    let mut stale: Vec<String> = Vec::new();
    let mut i: usize = 0;
    assert(fs.take(0) =~= Seq::<SpecFile>::empty());
    assert(text_views(stale@) =~= stale_paths(fs.take(0), now@));
    while i < m.files.len()
        invariant
            i <= m.files@.len(),
            fs == file_models(m.files@),
            now@.len() == m.files@.len(),
            v@.len() == i,
            forall|k: int| 0 <= k < i ==> #[trigger] v@[k] == m.files@[k].uuid_count,
            text_views(stale@) == stale_paths(fs.take(i as int), now@),
        decreases m.files@.len() - i,
    {
        proof {
            assert(fs.take(i + 1).drop_last() =~= fs.take(i as int));
            assert(fs.take(i + 1).last() == m.files@[i as int]@);
        }
        v.push(m.files[i].uuid_count);
        if !file_current(&m.files[i], now[i]) {
            let ghost s0 = stale@;
            stale.push(m.files[i].path.clone());
            assert(text_views(stale@) =~= text_views(s0).push(m.files@[i as int].path@));
        }
        i = i + 1;
    }
    assert(fs.take(fs.len() as int) =~= fs);
    assert(v@ =~= counts(fs));
    let uuid_total: u64 = match checked_sum(&v) {
        Some(n) => n,
        None => return None,
    };
    Some(
        Status {
            version: VERSION,
            generation: m.generation,
            files: m.files.len(),
            uuid_total,
            loc_blocks: m.loc.blocks.len(),
            rel_blocks: m.rel.blocks.len(),
            rev_blocks: m.rev.blocks.len(),
            loc_entries,
            rel_entries,
            rev_entries,
            log_bytes,
            base_bytes,
            index_bytes: 0,
            stale_files: stale,
            need_compact: base_bytes >= 1_000_000 && past_share,
        },
    )
}

/// The state of an index with the size of its directory.
pub fn info(m: &Manifest, now: &Vec<Option<Print>>, index_bytes: u64, past_share: bool) -> (r:
    Option<Status>)
    requires
        now@.len() == m.files@.len(),
    ensures
        r is Some <==> totals_fit(m@),
        r is Some ==> is_status(r->Some_0, m@, now@, index_bytes, past_share),
{
    match status(m, now, past_share) {
        Some(s) => {
            let mut s = s;
            s.index_bytes = index_bytes;
            Some(s)
        },
        None => None,
    }
}

/// Whether the index wants to be compacted, given the least size for it and whether
/// its logs are past their share: the size of the logs if so.
pub fn maintenance_needed(m: &Manifest, min_bytes: u64, past_share: bool) -> (r: Option<u64>)
    requires
        m.loc.base_bytes + m.rel.base_bytes + m.rev.base_bytes <= u64::MAX,
        m.loc.log_bytes + m.rel.log_bytes + m.rev.log_bytes <= u64::MAX,
    ensures
        r == (if m.loc.base_bytes + m.rel.base_bytes + m.rev.base_bytes >= min_bytes && past_share {
            Some((m.loc.log_bytes + m.rel.log_bytes + m.rev.log_bytes) as u64)
        } else {
            None
        }),
{
    let base: u64 = m.loc.base_bytes + m.rel.base_bytes + m.rev.base_bytes;
    let log: u64 = m.loc.log_bytes + m.rel.log_bytes + m.rev.log_bytes;
    if base >= min_bytes && past_share {
        Some(log)
    } else {
        None
    }
}

/// Whether the setting `XIRANG_INDEX_MAINTENANCE` leaves maintenance on.
pub fn maintenance_enabled(setting: Option<&str>) -> (r: bool)
    ensures
        r == (match crate::backend::opt_view(setting) {
            Some(s) => !(s == "off"@ || s == "0"@ || s == "false"@ || s == "no"@),
            None => true,
        }),
{
    match setting {
        Some(s) => !(same_text(s, "off") || same_text(s, "0") || same_text(s, "false") || same_text(
            s,
            "no",
        )),
        None => true,
    }
}

/// How a covered file stands.
#[derive(Debug)]
pub struct FileStatus {
    pub path: String,
    pub entries: u64,
    /// The generation of its entries in the blocks.
    pub gen: u64,
    pub cur_gen: u64,
    pub exists: bool,
    pub fresh: bool,
}

/// What the standing of a file is: the model of [`FileStatus`].
pub struct SpecStatus {
    pub path: Seq<char>,
    pub entries: u64,
    pub gen: u64,
    pub cur: u64,
    pub exists: bool,
    pub fresh: bool,
}

impl View for FileStatus {
    type V = SpecStatus;

    open spec fn view(&self) -> SpecStatus {
        SpecStatus {
            path: self.path@,
            entries: self.entries,
            gen: self.gen,
            cur: self.cur_gen,
            exists: self.exists,
            fresh: self.fresh,
        }
    }
}

/// The models of the standings of files.
pub open spec fn status_models(s: Seq<FileStatus>) -> Seq<SpecStatus> {
    Seq::new(s.len(), |i: int| s[i]@)
}

/// How the covered files stand.
pub open spec fn standings(
    fs: Seq<SpecFile>,
    now: Seq<Option<Print>>,
    exists_now: Seq<bool>,
) -> Seq<SpecStatus> {
    Seq::new(
        fs.len(),
        |i: int|
            SpecStatus {
                path: fs[i].path,
                entries: fs[i].count,
                gen: fs[i].gen,
                cur: fs[i].cur,
                exists: exists_now[i],
                fresh: exists_now[i] && is_current(fs[i], now[i]),
            },
    )
}

/// The keys of standings: the paths.
pub open spec fn standing_keys(s: Seq<SpecStatus>) -> Seq<Seq<u8>> {
    Seq::new(s.len(), |i: int| encode_utf8(s[i].path))
}

/// How the covered files stand, by path.
pub fn files_status(m: &Manifest, now: &Vec<Option<Print>>, exists_now: &Vec<bool>) -> (r: Vec<
    FileStatus,
>)
    requires
        now@.len() == m.files@.len(),
        exists_now@.len() == m.files@.len(),
    ensures
        ({
            let s = standings(m@.files, now@, exists_now@);
            status_models(r@) == sorted(s, standing_keys(s))
        }),
{
    let ghost fs = m@.files;
    let ghost want = standings(fs, now@, exists_now@);
    let mut keys: Vec<Vec<u8>> = Vec::new();
    let mut i: usize = 0;
    while i < m.files.len()
        invariant
            i <= m.files@.len(),
            fs == file_models(m.files@),
            want == standings(fs, now@, exists_now@),
            keys@.len() == i,
            forall|k: int| 0 <= k < i ==> (#[trigger] keys@[k])@ == standing_keys(want)[k],
        decreases m.files@.len() - i,
    {
        let b = m.files[i].path.as_str().as_bytes();
        let key = sub_bytes(b, 0, b.len());
        assert(key@ =~= standing_keys(want)[i as int]);
        keys.push(key);
        i = i + 1;
    }
    assert(key_views(keys@) =~= standing_keys(want));
    let pos = order(&keys);
    let ghost p = crate::model::ints(pos@);
    let ghost arr = arranged(want, p);
    let mut out: Vec<FileStatus> = Vec::new();
    let mut k: usize = 0;
    assert(status_models(out@) =~= arr.take(0));
    while k < pos.len()
        invariant
            k <= pos@.len(),
            p == crate::model::ints(pos@),
            fs == file_models(m.files@),
            want == standings(fs, now@, exists_now@),
            arr == arranged(want, p),
            now@.len() == m.files@.len(),
            exists_now@.len() == m.files@.len(),
            forall|j: int| 0 <= j < pos@.len() ==> #[trigger] pos@[j] < m.files@.len(),
            status_models(out@) == arr.take(k as int),
        decreases pos@.len() - k,
    {
        let x: usize = pos[k];
        let f = &m.files[x];
        let ghost o0 = out@;
        out.push(
            FileStatus {
                path: f.path.clone(),
                entries: f.uuid_count,
                gen: f.gen,
                cur_gen: f.cur_gen,
                exists: exists_now[x],
                fresh: exists_now[x] && file_current(f, now[x]),
            },
        );
        proof {
            assert(p[k as int] == x);
            assert(status_models(out@) =~= status_models(o0).push(want[x as int]));
            assert(arr.take(k + 1) =~= arr.take(k as int).push(want[x as int]));
        }
        k = k + 1;
    }
    proof {
        assert(arr.take(arr.len() as int) =~= arr);
        crate::sort::lemma_sorted_is(want, standing_keys(want), p);
    }
    out
}

/// The paths of the files that want to be indexed anew: those that are there and
/// changed.
pub open spec fn wanting(s: Seq<SpecStatus>) -> Seq<Seq<char>>
    decreases s.len(),
{
    if s.len() == 0 {
        Seq::<Seq<char>>::empty()
    } else {
        let r = wanting(s.drop_last());
        if s.last().exists && !s.last().fresh {
            r.push(s.last().path)
        } else {
            r
        }
    }
}

/// The paths of the files that an update indexes anew.
pub fn update(files: &Vec<FileStatus>) -> (r: Vec<String>)
    ensures
        text_views(r@) == wanting(status_models(files@)),
{
    let ghost s = status_models(files@);
    let mut out: Vec<String> = Vec::new();
    let mut i: usize = 0;
    assert(s.take(0) =~= Seq::<SpecStatus>::empty());
    assert(text_views(out@) =~= wanting(s.take(0)));
    while i < files.len()
        invariant
            i <= files@.len(),
            s == status_models(files@),
            text_views(out@) == wanting(s.take(i as int)),
        decreases files@.len() - i,
    {
        proof {
            assert(s.take(i + 1).drop_last() =~= s.take(i as int));
            assert(s.take(i + 1).last() == files@[i as int]@);
        }
        if files[i].exists && !files[i].fresh {
            let ghost o0 = out@;
            out.push(files[i].path.clone());
            assert(text_views(out@) =~= text_views(o0).push(files@[i as int].path@));
        }
        i = i + 1;
    }
    assert(s.take(s.len() as int) =~= s);
    out
}

/// Why a new index is not put in place when `n` files changed while it was built.
pub open spec fn changed_message(n: nat) -> Seq<char> {
    "本次跳过压实："@ + decimal(n) + " 个文件在扫描期间被改动，稍后重试"@
}

/// Whether every file is as it was when it was indexed.
pub open spec fn all_current(fs: Seq<SpecFile>, now: Seq<Option<Print>>) -> bool {
    forall|i: int| 0 <= i < fs.len() ==> is_current(#[trigger] fs[i], now[i])
}

/// Puts an index that was built anew in the place of one with logs, unless files
/// changed: `changed` of them while it was built, or since then. The logs start
/// anew.
pub fn compact(prepared: Prepared, changed: u64, now: &Vec<Option<Print>>) -> (r: Result<
    Prepared,
    String,
>)
    requires
        now@.len() == prepared.manifest.files@.len(),
    ensures
        match r {
            Ok(p) => {
                let m = prepared.manifest@;
                let n = prefix_len() as u64;
                &&& changed == 0
                &&& all_current(m.files, now@)
                &&& p.manifest@ == (SpecManifest {
                    loc: SpecLedger { log_bytes: n, ..m.loc },
                    rel: SpecLedger { log_bytes: n, ..m.rel },
                    rev: SpecLedger { log_bytes: n, ..m.rev },
                    ..m
                })
                &&& p.loc_files == prepared.loc_files
                &&& p.rel_files == prepared.rel_files
                &&& p.rev_files == prepared.rev_files
                &&& p.stats == prepared.stats
            },
            Err(e) => if changed > 0 {
                e@ == changed_message(changed as nat)
            } else {
                &&& !all_current(prepared.manifest@.files, now@)
                &&& e@ == "本次跳过压实：扫描结束后又有文件被改动，稍后重试"@
            },
        },
{
    if changed > 0 {
        return Err(
            join3(
                "本次跳过压实：",
                decimal_text(changed).as_str(),
                " 个文件在扫描期间被改动，稍后重试",
            ),
        );
    }
    let ghost fs = prepared.manifest@.files;
    let mut i: usize = 0;
    while i < prepared.manifest.files.len()
        invariant
            i <= prepared.manifest.files@.len(),
            fs == prepared.manifest@.files,
            changed == 0,
            now@.len() == prepared.manifest.files@.len(),
            forall|k: int| 0 <= k < i ==> is_current(#[trigger] fs[k], now@[k]),
        decreases prepared.manifest.files@.len() - i,
    {
        assert(fs[i as int] == prepared.manifest.files@[i as int]@);
        if !file_current(&prepared.manifest.files[i], now[i]) {
            assert(!is_current(fs[i as int], now@[i as int]));
            return Err(owned("本次跳过压实：扫描结束后又有文件被改动，稍后重试"));
        }
        i = i + 1;
    }
    let n: usize = fixed_prefix_len();
    let mut p = prepared;
    p.manifest.loc.log_bytes = n as u64;
    p.manifest.rel.log_bytes = n as u64;
    p.manifest.rev.log_bytes = n as u64;
    Ok(p)
}

/// Puts an index that was built anew in the place of one with logs, whatever files did
/// meanwhile: those that changed are told by their prints. The logs start anew.
pub fn rebuild(prepared: Prepared) -> (p: Prepared)
    ensures
        ({
            let m = prepared.manifest@;
            let n = prefix_len() as u64;
            &&& p.manifest@ == (SpecManifest {
                loc: SpecLedger { log_bytes: n, ..m.loc },
                rel: SpecLedger { log_bytes: n, ..m.rel },
                rev: SpecLedger { log_bytes: n, ..m.rev },
                ..m
            })
            &&& p.loc_files == prepared.loc_files
            &&& p.rel_files == prepared.rel_files
            &&& p.rev_files == prepared.rev_files
            &&& p.stats == (Stats { log_bytes: (3 * n) as u64, ..prepared.stats })
        }),
{
    let n: usize = fixed_prefix_len();
    let mut p = prepared;
    p.manifest.loc.log_bytes = n as u64;
    p.manifest.rel.log_bytes = n as u64;
    p.manifest.rev.log_bytes = n as u64;
    proof {
        lemma_header_len();
    }
    p.stats.log_bytes = 3 * n as u64;
    p
}

/// The log of a ledger that holds nothing yet.
pub fn new_log(kind: Ledger) -> (r: Vec<u8>)
    ensures
        r@ == prefix(kind.code(), Part::Log),
{
    let mut o: Vec<u8> = Vec::new();
    write_prefix(&mut o, kind.byte(), Part::Log);
    assert(o@ =~= prefix(kind.code(), Part::Log));
    o
}

// ---------------------------------------------------------------------------
// Laws of which files count
// ---------------------------------------------------------------------------

/// A file is current exactly if it is there with the size and the time that were recorded.
pub proof fn a_print_tells_a_file(f: SpecFile, now: Option<Print>)
    ensures
        is_current(f, now) <==> now is Some && now->Some_0.0 == f.size && now->Some_0.1 == f.sec
            && now->Some_0.2 == f.nsec,
{
}

/// A file that is recorded keeps its number; one that is not gets the next, and none is
/// recorded twice.
pub proof fn files_keep_their_numbers(m: SpecManifest, path: Seq<char>, print: Print, i: int)
    requires
        0 <= i < m.files.len(),
    ensures
        m.files[i].path == path && (forall|j: int| 0 <= j < i ==> (#[trigger] m.files[j]).path
            != path) ==> number_for(m, path) == m.files[i].id && files_with(m, path, print)
            == m.files,
        (forall|j: int| 0 <= j < m.files.len() ==> (#[trigger] m.files[j]).path != path) ==> ({
            let fs = files_with(m, path, print);
            &&& fs.len() == m.files.len() + 1
            &&& fs.take(m.files.len() as int) == m.files
            &&& fs.last().path == path && fs.last().id == number_for(m, path)
            &&& fs.last().size == print.0 && fs.last().sec == print.1 && fs.last().nsec == print.2
            &&& m.next_id > 0 ==> number_for(m, path) == m.next_id
        }),
{
    lemma_with_path(m.files, path);
    if let Some(k) = with_path(m.files, path) {
        if m.files[i].path == path && k < i {
            assert(m.files[k].path == path);
        }
    } else {
        let fs = files_with(m, path, print);
        assert(fs.take(m.files.len() as int) =~= m.files);
    }
}

/// How a file stands: there or not, and fresh exactly if it is there and current.
pub proof fn standings_tell_each_file(
    fs: Seq<SpecFile>,
    now: Seq<Option<Print>>,
    exists_now: Seq<bool>,
    i: int,
)
    requires
        0 <= i < fs.len(),
    ensures
        ({
            let s = standings(fs, now, exists_now);
            &&& s.len() == fs.len()
            &&& s[i].path == fs[i].path && s[i].entries == fs[i].count && s[i].gen == fs[i].gen
                && s[i].cur == fs[i].cur
            &&& s[i].exists <==> exists_now[i]
            &&& s[i].fresh <==> exists_now[i] && now[i] == Some(
                (fs[i].size, fs[i].sec, fs[i].nsec),
            )
        }),
{
}

/// The files that are kept are those that are marked, all of them in order.
pub proof fn files_to_keep_are_kept(fs: Seq<SpecFile>, keep: Seq<bool>) -> (at: Seq<int>)
    ensures
        at.len() == kept_files(fs, keep).len(),
        forall|x: int|
            0 <= x < at.len() ==> 0 <= #[trigger] at[x] < fs.len() && kept_files(fs, keep)[x] == fs[at[x]]
                && keep[at[x]],
        forall|x: int, y: int| 0 <= x < y < at.len() ==> #[trigger] at[x] < #[trigger] at[y],
        forall|i: int| 0 <= i < fs.len() && #[trigger] keep[i] ==> at.contains(i),
    decreases fs.len(),
{
    if fs.len() == 0 {
        Seq::empty()
    } else {
        let d = fs.drop_last();
        let rest = files_to_keep_are_kept(d, keep);
        let at = if keep[fs.len() - 1] {
            rest.push(fs.len() - 1)
        } else {
            rest
        };
        assert forall|i: int| 0 <= i < fs.len() && #[trigger] keep[i] implies at.contains(i) by {
            if i < d.len() {
                assert(d[i] == fs[i]);
                let x = choose|x: int| 0 <= x < rest.len() && rest[x] == i;
                assert(at[x] == i);
            } else {
                assert(at[rest.len() as int] == i);
            }
        }
        assert forall|x: int| 0 <= x < at.len() implies 0 <= #[trigger] at[x] < fs.len()
            && kept_files(fs, keep)[x] == fs[at[x]] && keep[at[x]] by {
            if x < rest.len() {
                assert(at[x] == rest[x]);
                assert(d[rest[x]] == fs[rest[x]]);
            }
        }
        at
    }
}

/// The numbers that are dropped are those of the files that are not marked, all of them in
/// order.
pub proof fn files_not_kept_are_dropped(fs: Seq<SpecFile>, keep: Seq<bool>) -> (at: Seq<int>)
    ensures
        at.len() == dropped_ids(fs, keep).len(),
        forall|x: int|
            0 <= x < at.len() ==> 0 <= #[trigger] at[x] < fs.len() && dropped_ids(fs, keep)[x] == fs[at[x]].id
                && !keep[at[x]],
        forall|x: int, y: int| 0 <= x < y < at.len() ==> #[trigger] at[x] < #[trigger] at[y],
        forall|i: int| 0 <= i < fs.len() && !#[trigger] keep[i] ==> at.contains(i),
    decreases fs.len(),
{
    if fs.len() == 0 {
        Seq::empty()
    } else {
        let d = fs.drop_last();
        let rest = files_not_kept_are_dropped(d, keep);
        let at = if !keep[fs.len() - 1] {
            rest.push(fs.len() - 1)
        } else {
            rest
        };
        assert forall|i: int| 0 <= i < fs.len() && !#[trigger] keep[i] implies at.contains(i) by {
            if i < d.len() {
                assert(d[i] == fs[i]);
                let x = choose|x: int| 0 <= x < rest.len() && rest[x] == i;
                assert(at[x] == i);
            } else {
                assert(at[rest.len() as int] == i);
            }
        }
        assert forall|x: int| 0 <= x < at.len() implies 0 <= #[trigger] at[x] < fs.len()
            && dropped_ids(fs, keep)[x] == fs[at[x]].id && !keep[at[x]] by {
            if x < rest.len() {
                assert(at[x] == rest[x]);
                assert(d[rest[x]] == fs[rest[x]]);
            }
        }
        at
    }
}

/// The numbers that are to go are those of the files with one of the paths, all of them in order.
pub proof fn files_with_the_paths_are_doomed(fs: Seq<SpecFile>, paths: Seq<Seq<char>>) -> (at: Seq<int>)
    ensures
        at.len() == doomed_ids(fs, paths).len(),
        forall|x: int|
            0 <= x < at.len() ==> 0 <= #[trigger] at[x] < fs.len() && doomed_ids(fs, paths)[x] == fs[at[x]].id
                && paths.contains(fs[at[x]].path),
        forall|x: int, y: int| 0 <= x < y < at.len() ==> #[trigger] at[x] < #[trigger] at[y],
        forall|i: int| 0 <= i < fs.len() && paths.contains((#[trigger] fs[i]).path) ==> at.contains(i),
    decreases fs.len(),
{
    if fs.len() == 0 {
        Seq::empty()
    } else {
        let d = fs.drop_last();
        let rest = files_with_the_paths_are_doomed(d, paths);
        let at = if paths.contains(fs[fs.len() - 1].path) {
            rest.push(fs.len() - 1)
        } else {
            rest
        };
        assert forall|i: int| 0 <= i < fs.len() && paths.contains((#[trigger] fs[i]).path) implies at.contains(i) by {
            if i < d.len() {
                assert(d[i] == fs[i]);
                let x = choose|x: int| 0 <= x < rest.len() && rest[x] == i;
                assert(at[x] == i);
            } else {
                assert(at[rest.len() as int] == i);
            }
        }
        assert forall|x: int| 0 <= x < at.len() implies 0 <= #[trigger] at[x] < fs.len()
            && doomed_ids(fs, paths)[x] == fs[at[x]].id && paths.contains(fs[at[x]].path) by {
            if x < rest.len() {
                assert(at[x] == rest[x]);
                assert(d[rest[x]] == fs[rest[x]]);
            }
        }
        at
    }
}

/// The files that are spared are those with none of the numbers, all of them in order.
pub proof fn other_files_are_spared(fs: Seq<SpecFile>, ids: Seq<u32>) -> (at: Seq<int>)
    ensures
        at.len() == spared(fs, ids).len(),
        forall|x: int|
            0 <= x < at.len() ==> 0 <= #[trigger] at[x] < fs.len() && spared(fs, ids)[x] == fs[at[x]]
                && !ids.contains(fs[at[x]].id),
        forall|x: int, y: int| 0 <= x < y < at.len() ==> #[trigger] at[x] < #[trigger] at[y],
        forall|i: int| 0 <= i < fs.len() && !ids.contains((#[trigger] fs[i]).id) ==> at.contains(i),
    decreases fs.len(),
{
    if fs.len() == 0 {
        Seq::empty()
    } else {
        let d = fs.drop_last();
        let rest = other_files_are_spared(d, ids);
        let at = if !ids.contains(fs[fs.len() - 1].id) {
            rest.push(fs.len() - 1)
        } else {
            rest
        };
        assert forall|i: int| 0 <= i < fs.len() && !ids.contains((#[trigger] fs[i]).id) implies at.contains(i) by {
            if i < d.len() {
                assert(d[i] == fs[i]);
                let x = choose|x: int| 0 <= x < rest.len() && rest[x] == i;
                assert(at[x] == i);
            } else {
                assert(at[rest.len() as int] == i);
            }
        }
        assert forall|x: int| 0 <= x < at.len() implies 0 <= #[trigger] at[x] < fs.len()
            && spared(fs, ids)[x] == fs[at[x]] && !ids.contains(fs[at[x]].id) by {
            if x < rest.len() {
                assert(at[x] == rest[x]);
                assert(d[rest[x]] == fs[rest[x]]);
            }
        }
        at
    }
}

/// The paths that are stale are those of the files that are gone or have another size or time,
/// all of them in order.
pub proof fn changed_files_are_stale(fs: Seq<SpecFile>, now: Seq<Option<Print>>) -> (at: Seq<int>)
    ensures
        at.len() == stale_paths(fs, now).len(),
        forall|x: int|
            0 <= x < at.len() ==> 0 <= #[trigger] at[x] < fs.len() && stale_paths(fs, now)[x] == fs[at[x]].path
                && now[at[x]] != Some((fs[at[x]].size, fs[at[x]].sec, fs[at[x]].nsec)),
        forall|x: int, y: int| 0 <= x < y < at.len() ==> #[trigger] at[x] < #[trigger] at[y],
        forall|i: int| 0 <= i < fs.len() && #[trigger] now[i] != Some((fs[i].size, fs[i].sec, fs[i].nsec)) ==> at.contains(i),
    decreases fs.len(),
{
    if fs.len() == 0 {
        Seq::empty()
    } else {
        let d = fs.drop_last();
        let rest = changed_files_are_stale(d, now);
        let at = if now[fs.len() - 1] != Some((fs[fs.len() - 1].size, fs[fs.len() - 1].sec, fs[fs.len() - 1].nsec)) {
            rest.push(fs.len() - 1)
        } else {
            rest
        };
        assert forall|i: int| 0 <= i < fs.len() && #[trigger] now[i] != Some((fs[i].size, fs[i].sec, fs[i].nsec)) implies at.contains(i) by {
            if i < d.len() {
                assert(d[i] == fs[i]);
                let x = choose|x: int| 0 <= x < rest.len() && rest[x] == i;
                assert(at[x] == i);
            } else {
                assert(at[rest.len() as int] == i);
            }
        }
        assert forall|x: int| 0 <= x < at.len() implies 0 <= #[trigger] at[x] < fs.len()
            && stale_paths(fs, now)[x] == fs[at[x]].path && now[at[x]] != Some((fs[at[x]].size, fs[at[x]].sec, fs[at[x]].nsec)) by {
            if x < rest.len() {
                assert(at[x] == rest[x]);
                assert(d[rest[x]] == fs[rest[x]]);
            }
        }
        at
    }
}

/// The paths that want an update are those of the files that are there and not fresh, all of
/// them in order.
pub proof fn files_that_are_there_and_not_fresh_are_wanting(s: Seq<SpecStatus>) -> (at: Seq<int>)
    ensures
        at.len() == wanting(s).len(),
        forall|x: int|
            0 <= x < at.len() ==> 0 <= #[trigger] at[x] < s.len() && wanting(s)[x] == s[at[x]].path
                && s[at[x]].exists && !s[at[x]].fresh,
        forall|x: int, y: int| 0 <= x < y < at.len() ==> #[trigger] at[x] < #[trigger] at[y],
        forall|i: int| 0 <= i < s.len() && (#[trigger] s[i]).exists && !s[i].fresh ==> at.contains(i),
    decreases s.len(),
{
    if s.len() == 0 {
        Seq::empty()
    } else {
        let d = s.drop_last();
        let rest = files_that_are_there_and_not_fresh_are_wanting(d);
        let at = if s[s.len() - 1].exists && !s[s.len() - 1].fresh {
            rest.push(s.len() - 1)
        } else {
            rest
        };
        assert forall|i: int| 0 <= i < s.len() && (#[trigger] s[i]).exists && !s[i].fresh implies at.contains(i) by {
            if i < d.len() {
                assert(d[i] == s[i]);
                let x = choose|x: int| 0 <= x < rest.len() && rest[x] == i;
                assert(at[x] == i);
            } else {
                assert(at[rest.len() as int] == i);
            }
        }
        assert forall|x: int| 0 <= x < at.len() implies 0 <= #[trigger] at[x] < s.len()
            && wanting(s)[x] == s[at[x]].path && s[at[x]].exists && !s[at[x]].fresh by {
            if x < rest.len() {
                assert(at[x] == rest[x]);
                assert(d[rest[x]] == s[rest[x]]);
            }
        }
        at
    }
}

/// The targets that are taken are those that are there, all of them in order.
pub proof fn targets_that_are_there_are_taken(ts: Seq<Target>) -> (at: Seq<int>)
    ensures
        at.len() == present(ts).len(),
        forall|x: int|
            0 <= x < at.len() ==> 0 <= #[trigger] at[x] < ts.len() && present(ts)[x] == ts[at[x]]
                && ts[at[x]].print is Some,
        forall|x: int, y: int| 0 <= x < y < at.len() ==> #[trigger] at[x] < #[trigger] at[y],
        forall|i: int| 0 <= i < ts.len() && (#[trigger] ts[i]).print is Some ==> at.contains(i),
    decreases ts.len(),
{
    if ts.len() == 0 {
        Seq::empty()
    } else {
        let d = ts.drop_last();
        let rest = targets_that_are_there_are_taken(d);
        let at = if ts[ts.len() - 1].print is Some {
            rest.push(ts.len() - 1)
        } else {
            rest
        };
        assert forall|i: int| 0 <= i < ts.len() && (#[trigger] ts[i]).print is Some implies at.contains(i) by {
            if i < d.len() {
                assert(d[i] == ts[i]);
                let x = choose|x: int| 0 <= x < rest.len() && rest[x] == i;
                assert(at[x] == i);
            } else {
                assert(at[rest.len() as int] == i);
            }
        }
        assert forall|x: int| 0 <= x < at.len() implies 0 <= #[trigger] at[x] < ts.len()
            && present(ts)[x] == ts[at[x]] && ts[at[x]].print is Some by {
            if x < rest.len() {
                assert(at[x] == rest[x]);
                assert(d[rest[x]] == ts[rest[x]]);
            }
        }
        at
    }
}

/// Every file of an index begins with `XWSIX`, the version, the ledger and the part that it
/// is; what does not is refused.
pub proof fn index_files_begin_with_their_head(kind: u8, part: Part, data: Seq<u8>)
    ensures
        ({
            let p = prefix(kind, part);
            &&& p.len() >= 12
            &&& p[0] == 0x58 && p[1] == 0x57 && p[2] == 0x53 && p[3] == 0x49 && p[4] == 0x58
            &&& p[5] == 1 && p[6] == kind
            &&& p[7] == (match part {
                Part::Block => 1u8,
                Part::Log => 2u8,
                Part::Table => 3u8,
            })
        }),
        prefix_fault(data, kind, part) is None ==> data.len() >= 12 && data[0] == 0x58 && data[1]
            == 0x57 && data[2] == 0x53 && data[3] == 0x49 && data[4] == 0x58 && data[5] == 1
            && data[6] == kind && data[7] == part.code(),
{
    crate::bytes::lemma_be_len(encode_utf8(HEADER@).len(), 4);
    if data.len() >= prefix_len() {
        let d = data.take(5);
        assert(d[0] == data[0] && d[1] == data[1] && d[2] == data[2] && d[3] == data[3] && d[4]
            == data[4]);
    }
}

/// The entries of the ledgers: where a node is, with its tree; what is below which node of
/// which tree; who refers to whom. Each begins with what it is looked up by.
pub proof fn ledger_entries_are_laid_out(l: LocEntry, r: RelEntry, v: RevEntry)
    ensures
        loc_bytes(l).len() == 52 && loc_bytes(l).subrange(0, 16) == l.uuid.0@ && loc_bytes(
            l,
        ).subrange(36, 52) == l.root.0@,
        rel_bytes(r).len() == 68 && rel_bytes(r).subrange(0, 16) == r.root.0@ && rel_bytes(
            r,
        ).subrange(16, 32) == r.parent.0@ && rel_bytes(r).subrange(32, 48) == r.child.0@,
        rev_bytes(v).len() == 36 && rev_bytes(v).subrange(0, 16) == v.target.0@ && rev_bytes(
            v,
        ).subrange(16, 32) == v.source.0@,
{
    crate::bytes::lemma_be_len(l.file_id as nat, 4);
    crate::bytes::lemma_be_len(l.off as nat, 8);
    crate::bytes::lemma_be_len(l.len as nat, 8);
    crate::bytes::lemma_be_len(r.file_id as nat, 4);
    crate::bytes::lemma_be_len(r.off as nat, 8);
    crate::bytes::lemma_be_len(r.len as nat, 8);
    crate::bytes::lemma_be_len(v.file_id as nat, 4);
    assert(loc_bytes(l).subrange(0, 16) =~= l.uuid.0@);
    assert(loc_bytes(l).subrange(36, 52) =~= l.root.0@);
    assert(rel_bytes(r).subrange(0, 16) =~= r.root.0@);
    assert(rel_bytes(r).subrange(16, 32) =~= r.parent.0@);
    assert(rel_bytes(r).subrange(32, 48) =~= r.child.0@);
    assert(rev_bytes(v).subrange(0, 16) =~= v.target.0@);
    assert(rev_bytes(v).subrange(16, 32) =~= v.source.0@);
}

} // verus!
