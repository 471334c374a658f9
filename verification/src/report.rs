//! What the commands on the index of a workspace tell: lines for a reader, or a JSON
//! value, and the code that the command ends with.
use crate::backend::FileNode;
use crate::batch::{each_once, names_met};
use crate::codec::{uuid_text, Node, SpecNode, SpecValue, Uuid, Value};
use crate::console::{brief_label, files_shown, label_brief, pick_files, CheckOutcome};
use crate::convert::{kind_word, kind_word_of};
use crate::json::{json_bool, json_int, json_list, json_null, json_tree, json_trees, json_whole, Json,
    SpecJson};
use crate::model::ints;
use crate::ops::{display_of_value, plain_display};
use crate::reply::{build, field, id_json, object, pairs, start, text, text_list, texts_json};
use crate::text::{decimal, decimal_text, join2, owned, same_text, signed_decimal, signed_decimal_text,
    text_views};
use crate::wsidx::{FileStatus, Stats, Status};
use vstd::prelude::*;

verus! {

/// A number of bytes, and its text in megabytes.
#[derive(Debug)]
pub struct Size {
    pub bytes: u64,
    pub mb: String,
}

/// The texts of the sizes of an index: numbers with a fraction, written by the caller.
#[derive(Debug)]
pub struct SizeTexts {
    pub base: String,
    pub log: String,
    /// The share of the logs in the base, in percent.
    pub share: String,
    pub index: String,
}

/// What came of a command on the index.
#[derive(Debug)]
pub enum IndexReport {
    Path { dir: String, root: String },
    /// The standing of the index; with the files, where all of it is asked for.
    Status {
        status: Status,
        dir: String,
        root: String,
        sizes: SizeTexts,
        listed: Option<Vec<FileStatus>>,
    },
    Files { list: Vec<FileStatus>, stale_only: bool },
    WouldUpdate { stale: usize },
    Updated { files: usize, entries: u64, removed: usize },
    Rebuilt(Stats),
    WouldCompact { log: Size, base: Size },
    Compacted(Stats),
    WouldCollect { gone: usize },
    Collected { files: usize },
    Checked { told: CheckOutcome, sample: usize, deep: bool },
    AskDrop { dir: String, size: Size, files: usize },
    WouldDrop { dir: String, size: Size, files: usize },
    Dropped { size: Size, files: usize },
    AskForget { files: usize },
    WouldForget { targets: Vec<String> },
    Forgotten { files: usize, targets: Vec<String> },
    NoLock,
    Unlocked { pid: i32, alive: bool },
}

// ---------------------------------------------------------------------------
// Lines
// ---------------------------------------------------------------------------

/// Puts a number behind a text.
fn number(s: &mut String, n: u64)
    ensures
        final(s)@ == old(s)@ + decimal(n as nat),
{
    s.append(decimal_text(n).as_str());
}

/// Puts a line behind the others.
fn tell(out: &mut Vec<String>, line: String)
    ensures
        text_views(final(out)@) == text_views(old(out)@).push(line@),
{
    let ghost before = out@;
    out.push(line);
    assert(text_views(out@) =~= text_views(before).push(line@));
}

/// No lines.
fn silent() -> (r: Vec<String>)
    ensures
        text_views(r@) == Seq::<Seq<char>>::empty(),
{
    let r: Vec<String> = Vec::new();
    assert(text_views(r@) =~= Seq::<Seq<char>>::empty());
    r
}

/// A file of the index, as the command `files` tells it.
pub open spec fn file_line(f: FileStatus) -> Seq<char> {
    f.path@ + " · "@ + decimal(f.entries as nat) + " 条 · 代号 "@ + decimal(f.gen as nat) + "/"@
        + decimal(f.cur_gen as nat) + " · "@ + (if f.exists {
        ""@
    } else {
        "文件已不存在 · "@
    }) + (if f.fresh {
        "已同步"@
    } else {
        "指纹不符（跑 xr index update）"@
    })
}

fn tell_file(f: &FileStatus) -> (r: String)
    ensures
        r@ == file_line(*f),
{
    let mut s = join2(f.path.as_str(), " · ");
    number(&mut s, f.entries);
    s.append(" 条 · 代号 ");
    number(&mut s, f.gen);
    s.append("/");
    number(&mut s, f.cur_gen);
    s.append(" · ");
    s.append(if f.exists { "" } else { "文件已不存在 · " });
    s.append(if f.fresh { "已同步" } else { "指纹不符（跑 xr index update）" });
    s
}

/// A file of the index, as the command `status` tells it.
pub open spec fn brief_file_line(f: FileStatus) -> Seq<char> {
    "  "@ + f.path@ + " · "@ + decimal(f.entries as nat) + " 条 · 代号 "@ + decimal(f.gen as nat)
        + "/"@ + decimal(f.cur_gen as nat) + " · "@ + (if f.fresh {
        "已同步"@
    } else {
        "指纹不符"@
    })
}

fn tell_brief_file(f: &FileStatus) -> (r: String)
    ensures
        r@ == brief_file_line(*f),
{
    let mut s = join2("  ", f.path.as_str());
    s.append(" · ");
    number(&mut s, f.entries);
    s.append(" 条 · 代号 ");
    number(&mut s, f.gen);
    s.append("/");
    number(&mut s, f.cur_gen);
    s.append(" · ");
    s.append(if f.fresh { "已同步" } else { "指纹不符" });
    s
}

/// How many of the files are not as they were.
pub open spec fn stale_count(fs: Seq<FileStatus>) -> nat {
    fs.filter(|f: FileStatus| !f.fresh).len()
}

fn count_stale(fs: &Vec<FileStatus>) -> (r: usize)
    ensures
        r == stale_count(fs@),
{
    let mut n: usize = 0;
    let mut i: usize = 0;
    let ghost p = |f: FileStatus| !f.fresh;
    assert(fs@.take(0).filter(p).len() == 0) by {
        reveal(Seq::filter);
    }
    while i < fs.len()
        invariant
            i <= fs@.len(),
            n <= i,
            p == (|f: FileStatus| !f.fresh),
            n == fs@.take(i as int).filter(p).len(),
        decreases fs@.len() - i,
    {
        proof {
            let t = fs@.take(i + 1);
            assert(t.drop_last() == fs@.take(i as int));
            assert(t.filter(p) == if p(t.last()) {
                t.drop_last().filter(p).push(t.last())
            } else {
                t.drop_last().filter(p)
            }) by {
                reveal(Seq::filter);
            }
        }
        if !fs[i].fresh {
            n = n + 1;
        }
        i = i + 1;
    }
    assert(fs@.take(fs@.len() as int) == fs@);
    n
}

/// The files of the index and, below, how many there are.
pub open spec fn files_lines(fs: Seq<FileStatus>, stale_only: bool) -> Seq<Seq<char>> {
    let shown = files_shown(fs, stale_only, fs.len());
    Seq::new(shown.len(), |i: int| file_line(fs[shown[i]])).push(
        "共 "@ + decimal(fs.len()) + " 个文件，其中 "@ + decimal(stale_count(fs)) + " 个需要处理"@,
    )
}

/// What is shown is there.
proof fn lemma_files_shown(fs: Seq<FileStatus>, stale_only: bool, k: nat)
    requires
        k <= fs.len(),
    ensures
        forall|i: int|
            0 <= i < files_shown(fs, stale_only, k).len() ==> 0 <= #[trigger] files_shown(
                fs,
                stale_only,
                k,
            )[i] < k,
    decreases k,
{
    if k > 0 {
        lemma_files_shown(fs, stale_only, (k - 1) as nat);
        let r = files_shown(fs, stale_only, (k - 1) as nat);
        let t = files_shown(fs, stale_only, k);
        assert forall|i: int| 0 <= i < t.len() implies 0 <= #[trigger] t[i] < k by {
            if i < r.len() {
                assert(t[i] == r[i]);
            }
        }
    }
}

fn tell_files(fs: &Vec<FileStatus>, stale_only: bool) -> (r: Vec<String>)
    ensures
        text_views(r@) == files_lines(fs@, stale_only),
{
    let shown = pick_files(fs, stale_only);
    let ghost at = ints(shown@);
    proof {
        lemma_files_shown(fs@, stale_only, fs@.len());
    }
    let mut out = silent();
    let mut i: usize = 0;
    while i < shown.len()
        invariant
            i <= shown@.len(),
            at == ints(shown@),
            forall|k: int| 0 <= k < at.len() ==> 0 <= #[trigger] at[k] < fs@.len(),
            text_views(out@) == Seq::new(i as nat, |k: int| file_line(fs@[at[k]])),
        decreases shown@.len() - i,
    {
        assert(at[i as int] == shown@[i as int]);
        let line = tell_file(&fs[shown[i]]);
        tell(&mut out, line);
        assert(text_views(out@) =~= Seq::new((i + 1) as nat, |k: int| file_line(fs@[at[k]])));
        i = i + 1;
    }
    let mut s = owned("共 ");
    number(&mut s, fs.len() as u64);
    s.append(" 个文件，其中 ");
    number(&mut s, count_stale(fs) as u64);
    s.append(" 个需要处理");
    tell(&mut out, s);
    out
}

/// What the blocks and the entries of a ledger are, in words.
pub open spec fn ledger_words(blocks: usize, entries: u64) -> Seq<char> {
    decimal(blocks as nat) + " · 条目 "@ + decimal(entries as nat)
}

fn ledger_text(blocks: usize, entries: u64) -> (r: String)
    ensures
        r@ == ledger_words(blocks, entries),
{
    let mut s = decimal_text(blocks as u64);
    s.append(" · 条目 ");
    number(&mut s, entries);
    s
}

/// The first lines on the standing of an index.
pub open spec fn status_head(s: Status, dir: Seq<char>, t: SizeTexts) -> Seq<Seq<char>> {
    seq![
        "索引模式: workspace（工作区台账 wsidx-v"@ + decimal(s.version as nat) + "）"@,
        "索引目录: "@ + dir,
        "文件 "@ + decimal(s.files as nat) + " 个 · 编号 "@ + decimal(s.uuid_total as nat)
            + " 条 · 代数 "@ + decimal(s.generation as nat),
        "定位本: 块 "@ + ledger_words(s.loc_blocks, s.loc_entries) + " · 关系本: 块 "@
            + ledger_words(s.rel_blocks, s.rel_entries) + " · 反向本: 块 "@ + ledger_words(
            s.rev_blocks,
            s.rev_entries,
        ),
        "主干 "@ + t.base@ + " MB · 日志 "@ + t.log@ + " MB（占主干 "@ + t.share@
            + "%）· 索引目录共 "@ + t.index@ + " MB"@,
    ]
}

/// What is said of the files that are not as they were: how many, and the first of them.
pub open spec fn stale_lines(paths: Seq<Seq<char>>) -> Seq<Seq<char>> {
    if paths.len() == 0 {
        Seq::empty()
    } else {
        let n = if paths.len() < 3 {
            paths.len()
        } else {
            3
        };
        seq!["指纹不符（读时回退整份载入）"@ + decimal(paths.len()) + " 个，例如："@] + Seq::new(
            n,
            |i: int| "  "@ + paths[i],
        ) + seq!["  修：xr index update"@]
    }
}

/// What is said of logs that have grown too large.
pub open spec fn compact_lines(need: bool) -> Seq<Seq<char>> {
    if need {
        seq!["日志已超过主干 30%，建议：xr index compact"@]
    } else {
        Seq::empty()
    }
}

/// The ledgers, and the first of the files.
pub open spec fn list_lines(s: Status, fs: Seq<FileStatus>) -> Seq<Seq<char>> {
    let n = if fs.len() < 10 {
        fs.len()
    } else {
        10
    };
    seq![
        "块清单（每本台账前几个块）:"@,
        "  定位本 共 "@ + decimal(s.loc_entries as nat) + " 条"@,
        "  关系本 共 "@ + decimal(s.rel_entries as nat) + " 条"@,
        "  反向本 共 "@ + decimal(s.rev_entries as nat) + " 条"@,
        "文件清单（前 10 个，共 "@ + decimal(fs.len()) + " 个）:"@,
    ] + Seq::new(n, |i: int| brief_file_line(fs[i]))
}

/// The standing of an index.
pub open spec fn status_lines(
    s: Status,
    dir: Seq<char>,
    t: SizeTexts,
    listed: Option<Vec<FileStatus>>,
) -> Seq<Seq<char>> {
    status_head(s, dir, t) + stale_lines(text_views(s.stale_files@)) + compact_lines(s.need_compact)
        + (match listed {
        Some(fs) => list_lines(s, fs@),
        None => Seq::empty(),
    })
}

fn tell_head(out: &mut Vec<String>, s: &Status, dir: &str, t: &SizeTexts)
    ensures
        text_views(final(out)@) == text_views(old(out)@) + status_head(*s, dir@, *t),
{
    let mut l = owned("索引模式: workspace（工作区台账 wsidx-v");
    number(&mut l, s.version as u64);
    l.append("）");
    tell(out, l);
    tell(out, join2("索引目录: ", dir));
    let mut l = owned("文件 ");
    number(&mut l, s.files as u64);
    l.append(" 个 · 编号 ");
    number(&mut l, s.uuid_total);
    l.append(" 条 · 代数 ");
    number(&mut l, s.generation);
    tell(out, l);
    let mut l = owned("定位本: 块 ");
    l.append(ledger_text(s.loc_blocks, s.loc_entries).as_str());
    l.append(" · 关系本: 块 ");
    l.append(ledger_text(s.rel_blocks, s.rel_entries).as_str());
    l.append(" · 反向本: 块 ");
    l.append(ledger_text(s.rev_blocks, s.rev_entries).as_str());
    tell(out, l);
    let mut l = join2("主干 ", t.base.as_str());
    l.append(" MB · 日志 ");
    l.append(t.log.as_str());
    l.append(" MB（占主干 ");
    l.append(t.share.as_str());
    l.append("%）· 索引目录共 ");
    l.append(t.index.as_str());
    l.append(" MB");
    tell(out, l);
    assert(text_views(out@) =~= text_views(old(out)@) + status_head(*s, dir@, *t));
}

fn tell_stale(out: &mut Vec<String>, paths: &Vec<String>)
    ensures
        text_views(final(out)@) == text_views(old(out)@) + stale_lines(text_views(paths@)),
{
    if paths.len() == 0 {
        assert(text_views(out@) =~= text_views(old(out)@) + stale_lines(text_views(paths@)));
        return;
    }
    let ghost ps = text_views(paths@);
    let ghost before = text_views(out@);
    let mut l = owned("指纹不符（读时回退整份载入）");
    number(&mut l, paths.len() as u64);
    l.append(" 个，例如：");
    let ghost first = l@;
    tell(out, l);
    let n: usize = if paths.len() < 3 {
        paths.len()
    } else {
        3
    };
    let mut i: usize = 0;
    assert(text_views(out@) =~= before + seq![first] + Seq::new(0, |k: int| "  "@ + ps[k]));
    while i < n
        invariant
            i <= n <= paths@.len(),
            ps == text_views(paths@),
            text_views(out@) == before + seq![first] + Seq::new(i as nat, |k: int| "  "@ + ps[k]),
        decreases n - i,
    {
        let line = join2("  ", paths[i].as_str());
        assert(line@ == "  "@ + ps[i as int]);
        tell(out, line);
        assert(text_views(out@) =~= before + seq![first] + Seq::new(
            (i + 1) as nat,
            |k: int| "  "@ + ps[k],
        ));
        i = i + 1;
    }
    tell(out, owned("  修：xr index update"));
    assert(text_views(out@) =~= before + stale_lines(ps));
}

fn tell_list(out: &mut Vec<String>, s: &Status, fs: &Vec<FileStatus>)
    ensures
        text_views(final(out)@) == text_views(old(out)@) + list_lines(*s, fs@),
{
    let ghost before = text_views(out@);
    tell(out, owned("块清单（每本台账前几个块）:"));
    let mut l = owned("  定位本 共 ");
    number(&mut l, s.loc_entries);
    l.append(" 条");
    tell(out, l);
    let mut l = owned("  关系本 共 ");
    number(&mut l, s.rel_entries);
    l.append(" 条");
    tell(out, l);
    let mut l = owned("  反向本 共 ");
    number(&mut l, s.rev_entries);
    l.append(" 条");
    tell(out, l);
    let mut l = owned("文件清单（前 10 个，共 ");
    number(&mut l, fs.len() as u64);
    l.append(" 个）:");
    tell(out, l);
    let n: usize = if fs.len() < 10 {
        fs.len()
    } else {
        10
    };
    let ghost head = list_lines(*s, fs@).take(5);
    let mut i: usize = 0;
    assert(text_views(out@) =~= before + head + Seq::new(0, |k: int| brief_file_line(fs@[k])));
    while i < n
        invariant
            i <= n <= fs@.len(),
            text_views(out@) == before + head + Seq::new(
                i as nat,
                |k: int| brief_file_line(fs@[k]),
            ),
        decreases n - i,
    {
        let line = tell_brief_file(&fs[i]);
        tell(out, line);
        assert(text_views(out@) =~= before + head + Seq::new(
            (i + 1) as nat,
            |k: int| brief_file_line(fs@[k]),
        ));
        i = i + 1;
    }
    assert(text_views(out@) =~= before + list_lines(*s, fs@));
}

fn tell_status(s: &Status, dir: &str, t: &SizeTexts, listed: &Option<Vec<FileStatus>>) -> (r: Vec<
    String,
>)
    ensures
        text_views(r@) == status_lines(*s, dir@, *t, *listed),
{
    let mut out = silent();
    tell_head(&mut out, s, dir, t);
    tell_stale(&mut out, &s.stale_files);
    if s.need_compact {
        tell(&mut out, owned("日志已超过主干 30%，建议：xr index compact"));
    }
    if let Some(fs) = listed {
        tell_list(&mut out, s, fs);
    }
    assert(text_views(out@) =~= status_lines(*s, dir@, *t, *listed));
    out
}

/// What was written of the ledgers, behind a word on why.
pub open spec fn stats_line(head: Seq<char>, s: Stats) -> Seq<char> {
    head + "："@ + decimal(s.files as nat) + " 个文件 · 定位 "@ + decimal(s.loc as nat)
        + " · 关系 "@ + decimal(s.rel as nat) + " · 反向 "@ + decimal(s.rev as nat) + " · 块 "@
        + decimal(s.blocks as nat)
}

fn tell_stats(head: &str, s: &Stats) -> (r: String)
    ensures
        r@ == stats_line(head@, *s),
{
    let mut l = join2(head, "：");
    number(&mut l, s.files as u64);
    l.append(" 个文件 · 定位 ");
    number(&mut l, s.loc);
    l.append(" · 关系 ");
    number(&mut l, s.rel);
    l.append(" · 反向 ");
    number(&mut l, s.rev);
    l.append(" · 块 ");
    number(&mut l, s.blocks as u64);
    l
}

/// What a check found.
pub open spec fn check_lines(told: CheckOutcome, sample: usize, deep: bool) -> Seq<Seq<char>> {
    if told.problems == 0 {
        seq![
            "索引一致：抽样 "@ + decimal(sample as nat) + " 个编号都能定位并读出"@ + (if deep {
                "；全量条目数比对通过"@
            } else {
                ""@
            }),
        ]
    } else {
        Seq::new(told.details@.len(), |i: int| "  "@ + told.details@[i]@).push(
            "发现 "@ + decimal(told.problems as nat)
                + " 处问题；可跑 xr index update（增量）或 xr index rebuild（全量）"@,
        )
    }
}

fn tell_check(told: &CheckOutcome, sample: usize, deep: bool) -> (r: Vec<String>)
    requires
        told.problems <= u64::MAX,
    ensures
        text_views(r@) == check_lines(*told, sample, deep),
{
    let mut out = silent();
    if told.problems == 0 {
        let mut l = owned("索引一致：抽样 ");
        number(&mut l, sample as u64);
        l.append(" 个编号都能定位并读出");
        l.append(if deep { "；全量条目数比对通过" } else { "" });
        tell(&mut out, l);
        assert(text_views(out@) =~= check_lines(*told, sample, deep));
        return out;
    }
    let mut i: usize = 0;
    while i < told.details.len()
        invariant
            i <= told.details@.len(),
            text_views(out@) == Seq::new(i as nat, |k: int| "  "@ + told.details@[k]@),
        decreases told.details@.len() - i,
    {
        let line = join2("  ", told.details[i].as_str());
        tell(&mut out, line);
        assert(text_views(out@) =~= Seq::new(
            (i + 1) as nat,
            |k: int| "  "@ + told.details@[k]@,
        ));
        i = i + 1;
    }
    let mut l = owned("发现 ");
    number(&mut l, told.problems as u64);
    l.append(" 处问题；可跑 xr index update（增量）或 xr index rebuild（全量）");
    tell(&mut out, l);
    out
}

/// The first `k` texts, with a mark between them.
pub open spec fn enumerated(s: Seq<Seq<char>>, mark: Seq<char>, k: nat) -> Seq<char>
    decreases k,
{
    if k == 0 {
        Seq::empty()
    } else if k == 1 {
        s[0]
    } else {
        enumerated(s, mark, (k - 1) as nat) + mark + s[k - 1]
    }
}

fn enumerate(s: &Vec<String>, mark: &str) -> (r: String)
    ensures
        r@ == enumerated(text_views(s@), mark@, s@.len()),
{
    let ghost all = text_views(s@);
    if s.len() == 0 {
        let r = String::new();
        assert(r@ =~= enumerated(all, mark@, 0));
        return r;
    }
    let mut r = owned(s[0].as_str());
    assert(r@ == all[0]);
    let mut i: usize = 1;
    while i < s.len()
        invariant
            1 <= i <= s@.len(),
            all == text_views(s@),
            r@ == enumerated(all, mark@, i as nat),
        decreases s@.len() - i,
    {
        r.append(mark);
        r.append(s[i].as_str());
        assert(all[i as int] == s@[i as int]@);
        i = i + 1;
    }
    r
}

/// How the caller says that it means it.
pub open spec fn confirm_line() -> Seq<char> {
    "（确认请加 --yes；先看看会删什么可以加 --dry-run）"@
}

impl IndexReport {
    /// Whether the counts fit.
    pub open spec fn wf(self) -> bool {
        match self {
            IndexReport::Checked { told, .. } => told.problems <= u64::MAX,
            _ => true,
        }
    }

    /// The lines that a reader is told.
    pub open spec fn said(self) -> Seq<Seq<char>> {
        match self {
            IndexReport::Path { dir, .. } => seq![dir@],
            IndexReport::Status { status, dir, sizes, listed, .. } => status_lines(
                status,
                dir@,
                sizes,
                listed,
            ),
            IndexReport::Files { list, stale_only } => files_lines(list@, stale_only),
            IndexReport::WouldUpdate { stale } => seq![
                "（预演）将重扫 "@ + decimal(stale as nat)
                    + " 个被改动过的文件并清理已删除文件的条目"@,
            ],
            IndexReport::Updated { files, entries, removed } => seq![
                "已更新 "@ + decimal(files as nat) + " 个文件（追加 "@ + decimal(entries as nat)
                    + " 条）· 清理 "@ + decimal(removed as nat) + " 个已删除文件"@,
            ],
            IndexReport::Rebuilt(s) => seq![stats_line("已重建索引"@, s)],
            IndexReport::WouldCompact { log, base } => seq![
                "（预演）将把 "@ + log.mb@ + " MB 日志合并回 "@ + base.mb@
                    + " MB 主干（重写三本台账）"@,
            ],
            IndexReport::Compacted(s) => seq![stats_line("已压实"@, s)],
            IndexReport::WouldCollect { gone } => seq![
                "（预演）将清理 "@ + decimal(gone as nat) + " 个已不存在的文件条目"@,
            ],
            IndexReport::Collected { files } => seq![
                "已清理 "@ + decimal(files as nat) + " 个已不存在的文件条目（下次压实后生效）"@,
            ],
            IndexReport::Checked { told, sample, deep } => check_lines(told, sample, deep),
            IndexReport::AskDrop { dir, size, files } => seq![
                "（保护：将删除整个索引目录 "@ + dir@ + "（"@ + size.mb@ + " MB，登记 "@ + decimal(
                    files as nat,
                ) + " 个文件）；数据文件不受影响）"@,
                confirm_line(),
            ],
            IndexReport::WouldDrop { dir, size, .. } => seq![
                "（预演）将删除 "@ + dir@ + "（"@ + size.mb@ + " MB）"@,
            ],
            IndexReport::Dropped { size, files } => seq![
                "已删除索引目录（释放 "@ + size.mb@ + " MB，原登记 "@ + decimal(files as nat)
                    + " 个文件）；数据文件未动"@,
            ],
            IndexReport::AskForget { files } => seq![
                "（保护：将从台账移除 "@ + decimal(files as nat)
                    + " 个文件的条目；数据文件保留）"@,
                confirm_line(),
            ],
            IndexReport::WouldForget { targets } => seq![
                "（预演）将移除这些文件的条目："@ + enumerated(
                    text_views(targets@),
                    "、"@,
                    targets@.len(),
                ),
            ],
            IndexReport::Forgotten { files, .. } => if files == 0 {
                seq!["台账里没有这些文件（可能没被索引过，或用的是别的路径写法）"@]
            } else {
                seq![
                    "已从台账移除 "@ + decimal(files as nat) + " 个文件的条目（数据文件未动）"@,
                ]
            },
            IndexReport::NoLock => seq!["没有锁文件（索引没在被写）"@],
            IndexReport::Unlocked { pid, alive } => seq![
                "已删除锁文件（原记录 pid "@ + signed_decimal(pid as int) + "，该进程"@ + (if alive {
                    "仍在运行——若它确实在写索引，请留意"@
                } else {
                    "已不存在"@
                }) + "）"@,
            ],
        }
    }

    /// The code that the command ends with: one where a check found something, and two
    /// where the caller is asked first.
    pub open spec fn code(self) -> int {
        match self {
            IndexReport::Checked { told, .. } => if told.problems == 0 {
                0
            } else {
                1
            },
            IndexReport::AskDrop { .. } | IndexReport::AskForget { .. } => 2,
            _ => 0,
        }
    }

    /// The code that the command ends with.
    pub fn exit_code(&self) -> (r: i32)
        ensures
            r == self.code(),
    {
        match self {
            IndexReport::Checked { told, .. } => if told.problems == 0 {
                0
            } else {
                1
            },
            IndexReport::AskDrop { .. } | IndexReport::AskForget { .. } => 2,
            _ => 0,
        }
    }

    /// The lines that a reader is told.
    pub fn lines(&self) -> (r: Vec<String>)
        requires
            self.wf(),
        ensures
            text_views(r@) == self.said(),
    {
        let mut l = String::new();
        match self {
            IndexReport::Status { status, dir, sizes, listed, .. } => {
                return tell_status(status, dir.as_str(), sizes, listed);
            },
            IndexReport::Files { list, stale_only } => {
                return tell_files(list, *stale_only);
            },
            IndexReport::Checked { told, sample, deep } => {
                return tell_check(told, *sample, *deep);
            },
            IndexReport::Path { dir, .. } => {
                l = owned(dir.as_str());
            },
            IndexReport::WouldUpdate { stale } => {
                l = owned("（预演）将重扫 ");
                number(&mut l, *stale as u64);
                l.append(" 个被改动过的文件并清理已删除文件的条目");
            },
            IndexReport::Updated { files, entries, removed } => {
                l = owned("已更新 ");
                number(&mut l, *files as u64);
                l.append(" 个文件（追加 ");
                number(&mut l, *entries);
                l.append(" 条）· 清理 ");
                number(&mut l, *removed as u64);
                l.append(" 个已删除文件");
            },
            IndexReport::Rebuilt(s) => {
                l = tell_stats("已重建索引", s);
            },
            IndexReport::WouldCompact { log, base } => {
                l = join2("（预演）将把 ", log.mb.as_str());
                l.append(" MB 日志合并回 ");
                l.append(base.mb.as_str());
                l.append(" MB 主干（重写三本台账）");
            },
            IndexReport::Compacted(s) => {
                l = tell_stats("已压实", s);
            },
            IndexReport::WouldCollect { gone } => {
                l = owned("（预演）将清理 ");
                number(&mut l, *gone as u64);
                l.append(" 个已不存在的文件条目");
            },
            IndexReport::Collected { files } => {
                l = owned("已清理 ");
                number(&mut l, *files as u64);
                l.append(" 个已不存在的文件条目（下次压实后生效）");
            },
            IndexReport::AskDrop { dir, size, files } => {
                l = join2("（保护：将删除整个索引目录 ", dir.as_str());
                l.append("（");
                l.append(size.mb.as_str());
                l.append(" MB，登记 ");
                number(&mut l, *files as u64);
                l.append(" 个文件）；数据文件不受影响）");
            },
            IndexReport::WouldDrop { dir, size, .. } => {
                l = join2("（预演）将删除 ", dir.as_str());
                l.append("（");
                l.append(size.mb.as_str());
                l.append(" MB）");
            },
            IndexReport::Dropped { size, files } => {
                l = join2("已删除索引目录（释放 ", size.mb.as_str());
                l.append(" MB，原登记 ");
                number(&mut l, *files as u64);
                l.append(" 个文件）；数据文件未动");
            },
            IndexReport::AskForget { files } => {
                l = owned("（保护：将从台账移除 ");
                number(&mut l, *files as u64);
                l.append(" 个文件的条目；数据文件保留）");
            },
            IndexReport::WouldForget { targets } => {
                l = join2("（预演）将移除这些文件的条目：", enumerate(targets, "、").as_str());
            },
            IndexReport::Forgotten { files, .. } => {
                if *files == 0 {
                    l = owned("台账里没有这些文件（可能没被索引过，或用的是别的路径写法）");
                } else {
                    l = owned("已从台账移除 ");
                    number(&mut l, *files as u64);
                    l.append(" 个文件的条目（数据文件未动）");
                }
            },
            IndexReport::NoLock => {
                l = owned("没有锁文件（索引没在被写）");
            },
            IndexReport::Unlocked { pid, alive } => {
                l = join2(
                    "已删除锁文件（原记录 pid ",
                    signed_decimal_text(*pid as i64).as_str(),
                );
                l.append("，该进程");
                l.append(
                    if *alive {
                        "仍在运行——若它确实在写索引，请留意"
                    } else {
                        "已不存在"
                    },
                );
                l.append("）");
            },
        }
        let mut out = silent();
        tell(&mut out, l);
        if self.exit_code() == 2 {
            tell(&mut out, owned("（确认请加 --yes；先看看会删什么可以加 --dry-run）"));
        }
        assert(text_views(out@) =~= self.said());
        out
    }
}

// ---------------------------------------------------------------------------
// JSON
// ---------------------------------------------------------------------------

/// A whole number.
pub open spec fn whole(n: nat) -> SpecJson {
    SpecJson::Int(n as int)
}

/// The blocks and the entries of a ledger.
pub open spec fn ledger_json(blocks: usize, entries: u64) -> SpecJson {
    object(seq![("blocks"@, whole(blocks as nat)), ("entries"@, whole(entries as nat))])
}

fn make_ledger(blocks: usize, entries: u64) -> (r: Json)
    ensures
        json_tree(r) == ledger_json(blocks, entries),
{
    let mut f = start();
    field(&mut f, "blocks", json_whole(blocks as u64));
    field(&mut f, "entries", json_whole(entries));
    assert(pairs(f@) =~= seq![
        ("blocks"@, whole(blocks as nat)),
        ("entries"@, whole(entries as nat)),
    ]);
    build(f)
}

/// The three ledgers.
pub open spec fn ledgers_json(s: Status) -> SpecJson {
    object(
        seq![
            ("loc"@, ledger_json(s.loc_blocks, s.loc_entries)),
            ("rel"@, ledger_json(s.rel_blocks, s.rel_entries)),
            ("rev"@, ledger_json(s.rev_blocks, s.rev_entries)),
        ],
    )
}

fn make_ledgers(s: &Status) -> (r: Json)
    ensures
        json_tree(r) == ledgers_json(*s),
{
    let mut f = start();
    field(&mut f, "loc", make_ledger(s.loc_blocks, s.loc_entries));
    field(&mut f, "rel", make_ledger(s.rel_blocks, s.rel_entries));
    field(&mut f, "rev", make_ledger(s.rev_blocks, s.rev_entries));
    assert(pairs(f@) =~= seq![
        ("loc"@, ledger_json(s.loc_blocks, s.loc_entries)),
        ("rel"@, ledger_json(s.rel_blocks, s.rel_entries)),
        ("rev"@, ledger_json(s.rev_blocks, s.rev_entries)),
    ]);
    build(f)
}

/// A file of the index.
pub open spec fn file_json(f: FileStatus) -> SpecJson {
    object(
        seq![
            ("path"@, SpecJson::Text(f.path@)),
            ("entries"@, whole(f.entries as nat)),
            ("gen"@, whole(f.gen as nat)),
            ("curGen"@, whole(f.cur_gen as nat)),
            ("exists"@, SpecJson::Bool(f.exists)),
            ("fresh"@, SpecJson::Bool(f.fresh)),
        ],
    )
}

fn make_file(s: &FileStatus) -> (r: Json)
    ensures
        json_tree(r) == file_json(*s),
{
    let mut f = start();
    field(&mut f, "path", text(s.path.as_str()));
    field(&mut f, "entries", json_whole(s.entries));
    field(&mut f, "gen", json_whole(s.gen));
    field(&mut f, "curGen", json_whole(s.cur_gen));
    field(&mut f, "exists", json_bool(s.exists));
    field(&mut f, "fresh", json_bool(s.fresh));
    assert(pairs(f@) =~= seq![
        ("path"@, SpecJson::Text(s.path@)),
        ("entries"@, whole(s.entries as nat)),
        ("gen"@, whole(s.gen as nat)),
        ("curGen"@, whole(s.cur_gen as nat)),
        ("exists"@, SpecJson::Bool(s.exists)),
        ("fresh"@, SpecJson::Bool(s.fresh)),
    ]);
    build(f)
}

/// The files of the index that are shown.
pub open spec fn shown_files_json(fs: Seq<FileStatus>, stale_only: bool) -> SpecJson {
    let shown = files_shown(fs, stale_only, fs.len());
    SpecJson::List(Seq::new(shown.len(), |i: int| file_json(fs[shown[i]])))
}

fn make_files(fs: &Vec<FileStatus>, shown: &Vec<usize>, Ghost(stale_only): Ghost<bool>) -> (r: Json)
    requires
        ints(shown@) == files_shown(fs@, stale_only, fs@.len()),
    ensures
        json_tree(r) == shown_files_json(fs@, stale_only),
{
    let ghost at = ints(shown@);
    proof {
        lemma_files_shown(fs@, stale_only, fs@.len());
    }
    let mut out: Vec<Json> = Vec::new();
    let mut i: usize = 0;
    assert(json_trees(out@) =~= Seq::new(0, |k: int| file_json(fs@[at[k]])));
    while i < shown.len()
        invariant
            i <= shown@.len(),
            at == ints(shown@),
            forall|k: int| 0 <= k < at.len() ==> 0 <= #[trigger] at[k] < fs@.len(),
            json_trees(out@) == Seq::new(i as nat, |k: int| file_json(fs@[at[k]])),
        decreases shown@.len() - i,
    {
        assert(at[i as int] == shown@[i as int]);
        let ghost o0 = out@;
        let j = make_file(&fs[shown[i]]);
        let ghost t = json_tree(j);
        out.push(j);
        assert(json_trees(out@) =~= json_trees(o0).push(t));
        assert(json_trees(out@) =~= Seq::new((i + 1) as nat, |k: int| file_json(fs@[at[k]])));
        i = i + 1;
    }
    json_list(out)
}

/// What was written of the ledgers.
pub open spec fn stats_fields(s: Stats) -> Seq<(Seq<char>, SpecJson)> {
    seq![
        ("files"@, whole(s.files as nat)),
        ("loc"@, whole(s.loc as nat)),
        ("rel"@, whole(s.rel as nat)),
        ("rev"@, whole(s.rev as nat)),
        ("blocks"@, whole(s.blocks as nat)),
    ]
}

fn make_stats(s: &Stats) -> (f: Vec<(String, Json)>)
    ensures
        pairs(f@) == stats_fields(*s),
{
    let mut f = start();
    field(&mut f, "files", json_whole(s.files as u64));
    field(&mut f, "loc", json_whole(s.loc));
    field(&mut f, "rel", json_whole(s.rel));
    field(&mut f, "rev", json_whole(s.rev));
    field(&mut f, "blocks", json_whole(s.blocks as u64));
    assert(pairs(f@) =~= stats_fields(*s));
    f
}

/// The standing of an index.
pub open spec fn status_fields(s: Status, dir: Seq<char>, root: Seq<char>) -> Seq<
    (Seq<char>, SpecJson),
> {
    seq![
        ("mode"@, SpecJson::Text("workspace"@)),
        ("protocol"@, SpecJson::Text("wsidx-v"@ + decimal(s.version as nat))),
        ("indexDir"@, SpecJson::Text(dir)),
        ("workspace"@, SpecJson::Text(root)),
        ("generation"@, whole(s.generation as nat)),
        ("files"@, whole(s.files as nat)),
        ("uuidTotal"@, whole(s.uuid_total as nat)),
        ("indexBytes"@, whole(s.index_bytes as nat)),
        ("baseBytes"@, whole(s.base_bytes as nat)),
        ("logBytes"@, whole(s.log_bytes as nat)),
        ("ledgers"@, ledgers_json(s)),
        ("staleFiles"@, whole(s.stale_files@.len())),
        ("needCompact"@, SpecJson::Bool(s.need_compact)),
    ]
}

fn make_status(s: &Status, dir: &str, root: &str) -> (f: Vec<(String, Json)>)
    ensures
        pairs(f@) == status_fields(*s, dir@, root@),
{
    let mut f = start();
    field(&mut f, "mode", text("workspace"));
    let v = join2("wsidx-v", decimal_text(s.version as u64).as_str());
    field(&mut f, "protocol", text(v.as_str()));
    field(&mut f, "indexDir", text(dir));
    field(&mut f, "workspace", text(root));
    field(&mut f, "generation", json_whole(s.generation));
    field(&mut f, "files", json_whole(s.files as u64));
    field(&mut f, "uuidTotal", json_whole(s.uuid_total));
    field(&mut f, "indexBytes", json_whole(s.index_bytes));
    field(&mut f, "baseBytes", json_whole(s.base_bytes));
    field(&mut f, "logBytes", json_whole(s.log_bytes));
    field(&mut f, "ledgers", make_ledgers(s));
    field(&mut f, "staleFiles", json_whole(s.stale_files.len() as u64));
    field(&mut f, "needCompact", json_bool(s.need_compact));
    assert(pairs(f@) =~= status_fields(*s, dir@, root@));
    f
}

impl IndexReport {
    /// What a program is told: the fields of an object. Nothing, where the caller is asked
    /// first.
    pub open spec fn fields(self) -> Option<Seq<(Seq<char>, SpecJson)>> {
        match self {
            IndexReport::Path { dir, root } => Some(
                seq![
                    ("indexDir"@, SpecJson::Text(dir@)),
                    ("workspace"@, SpecJson::Text(root@)),
                ],
            ),
            IndexReport::Status { status, dir, root, .. } => Some(
                status_fields(status, dir@, root@),
            ),
            IndexReport::Files { list, stale_only } => Some(
                seq![
                    ("count"@, whole(list@.len())),
                    ("shown"@, whole(files_shown(list@, stale_only, list@.len()).len())),
                    ("files"@, shown_files_json(list@, stale_only)),
                ],
            ),
            IndexReport::WouldUpdate { stale } => Some(
                seq![("dryRun"@, SpecJson::Bool(true)), ("staleFiles"@, whole(stale as nat))],
            ),
            IndexReport::Updated { files, entries, removed } => Some(
                seq![
                    ("updatedFiles"@, whole(files as nat)),
                    ("entries"@, whole(entries as nat)),
                    ("removedFiles"@, whole(removed as nat)),
                ],
            ),
            IndexReport::Rebuilt(s) => Some(stats_fields(s)),
            IndexReport::WouldCompact { log, base } => Some(
                seq![
                    ("dryRun"@, SpecJson::Bool(true)),
                    ("baseBytes"@, whole(base.bytes as nat)),
                    ("logBytes"@, whole(log.bytes as nat)),
                ],
            ),
            IndexReport::Compacted(s) => Some(stats_fields(s)),
            IndexReport::WouldCollect { gone } => Some(
                seq![("dryRun"@, SpecJson::Bool(true)), ("missingFiles"@, whole(gone as nat))],
            ),
            IndexReport::Collected { files } => Some(
                seq![("removedFiles"@, whole(files as nat))],
            ),
            IndexReport::Checked { told, .. } => Some(
                seq![
                    ("ok"@, SpecJson::Bool(told.problems == 0)),
                    ("problems"@, whole(told.problems as nat)),
                    ("details"@, texts_json(text_views(told.details@))),
                ],
            ),
            IndexReport::WouldDrop { dir, size, files } => Some(
                seq![
                    ("dryRun"@, SpecJson::Bool(true)),
                    ("indexDir"@, SpecJson::Text(dir@)),
                    ("bytes"@, whole(size.bytes as nat)),
                    ("files"@, whole(files as nat)),
                ],
            ),
            IndexReport::Dropped { size, files } => Some(
                seq![
                    ("removedBytes"@, whole(size.bytes as nat)),
                    ("removedFiles"@, whole(files as nat)),
                ],
            ),
            IndexReport::WouldForget { targets } => Some(
                seq![
                    ("dryRun"@, SpecJson::Bool(true)),
                    ("forget"@, texts_json(text_views(targets@))),
                ],
            ),
            IndexReport::Forgotten { files, targets } => Some(
                seq![
                    ("forgotten"@, whole(files as nat)),
                    ("files"@, texts_json(text_views(targets@))),
                ],
            ),
            IndexReport::NoLock => Some(seq![("lock"@, SpecJson::Null)]),
            IndexReport::Unlocked { pid, alive } => Some(
                seq![
                    ("removedPid"@, SpecJson::Int(pid as int)),
                    ("alive"@, SpecJson::Bool(alive)),
                ],
            ),
            IndexReport::AskDrop { .. } | IndexReport::AskForget { .. } => None,
        }
    }

    /// What a program is told.
    pub fn to_json(&self) -> (r: Option<Json>)
        requires
            self.wf(),
        ensures
            match (r, self.fields()) {
                (Some(j), Some(f)) => json_tree(j) == object(f),
                (None, None) => true,
                _ => false,
            },
    {
        let mut f = start();
        match self {
            IndexReport::AskDrop { .. } | IndexReport::AskForget { .. } => {
                return None;
            },
            IndexReport::Path { dir, root } => {
                field(&mut f, "indexDir", text(dir.as_str()));
                field(&mut f, "workspace", text(root.as_str()));
            },
            IndexReport::Status { status, dir, root, .. } => {
                f = make_status(status, dir.as_str(), root.as_str());
            },
            IndexReport::Files { list, stale_only } => {
                let shown = pick_files(list, *stale_only);
                assert(ints(shown@).len() == shown@.len());
                field(&mut f, "count", json_whole(list.len() as u64));
                field(&mut f, "shown", json_whole(shown.len() as u64));
                field(&mut f, "files", make_files(list, &shown, Ghost(*stale_only)));
            },
            IndexReport::WouldUpdate { stale } => {
                field(&mut f, "dryRun", json_bool(true));
                field(&mut f, "staleFiles", json_whole(*stale as u64));
            },
            IndexReport::Updated { files, entries, removed } => {
                field(&mut f, "updatedFiles", json_whole(*files as u64));
                field(&mut f, "entries", json_whole(*entries));
                field(&mut f, "removedFiles", json_whole(*removed as u64));
            },
            IndexReport::Rebuilt(s) => {
                f = make_stats(s);
            },
            IndexReport::WouldCompact { log, base } => {
                field(&mut f, "dryRun", json_bool(true));
                field(&mut f, "baseBytes", json_whole(base.bytes));
                field(&mut f, "logBytes", json_whole(log.bytes));
            },
            IndexReport::Compacted(s) => {
                f = make_stats(s);
            },
            IndexReport::WouldCollect { gone } => {
                field(&mut f, "dryRun", json_bool(true));
                field(&mut f, "missingFiles", json_whole(*gone as u64));
            },
            IndexReport::Collected { files } => {
                field(&mut f, "removedFiles", json_whole(*files as u64));
            },
            IndexReport::Checked { told, .. } => {
                field(&mut f, "ok", json_bool(told.problems == 0));
                field(&mut f, "problems", json_whole(told.problems as u64));
                field(&mut f, "details", text_list(&told.details));
            },
            IndexReport::WouldDrop { dir, size, files } => {
                field(&mut f, "dryRun", json_bool(true));
                field(&mut f, "indexDir", text(dir.as_str()));
                field(&mut f, "bytes", json_whole(size.bytes));
                field(&mut f, "files", json_whole(*files as u64));
            },
            IndexReport::Dropped { size, files } => {
                field(&mut f, "removedBytes", json_whole(size.bytes));
                field(&mut f, "removedFiles", json_whole(*files as u64));
            },
            IndexReport::WouldForget { targets } => {
                field(&mut f, "dryRun", json_bool(true));
                field(&mut f, "forget", text_list(targets));
            },
            IndexReport::Forgotten { files, targets } => {
                field(&mut f, "forgotten", json_whole(*files as u64));
                field(&mut f, "files", text_list(targets));
            },
            IndexReport::NoLock => {
                field(&mut f, "lock", json_null());
            },
            IndexReport::Unlocked { pid, alive } => {
                field(&mut f, "removedPid", json_int(*pid as i64));
                field(&mut f, "alive", json_bool(*alive));
            },
        }
        assert(pairs(f@) =~= self.fields()->Some_0);
        Some(build(f))
    }
}

// ---------------------------------------------------------------------------
// Indexes beside files
// ---------------------------------------------------------------------------

/// A file and the index beside it: whether there is one, and its size.
#[derive(Debug)]
pub struct BesideFile {
    pub file: String,
    pub exists: bool,
    pub bytes: u64,
}

/// The standing of an index beside a file.
#[derive(Debug)]
pub struct BesideStatus {
    pub file: String,
    pub index: String,
    pub fresh: bool,
    pub roots: u64,
    pub nodes: u64,
    pub edges: u64,
}

/// What came of a command on the indexes beside files.
#[derive(Debug)]
pub enum BesideReport {
    NoPath,
    NoLock,
    NoCompact,
    NoUpdate,
    Files(Vec<BesideFile>),
    AskDrop,
    WouldDrop { files: usize },
    Dropped { files: usize },
    Status(Vec<BesideStatus>),
    Rebuilt { files: usize },
    Collected { files: usize },
}

/// A file and the index beside it.
pub open spec fn beside_line(f: BesideFile) -> Seq<char> {
    f.file@ + " · "@ + (if f.exists {
        "有侧车"@
    } else {
        "无侧车"@
    }) + "（"@ + decimal(f.bytes as nat) + " 字节）"@
}

/// The standing of an index beside a file.
pub open spec fn beside_lines(s: BesideStatus) -> Seq<Seq<char>> {
    seq![
        s.file@,
        "  索引: "@ + s.index@,
        "  状态: "@ + (if s.fresh {
            "复用"@
        } else {
            "新建/重建"@
        }),
        "  根: "@ + decimal(s.roots as nat) + " · 节点: "@ + decimal(s.nodes as nat)
            + " · 引用边: "@ + decimal(s.edges as nat),
    ]
}

/// The standings of the first `k` indexes.
pub open spec fn all_beside_lines(s: Seq<BesideStatus>, k: nat) -> Seq<Seq<char>>
    decreases k,
{
    if k == 0 {
        Seq::empty()
    } else {
        all_beside_lines(s, (k - 1) as nat) + beside_lines(s[k - 1])
    }
}

/// What is said where there is nothing to do.
pub open spec fn needless_line(what: Seq<char>) -> Seq<char> {
    "（侧车模式无需"@ + what + "：每次保存都会重写该文件的 .idx；要修复就 xr index rebuild）"@
}

fn tell_needless(what: &str) -> (r: String)
    ensures
        r@ == needless_line(what@),
{
    let mut l = join2("（侧车模式无需", what);
    l.append("：每次保存都会重写该文件的 .idx；要修复就 xr index rebuild）");
    l
}

fn tell_count(before: &str, n: usize, after: &str) -> (r: String)
    ensures
        r@ == before@ + decimal(n as nat) + after@,
{
    let mut l = owned(before);
    number(&mut l, n as u64);
    l.append(after);
    l
}

fn tell_beside_files(s: &Vec<BesideFile>) -> (r: Vec<String>)
    ensures
        text_views(r@) == Seq::new(s@.len(), |i: int| beside_line(s@[i])),
{
    let mut out = silent();
    let mut i: usize = 0;
    while i < s.len()
        invariant
            i <= s@.len(),
            text_views(out@) == Seq::new(i as nat, |k: int| beside_line(s@[k])),
        decreases s@.len() - i,
    {
        let mut l = join2(s[i].file.as_str(), " · ");
        l.append(if s[i].exists { "有侧车" } else { "无侧车" });
        l.append("（");
        number(&mut l, s[i].bytes);
        l.append(" 字节）");
        tell(&mut out, l);
        assert(text_views(out@) =~= Seq::new((i + 1) as nat, |k: int| beside_line(s@[k])));
        i = i + 1;
    }
    out
}

fn tell_beside(s: &Vec<BesideStatus>) -> (r: Vec<String>)
    ensures
        text_views(r@) == all_beside_lines(s@, s@.len()),
{
    let mut out = silent();
    let mut i: usize = 0;
    while i < s.len()
        invariant
            i <= s@.len(),
            text_views(out@) == all_beside_lines(s@, i as nat),
        decreases s@.len() - i,
    {
        let ghost before = text_views(out@);
        tell(&mut out, owned(s[i].file.as_str()));
        tell(&mut out, join2("  索引: ", s[i].index.as_str()));
        tell(&mut out, join2("  状态: ", if s[i].fresh { "复用" } else { "新建/重建" }));
        let mut l = owned("  根: ");
        number(&mut l, s[i].roots);
        l.append(" · 节点: ");
        number(&mut l, s[i].nodes);
        l.append(" · 引用边: ");
        number(&mut l, s[i].edges);
        tell(&mut out, l);
        assert(text_views(out@) =~= before + beside_lines(s@[i as int]));
        i = i + 1;
    }
    out
}

impl BesideReport {
    /// The lines that a reader is told.
    pub open spec fn said(self) -> Seq<Seq<char>> {
        match self {
            BesideReport::NoPath => seq![
                "（侧车模式没有单一索引目录：每个 .xirang 旁边一个 <文件>.xirang.idx）"@,
            ],
            BesideReport::NoLock => seq!["（侧车模式没有写者锁）"@],
            BesideReport::NoCompact => seq![needless_line("压实"@)],
            BesideReport::NoUpdate => seq![needless_line("增量更新"@)],
            BesideReport::Files(s) => Seq::new(s@.len(), |i: int| beside_line(s@[i])).push(
                "共 "@ + decimal(s@.len())
                    + " 个文件（侧车模式；改用 XIRANG_INDEX_MODE=workspace 可看台账详情）"@,
            ),
            BesideReport::AskDrop => seq![
                "（保护：将删除对应文件的 .xirang.idx；数据文件不受影响）"@,
            ],
            BesideReport::WouldDrop { files } => seq![
                "（预演）将删除 "@ + decimal(files as nat) + " 个文件对应的 .idx"@,
            ],
            BesideReport::Dropped { files } => seq![
                "已删除 "@ + decimal(files as nat) + " 个侧车索引（数据文件未动）"@,
            ],
            BesideReport::Status(s) => all_beside_lines(s@, s@.len()),
            BesideReport::Rebuilt { files } => seq![
                "已重建 "@ + decimal(files as nat) + " 个侧车索引"@,
            ],
            BesideReport::Collected { files } => seq![
                "已清理 "@ + decimal(files as nat) + " 个孤儿侧车索引"@,
            ],
        }
    }

    /// The lines that a reader is told.
    pub fn lines(&self) -> (r: Vec<String>)
        ensures
            text_views(r@) == self.said(),
    {
        let l = match self {
            BesideReport::Files(s) => {
                let mut out = tell_beside_files(s);
                tell(
                    &mut out,
                    tell_count(
                        "共 ",
                        s.len(),
                        " 个文件（侧车模式；改用 XIRANG_INDEX_MODE=workspace 可看台账详情）",
                    ),
                );
                return out;
            },
            BesideReport::Status(s) => {
                return tell_beside(s);
            },
            BesideReport::NoPath => owned(
                "（侧车模式没有单一索引目录：每个 .xirang 旁边一个 <文件>.xirang.idx）",
            ),
            BesideReport::NoLock => owned("（侧车模式没有写者锁）"),
            BesideReport::NoCompact => tell_needless("压实"),
            BesideReport::NoUpdate => tell_needless("增量更新"),
            BesideReport::AskDrop => owned(
                "（保护：将删除对应文件的 .xirang.idx；数据文件不受影响）",
            ),
            BesideReport::WouldDrop { files } => tell_count(
                "（预演）将删除 ",
                *files,
                " 个文件对应的 .idx",
            ),
            BesideReport::Dropped { files } => tell_count(
                "已删除 ",
                *files,
                " 个侧车索引（数据文件未动）",
            ),
            BesideReport::Rebuilt { files } => tell_count("已重建 ", *files, " 个侧车索引"),
            BesideReport::Collected { files } => tell_count(
                "已清理 ",
                *files,
                " 个孤儿侧车索引",
            ),
        };
        let mut out = silent();
        tell(&mut out, l);
        assert(text_views(out@) =~= self.said());
        out
    }

    /// What a program is told: how many indexes were deleted. Of the rest it is told what
    /// a reader is.
    pub fn to_json(&self) -> (r: Option<Json>)
        ensures
            match (r, *self) {
                (Some(j), BesideReport::Dropped { files }) => json_tree(j) == object(
                    seq![("removed"@, whole(files as nat))],
                ),
                (None, BesideReport::Dropped { .. }) => false,
                (None, _) => true,
                _ => false,
            },
    {
        match self {
            BesideReport::Dropped { files } => {
                let mut f = start();
                field(&mut f, "removed", json_whole(*files as u64));
                assert(pairs(f@) =~= seq![("removed"@, whole(*files as nat))]);
                Some(build(f))
            },
            _ => None,
        }
    }

    /// The code that the command ends with: two where the caller is asked first.
    pub fn exit_code(&self) -> (r: i32)
        ensures
            r == (if *self is AskDrop {
                2int
            } else {
                0
            }),
    {
        match self {
            BesideReport::AskDrop => 2,
            _ => 0,
        }
    }
}

// ---------------------------------------------------------------------------
// A node in several files
// ---------------------------------------------------------------------------

/// A node on one line, with its id.
pub open spec fn label_with_id(n: SpecNode, ft: Seq<(u64, String)>) -> Seq<char> {
    brief_label(n, ft) + " <"@ + uuid_text(n.id) + ">"@
}

fn put_label(s: &mut String, n: &Node, ft: &Vec<(u64, String)>)
    ensures
        final(s)@ == old(s)@ + label_with_id(n@, ft@),
{
    let ghost s0 = s@;
    s.append(label_brief(n, ft).as_str());
    s.append(" <");
    s.append(n.id.to_string().as_str());
    s.append(">");
    assert(s@ =~= s0 + label_with_id(n@, ft@));
}

/// A node on one line with its file: `before` stands in front, `at` in front of the file.
pub open spec fn placed_line(
    n: FileNode,
    before: Seq<char>,
    ids: bool,
    at: Seq<char>,
    ft: Seq<(u64, String)>,
) -> Seq<char> {
    before + (if ids {
        label_with_id(n.1@, ft)
    } else {
        brief_label(n.1@, ft)
    }) + at + n.0@ + "）"@
}

/// Nodes on lines with their files.
pub open spec fn placed_lines(
    s: Seq<FileNode>,
    before: Seq<char>,
    ids: bool,
    at: Seq<char>,
    ft: Seq<(u64, String)>,
) -> Seq<Seq<char>> {
    Seq::new(s.len(), |i: int| placed_line(s[i], before, ids, at, ft))
}

fn tell_placed(n: &FileNode, before: &str, ids: bool, at: &str, ft: &Vec<(u64, String)>) -> (r:
    String)
    ensures
        r@ == placed_line(*n, before@, ids, at@, ft@),
{
    let mut l = owned(before);
    if ids {
        put_label(&mut l, &n.1, ft);
    } else {
        l.append(label_brief(&n.1, ft).as_str());
    }
    l.append(at);
    l.append(n.0.as_str());
    l.append("）");
    l
}

fn tell_all_placed(
    out: &mut Vec<String>,
    s: &Vec<FileNode>,
    before: &str,
    ids: bool,
    at: &str,
    ft: &Vec<(u64, String)>,
)
    ensures
        text_views(final(out)@) == text_views(old(out)@) + placed_lines(
            s@,
            before@,
            ids,
            at@,
            ft@,
        ),
{
    let ghost o0 = text_views(out@);
    let ghost all = placed_lines(s@, before@, ids, at@, ft@);
    let mut i: usize = 0;
    assert(o0 =~= o0 + all.take(0));
    while i < s.len()
        invariant
            i <= s@.len(),
            all == placed_lines(s@, before@, ids, at@, ft@),
            text_views(out@) == o0 + all.take(i as int),
        decreases s@.len() - i,
    {
        tell(out, tell_placed(&s[i], before, ids, at, ft));
        assert(text_views(out@) =~= o0 + all.take(i + 1));
        i = i + 1;
    }
    assert(all.take(s@.len() as int) =~= all);
}

/// What is said of the children of a node: how many there are, and each.
pub open spec fn child_lines(kids: Seq<FileNode>, ft: Seq<(u64, String)>) -> Seq<Seq<char>> {
    if kids.len() == 0 {
        Seq::empty()
    } else {
        seq!["  孩子（并集 "@ + decimal(kids.len()) + " 个）："@] + placed_lines(
            kids,
            "    "@,
            true,
            "  （"@,
            ft,
        )
    }
}

/// What is said of the node that a node refers to.
pub open spec fn target_lines(
    value: SpecValue,
    target: Option<FileNode>,
    ft: Seq<(u64, String)>,
) -> Seq<Seq<char>> {
    match value {
        SpecValue::Reference(t) => match target {
            Some(n) => seq![placed_line(n, "  引用 → "@, true, "  （在 "@, ft)],
            None => seq!["  引用 → "@ + uuid_text(t) + " <不存在>"@],
        },
        _ => Seq::empty(),
    }
}

/// What is said of the nodes that refer to a node.
pub open spec fn source_lines(incoming: Seq<FileNode>, ft: Seq<(u64, String)>) -> Seq<Seq<char>> {
    if incoming.len() == 0 {
        seq!["  （无反向引用）"@]
    } else {
        placed_lines(incoming, "  ← "@, true, "  （在 "@, ft)
    }
}

/// A node in several files: where it is, its children in all of them, what it refers to
/// and what refers to it.
#[derive(Debug)]
pub struct Gathered {
    pub id: Uuid,
    pub views: Vec<FileNode>,
    pub kids: Vec<FileNode>,
    /// The node that the first view refers to, where it does and that is found.
    pub target: Option<FileNode>,
    pub incoming: Vec<FileNode>,
}

impl Gathered {
    /// The lines that a reader is told.
    pub open spec fn said(self, ft: Seq<(u64, String)>) -> Seq<Seq<char>> {
        seq![
            "节点 "@ + brief_label(self.views@[0].1@, ft) + " <"@ + uuid_text(self.id) + ">（"@
                + decimal(self.views@.len()) + " 处）"@,
        ] + placed_lines(self.views@, "  "@, false, "  （"@, ft) + child_lines(self.kids@, ft)
            + target_lines(self.views@[0].1@.value, self.target, ft) + source_lines(
            self.incoming@,
            ft,
        )
    }

    /// The lines that a reader is told. `ft` gives the texts of doubles.
    pub fn lines(&self, ft: &Vec<(u64, String)>) -> (r: Vec<String>)
        requires
            self.views@.len() > 0,
        ensures
            text_views(r@) == self.said(ft@),
    {
        let mut out = silent();
        let mut l = join2("节点 ", label_brief(&self.views[0].1, ft).as_str());
        l.append(" <");
        l.append(self.id.to_string().as_str());
        l.append(">（");
        number(&mut l, self.views.len() as u64);
        l.append(" 处）");
        tell(&mut out, l);
        tell_all_placed(&mut out, &self.views, "  ", false, "  （", ft);
        if self.kids.len() > 0 {
            tell(&mut out, tell_count("  孩子（并集 ", self.kids.len(), " 个）："));
            tell_all_placed(&mut out, &self.kids, "    ", true, "  （", ft);
        }
        let ghost before = text_views(out@);
        match &self.views[0].1.value {
            Value::Reference(t) => match &self.target {
                Some(n) => tell(&mut out, tell_placed(n, "  引用 → ", true, "  （在 ", ft)),
                None => {
                    let mut l = join2("  引用 → ", t.to_string().as_str());
                    l.append(" <不存在>");
                    tell(&mut out, l);
                },
            },
            _ => {},
        }
        assert(text_views(out@) =~= before + target_lines(
            self.views@[0].1@.value,
            self.target,
            ft@,
        ));
        if self.incoming.len() == 0 {
            tell(&mut out, owned("  （无反向引用）"));
        } else {
            tell_all_placed(&mut out, &self.incoming, "  ← ", true, "  （在 ", ft);
        }
        assert(text_views(out@) =~= self.said(ft@));
        out
    }
}

/// The text of a value, or nothing for an empty one.
pub open spec fn brief_json(v: SpecValue, ft: Seq<(u64, String)>) -> SpecJson {
    if v is Empty {
        SpecJson::Null
    } else {
        SpecJson::Text(plain_display(v, ft))
    }
}

fn make_brief(v: &Value, ft: &Vec<(u64, String)>) -> (r: Json)
    ensures
        json_tree(r) == brief_json(v@, ft@),
{
    match v {
        Value::Empty => json_null(),
        _ => text(display_of_value(v, ft).as_str()),
    }
}

/// A child.
pub open spec fn child_json(n: FileNode, ft: Seq<(u64, String)>) -> SpecJson {
    object(
        seq![
            ("id"@, id_json(n.1@.id)),
            ("name"@, SpecJson::Text(n.1@.name)),
            ("type"@, SpecJson::Text(kind_word(n.1@.value))),
            ("value"@, brief_json(n.1@.value, ft)),
            ("source"@, SpecJson::Text(n.0@)),
        ],
    )
}

/// A node that refers.
pub open spec fn source_json(n: FileNode) -> SpecJson {
    object(
        seq![
            ("id"@, id_json(n.1@.id)),
            ("name"@, SpecJson::Text(n.1@.name)),
            ("source"@, SpecJson::Text(n.0@)),
        ],
    )
}

fn make_children(s: &Vec<FileNode>, ft: &Vec<(u64, String)>) -> (r: Json)
    ensures
        json_tree(r) == SpecJson::List(Seq::new(s@.len(), |i: int| child_json(s@[i], ft@))),
{
    let mut out: Vec<Json> = Vec::new();
    let mut i: usize = 0;
    assert(json_trees(out@) =~= Seq::new(0, |k: int| child_json(s@[k], ft@)));
    while i < s.len()
        invariant
            i <= s@.len(),
            json_trees(out@) == Seq::new(i as nat, |k: int| child_json(s@[k], ft@)),
        decreases s@.len() - i,
    {
        let ghost o0 = out@;
        let n = &s[i];
        let mut f = start();
        field(&mut f, "id", text(n.1.id.to_string().as_str()));
        field(&mut f, "name", text(n.1.name.as_str()));
        field(&mut f, "type", text(kind_word_of(&n.1.value)));
        field(&mut f, "value", make_brief(&n.1.value, ft));
        field(&mut f, "source", text(n.0.as_str()));
        assert(pairs(f@) =~= seq![
            ("id"@, id_json(n.1@.id)),
            ("name"@, SpecJson::Text(n.1@.name)),
            ("type"@, SpecJson::Text(kind_word(n.1@.value))),
            ("value"@, brief_json(n.1@.value, ft@)),
            ("source"@, SpecJson::Text(n.0@)),
        ]);
        let j = build(f);
        let ghost t = json_tree(j);
        out.push(j);
        assert(json_trees(out@) =~= json_trees(o0).push(t));
        assert(json_trees(out@) =~= Seq::new((i + 1) as nat, |k: int| child_json(s@[k], ft@)));
        i = i + 1;
    }
    json_list(out)
}

fn make_sources(s: &Vec<FileNode>) -> (r: Json)
    ensures
        json_tree(r) == SpecJson::List(Seq::new(s@.len(), |i: int| source_json(s@[i]))),
{
    let mut out: Vec<Json> = Vec::new();
    let mut i: usize = 0;
    assert(json_trees(out@) =~= Seq::new(0, |k: int| source_json(s@[k])));
    while i < s.len()
        invariant
            i <= s@.len(),
            json_trees(out@) == Seq::new(i as nat, |k: int| source_json(s@[k])),
        decreases s@.len() - i,
    {
        let ghost o0 = out@;
        let n = &s[i];
        let mut f = start();
        field(&mut f, "id", text(n.1.id.to_string().as_str()));
        field(&mut f, "name", text(n.1.name.as_str()));
        field(&mut f, "source", text(n.0.as_str()));
        assert(pairs(f@) =~= seq![
            ("id"@, id_json(n.1@.id)),
            ("name"@, SpecJson::Text(n.1@.name)),
            ("source"@, SpecJson::Text(n.0@)),
        ]);
        let j = build(f);
        let ghost t = json_tree(j);
        out.push(j);
        assert(json_trees(out@) =~= json_trees(o0).push(t));
        assert(json_trees(out@) =~= Seq::new((i + 1) as nat, |k: int| source_json(s@[k])));
        i = i + 1;
    }
    json_list(out)
}

/// The files that nodes were found in.
pub open spec fn files_of(s: Seq<FileNode>) -> Seq<Seq<char>> {
    Seq::new(s.len(), |i: int| s[i].0@)
}

fn file_names(s: &Vec<FileNode>) -> (r: Vec<String>)
    ensures
        text_views(r@) == files_of(s@),
{
    let mut out = silent();
    let mut i: usize = 0;
    while i < s.len()
        invariant
            i <= s@.len(),
            text_views(out@) == files_of(s@).take(i as int),
        decreases s@.len() - i,
    {
        tell(&mut out, owned(s[i].0.as_str()));
        assert(text_views(out@) =~= files_of(s@).take(i + 1));
        i = i + 1;
    }
    assert(files_of(s@).take(s@.len() as int) =~= files_of(s@));
    out
}

impl Gathered {
    /// What a program is told.
    pub open spec fn tree(self, ft: Seq<(u64, String)>) -> SpecJson {
        let n = self.views@[0].1@;
        object(
            seq![
                ("id"@, id_json(self.id)),
                ("name"@, SpecJson::Text(n.name)),
                ("type"@, SpecJson::Text(kind_word(n.value))),
                ("value"@, brief_json(n.value, ft)),
                ("sources"@, texts_json(files_of(self.views@))),
                (
                    "children"@,
                    SpecJson::List(
                        Seq::new(self.kids@.len(), |i: int| child_json(self.kids@[i], ft)),
                    ),
                ),
                (
                    "references_to"@,
                    SpecJson::List(
                        Seq::new(self.incoming@.len(), |i: int| source_json(self.incoming@[i])),
                    ),
                ),
            ],
        )
    }

    /// What a program is told. `ft` gives the texts of doubles.
    pub fn to_json(&self, ft: &Vec<(u64, String)>) -> (r: Json)
        requires
            self.views@.len() > 0,
        ensures
            json_tree(r) == self.tree(ft@),
    {
        let n = &self.views[0].1;
        let mut f = start();
        field(&mut f, "id", text(self.id.to_string().as_str()));
        field(&mut f, "name", text(n.name.as_str()));
        field(&mut f, "type", text(kind_word_of(&n.value)));
        field(&mut f, "value", make_brief(&n.value, ft));
        field(&mut f, "sources", text_list(&file_names(&self.views)));
        field(&mut f, "children", make_children(&self.kids, ft));
        field(&mut f, "references_to", make_sources(&self.incoming));
        assert(pairs(f@) =~= seq![
            ("id"@, id_json(self.id)),
            ("name"@, SpecJson::Text(n@.name)),
            ("type"@, SpecJson::Text(kind_word(n@.value))),
            ("value"@, brief_json(n@.value, ft@)),
            ("sources"@, texts_json(files_of(self.views@))),
            (
                "children"@,
                SpecJson::List(Seq::new(self.kids@.len(), |i: int| child_json(self.kids@[i], ft@))),
            ),
            (
                "references_to"@,
                SpecJson::List(
                    Seq::new(self.incoming@.len(), |i: int| source_json(self.incoming@[i])),
                ),
            ),
        ]);
        build(f)
    }
}

// ---------------------------------------------------------------------------
// Files that disagree
// ---------------------------------------------------------------------------

/// The files that hold one of the ids, one after another.
pub open spec fn files_listed(dup: Seq<(Uuid, Vec<String>)>, k: nat) -> Seq<Seq<char>>
    decreases k,
{
    if k == 0 {
        Seq::empty()
    } else {
        files_listed(dup, (k - 1) as nat) + text_views(dup[k - 1].1@)
    }
}

/// The files that hold one of the ids, each once.
pub fn files_in_question(dup: &Vec<(Uuid, Vec<String>)>) -> (r: Vec<String>)
    ensures
        text_views(r@) == names_met(
            files_listed(dup@, dup@.len()),
            files_listed(dup@, dup@.len()).len(),
        ),
{
    let mut all = silent();
    let mut i: usize = 0;
    while i < dup.len()
        invariant
            i <= dup@.len(),
            text_views(all@) == files_listed(dup@, i as nat),
        decreases dup@.len() - i,
    {
        let fs = &dup[i].1;
        let ghost before = text_views(all@);
        let mut j: usize = 0;
        assert(before + text_views(fs@).take(0) =~= before);
        while j < fs.len()
            invariant
                j <= fs@.len(),
                text_views(all@) == before + text_views(fs@).take(j as int),
            decreases fs@.len() - j,
        {
            tell(&mut all, owned(fs[j].as_str()));
            assert(text_views(all@) =~= before + text_views(fs@).take(j + 1));
            j = j + 1;
        }
        assert(text_views(fs@).take(fs@.len() as int) =~= text_views(fs@));
        i = i + 1;
    }
    assert(text_views(all@).len() == all@.len());
    each_once(&all)
}

/// The labels of the first `k` children that are in a file.
pub open spec fn labels_in(
    kids: Seq<FileNode>,
    file: Seq<char>,
    ft: Seq<(u64, String)>,
    k: nat,
) -> Seq<Seq<char>>
    decreases k,
{
    if k == 0 {
        Seq::empty()
    } else {
        let r = labels_in(kids, file, ft, (k - 1) as nat);
        if kids[k - 1].0@ == file {
            r.push(label_with_id(kids[k - 1].1@, ft))
        } else {
            r
        }
    }
}

/// What a file has of a node: the node itself, and its children there.
pub open spec fn one_side(n: FileNode, kids: Seq<FileNode>, ft: Seq<(u64, String)>) -> Seq<
    Seq<char>,
> {
    let mine = labels_in(kids, n.0@, ft, kids.len());
    seq![
        "  - "@ + n.0@,
        "      自身："@ + brief_label(n.1@, ft),
        if mine.len() == 0 {
            "      孩子：（无）"@
        } else {
            "      孩子（"@ + decimal(mine.len()) + " 个）："@ + enumerated(
                mine,
                " · "@,
                mine.len(),
            )
        },
    ]
}

/// What the first `k` files have of a node.
pub open spec fn sides(
    views: Seq<FileNode>,
    kids: Seq<FileNode>,
    ft: Seq<(u64, String)>,
    k: nat,
) -> Seq<Seq<char>>
    decreases k,
{
    if k == 0 {
        Seq::empty()
    } else {
        sides(views, kids, ft, (k - 1) as nat) + one_side(views[k - 1], kids, ft)
    }
}

/// What is said of a node that is not the same in all files.
pub open spec fn disagreement(
    id: Uuid,
    views: Seq<FileNode>,
    kids: Seq<FileNode>,
    ft: Seq<(u64, String)>,
) -> Seq<Seq<char>> {
    seq![uuid_text(id) + "  （同编号，自身内容不一致）"@] + sides(views, kids, ft, views.len())
        + seq![
        "      （如需对齐：xr catalog check --sync "@ + uuid_text(id) + " --base "@ + views[0].0@
            + "）"@,
    ]
}

fn labels_of(kids: &Vec<FileNode>, file: &str, ft: &Vec<(u64, String)>) -> (r: Vec<String>)
    ensures
        text_views(r@) == labels_in(kids@, file@, ft@, kids@.len()),
{
    let mut out = silent();
    let mut i: usize = 0;
    while i < kids.len()
        invariant
            i <= kids@.len(),
            text_views(out@) == labels_in(kids@, file@, ft@, i as nat),
        decreases kids@.len() - i,
    {
        if same_text(kids[i].0.as_str(), file) {
            let mut l = String::new();
            put_label(&mut l, &kids[i].1, ft);
            assert(l@ =~= label_with_id(kids@[i as int].1@, ft@));
            tell(&mut out, l);
        }
        i = i + 1;
    }
    out
}

/// What is said of a node that is not the same in all files. `ft` gives the texts of
/// doubles.
pub fn disagreement_lines(
    id: Uuid,
    views: &Vec<FileNode>,
    kids: &Vec<FileNode>,
    ft: &Vec<(u64, String)>,
) -> (r: Vec<String>)
    requires
        views@.len() > 0,
    ensures
        text_views(r@) == disagreement(id, views@, kids@, ft@),
{
    let mut out = silent();
    tell(&mut out, join2(id.to_string().as_str(), "  （同编号，自身内容不一致）"));
    let ghost first = text_views(out@);
    assert(first =~= seq![uuid_text(id) + "  （同编号，自身内容不一致）"@]);
    let mut i: usize = 0;
    assert(first =~= first + sides(views@, kids@, ft@, 0));
    while i < views.len()
        invariant
            i <= views@.len(),
            text_views(out@) == first + sides(views@, kids@, ft@, i as nat),
        decreases views@.len() - i,
    {
        let ghost before = text_views(out@);
        let n = &views[i];
        tell(&mut out, join2("  - ", n.0.as_str()));
        tell(&mut out, join2("      自身：", label_brief(&n.1, ft).as_str()));
        let mine = labels_of(kids, n.0.as_str(), ft);
        assert(text_views(mine@).len() == mine@.len());
        if mine.len() == 0 {
            tell(&mut out, owned("      孩子：（无）"));
        } else {
            let mut l = tell_count("      孩子（", mine.len(), " 个）：");
            l.append(enumerate(&mine, " · ").as_str());
            tell(&mut out, l);
        }
        proof {
            assert(text_views(out@) =~= before + one_side(views@[i as int], kids@, ft@));
            assert(text_views(out@) =~= first + sides(views@, kids@, ft@, (i + 1) as nat));
        }
        i = i + 1;
    }
    let mut l = join2("      （如需对齐：xr catalog check --sync ", id.to_string().as_str());
    l.append(" --base ");
    l.append(views[0].0.as_str());
    l.append("）");
    tell(&mut out, l);
    assert(text_views(out@) =~= disagreement(id, views@, kids@, ft@));
    out
}

/// The last line of a check: `diffs` of `all` ids in several files are not the same there.
pub fn check_summary(all: usize, diffs: usize) -> (r: String)
    ensures
        r@ == (if all == 0 {
            "（没有同编号多文件的情况）"@
        } else if diffs == 0 {
            "（同编号多文件共 "@ + decimal(all as nat)
                + " 个，但节点自身内容都一致，无需处理）"@
        } else {
            "共 "@ + decimal(diffs as nat) + " 个编号自身内容不一致。"@
        }),
{
    if all == 0 {
        owned("（没有同编号多文件的情况）")
    } else if diffs == 0 {
        tell_count(
            "（同编号多文件共 ",
            all,
            " 个，但节点自身内容都一致，无需处理）",
        )
    } else {
        tell_count("共 ", diffs, " 个编号自身内容不一致。")
    }
}

} // verus!
