use xirang::backend::FileNode;
use xirang::codec::{Node, Uuid, Value};
use xirang::console::{index_args, CheckOutcome};
use xirang::fixture::{parse_numeric, FixtureKind};
use xirang::report::{
    check_summary, disagreement_lines, files_in_question, BesideFile, BesideReport, BesideStatus,
    Gathered, IndexReport, Size, SizeTexts,
};
use xirang::wsidx::{FileStatus, Stats, Status};

fn strings(v: &[&str]) -> Vec<String> {
    v.iter().map(|s| s.to_string()).collect()
}

fn at(file: &str, id: u8, name: &str, value: Value) -> FileNode {
    (file.to_string(), Node { id: Uuid([id; 16]), parent: None, name: name.into(), value })
}

fn file(path: &str, exists: bool, fresh: bool) -> FileStatus {
    FileStatus { path: path.into(), entries: 3, gen: 1, cur_gen: 2, exists, fresh }
}

fn size(bytes: u64, mb: &str) -> Size {
    Size { bytes, mb: mb.into() }
}

fn stats() -> Stats {
    Stats { files: 2, loc: 9, rel: 7, rev: 1, blocks: 3, bytes_written: 0, log_bytes: 0 }
}

fn line(r: &IndexReport) -> String {
    let l = r.lines();
    assert_eq!(l.len(), 1);
    l[0].clone()
}

fn json(r: &IndexReport) -> String {
    r.to_json().unwrap().line()
}

#[test]
fn the_arguments_of_the_index_are_parted() {
    let (sub, paths, flags) =
        index_args(&strings(&["check", "a.xirang", "--sample", "7", "--json", "b.xirang"]));
    assert_eq!(sub, "check");
    assert_eq!(paths, strings(&["a.xirang", "b.xirang"]));
    assert_eq!(flags, strings(&["--sample", "7", "--json"]));

    let (sub, paths, flags) = index_args(&strings(&["a.xirang", "--sample"]));
    assert_eq!(sub, "status");
    assert_eq!(paths, strings(&["a.xirang"]));
    assert_eq!(flags, strings(&["--sample"]));
    assert_eq!(index_args(&vec![]).0, "status");
}

#[test]
fn files_of_the_index_are_told() {
    let list = || vec![file("甲", true, true), file("乙", true, false), file("丙", false, false)];
    let all = IndexReport::Files { list: list(), stale_only: false };
    assert_eq!(
        all.lines(),
        strings(&[
            "甲 · 3 条 · 代号 1/2 · 已同步",
            "乙 · 3 条 · 代号 1/2 · 指纹不符（跑 xr index update）",
            "丙 · 3 条 · 代号 1/2 · 文件已不存在 · 指纹不符（跑 xr index update）",
            "共 3 个文件，其中 2 个需要处理",
        ])
    );
    let stale = IndexReport::Files { list: list(), stale_only: true };
    assert_eq!(stale.lines().len(), 3);
    assert_eq!(
        json(&stale),
        "{\"count\":3,\"files\":[\
         {\"curGen\":2,\"entries\":3,\"exists\":true,\"fresh\":false,\"gen\":1,\"path\":\"乙\"},\
         {\"curGen\":2,\"entries\":3,\"exists\":false,\"fresh\":false,\"gen\":1,\"path\":\"丙\"}\
         ],\"shown\":2}"
    );
}

fn status(stale: &[&str], listed: Option<Vec<FileStatus>>) -> IndexReport {
    let status = Status {
        version: 1,
        generation: 4,
        files: 2,
        uuid_total: 9,
        loc_blocks: 1,
        rel_blocks: 2,
        rev_blocks: 3,
        loc_entries: 9,
        rel_entries: 7,
        rev_entries: 1,
        log_bytes: 500_000,
        base_bytes: 1_000_000,
        index_bytes: 1_500_000,
        stale_files: strings(stale),
        need_compact: !stale.is_empty(),
    };
    let sizes = SizeTexts {
        base: "1.00".into(),
        log: "0.50".into(),
        share: "50".into(),
        index: "1.50".into(),
    };
    IndexReport::Status { status, dir: "/w/.idx".into(), root: "/w".into(), sizes, listed }
}

#[test]
fn the_standing_of_the_index_is_told() {
    let s = status(&["a", "b", "c", "d"], None);
    assert_eq!(
        s.lines(),
        strings(&[
            "索引模式: workspace（工作区台账 wsidx-v1）",
            "索引目录: /w/.idx",
            "文件 2 个 · 编号 9 条 · 代数 4",
            "定位本: 块 1 · 条目 9 · 关系本: 块 2 · 条目 7 · 反向本: 块 3 · 条目 1",
            "主干 1.00 MB · 日志 0.50 MB（占主干 50%）· 索引目录共 1.50 MB",
            "指纹不符（读时回退整份载入）4 个，例如：",
            "  a",
            "  b",
            "  c",
            "  修：xr index update",
            "日志已超过主干 30%，建议：xr index compact",
        ])
    );
    assert_eq!(
        json(&s),
        "{\"baseBytes\":1000000,\"files\":2,\"generation\":4,\"indexBytes\":1500000,\
         \"indexDir\":\"/w/.idx\",\"ledgers\":{\"loc\":{\"blocks\":1,\"entries\":9},\
         \"rel\":{\"blocks\":2,\"entries\":7},\"rev\":{\"blocks\":3,\"entries\":1}},\
         \"logBytes\":500000,\"mode\":\"workspace\",\"needCompact\":true,\
         \"protocol\":\"wsidx-v1\",\"staleFiles\":4,\"uuidTotal\":9,\"workspace\":\"/w\"}"
    );
    let many = (0..12).map(|i| file(&format!("f{i}"), true, true)).collect();
    let lines = status(&[], Some(many)).lines();
    assert_eq!(lines.len(), 5 + 5 + 10);
    assert_eq!(lines[6], "  定位本 共 9 条");
    assert_eq!(lines[9], "文件清单（前 10 个，共 12 个）:");
    assert_eq!(lines[19], "  f9 · 3 条 · 代号 1/2 · 已同步");
}

#[test]
fn what_came_of_an_index_command_is_told() {
    let r = IndexReport::Path { dir: "/w/.idx".into(), root: "/w".into() };
    assert_eq!(line(&r), "/w/.idx");
    assert_eq!(json(&r), "{\"indexDir\":\"/w/.idx\",\"workspace\":\"/w\"}");
    let r = IndexReport::WouldUpdate { stale: 2 };
    assert_eq!(line(&r), "（预演）将重扫 2 个被改动过的文件并清理已删除文件的条目");
    assert_eq!(json(&r), "{\"dryRun\":true,\"staleFiles\":2}");
    let r = IndexReport::Updated { files: 1, entries: 8, removed: 3 };
    assert_eq!(line(&r), "已更新 1 个文件（追加 8 条）· 清理 3 个已删除文件");
    assert_eq!(json(&r), "{\"entries\":8,\"removedFiles\":3,\"updatedFiles\":1}");
    let r = IndexReport::Rebuilt(stats());
    assert_eq!(line(&r), "已重建索引：2 个文件 · 定位 9 · 关系 7 · 反向 1 · 块 3");
    assert_eq!(json(&r), "{\"blocks\":3,\"files\":2,\"loc\":9,\"rel\":7,\"rev\":1}");
    assert!(line(&IndexReport::Compacted(stats())).starts_with("已压实：2 个文件"));
    let r = IndexReport::WouldCompact { log: size(1, "0.00"), base: size(2_000_000, "2.00") };
    assert_eq!(line(&r), "（预演）将把 0.00 MB 日志合并回 2.00 MB 主干（重写三本台账）");
    assert_eq!(json(&r), "{\"baseBytes\":2000000,\"dryRun\":true,\"logBytes\":1}");
    let r = IndexReport::WouldCollect { gone: 1 };
    assert_eq!(line(&r), "（预演）将清理 1 个已不存在的文件条目");
    assert_eq!(json(&r), "{\"dryRun\":true,\"missingFiles\":1}");
    let r = IndexReport::Collected { files: 1 };
    assert_eq!(line(&r), "已清理 1 个已不存在的文件条目（下次压实后生效）");
    assert_eq!(json(&r), "{\"removedFiles\":1}");
    let r = IndexReport::WouldDrop { dir: "d".into(), size: size(5, "0.00"), files: 2 };
    assert_eq!(line(&r), "（预演）将删除 d（0.00 MB）");
    assert_eq!(json(&r), "{\"bytes\":5,\"dryRun\":true,\"files\":2,\"indexDir\":\"d\"}");
    let r = IndexReport::Dropped { size: size(5, "0.00"), files: 2 };
    assert_eq!(line(&r), "已删除索引目录（释放 0.00 MB，原登记 2 个文件）；数据文件未动");
    assert_eq!(json(&r), "{\"removedBytes\":5,\"removedFiles\":2}");
    let r = IndexReport::WouldForget { targets: strings(&["a", "b"]) };
    assert_eq!(line(&r), "（预演）将移除这些文件的条目：a、b");
    assert_eq!(json(&r), "{\"dryRun\":true,\"forget\":[\"a\",\"b\"]}");
    let r = IndexReport::Forgotten { files: 1, targets: strings(&["a"]) };
    assert_eq!(line(&r), "已从台账移除 1 个文件的条目（数据文件未动）");
    assert_eq!(json(&r), "{\"files\":[\"a\"],\"forgotten\":1}");
    let r = IndexReport::Forgotten { files: 0, targets: vec![] };
    assert!(line(&r).starts_with("台账里没有这些文件"));
    assert_eq!(json(&IndexReport::NoLock), "{\"lock\":null}");
    let r = IndexReport::Unlocked { pid: 42, alive: false };
    assert_eq!(line(&r), "已删除锁文件（原记录 pid 42，该进程已不存在）");
    assert_eq!(json(&r), "{\"alive\":false,\"removedPid\":42}");
    assert_eq!(r.exit_code(), 0);
}

#[test]
fn what_takes_entries_away_is_asked_about() {
    let r = IndexReport::AskDrop { dir: "d".into(), size: size(5, "0.00"), files: 2 };
    assert_eq!(r.exit_code(), 2);
    assert!(r.to_json().is_none());
    assert_eq!(
        r.lines(),
        strings(&[
            "（保护：将删除整个索引目录 d（0.00 MB，登记 2 个文件）；数据文件不受影响）",
            "（确认请加 --yes；先看看会删什么可以加 --dry-run）",
        ])
    );
    let r = IndexReport::AskForget { files: 3 };
    assert_eq!(r.exit_code(), 2);
    assert_eq!(r.lines()[0], "（保护：将从台账移除 3 个文件的条目；数据文件保留）");
}

#[test]
fn a_check_of_the_index_is_told() {
    let told = CheckOutcome { problems: 0, details: vec![] };
    let r = IndexReport::Checked { told, sample: 5, deep: true };
    assert_eq!(line(&r), "索引一致：抽样 5 个编号都能定位并读出；全量条目数比对通过");
    assert_eq!(r.exit_code(), 0);
    let told = CheckOutcome { problems: 2, details: strings(&["指纹不符 2 个"]) };
    let r = IndexReport::Checked { told, sample: 5, deep: false };
    assert_eq!(
        r.lines(),
        strings(&[
            "  指纹不符 2 个",
            "发现 2 处问题；可跑 xr index update（增量）或 xr index rebuild（全量）",
        ])
    );
    assert_eq!(json(&r), "{\"details\":[\"指纹不符 2 个\"],\"ok\":false,\"problems\":2}");
    assert_eq!(r.exit_code(), 1);
}

#[test]
fn indexes_beside_files_are_told() {
    let one = |r: BesideReport| r.lines()[0].clone();
    assert!(one(BesideReport::NoPath).contains("没有单一索引目录"));
    assert_eq!(one(BesideReport::NoLock), "（侧车模式没有写者锁）");
    assert!(one(BesideReport::NoCompact).starts_with("（侧车模式无需压实："));
    assert!(one(BesideReport::NoUpdate).starts_with("（侧车模式无需增量更新："));
    assert_eq!(one(BesideReport::WouldDrop { files: 2 }), "（预演）将删除 2 个文件对应的 .idx");
    assert_eq!(one(BesideReport::Rebuilt { files: 2 }), "已重建 2 个侧车索引");
    assert_eq!(one(BesideReport::Collected { files: 1 }), "已清理 1 个孤儿侧车索引");
    assert_eq!(BesideReport::AskDrop.exit_code(), 2);
    assert!(BesideReport::AskDrop.to_json().is_none());
    let r = BesideReport::Dropped { files: 2 };
    assert_eq!(r.exit_code(), 0);
    assert_eq!(r.to_json().unwrap().line(), "{\"removed\":2}");
    assert_eq!(one(r), "已删除 2 个侧车索引（数据文件未动）");
    let files = vec![
        BesideFile { file: "a".into(), exists: true, bytes: 9 },
        BesideFile { file: "b".into(), exists: false, bytes: 0 },
    ];
    let lines = BesideReport::Files(files).lines();
    assert_eq!(lines[0], "a · 有侧车（9 字节）");
    assert_eq!(lines[1], "b · 无侧车（0 字节）");
    assert!(lines[2].starts_with("共 2 个文件（侧车模式"));
    let s = BesideStatus {
        file: "a".into(),
        index: "a.idx".into(),
        fresh: false,
        roots: 1,
        nodes: 5,
        edges: 2,
    };
    assert_eq!(
        BesideReport::Status(vec![s]).lines(),
        strings(&["a", "  索引: a.idx", "  状态: 新建/重建", "  根: 1 · 节点: 5 · 引用边: 2"])
    );
}

#[test]
fn a_node_in_several_files_is_told() {
    let id = Uuid([1; 16]);
    let u = |n: u8| Uuid([n; 16]).to_string();
    let found = Gathered {
        id,
        views: vec![at("a", 1, "甲", Value::Reference(Uuid([2; 16]))), at("b", 1, "", Value::Empty)],
        kids: vec![at("b", 3, "子", Value::Int(4))],
        target: Some(at("c", 2, "的", Value::Text("值".into()))),
        incoming: vec![at("d", 5, "来", Value::Empty)],
    };
    assert_eq!(
        found.lines(&vec![]),
        vec![
            format!("节点 甲 = → {} <{}>（2 处）", u(2), u(1)),
            format!("  甲 = → {}  （a）", u(2)),
            "  (空节点)  （b）".to_string(),
            "  孩子（并集 1 个）：".to_string(),
            format!("    子 = 4 <{}>  （b）", u(3)),
            format!("  引用 → 的 = 值 <{}>  （在 c）", u(2)),
            format!("  ← 来 <{}>  （在 d）", u(5)),
        ]
    );
    assert_eq!(
        found.to_json(&vec![]).line(),
        format!(
            "{{\"children\":[{{\"id\":\"{}\",\"name\":\"子\",\"source\":\"b\",\"type\":\"integer\",\
             \"value\":\"4\"}}],\"id\":\"{}\",\"name\":\"甲\",\"references_to\":[{{\"id\":\"{}\",\
             \"name\":\"来\",\"source\":\"d\"}}],\"sources\":[\"a\",\"b\"],\"type\":\"reference\",\
             \"value\":\"→ {}\"}}",
            u(3),
            u(1),
            u(5),
            u(2)
        )
    );
    let lost = Gathered { kids: vec![], target: None, incoming: vec![], ..found };
    let lines = lost.lines(&vec![]);
    assert_eq!(lines[3], format!("  引用 → {} <不存在>", u(2)));
    assert_eq!(lines[4], "  （无反向引用）");
}

#[test]
fn files_that_disagree_are_told() {
    let id = Uuid([1; 16]);
    let dup = vec![
        (id, strings(&["a", "b"])),
        (Uuid([2; 16]), strings(&["b", "c"])),
    ];
    assert_eq!(files_in_question(&dup), strings(&["a", "b", "c"]));
    let views = vec![at("a", 1, "甲", Value::Int(1)), at("b", 1, "甲", Value::Int(2))];
    let kids = vec![at("b", 3, "子", Value::Empty), at("b", 4, "", Value::Int(5))];
    let u = |n: u8| Uuid([n; 16]).to_string();
    assert_eq!(
        disagreement_lines(id, &views, &kids, &vec![]),
        vec![
            format!("{}  （同编号，自身内容不一致）", u(1)),
            "  - a".to_string(),
            "      自身：甲 = 1".to_string(),
            "      孩子：（无）".to_string(),
            "  - b".to_string(),
            "      自身：甲 = 2".to_string(),
            format!("      孩子（2 个）：子 <{}> · 5 <{}>", u(3), u(4)),
            format!("      （如需对齐：xr catalog check --sync {} --base a）", u(1)),
        ]
    );
    assert_eq!(check_summary(0, 0), "（没有同编号多文件的情况）");
    assert_eq!(check_summary(2, 0), "（同编号多文件共 2 个，但节点自身内容都一致，无需处理）");
    assert_eq!(check_summary(2, 1), "共 1 个编号自身内容不一致。");
}

#[test]
fn numbers_of_nodes_are_read() {
    assert_eq!(parse_numeric("1e5"), Some(100_000));
    assert_eq!(parse_numeric(" 1E3 "), Some(1_000));
    assert_eq!(parse_numeric("1ex"), Some(10_000));
    assert_eq!(parse_numeric("2500"), Some(2_500));
    assert_eq!(parse_numeric("many"), Some(10_000));
    assert_eq!(parse_numeric("1e40"), None);
    assert_eq!(FixtureKind::of_word("single"), FixtureKind::Single);
    assert_eq!(FixtureKind::of_word("shards").word(), "shards");
    assert_eq!(FixtureKind::of_word("other"), FixtureKind::Multi);
}
