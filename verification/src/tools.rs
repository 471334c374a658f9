//! The tools of the server as they are listed: what each does, and what arguments it
//! takes.
use crate::console::str_views;
use crate::json::{json_list, json_tree, json_trees, Json, SpecJson};
use crate::reply::{build, field, object, pairs, start, text, texts_json};
use crate::request::{action_list, actions, tool_list, tool_names, Tool};
use vstd::prelude::*;

verus! {

/// What an argument is.
#[derive(Clone, Copy, Debug, PartialEq, Eq, Structural)]
pub enum PropKind {
    Text,
    Whole,
    Truth,
    Fields,
    Any,
    /// A list of anything.
    List,
    /// A list of paths with values.
    Pairs,
    /// One of the layouts.
    Layout,
    /// One of the actions of the tool.
    Action,
}

/// An argument of a tool.
#[derive(Clone, Copy, Debug)]
pub struct Prop {
    pub key: &'static str,
    pub kind: PropKind,
    pub about: &'static str,
}

/// The model of [`Prop`].
pub struct SpecProp {
    pub key: Seq<char>,
    pub kind: PropKind,
    pub about: Seq<char>,
}

impl View for Prop {
    type V = SpecProp;

    open spec fn view(&self) -> SpecProp {
        SpecProp { key: self.key@, kind: self.kind, about: self.about@ }
    }
}

/// The models of arguments.
pub open spec fn prop_views(s: Seq<Prop>) -> Seq<SpecProp> {
    Seq::new(s.len(), |i: int| s[i]@)
}

/// What is said of a file.
pub const FILE: &'static str = ".xirang 路径（相对第一个 --root，或绝对路径）";

/// What is said of insisting.
pub const FORCE: &'static str = "危险 / 受保护操作需要显式设为 true（默认 false）";

/// An argument.
pub open spec fn prop(key: Seq<char>, kind: PropKind, about: Seq<char>) -> SpecProp {
    SpecProp { key, kind, about }
}

/// An argument that is a file.
pub open spec fn file_prop(key: Seq<char>) -> SpecProp {
    prop(key, PropKind::Text, FILE@)
}

/// What a tool does.
pub open spec fn about_tool(tool: Tool) -> Seq<char> {
    match tool {
        Tool::Context => "先看这里：允许操作的目录、版本、各工具支持的动作清单"@,
        Tool::FileInfo => "文件摘要（格式版本 / 节点数 / 根数）"@,
        Tool::FileValidate => "结构校验（E/R 错误码）"@,
        Tool::FileDiff => "对比两个文件（增/删/改，按节点编号）"@,
        Tool::Tree => "树视图。layout=tree 返回嵌套结构；layout=flat 按存放顺序一行一个节点（大文件用 flat + limit）"@,
        Tool::Query => "查询。find=按名字/文本值搜；match=按结构(shape_of)/名字(root)/模板(template) + where 匹配；instances=某模板的实例；refs=引用边；history=@history 快照"@,
        Tool::Node => "改节点。create=新建；set=改值；rename=改名（编号不变，旧名进 @history）；remove=删除（置空，可 revert 找回）；link=连引用边；copy=复制子树；fill=按名/路径赋值；revert=回滚到最近快照；prune_history=裁剪 @history 留痕（保留最近 keep 条，默认 20；会丢掉回滚能力，需 force）；batch=一次改一批（任一条不成整批不动）"@,
        Tool::Template => "模板。define=建模板（结构取自 sample）；list=列模板与实例数；instantiate=按模板批量建实例（可 under 挂到某父下）；remove=删模板（连同实例，需 force）"@,
        Tool::Convert => "格式转换。export=导出为 json/yaml/xml/md 文本；import=用 json/yaml/xml 整文件替换（原文件非空要 force）；append=把嵌套 JSON 追加成子树"@,
        Tool::Blob => "二进制块。import=把文件读进来存成 blob；export=写出为文件（目标已存在要 force）；info=大小 / @format / 文本预览"@,
    }
}

/// What a tool does.
fn tool_about(tool: Tool) -> (r: &'static str)
    ensures
        r@ == about_tool(tool),
{
    match tool {
        Tool::Context => "先看这里：允许操作的目录、版本、各工具支持的动作清单",
        Tool::FileInfo => "文件摘要（格式版本 / 节点数 / 根数）",
        Tool::FileValidate => "结构校验（E/R 错误码）",
        Tool::FileDiff => "对比两个文件（增/删/改，按节点编号）",
        Tool::Tree => "树视图。layout=tree 返回嵌套结构；layout=flat 按存放顺序一行一个节点（大文件用 flat + limit）",
        Tool::Query => "查询。find=按名字/文本值搜；match=按结构(shape_of)/名字(root)/模板(template) + where 匹配；instances=某模板的实例；refs=引用边；history=@history 快照",
        Tool::Node => "改节点。create=新建；set=改值；rename=改名（编号不变，旧名进 @history）；remove=删除（置空，可 revert 找回）；link=连引用边；copy=复制子树；fill=按名/路径赋值；revert=回滚到最近快照；prune_history=裁剪 @history 留痕（保留最近 keep 条，默认 20；会丢掉回滚能力，需 force）；batch=一次改一批（任一条不成整批不动）",
        Tool::Template => "模板。define=建模板（结构取自 sample）；list=列模板与实例数；instantiate=按模板批量建实例（可 under 挂到某父下）；remove=删模板（连同实例，需 force）",
        Tool::Convert => "格式转换。export=导出为 json/yaml/xml/md 文本；import=用 json/yaml/xml 整文件替换（原文件非空要 force）；append=把嵌套 JSON 追加成子树",
        Tool::Blob => "二进制块。import=把文件读进来存成 blob；export=写出为文件（目标已存在要 force）；info=大小 / @format / 文本预览",
    }
}

/// The arguments of a tool.
pub open spec fn props_of(tool: Tool) -> Seq<SpecProp> {
    match tool {
        Tool::Context => Seq::empty(),
        Tool::FileInfo => seq![
            file_prop("file"@),
        ],
        Tool::FileValidate => seq![
            file_prop("file"@),
        ],
        Tool::FileDiff => seq![
            file_prop("a"@),
            file_prop("b"@),
        ],
        Tool::Tree => seq![
            file_prop("file"@),
            prop("layout"@, PropKind::Layout, "默认 tree"@),
            prop("node"@, PropKind::Text, "只看这棵子树（节点编号）"@),
            prop("depth"@, PropKind::Whole, "只展开到第 N 层"@),
            prop("limit"@, PropKind::Whole, "最多返回多少个节点，默认 200"@),
            prop("skip_aux"@, PropKind::Truth, "跳过 @ 开头的辅助节点"@),
            prop("include_ids"@, PropKind::Truth, "文本视图里是否带编号（对 JSON 结果无影响）"@),
        ],
        Tool::Query => seq![
            file_prop("file"@),
            prop("action"@, PropKind::Action, ""@),
            prop("pattern"@, PropKind::Text, "find：搜索串"@),
            prop("root"@, PropKind::Text, "match：按节点名锚定"@),
            prop("shape_of"@, PropKind::Text, "match：按该节点的形状码锚定"@),
            prop("template"@, PropKind::Text, "match / instances：模板名或编号"@),
            prop("where"@, PropKind::Fields, "match：值约束，如 {\"词形\":\"火\"}"@),
            prop("tree"@, PropKind::Truth, "match：命中项连整棵树一起返回"@),
            prop("node"@, PropKind::Text, "refs / history：节点编号"@),
        ],
        Tool::Node => seq![
            file_prop("file"@),
            prop("action"@, PropKind::Action, ""@),
            prop("force"@, PropKind::Truth, FORCE@),
            prop("no_history"@, PropKind::Truth, "不写 @history / @created（批量 / 初始数据）"@),
            prop("node"@, PropKind::Text, "set / rename / remove / copy / revert：目标节点编号"@),
            prop("parent"@, PropKind::Text, "create / copy：父节点编号；omit 或 \"nil\" = 自由根"@),
            prop("name"@, PropKind::Text, "create：节点名；rename：新名字（非空，≤255 字节）"@),
            prop("value"@, PropKind::Any, "create / set：新值（按 JSON 类型；字符串即文本）"@),
            prop("from"@, PropKind::Text, "link：起点节点编号"@),
            prop("to"@, PropKind::Text, "link：目标节点编号"@),
            prop("blank"@, PropKind::Truth, "copy：只复制结构（标量值清空）"@),
            prop("root"@, PropKind::Text, "fill：赋值起点节点编号"@),
            prop("assigns"@, PropKind::Pairs, "fill：[{path, value}]，path 形如 \"词形\" 或 \"词义/01/释义\""@),
            prop("keep"@, PropKind::Whole, "prune_history：保留最近多少条快照，默认 20"@),
            prop("before"@, PropKind::Text, "prune_history：只裁早于该 ISO 时间前缀的快照（如 2026-01-01）"@),
            prop("ops"@, PropKind::List, "batch：[{op: set/rename, id, value/name}]，按顺序做"@),
            prop("dry_run"@, PropKind::Truth, "batch：只预演，不写文件"@),
        ],
        Tool::Template => seq![
            file_prop("file"@),
            prop("action"@, PropKind::Action, ""@),
            prop("force"@, PropKind::Truth, FORCE@),
            prop("name"@, PropKind::Text, "define：模板名"@),
            prop("sample"@, PropKind::Fields, "define：结构样例（键→节点名，嵌套→子树）"@),
            prop("template"@, PropKind::Text, "instantiate / remove：模板名或编号"@),
            prop("data"@, PropKind::Any, "instantiate：记录（对象数组，或单个对象）"@),
            prop("under"@, PropKind::Text, "instantiate：把实例挂到这个父节点下（omit = 自由根）"@),
        ],
        Tool::Convert => seq![
            file_prop("file"@),
            prop("action"@, PropKind::Action, ""@),
            prop("force"@, PropKind::Truth, FORCE@),
            prop("format"@, PropKind::Text, "export：json|yaml|xml|md；import：json|yaml|xml"@),
            prop("subtree"@, PropKind::Text, "export：只导出这棵子树"@),
            prop("text"@, PropKind::Text, "import：要导入的内容"@),
            prop("data"@, PropKind::Any, "append：嵌套 JSON（对象→子节点，数组→0,1,2，{\"@ref\":\"名\"}→引用边）"@),
            prop("parent"@, PropKind::Text, "append：挂在哪个父节点下（omit = 自由根）"@),
        ],
        Tool::Blob => seq![
            file_prop("file"@),
            prop("action"@, PropKind::Action, ""@),
            prop("force"@, PropKind::Truth, FORCE@),
            prop("source"@, PropKind::Text, "import：源文件路径（须在允许目录内）"@),
            prop("dest"@, PropKind::Text, "export：目标文件路径（须在允许目录内）"@),
            prop("node"@, PropKind::Text, "export / info：blob 所在节点编号"@),
            prop("parent"@, PropKind::Text, "import：挂到哪个父节点下（omit = 自由根）"@),
        ],
    }
}

/// The arguments that a tool needs.
pub open spec fn needed_by(tool: Tool) -> Seq<Seq<char>> {
    match tool {
        Tool::Context => Seq::empty(),
        Tool::FileInfo => seq!["file"@],
        Tool::FileValidate => seq!["file"@],
        Tool::FileDiff => seq!["a"@, "b"@],
        Tool::Tree => seq!["file"@],
        _ => seq!["file"@, "action"@],
    }
}

fn props_file_info() -> (r: Vec<Prop>)
    ensures
        prop_views(r@) == props_of(Tool::FileInfo),
{
    let r: Vec<Prop> = vec![
        Prop { key: "file", kind: PropKind::Text, about: FILE },
    ];
    assert(prop_views(r@) =~= props_of(Tool::FileInfo));
    r
}

fn props_file_validate() -> (r: Vec<Prop>)
    ensures
        prop_views(r@) == props_of(Tool::FileValidate),
{
    let r: Vec<Prop> = vec![
        Prop { key: "file", kind: PropKind::Text, about: FILE },
    ];
    assert(prop_views(r@) =~= props_of(Tool::FileValidate));
    r
}

fn props_file_diff() -> (r: Vec<Prop>)
    ensures
        prop_views(r@) == props_of(Tool::FileDiff),
{
    let r: Vec<Prop> = vec![
        Prop { key: "a", kind: PropKind::Text, about: FILE },
        Prop { key: "b", kind: PropKind::Text, about: FILE },
    ];
    assert(prop_views(r@) =~= props_of(Tool::FileDiff));
    r
}

fn props_tree() -> (r: Vec<Prop>)
    ensures
        prop_views(r@) == props_of(Tool::Tree),
{
    let r: Vec<Prop> = vec![
        Prop { key: "file", kind: PropKind::Text, about: FILE },
        Prop { key: "layout", kind: PropKind::Layout, about: "默认 tree" },
        Prop { key: "node", kind: PropKind::Text, about: "只看这棵子树（节点编号）" },
        Prop { key: "depth", kind: PropKind::Whole, about: "只展开到第 N 层" },
        Prop { key: "limit", kind: PropKind::Whole, about: "最多返回多少个节点，默认 200" },
        Prop { key: "skip_aux", kind: PropKind::Truth, about: "跳过 @ 开头的辅助节点" },
        Prop { key: "include_ids", kind: PropKind::Truth, about: "文本视图里是否带编号（对 JSON 结果无影响）" },
    ];
    assert(prop_views(r@) =~= props_of(Tool::Tree));
    r
}

fn props_query() -> (r: Vec<Prop>)
    ensures
        prop_views(r@) == props_of(Tool::Query),
{
    let r: Vec<Prop> = vec![
        Prop { key: "file", kind: PropKind::Text, about: FILE },
        Prop { key: "action", kind: PropKind::Action, about: "" },
        Prop { key: "pattern", kind: PropKind::Text, about: "find：搜索串" },
        Prop { key: "root", kind: PropKind::Text, about: "match：按节点名锚定" },
        Prop { key: "shape_of", kind: PropKind::Text, about: "match：按该节点的形状码锚定" },
        Prop { key: "template", kind: PropKind::Text, about: "match / instances：模板名或编号" },
        Prop { key: "where", kind: PropKind::Fields, about: "match：值约束，如 {\"词形\":\"火\"}" },
        Prop { key: "tree", kind: PropKind::Truth, about: "match：命中项连整棵树一起返回" },
        Prop { key: "node", kind: PropKind::Text, about: "refs / history：节点编号" },
    ];
    assert(prop_views(r@) =~= props_of(Tool::Query));
    r
}

fn props_node() -> (r: Vec<Prop>)
    ensures
        prop_views(r@) == props_of(Tool::Node),
{
    let r: Vec<Prop> = vec![
        Prop { key: "file", kind: PropKind::Text, about: FILE },
        Prop { key: "action", kind: PropKind::Action, about: "" },
        Prop { key: "force", kind: PropKind::Truth, about: FORCE },
        Prop { key: "no_history", kind: PropKind::Truth, about: "不写 @history / @created（批量 / 初始数据）" },
        Prop { key: "node", kind: PropKind::Text, about: "set / rename / remove / copy / revert：目标节点编号" },
        Prop { key: "parent", kind: PropKind::Text, about: "create / copy：父节点编号；omit 或 \"nil\" = 自由根" },
        Prop { key: "name", kind: PropKind::Text, about: "create：节点名；rename：新名字（非空，≤255 字节）" },
        Prop { key: "value", kind: PropKind::Any, about: "create / set：新值（按 JSON 类型；字符串即文本）" },
        Prop { key: "from", kind: PropKind::Text, about: "link：起点节点编号" },
        Prop { key: "to", kind: PropKind::Text, about: "link：目标节点编号" },
        Prop { key: "blank", kind: PropKind::Truth, about: "copy：只复制结构（标量值清空）" },
        Prop { key: "root", kind: PropKind::Text, about: "fill：赋值起点节点编号" },
        Prop { key: "assigns", kind: PropKind::Pairs, about: "fill：[{path, value}]，path 形如 \"词形\" 或 \"词义/01/释义\"" },
        Prop { key: "keep", kind: PropKind::Whole, about: "prune_history：保留最近多少条快照，默认 20" },
        Prop { key: "before", kind: PropKind::Text, about: "prune_history：只裁早于该 ISO 时间前缀的快照（如 2026-01-01）" },
        Prop { key: "ops", kind: PropKind::List, about: "batch：[{op: set/rename, id, value/name}]，按顺序做" },
        Prop { key: "dry_run", kind: PropKind::Truth, about: "batch：只预演，不写文件" },
    ];
    assert(prop_views(r@) =~= props_of(Tool::Node));
    r
}

fn props_template() -> (r: Vec<Prop>)
    ensures
        prop_views(r@) == props_of(Tool::Template),
{
    let r: Vec<Prop> = vec![
        Prop { key: "file", kind: PropKind::Text, about: FILE },
        Prop { key: "action", kind: PropKind::Action, about: "" },
        Prop { key: "force", kind: PropKind::Truth, about: FORCE },
        Prop { key: "name", kind: PropKind::Text, about: "define：模板名" },
        Prop { key: "sample", kind: PropKind::Fields, about: "define：结构样例（键→节点名，嵌套→子树）" },
        Prop { key: "template", kind: PropKind::Text, about: "instantiate / remove：模板名或编号" },
        Prop { key: "data", kind: PropKind::Any, about: "instantiate：记录（对象数组，或单个对象）" },
        Prop { key: "under", kind: PropKind::Text, about: "instantiate：把实例挂到这个父节点下（omit = 自由根）" },
    ];
    assert(prop_views(r@) =~= props_of(Tool::Template));
    r
}

fn props_convert() -> (r: Vec<Prop>)
    ensures
        prop_views(r@) == props_of(Tool::Convert),
{
    let r: Vec<Prop> = vec![
        Prop { key: "file", kind: PropKind::Text, about: FILE },
        Prop { key: "action", kind: PropKind::Action, about: "" },
        Prop { key: "force", kind: PropKind::Truth, about: FORCE },
        Prop { key: "format", kind: PropKind::Text, about: "export：json|yaml|xml|md；import：json|yaml|xml" },
        Prop { key: "subtree", kind: PropKind::Text, about: "export：只导出这棵子树" },
        Prop { key: "text", kind: PropKind::Text, about: "import：要导入的内容" },
        Prop { key: "data", kind: PropKind::Any, about: "append：嵌套 JSON（对象→子节点，数组→0,1,2，{\"@ref\":\"名\"}→引用边）" },
        Prop { key: "parent", kind: PropKind::Text, about: "append：挂在哪个父节点下（omit = 自由根）" },
    ];
    assert(prop_views(r@) =~= props_of(Tool::Convert));
    r
}

fn props_blob() -> (r: Vec<Prop>)
    ensures
        prop_views(r@) == props_of(Tool::Blob),
{
    let r: Vec<Prop> = vec![
        Prop { key: "file", kind: PropKind::Text, about: FILE },
        Prop { key: "action", kind: PropKind::Action, about: "" },
        Prop { key: "force", kind: PropKind::Truth, about: FORCE },
        Prop { key: "source", kind: PropKind::Text, about: "import：源文件路径（须在允许目录内）" },
        Prop { key: "dest", kind: PropKind::Text, about: "export：目标文件路径（须在允许目录内）" },
        Prop { key: "node", kind: PropKind::Text, about: "export / info：blob 所在节点编号" },
        Prop { key: "parent", kind: PropKind::Text, about: "import：挂到哪个父节点下（omit = 自由根）" },
    ];
    assert(prop_views(r@) =~= props_of(Tool::Blob));
    r
}

/// The arguments of a tool.
pub fn tool_props(tool: Tool) -> (r: Vec<Prop>)
    ensures
        prop_views(r@) == props_of(tool),
{
    match tool {
        Tool::Context => {
            let r: Vec<Prop> = Vec::new();
            assert(prop_views(r@) =~= props_of(tool));
            r
        },
        Tool::FileInfo => props_file_info(),
        Tool::FileValidate => props_file_validate(),
        Tool::FileDiff => props_file_diff(),
        Tool::Tree => props_tree(),
        Tool::Query => props_query(),
        Tool::Node => props_node(),
        Tool::Template => props_template(),
        Tool::Convert => props_convert(),
        Tool::Blob => props_blob(),
    }
}

/// The arguments that a tool needs.
fn tool_needs(tool: Tool) -> (r: Vec<&'static str>)
    ensures
        str_views(r@) == needed_by(tool),
{
    let r: Vec<&'static str> = match tool {
        Tool::Context => Vec::new(),
        Tool::FileInfo => vec!["file"],
        Tool::FileValidate => vec!["file"],
        Tool::FileDiff => vec!["a", "b"],
        Tool::Tree => vec!["file"],
        _ => vec!["file", "action"],
    };
    assert(str_views(r@) =~= needed_by(tool));
    r
}

/// A tool takes the arguments that it needs, and the tools with actions take an action.
pub proof fn needs_are_taken(tool: Tool, i: int)
    requires
        0 <= i < needed_by(tool).len(),
    ensures
        exists|k: int|
            0 <= k < props_of(tool).len() && (#[trigger] props_of(tool)[k]).key == needed_by(tool)[i],
        actions(tool).len() > 0 ==> props_of(tool)[1] == prop("action"@, PropKind::Action, ""@),
{
    let p = props_of(tool);
    if tool is FileDiff {
        assert(p[i].key == needed_by(tool)[i]);
    } else {
        assert(p[0].key == "file"@);
        assert(i == 1 ==> p[1].key == "action"@);
        assert(p[i].key == needed_by(tool)[i]);
    }
}

/// What the pairs of paths and values are made of.
pub open spec fn pairs_schema() -> SpecJson {
    object(
        seq![
            ("type"@, SpecJson::Text("object"@)),
            (
                "properties"@,
                object(
                    seq![
                        ("path"@, object(seq![("type"@, SpecJson::Text("string"@))])),
                        ("value"@, object(Seq::empty())),
                    ],
                ),
            ),
            ("required"@, texts_json(seq!["path"@])),
        ],
    )
}

/// What the pairs of paths and values are made of.
fn pairs_item() -> (r: Json)
    ensures
        json_tree(r) == pairs_schema(),
{
    let mut path = start();
    field(&mut path, "type", text("string"));
    assert(pairs(path@) =~= seq![("type"@, SpecJson::Text("string"@))]);
    let any = start();
    let mut props = start();
    field(&mut props, "path", build(path));
    field(&mut props, "value", build(any));
    assert(pairs(props@) =~= seq![
        ("path"@, object(seq![("type"@, SpecJson::Text("string"@))])),
        ("value"@, object(Seq::empty())),
    ]);
    let mut f = start();
    field(&mut f, "type", text("object"));
    field(&mut f, "properties", build(props));
    let needs: Vec<&'static str> = vec!["path"];
    assert(str_views(needs@) =~= seq!["path"@]);
    field(&mut f, "required", words(&needs));
    assert(pairs(f@) =~= seq![
        ("type"@, SpecJson::Text("object"@)),
        (
            "properties"@,
            object(
                seq![
                    ("path"@, object(seq![("type"@, SpecJson::Text("string"@))])),
                    ("value"@, object(Seq::empty())),
                ],
            ),
        ),
        ("required"@, texts_json(seq!["path"@])),
    ]);
    build(f)
}

/// A list of words.
fn words(s: &Vec<&'static str>) -> (r: Json)
    ensures
        json_tree(r) == texts_json(str_views(s@)),
{
    let ghost want = texts_json(str_views(s@))->List_0;
    let mut out: Vec<Json> = Vec::new();
    let mut i: usize = 0;
    assert(json_trees(out@) =~= want.take(0));
    while i < s.len()
        invariant
            i <= s@.len(),
            want == texts_json(str_views(s@))->List_0,
            json_trees(out@) == want.take(i as int),
        decreases s@.len() - i,
    {
        let ghost o0 = out@;
        let j = text(s[i]);
        let ghost t = json_tree(j);
        out.push(j);
        proof {
            assert(json_trees(out@) =~= json_trees(o0).push(t));
            assert(want.take(i + 1) =~= want.take(i as int).push(t));
        }
        i = i + 1;
    }
    assert(want.take(want.len() as int) =~= want);
    json_list(out)
}

/// The word for what an argument is.
pub open spec fn kind_name(kind: PropKind) -> Seq<char> {
    match kind {
        PropKind::Whole => "integer"@,
        PropKind::Truth => "boolean"@,
        PropKind::Fields => "object"@,
        PropKind::Pairs | PropKind::List => "array"@,
        _ => "string"@,
    }
}

/// The fields of an argument as it is listed.
pub open spec fn prop_fields(p: SpecProp, tool: Tool) -> Seq<(Seq<char>, SpecJson)> {
    let kind = ("type"@, SpecJson::Text(kind_name(p.kind)));
    let about = ("description"@, SpecJson::Text(p.about));
    match p.kind {
        PropKind::Any => seq![about],
        PropKind::Action => seq![kind, ("enum"@, texts_json(actions(tool)))],
        PropKind::Layout => seq![kind, ("enum"@, texts_json(seq!["tree"@, "flat"@])), about],
        PropKind::Pairs => seq![kind, about, ("items"@, pairs_schema())],
        _ => seq![kind, about],
    }
}

/// An argument as it is listed.
fn prop_json(p: &Prop, tool: Tool) -> (r: Json)
    ensures
        json_tree(r) == object(prop_fields(p@, tool)),
{
    let mut f = start();
    let kind = match p.kind {
        PropKind::Whole => "integer",
        PropKind::Truth => "boolean",
        PropKind::Fields => "object",
        PropKind::Pairs | PropKind::List => "array",
        _ => "string",
    };
    let any = match p.kind {
        PropKind::Any => true,
        _ => false,
    };
    if !any {
        field(&mut f, "type", text(kind));
    }
    match p.kind {
        PropKind::Action => {
            field(&mut f, "enum", words(&action_list(tool)));
        },
        PropKind::Layout => {
            let layouts: Vec<&'static str> = vec!["tree", "flat"];
            assert(str_views(layouts@) =~= seq!["tree"@, "flat"@]);
            field(&mut f, "enum", words(&layouts));
            field(&mut f, "description", text(p.about));
        },
        PropKind::Pairs => {
            field(&mut f, "description", text(p.about));
            field(&mut f, "items", pairs_item());
        },
        _ => {
            field(&mut f, "description", text(p.about));
        },
    }
    assert(pairs(f@) =~= prop_fields(p@, tool));
    build(f)
}

/// The arguments of a tool as they are listed.
pub open spec fn props_fields(tool: Tool) -> Seq<(Seq<char>, SpecJson)> {
    let s = props_of(tool);
    Seq::new(s.len(), |i: int| (s[i].key, object(prop_fields(s[i], tool))))
}

/// The arguments of a tool as they are listed.
fn props_json(tool: Tool) -> (r: Json)
    ensures
        json_tree(r) == object(props_fields(tool)),
{
    let props = tool_props(tool);
    let ghost want = props_fields(tool);
    let mut f = start();
    let mut i: usize = 0;
    assert(pairs(f@) =~= want.take(0));
    while i < props.len()
        invariant
            i <= props@.len(),
            prop_views(props@) == props_of(tool),
            want == props_fields(tool),
            pairs(f@) == want.take(i as int),
        decreases props@.len() - i,
    {
        let ghost f0 = f@;
        assert(props_of(tool)[i as int] == props@[i as int]@);
        field(&mut f, props[i].key, prop_json(&props[i], tool));
        assert(want.take(i + 1) =~= want.take(i as int).push(want[i as int]));
        i = i + 1;
    }
    assert(prop_views(props@).len() == props@.len());
    assert(want.take(want.len() as int) =~= want);
    build(f)
}

/// What the arguments of a tool must be.
pub open spec fn schema_fields(tool: Tool) -> Seq<(Seq<char>, SpecJson)> {
    let s = seq![
        ("type"@, SpecJson::Text("object"@)),
        ("properties"@, object(props_fields(tool))),
    ];
    if needed_by(tool).len() > 0 {
        s.push(("required"@, texts_json(needed_by(tool))))
    } else {
        s
    }
}

/// A tool as it is listed.
pub open spec fn tool_fields(name: Seq<char>, tool: Tool) -> Seq<(Seq<char>, SpecJson)> {
    seq![
        ("name"@, SpecJson::Text(name)),
        ("description"@, SpecJson::Text(about_tool(tool))),
        ("inputSchema"@, object(schema_fields(tool))),
    ]
}

/// A tool as it is listed.
fn tool_json(name: &str, tool: Tool) -> (r: Json)
    ensures
        json_tree(r) == object(tool_fields(name@, tool)),
{
    let mut s = start();
    field(&mut s, "type", text("object"));
    field(&mut s, "properties", props_json(tool));
    let needs = tool_needs(tool);
    assert(str_views(needs@).len() == needs@.len());
    if needs.len() > 0 {
        field(&mut s, "required", words(&needs));
    }
    assert(pairs(s@) =~= schema_fields(tool));
    let mut f = start();
    field(&mut f, "name", text(name));
    field(&mut f, "description", text(tool_about(tool)));
    field(&mut f, "inputSchema", build(s));
    assert(pairs(f@) =~= tool_fields(name@, tool));
    build(f)
}

/// The tools, in the order of their names.
pub open spec fn all_tools() -> Seq<Tool> {
    seq![
        Tool::Context,
        Tool::FileInfo,
        Tool::FileValidate,
        Tool::FileDiff,
        Tool::Tree,
        Tool::Query,
        Tool::Node,
        Tool::Template,
        Tool::Convert,
        Tool::Blob,
    ]
}

/// The tools as they are listed.
pub open spec fn tools_listed() -> Seq<SpecJson> {
    Seq::new(
        all_tools().len(),
        |i: int| object(tool_fields(tool_names()[i], all_tools()[i])),
    )
}

/// The tools as they are listed.
pub fn tool_defs() -> (r: Json)
    ensures
        json_tree(r) == object(seq![("tools"@, SpecJson::List(tools_listed()))]),
{
    let names = tool_list();
    let tools: Vec<Tool> = vec![
        Tool::Context, Tool::FileInfo, Tool::FileValidate, Tool::FileDiff, Tool::Tree, Tool::Query,
        Tool::Node, Tool::Template, Tool::Convert, Tool::Blob,
    ];
    assert(tools@ =~= all_tools());
    assert(str_views(names@).len() == names@.len());
    let ghost want = tools_listed();
    let mut out: Vec<Json> = Vec::new();
    let mut i: usize = 0;
    assert(json_trees(out@) =~= want.take(0));
    while i < tools.len()
        invariant
            i <= tools@.len(),
            tools@ == all_tools(),
            names@.len() == tools@.len(),
            str_views(names@) == tool_names(),
            want == tools_listed(),
            json_trees(out@) == want.take(i as int),
        decreases tools@.len() - i,
    {
        let ghost o0 = out@;
        let j = tool_json(names[i], tools[i]);
        let ghost t = json_tree(j);
        out.push(j);
        proof {
            assert(tool_names()[i as int] == names@[i as int]@);
            assert(json_trees(out@) =~= json_trees(o0).push(t));
            assert(want.take(i + 1) =~= want.take(i as int).push(t));
        }
        i = i + 1;
    }
    assert(want.take(want.len() as int) =~= want);
    let mut f = start();
    field(&mut f, "tools", json_list(out));
    assert(pairs(f@) =~= seq![("tools"@, SpecJson::List(want))]);
    build(f)
}

/// The actions of the tools that have some.
pub open spec fn actions_fields() -> Seq<(Seq<char>, SpecJson)> {
    seq![
        ("query"@, texts_json(actions(Tool::Query))),
        ("node"@, texts_json(actions(Tool::Node))),
        ("template"@, texts_json(actions(Tool::Template))),
        ("convert"@, texts_json(actions(Tool::Convert))),
        ("blob"@, texts_json(actions(Tool::Blob))),
    ]
}

/// What a client should know beforehand.
pub open spec fn notes() -> Seq<Seq<char>> {
    seq![
        "relative paths resolve against roots[0]; anything outside roots is refused"@,
        "destructive actions need force=true (otherwise you get a guarded error)"@,
        "this server does not touch the local catalog / sidecar index; use the xr CLI for that"@,
    ]
}

/// What the server tells of itself.
pub open spec fn context_fields(version: Seq<char>, roots: Seq<Seq<char>>) -> Seq<
    (Seq<char>, SpecJson),
> {
    seq![
        ("version"@, SpecJson::Text(version)),
        ("roots"@, texts_json(roots)),
        ("tools"@, texts_json(tool_names())),
        ("actions"@, object(actions_fields())),
        ("notes"@, texts_json(notes())),
    ]
}

/// What the server tells of itself: its version, the directories that it keeps to, and
/// what it can do.
pub fn tool_context(version: &str, roots: &Vec<String>) -> (r: Json)
    ensures
        json_tree(r) == object(context_fields(version@, crate::text::text_views(roots@))),
{
    let mut a = start();
    field(&mut a, "query", words(&action_list(Tool::Query)));
    field(&mut a, "node", words(&action_list(Tool::Node)));
    field(&mut a, "template", words(&action_list(Tool::Template)));
    field(&mut a, "convert", words(&action_list(Tool::Convert)));
    field(&mut a, "blob", words(&action_list(Tool::Blob)));
    assert(pairs(a@) =~= actions_fields());
    let told: Vec<&'static str> = vec![
        "relative paths resolve against roots[0]; anything outside roots is refused",
        "destructive actions need force=true (otherwise you get a guarded error)",
        "this server does not touch the local catalog / sidecar index; use the xr CLI for that",
    ];
    assert(str_views(told@) =~= notes());
    let mut f = start();
    field(&mut f, "version", text(version));
    field(&mut f, "roots", crate::reply::text_list(roots));
    field(&mut f, "tools", words(&tool_list()));
    field(&mut f, "actions", build(a));
    field(&mut f, "notes", words(&told));
    assert(pairs(f@) =~= context_fields(version@, crate::text::text_views(roots@)));
    build(f)
}

/// The protocol that the server speaks.
pub const PROTOCOL_VERSION: &'static str = "2024-11-05";

/// What the server greets with.
pub open spec fn greeting_fields(version: Seq<char>) -> Seq<(Seq<char>, SpecJson)> {
    seq![
        ("protocolVersion"@, SpecJson::Text(PROTOCOL_VERSION@)),
        ("capabilities"@, object(seq![("tools"@, object(Seq::empty()))])),
        (
            "serverInfo"@,
            object(
                seq![
                    ("name"@, SpecJson::Text("xirang"@)),
                    ("version"@, SpecJson::Text(version)),
                ],
            ),
        ),
    ]
}

/// What the server greets with.
pub fn greeting(version: &str) -> (r: Json)
    ensures
        json_tree(r) == object(greeting_fields(version@)),
{
    let mut c = start();
    field(&mut c, "tools", build(start()));
    assert(pairs(c@) =~= seq![("tools"@, object(Seq::empty()))]);
    let mut s = start();
    field(&mut s, "name", text("xirang"));
    field(&mut s, "version", text(version));
    assert(pairs(s@) =~= seq![
        ("name"@, SpecJson::Text("xirang"@)),
        ("version"@, SpecJson::Text(version@)),
    ]);
    let mut f = start();
    field(&mut f, "protocolVersion", text(PROTOCOL_VERSION));
    field(&mut f, "capabilities", build(c));
    field(&mut f, "serverInfo", build(s));
    assert(pairs(f@) =~= greeting_fields(version@));
    build(f)
}

/// An object without fields, which answers a message that only asks whether the server is
/// there.
pub fn pong() -> (r: Json)
    ensures
        json_tree(r) == object(Seq::empty()),
{
    build(start())
}

} // verus!
