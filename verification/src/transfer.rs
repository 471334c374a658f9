//! Taking files out and in, as JSON, YAML, XML and Markdown.
use crate::codec::{SpecNode, Uuid};
use crate::convert::{document, floats_read_back, from_json, from_xml, from_yaml, json_nodes, md_text,
    no_floats, to_json, to_md, to_xml, to_yaml, xml_read, xml_text, yaml_keeps_all, yaml_nodes};
use crate::grow::{build_json_tree, grown, tree_planned, Stem};
use crate::json::{pretty_json, ref_tree, yaml_text_of, JsonRef};
use crate::lookup::{find_node, node_meant};
use crate::model::{find_id, subtree_of, Nodes};
use crate::ops::{guarded_error, plain_error, ErrKind, OpError, OpResult, SpecOpError};
use crate::text::{decimal, decimal_text, join3, owned, same_text};
use crate::tree::Store;
use vstd::prelude::*;

verus! {

/// A file as a text.
#[derive(Debug)]
pub struct ExportOutcome {
    pub format: String,
    pub text: String,
}

/// The nodes that are taken out: all, or the subtree of a node, whose root then has no
/// parent.
pub open spec fn nodes_taken(t: Nodes, subtree: Option<Seq<char>>) -> Result<Nodes, SpecOpError> {
    match subtree {
        None => Ok(t),
        Some(raw) => match node_meant(t, raw) {
            Err(e) => Err(e),
            Ok(n) => Ok(rooted(subtree_of(t, n), n.id)),
        },
    }
}

/// The nodes with a node made a root.
pub open spec fn rooted(t: Nodes, id: Uuid) -> Nodes {
    match find_id(t, id) {
        Some(i) => t.update(i, SpecNode { parent: None, ..t[i] }),
        None => t,
    }
}

/// Nodes as a text in a format.
pub open spec fn text_in(t: Nodes, format: Seq<char>, ft: Seq<(u64, String)>) -> Option<Seq<char>> {
    if format == "json"@ {
        Some(pretty_json(document(t, ft)))
    } else if format == "yaml"@ {
        Some(yaml_text_of(document(t, ft)))
    } else if format == "xml"@ {
        Some(xml_text(t, ft))
    } else if format == "md"@ || format == "markdown"@ {
        Some(md_text(t, ft))
    } else {
        None
    }
}

/// What is said of a format that is not known.
pub open spec fn unknown_format(format: Seq<char>, known: Seq<char>) -> SpecOpError {
    plain_error(ErrKind::InvalidArgument, "未知格式："@ + format + known)
}

/// Whether a text in a format is read as the nodes that it was made of: in JSON where they
/// have no doubles, in YAML where it has room for them and the texts of doubles are read as
/// those doubles.
pub open spec fn reads_back(
    t: Nodes,
    ft: Seq<(u64, String)>,
    format: Seq<char>,
    text: Seq<char>,
) -> bool {
    &&& format == "json"@ && no_floats(t) ==> json_nodes(text) == Ok::<Nodes, Seq<char>>(t)
    &&& format == "yaml"@ && yaml_keeps_all(t) && floats_read_back(t, ft) ==> yaml_nodes(text)
        == Ok::<Nodes, Seq<char>>(t)
}

/// Takes nodes out as a text: all, or the subtree of a node. `ft` gives the texts of
/// doubles.
pub fn export_data(
    store: &Store,
    format: &str,
    subtree: Option<&str>,
    ft: &Vec<(u64, String)>,
) -> (r: OpResult<ExportOutcome>)
    requires
        store.wf(),
    ensures
        match nodes_taken(store@, crate::backend::opt_view(subtree)) {
            Err(e) => r is Err && r->Err_0@ == e,
            Ok(t) => match text_in(t, format@, ft@) {
                None => r is Err && r->Err_0@ == unknown_format(
                    format@,
                    "（支持 json / yaml / xml / md）"@,
                ),
                Some(s) => r is Ok && r->Ok_0.format@ == format@ && r->Ok_0.text@ == s
                    && reads_back(t, ft@, format@, s),
            },
        },
{
    match subtree {
        None => export_store(store, format, ft),
        Some(raw) => match find_node(store, raw) {
            Err(e) => Err(e),
            Ok(root) => {
                let mut sub = store.sub_store(root);
                let done = sub.set_parent(root.id, None);
                export_store(&sub, format, ft)
            },
        },
    }
}

/// Takes all nodes of a store out as a text.
fn export_store(store: &Store, format: &str, ft: &Vec<(u64, String)>) -> (r: OpResult<ExportOutcome>)
    requires
        store.wf(),
    ensures
        match text_in(store@, format@, ft@) {
            None => r is Err && r->Err_0@ == unknown_format(
                format@,
                "（支持 json / yaml / xml / md）"@,
            ),
            Some(s) => r is Ok && r->Ok_0.format@ == format@ && r->Ok_0.text@ == s
                && reads_back(store@, ft@, format@, s),
        },
{
    proof {
        reveal_strlit("json");
        reveal_strlit("yaml");
        reveal_strlit("xml");
        reveal_strlit("md");
        reveal_strlit("markdown");
        assert("json"@[0] != "yaml"@[0]);
        assert("markdown"@.len() > 4);
    }
    let text = if same_text(format, "json") {
        to_json(store, ft)
    } else if same_text(format, "yaml") {
        to_yaml(store, ft)
    } else if same_text(format, "xml") {
        to_xml(store, ft)
    } else if same_text(format, "md") || same_text(format, "markdown") {
        to_md(store, ft)
    } else {
        return Err(
            OpError::invalid(
                join3("未知格式：", format, "（支持 json / yaml / xml / md）").as_str(),
            ),
        );
    };
    Ok(ExportOutcome { format: owned(format), text })
}

/// A file was replaced by what was taken in.
#[derive(Clone, Copy, Debug)]
pub struct ImportOutcome {
    pub nodes: usize,
    pub previous_nodes: Option<usize>,
}

/// What is said where taking in would replace the nodes of a file.
pub open spec fn replace_guard(file: Seq<char>, n: nat) -> SpecOpError {
    guarded_error(
        file + " 里已有 "@ + decimal(n) + " 个节点，import 是整文件替换"@,
        "覆盖会丢掉原内容；确认覆盖请显式强制（CLI：--yes，MCP：force），要保留原内容请用 append / instantiate"@,
    )
}

/// The nodes that a text is in a format; or what is wrong with it. `fp` gives the doubles
/// that texts are read as.
pub open spec fn nodes_in(text: Seq<char>, format: Seq<char>, fp: Seq<(String, u64)>) -> Option<
    Result<Nodes, Seq<char>>,
> {
    if format == "json"@ {
        Some(json_nodes(text))
    } else if format == "yaml"@ {
        Some(yaml_nodes(text))
    } else if format == "xml"@ {
        Some(xml_read(text, fp))
    } else {
        None
    }
}

/// Takes a text in, in place of the `previous` nodes of a file, if it has any: those are
/// only replaced where the caller insists. `fp` gives the doubles that texts are read as.
pub fn import_data(
    force: bool,
    file: &str,
    format: &str,
    text: &str,
    previous: Option<usize>,
    fp: &Vec<(String, u64)>,
) -> (r: OpResult<(Store, ImportOutcome)>)
    ensures
        if previous is Some && previous->Some_0 > 0 && !force {
            r is Err && r->Err_0@ == replace_guard(file@, previous->Some_0 as nat)
        } else {
            match nodes_in(text@, format@, fp@) {
                None => r is Err && r->Err_0@ == unknown_format(
                    format@,
                    "（支持 json / yaml / xml）"@,
                ),
                Some(Err(e)) => r is Err && r->Err_0@ == plain_error(ErrKind::InvalidArgument, e),
                Some(Ok(t)) => {
                    &&& r is Ok
                    &&& r->Ok_0.0.wf()
                    &&& r->Ok_0.0@ == t
                    &&& r->Ok_0.1.nodes == t.len()
                    &&& r->Ok_0.1.previous_nodes == previous
                },
            }
        },
{
    if let Some(n) = previous {
        if n > 0 && !force {
            let mut m = join3(file, " 里已有 ", decimal_text(n as u64).as_str());
            m.append(" 个节点，import 是整文件替换");
            return Err(
                OpError::guarded(
                    m.as_str(),
                    "覆盖会丢掉原内容；确认覆盖请显式强制（CLI：--yes，MCP：force），要保留原内容请用 append / instantiate",
                ),
            );
        }
    }
    let read = if same_text(format, "json") {
        from_json(text)
    } else if same_text(format, "yaml") {
        from_yaml(text)
    } else if same_text(format, "xml") {
        from_xml(text, fp)
    } else {
        return Err(
            OpError::invalid(join3("未知格式：", format, "（支持 json / yaml / xml）").as_str()),
        );
    };
    match read {
        Err(e) => Err(OpError::invalid(e.as_str())),
        Ok(store) => {
            let nodes = store.len();
            Ok((store, ImportOutcome { nodes, previous_nodes: previous }))
        },
    }
}

/// Nodes were put behind those of a file.
#[derive(Clone, Copy, Debug)]
pub struct ImportAppendOutcome {
    pub nodes_after: usize,
}

/// Grows the nodes for what is in a JSON value below a parent.
pub fn import_append(store: &mut Store, parent: Option<Uuid>, value: &JsonRef<'_>) -> (r:
    ImportAppendOutcome)
    requires
        old(store).wf(),
    ensures
        final(store).wf(),
        exists|ids: Seq<Uuid>| #[trigger]
            grown(
                old(store)@,
                final(store)@,
                tree_planned(old(store)@, Seq::empty(), Stem::Given(parent), ref_tree(*value)),
                ids,
            ),
        r.nodes_after == final(store)@.len(),
{
    build_json_tree(store, parent, value);
    ImportAppendOutcome { nodes_after: store.len() }
}

/// A part that is cut out is the node and all that is below it, in the order of the subtree;
/// the node has no parent any more, and everything else is as it was.
pub proof fn a_part_is_cut_out_whole(t: Nodes, raw: Seq<char>, n: SpecNode)
    requires
        node_meant(t, raw) == Ok::<SpecNode, SpecOpError>(n),
    ensures
        nodes_taken(t, None) == Ok::<Nodes, SpecOpError>(t),
        nodes_taken(t, Some(raw)) is Ok,
        ({
            let s = nodes_taken(t, Some(raw))->Ok_0;
            let w = subtree_of(t, n);
            &&& s.len() == w.len() && s.len() > 0
            &&& s[0].id == n.id && s[0].parent is None && s[0].name == n.name && s[0].value
                == n.value
            &&& forall|i: int| 0 < i < s.len() ==> #[trigger] s[i] == w[i]
        }),
{
    let w = subtree_of(t, n);
    crate::model::subtree_ids_distinct(t, n);
    assert forall|j: int| 0 < j < w.len() implies w[j].id != n.id by {
        assert(w[0].id != w[j].id);
    }
    crate::model::lemma_find_id_is(w, n.id, 0);
}

/// The formats that there are to write and to read.
pub proof fn formats_have_their_names(
    t: Nodes,
    text: Seq<char>,
    format: Seq<char>,
    ft: Seq<(u64, String)>,
    fp: Seq<(String, u64)>,
)
    ensures
        text_in(t, format, ft) is Some <==> format == "json"@ || format == "yaml"@ || format
            == "xml"@ || format == "md"@ || format == "markdown"@,
        nodes_in(text, format, fp) is Some <==> format == "json"@ || format == "yaml"@ || format
            == "xml"@,
        text_in(t, "markdown"@, ft) == text_in(t, "md"@, ft),
{
    reveal_strlit("json");
    reveal_strlit("yaml");
    reveal_strlit("xml");
    reveal_strlit("md");
    reveal_strlit("markdown");
    assert("json"@[0] == 'j' && "yaml"@[0] == 'y' && "xml"@[0] == 'x' && "md"@[0] == 'm'
        && "markdown"@[0] == 'm');
}

} // verus!
