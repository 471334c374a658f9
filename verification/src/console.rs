//! The command line: what its arguments ask for, what is decided before something is
//! done, and the lines that it prints.
use crate::backend::Backend;
use crate::codec::{same_value, Node, SpecNode, SpecValue, Uuid, Value};
use crate::ops::{plain_display, view_model, view_models, ErrKind, NodeView, OpError, SpecOpError,
    SpecView};
use crate::text::{decimal, decimal_text, join2, join3, owned, parse_usize, same_text, text_views,
    unsigned_number};
use crate::tree::Store;
use crate::model::{find_id, Nodes};
use vstd::prelude::*;

verus! {

// ---------------------------------------------------------------------------
// Flags
// ---------------------------------------------------------------------------

/// Whether a flag is among the arguments.
pub open spec fn flag_given(args: Seq<Seq<char>>, flag: Seq<char>) -> bool {
    args.contains(flag)
}

/// Whether a flag is among the arguments.
pub fn has_flag(args: &Vec<String>, flag: &str) -> (r: bool)
    ensures
        r == flag_given(text_views(args@), flag@),
{
    let ghost a = text_views(args@);
    let mut i: usize = 0;
    while i < args.len()
        invariant
            i <= args@.len(),
            a == text_views(args@),
            forall|k: int| 0 <= k < i ==> a[k] != flag@,
        decreases args@.len() - i,
    {
        assert(a[i as int] == args@[i as int]@);
        if same_text(args[i].as_str(), flag) {
            assert(a[i as int] == flag@);
            return true;
        }
        i = i + 1;
    }
    false
}

/// The argument behind the first place at which a flag stands.
pub open spec fn flag_argument(args: Seq<Seq<char>>, flag: Seq<char>) -> Option<Seq<char>>
    decreases args.len(),
{
    if args.len() == 0 {
        None
    } else if args[0] == flag {
        if args.len() > 1 {
            Some(args[1])
        } else {
            None
        }
    } else {
        flag_argument(args.skip(1), flag)
    }
}

/// The argument behind the first place at which a flag stands.
pub fn flag_value<'a>(args: &'a Vec<String>, flag: &str) -> (r: Option<&'a str>)
    ensures
        crate::backend::opt_view(r) == flag_argument(text_views(args@), flag@),
{
    let ghost a = text_views(args@);
    let mut i: usize = 0;
    assert(a.skip(0) =~= a);
    while i < args.len()
        invariant
            i <= args@.len(),
            a == text_views(args@),
            flag_argument(a, flag@) == flag_argument(a.skip(i as int), flag@),
        decreases args@.len() - i,
    {
        let ghost rest = a.skip(i as int);
        proof {
            assert(rest[0] == args@[i as int]@);
            assert(rest.skip(1) =~= a.skip(i + 1));
        }
        if same_text(args[i].as_str(), flag) {
            if i + 1 < args.len() {
                assert(rest[1] == args@[i + 1]@);
                return Some(args[i + 1].as_str());
            }
            return None;
        }
        i = i + 1;
    }
    None
}

/// The flags that are known.
pub open spec fn known_flags() -> Seq<Seq<char>> {
    seq![
        "--help"@, "-h"@, "--version"@, "-V"@, "--json"@, "--tree"@, "--skip-aux"@, "--ids"@,
        "--node"@, "--no-history"@, "--no-index"@, "--yes"@, "--blank"@, "--all"@, "--root"@,
        "--shape-of"@, "--template"@, "--where"@, "--subtree"@, "--append"@, "--under"@,
        "--from-json"@, "--rule"@, "--out"@, "--only"@, "--sync"@, "--base"@, "--depth"@,
        "--no-pager"@, "--force"@,
    ]
}

/// The flags that are known.
fn flag_list() -> (r: Vec<&'static str>)
    ensures
        str_views(r@) == known_flags(),
{
    let r: Vec<&'static str> = vec![
        "--help", "-h", "--version", "-V", "--json", "--tree", "--skip-aux", "--ids", "--node",
        "--no-history", "--no-index", "--yes", "--blank", "--all", "--root", "--shape-of",
        "--template", "--where", "--subtree", "--append", "--under", "--from-json", "--rule",
        "--out", "--only", "--sync", "--base", "--depth", "--no-pager", "--force",
    ];
    assert(str_views(r@) =~= known_flags());
    r
}

/// The characters of texts.
pub open spec fn str_views(s: Seq<&'static str>) -> Seq<Seq<char>> {
    Seq::new(s.len(), |i: int| s[i]@)
}

/// Whether an argument is a known flag.
pub fn is_known_flag(s: &str) -> (r: bool)
    ensures
        r == known_flags().contains(s@),
{
    let known = flag_list();
    let ghost k = known_flags();
    let mut i: usize = 0;
    while i < known.len()
        invariant
            i <= known@.len(),
            k == str_views(known@),
            k == known_flags(),
            forall|j: int| 0 <= j < i ==> k[j] != s@,
        decreases known@.len() - i,
    {
        assert(k[i as int] == known@[i as int]@);
        if same_text(known[i], s) {
            assert(k[i as int] == s@);
            return true;
        }
        i = i + 1;
    }
    false
}

/// Whether an argument looks like a known flag that was mistyped: it starts with two
/// hyphens, is no known flag, and agrees with one in the first five characters.
pub open spec fn looks_mistyped(a: Seq<char>) -> bool {
    &&& crate::shard::starts(a, "--"@)
    &&& !known_flags().contains(a)
    &&& exists|i: int|
        0 <= i < known_flags().len() && (#[trigger] known_flags()[i]).len() >= 5
            && crate::shard::starts(a, known_flags()[i].take(5))
}

/// Whether two texts start with the same `n` characters.
fn same_start(a: &str, b: &str, n: usize) -> (r: bool)
    requires
        n <= b@.len(),
    ensures
        r == crate::shard::starts(a@, b@.take(n as int)),
{
    if a.unicode_len() < n {
        return false;
    }
    let mut i: usize = 0;
    while i < n
        invariant
            i <= n <= a@.len(),
            n <= b@.len(),
            forall|k: int| 0 <= k < i ==> a@[k] == b@[k],
        decreases n - i,
    {
        if a.get_char(i) != b.get_char(i) {
            assert(a@.take(n as int)[i as int] != b@.take(n as int)[i as int]);
            return false;
        }
        i = i + 1;
    }
    assert(a@.take(n as int) =~= b@.take(n as int));
    true
}

/// Whether an argument looks like a known flag that was mistyped.
pub fn is_mistyped(a: &str) -> (r: bool)
    ensures
        r == looks_mistyped(a@),
{
    proof {
        reveal_strlit("--");
        assert("--"@.take(2) =~= "--"@);
    }
    if !same_start(a, "--", 2) || is_known_flag(a) {
        return false;
    }
    let known = flag_list();
    let ghost k = known_flags();
    let mut i: usize = 0;
    while i < known.len()
        invariant
            i <= known@.len(),
            k == str_views(known@),
            k == known_flags(),
            crate::shard::starts(a@, "--"@),
            !k.contains(a@),
            forall|j: int|
                0 <= j < i ==> !((#[trigger] k[j]).len() >= 5 && crate::shard::starts(
                    a@,
                    k[j].take(5),
                )),
        decreases known@.len() - i,
    {
        assert(k[i as int] == known@[i as int]@);
        if known[i].unicode_len() >= 5 && same_start(a, known[i], 5) {
            assert(crate::shard::starts(a@, known_flags()[i as int].take(5)));
            return true;
        }
        i = i + 1;
    }
    false
}

// ---------------------------------------------------------------------------
// Errors
// ---------------------------------------------------------------------------

/// The line that an error is told with: a guard in brackets, another one as an error.
pub open spec fn error_line(e: SpecOpError) -> Seq<char> {
    if e.kind == ErrKind::Guarded || e.kind == ErrKind::PathDenied {
        match e.hint {
            Some(h) => "（"@ + e.message + "；"@ + h + "）"@,
            None => "（"@ + e.message + "）"@,
        }
    } else {
        "错误："@ + e.message
    }
}

/// The line that an error is told with.
pub fn report(e: &OpError) -> (r: String)
    ensures
        r@ == error_line(e@),
{
    let guards = match e.kind {
        ErrKind::Guarded => true,
        ErrKind::PathDenied => true,
        _ => false,
    };
    if guards {
        match &e.hint {
            Some(h) => {
                let mut s = join3("（", e.message.as_str(), "；");
                s.append(h.as_str());
                s.append("）");
                s
            },
            None => join3("（", e.message.as_str(), "）"),
        }
    } else {
        join2("错误：", e.message.as_str())
    }
}

// ---------------------------------------------------------------------------
// Trees
// ---------------------------------------------------------------------------

/// The line of a node: what it hangs on, its label, and its id if that is asked for.
pub open spec fn node_line(v: SpecView, prefix: Seq<char>, is_last: bool, ids: bool) -> Seq<char> {
    let branch = if prefix.len() == 0 {
        ""@
    } else if is_last {
        "└─ "@
    } else {
        "├─ "@
    };
    let line = prefix + branch + v.label;
    if ids {
        line + " <"@ + crate::codec::uuid_text(v.id) + ">"@
    } else {
        line
    }
}

/// What the nodes below a node are set off by.
pub open spec fn child_prefix(prefix: Seq<char>, is_last: bool) -> Seq<char> {
    prefix + (if is_last {
        "   "@
    } else {
        "│  "@
    })
}

/// The lines of a tree.
pub open spec fn tree_lines(v: SpecView, prefix: Seq<char>, is_last: bool, ids: bool) -> Seq<Seq<char>>
    decreases v,
{
    seq![node_line(v, prefix, is_last, ids)] + branch_lines(
        v.children,
        child_prefix(prefix, is_last),
        true,
        ids,
    )
}

/// The lines of branches; `ends` tells whether the last of them is the last there is.
pub open spec fn branch_lines(s: Seq<SpecView>, prefix: Seq<char>, ends: bool, ids: bool) -> Seq<
    Seq<char>,
>
    decreases s,
{
    if s.len() == 0 {
        Seq::empty()
    } else {
        branch_lines(s.drop_last(), prefix, false, ids) + tree_lines(s.last(), prefix, ends, ids)
    }
}

/// Puts lines behind others.
fn add_lines(out: &mut Vec<String>, more: Vec<String>)
    ensures
        text_views(final(out)@) == text_views(old(out)@) + text_views(more@),
{
    let ghost o = text_views(out@);
    let ghost m = text_views(more@);
    let mut i: usize = 0;
    assert(o + m.take(0) =~= o);
    while i < more.len()
        invariant
            i <= more@.len(),
            m == text_views(more@),
            text_views(out@) == o + m.take(i as int),
        decreases more@.len() - i,
    {
        let ghost o0 = out@;
        out.push(owned(more[i].as_str()));
        proof {
            assert(text_views(out@) =~= text_views(o0).push(m[i as int]));
            assert(o + m.take(i + 1) =~= (o + m.take(i as int)).push(m[i as int]));
        }
        i = i + 1;
    }
    assert(m.take(m.len() as int) =~= m);
}

proof fn lemma_view_models_at(s: Seq<NodeView>, i: int)
    requires
        0 <= i < s.len(),
    ensures
        view_models(s).len() == s.len(),
        view_models(s)[i] == view_model(s[i]),
        view_models(s.take(i)) == view_models(s).take(i),
    decreases s.len(),
{
    if i == s.len() - 1 {
        assert(s.take(i) =~= s.drop_last());
        lemma_view_models_len(s.drop_last());
        assert(view_models(s).take(i) =~= view_models(s.drop_last()));
    } else {
        lemma_view_models_at(s.drop_last(), i);
        assert(s.drop_last().take(i) =~= s.take(i));
        assert(view_models(s).take(i) =~= view_models(s.drop_last()).take(i));
    }
}

proof fn lemma_view_models_len(s: Seq<NodeView>)
    ensures
        view_models(s).len() == s.len(),
    decreases s.len(),
{
    if s.len() > 0 {
        lemma_view_models_len(s.drop_last());
    }
}

/// The lines of a tree; `ids` asks for the ids of the nodes.
pub fn render_tree_node(v: &NodeView, prefix: &str, is_last: bool, ids: bool) -> (r: Vec<String>)
    ensures
        text_views(r@) == tree_lines(view_model(*v), prefix@, is_last, ids),
    decreases v,
{
    let ghost m = view_model(*v);
    let branch = if prefix.is_empty() {
        ""
    } else if is_last {
        "└─ "
    } else {
        "├─ "
    };
    let mut line = join3(prefix, branch, v.label.as_str());
    if ids {
        line.append(" <");
        line.append(v.id.to_string().as_str());
        line.append(">");
    }
    let below = join2(
        prefix,
        if is_last {
            "   "
        } else {
            "│  "
        },
    );
    let mut out: Vec<String> = Vec::new();
    let ghost first = node_line(m, prefix@, is_last, ids);
    assert(line@ =~= first);
    out.push(line);
    assert(text_views(out@) =~= seq![first]);
    let n: usize = v.children.len();
    let ghost kids = view_models(v.children@);
    let ghost cp = child_prefix(prefix@, is_last);
    let mut i: usize = 0;
    proof {
        lemma_view_models_len(v.children@);
        assert(kids.take(0) =~= Seq::<SpecView>::empty());
        assert(text_views(out@) =~= seq![first] + branch_lines(kids.take(0), cp, n == 0, ids));
    }
    while i < n
        invariant
            i <= n,
            n == v.children@.len(),
            kids == view_models(v.children@),
            kids.len() == n,
            below@ == cp,
            text_views(out@) == seq![first] + branch_lines(kids.take(i as int), cp, i == n, ids),
        decreases n - i,
    {
        proof {
            lemma_view_models_at(v.children@, i as int);
            assert(kids.take(i + 1).drop_last() =~= kids.take(i as int));
            assert(kids.take(i + 1).last() == kids[i as int]);
            assert(decreases_to!(v.children@ => v.children@[i as int]));
        }
        let ghost o0 = text_views(out@);
        let more = render_tree_node(&v.children[i], below.as_str(), i + 1 == n, ids);
        add_lines(&mut out, more);
        proof {
            let ls = tree_lines(kids[i as int], cp, i + 1 == n, ids);
            assert(o0 + ls =~= seq![first] + (branch_lines(kids.take(i as int), cp, false, ids)
                + ls));
        }
        i = i + 1;
    }
    assert(kids.take(n as int) =~= kids);
    out
}

/// The lines of trees, with an empty line between them.
pub open spec fn forest_lines(s: Seq<SpecView>, ids: bool) -> Seq<Seq<char>>
    decreases s.len(),
{
    if s.len() == 0 {
        Seq::empty()
    } else {
        let before = forest_lines(s.drop_last(), ids);
        let gap = if s.len() > 1 {
            seq![Seq::<char>::empty()]
        } else {
            Seq::empty()
        };
        before + gap + tree_lines(s.last(), ""@, true, ids)
    }
}

/// The lines of trees, with an empty line between them.
pub fn render_forest(roots: &Vec<NodeView>, ids: bool) -> (r: Vec<String>)
    ensures
        text_views(r@) == forest_lines(view_models(roots@), ids),
{
    let ghost all = view_models(roots@);
    let mut out: Vec<String> = Vec::new();
    let mut i: usize = 0;
    proof {
        lemma_view_models_len(roots@);
        assert(all.take(0) =~= Seq::<SpecView>::empty());
        assert(text_views(out@) =~= Seq::<Seq<char>>::empty());
    }
    while i < roots.len()
        invariant
            i <= roots@.len(),
            all == view_models(roots@),
            all.len() == roots@.len(),
            text_views(out@) == forest_lines(all.take(i as int), ids),
        decreases roots@.len() - i,
    {
        proof {
            lemma_view_models_at(roots@, i as int);
            assert(all.take(i + 1).drop_last() =~= all.take(i as int));
            assert(all.take(i + 1).last() == all[i as int]);
        }
        let ghost o0 = text_views(out@);
        let ghost o1 = out@;
        if i > 0 {
            out.push(String::new());
            assert(text_views(out@) =~= o0 + seq![Seq::<char>::empty()]);
        } else {
            assert(text_views(out@) =~= o0 + Seq::<Seq<char>>::empty());
        }
        add_lines(&mut out, render_tree_node(&roots[i], "", true, ids));
        i = i + 1;
    }
    assert(all.take(all.len() as int) =~= all);
    out
}

// ---------------------------------------------------------------------------
// The index
// ---------------------------------------------------------------------------

/// What is asked of the index, beside the command itself.
#[derive(Debug)]
pub struct IndexOptions {
    pub json: bool,
    pub verbose: bool,
    pub dry_run: bool,
    pub yes: bool,
    pub stale_only: bool,
    pub deep: bool,
    pub sample: usize,
    pub paths: Vec<String>,
}

/// How many nodes are looked up where no number is given.
pub const DEFAULT_SAMPLE: usize = 5;

/// The arguments that are no flags.
pub open spec fn no_flags(args: Seq<Seq<char>>) -> Seq<Seq<char>>
    decreases args.len(),
{
    if args.len() == 0 {
        args
    } else {
        let r = no_flags(args.drop_last());
        if crate::shard::starts(args.last(), "--"@) {
            r
        } else {
            r.push(args.last())
        }
    }
}

/// The number behind a flag, or another one where there is none.
pub open spec fn number_argument(args: Seq<Seq<char>>, flag: Seq<char>, or: nat) -> nat {
    match flag_argument(args, flag) {
        Some(s) => match unsigned_number(s) {
            Some(n) => if n <= usize::MAX {
                n
            } else {
                or
            },
            None => or,
        },
        None => or,
    }
}

/// The number behind a flag, or another one where there is none.
pub fn flag_number(args: &Vec<String>, flag: &str, or: usize) -> (r: usize)
    ensures
        r == number_argument(text_views(args@), flag@, or as nat),
{
    match flag_value(args, flag) {
        Some(s) => match parse_usize(s) {
            Some(n) => n,
            None => or,
        },
        None => or,
    }
}

/// What is asked of the index by paths and flags.
pub fn index_options(paths: &Vec<String>, flags: &Vec<String>) -> (r: IndexOptions)
    ensures
        r.json == flag_given(text_views(flags@), "--json"@),
        r.verbose == flag_given(text_views(flags@), "--verbose"@),
        r.dry_run == flag_given(text_views(flags@), "--dry-run"@),
        r.yes == flag_given(text_views(flags@), "--yes"@),
        r.stale_only == flag_given(text_views(flags@), "--stale"@),
        r.deep == flag_given(text_views(flags@), "--deep"@),
        r.sample == number_argument(text_views(flags@), "--sample"@, DEFAULT_SAMPLE as nat),
        text_views(r.paths@) == no_flags(text_views(paths@)),
{
    let ghost all = text_views(paths@);
    let mut kept: Vec<String> = Vec::new();
    let mut i: usize = 0;
    proof {
        reveal_strlit("--");
        assert("--"@.take(2) =~= "--"@);
        assert(all.take(0) =~= Seq::<Seq<char>>::empty());
        assert(text_views(kept@) =~= Seq::<Seq<char>>::empty());
    }
    while i < paths.len()
        invariant
            i <= paths@.len(),
            all == text_views(paths@),
            "--"@.len() == 2,
            "--"@.take(2) == "--"@,
            text_views(kept@) == no_flags(all.take(i as int)),
        decreases paths@.len() - i,
    {
        proof {
            assert(all.take(i + 1).drop_last() =~= all.take(i as int));
            assert(all.take(i + 1).last() == paths@[i as int]@);
        }
        let p = paths[i].as_str();
        if !same_start(p, "--", 2) {
            let ghost k0 = kept@;
            kept.push(owned(p));
            assert(text_views(kept@) =~= text_views(k0).push(p@));
        }
        i = i + 1;
    }
    assert(all.take(all.len() as int) =~= all);
    IndexOptions {
        json: has_flag(flags, "--json"),
        verbose: has_flag(flags, "--verbose"),
        dry_run: has_flag(flags, "--dry-run"),
        yes: has_flag(flags, "--yes"),
        stale_only: has_flag(flags, "--stale"),
        deep: has_flag(flags, "--deep"),
        sample: flag_number(flags, "--sample", DEFAULT_SAMPLE),
        paths: kept,
    }
}

/// Whether a word names a command on the index.
pub open spec fn names_index_command(s: Seq<char>) -> bool {
    !(index_step_of(s, false, false, false) is Unknown)
}

/// Arguments parted into paths and flags. What stands behind `--sample` belongs to it.
pub open spec fn parted(s: Seq<Seq<char>>) -> (Seq<Seq<char>>, Seq<Seq<char>>)
    decreases s.len(),
{
    if s.len() == 0 {
        (s, s)
    } else if s[0] == "--sample"@ && s.len() > 1 {
        let r = parted(s.skip(2));
        (r.0, seq![s[0], s[1]] + r.1)
    } else if crate::shard::starts(s[0], "--"@) {
        let r = parted(s.skip(1));
        (r.0, seq![s[0]] + r.1)
    } else {
        let r = parted(s.skip(1));
        (seq![s[0]] + r.0, r.1)
    }
}

/// What stands behind the name of the command.
pub open spec fn behind_command(args: Seq<Seq<char>>) -> Seq<Seq<char>> {
    if args.len() > 0 && names_index_command(args[0]) {
        args.skip(1)
    } else {
        args
    }
}

/// What the arguments ask of the index: the command, which is `status` where none is
/// named, the paths and the flags.
pub fn index_args(args: &Vec<String>) -> (r: (String, Vec<String>, Vec<String>))
    ensures
        r.0@ == (if args@.len() > 0 && names_index_command(args@[0]@) {
            args@[0]@
        } else {
            "status"@
        }),
        (text_views(r.1@), text_views(r.2@)) == parted(behind_command(text_views(args@))),
{
    let ghost all = text_views(args@);
    let mut sub = owned("status");
    let mut i: usize = 0;
    if args.len() > 0 {
        assert(all[0] == args@[0]@);
        match index_step(args[0].as_str(), false, false, false) {
            IndexStep::Unknown => {},
            _ => {
                sub = owned(args[0].as_str());
                i = 1;
            },
        }
    }
    let ghost rest = behind_command(all);
    let mut paths: Vec<String> = Vec::new();
    let mut flags: Vec<String> = Vec::new();
    proof {
        reveal_strlit("--");
        reveal_strlit("--sample");
        assert("--"@.take(2) =~= "--"@);
        assert("--sample"@.take(2) =~= "--"@);
        assert(rest =~= all.skip(i as int));
        assert(text_views(paths@) + parted(rest).0 =~= parted(rest).0);
        assert(text_views(flags@) + parted(rest).1 =~= parted(rest).1);
    }
    while i < args.len()
        invariant
            i <= args@.len(),
            all == text_views(args@),
            "--"@.len() == 2,
            "--"@.take(2) == "--"@,
            "--sample"@.len() >= 2,
            "--sample"@.take(2) == "--"@,
            text_views(paths@) + parted(all.skip(i as int)).0 == parted(rest).0,
            text_views(flags@) + parted(all.skip(i as int)).1 == parted(rest).1,
        decreases args@.len() - i,
    {
        let ghost left = all.skip(i as int);
        let ghost p0 = paths@;
        let ghost f0 = flags@;
        let a = args[i].as_str();
        assert(left[0] == a@);
        assert(left.skip(1) =~= all.skip(i + 1));
        if same_start(a, "--", 2) {
            flags.push(owned(a));
            assert(text_views(flags@) =~= text_views(f0).push(a@));
            if same_text(a, "--sample") && i + 1 < args.len() {
                let ghost f1 = flags@;
                let v = args[i + 1].as_str();
                flags.push(owned(v));
                proof {
                    assert(left[1] == v@);
                    assert(left.skip(2) =~= all.skip(i + 2));
                    assert(text_views(flags@) =~= text_views(f1).push(v@));
                    let r = parted(left.skip(2));
                    assert(text_views(flags@) + r.1 =~= text_views(f0) + (seq![left[0], left[1]]
                        + r.1));
                }
                i = i + 1;
            } else {
                proof {
                    let r = parted(left.skip(1));
                    assert(text_views(flags@) + r.1 =~= text_views(f0) + (seq![left[0]] + r.1));
                }
            }
        } else {
            paths.push(owned(a));
            proof {
                assert(text_views(paths@) =~= text_views(p0).push(a@));
                assert(left[0] != "--sample"@) by {
                    if left[0] == "--sample"@ {
                        assert(crate::shard::starts(left[0], "--"@));
                    }
                }
                let r = parted(left.skip(1));
                assert(text_views(paths@) + r.0 =~= text_views(p0) + (seq![left[0]] + r.0));
            }
        }
        i = i + 1;
    }
    proof {
        assert(all.skip(args@.len() as int) =~= Seq::<Seq<char>>::empty());
        assert(text_views(paths@) =~= parted(rest).0);
        assert(text_views(flags@) =~= parted(rest).1);
    }
    (sub, paths, flags)
}

/// What is to be done with the index: a command is carried out, or only told of where it
/// is tried out; what takes entries away is asked about first.
#[derive(Clone, Copy, Debug, PartialEq, Eq, Structural)]
pub enum IndexStep {
    Path,
    Status,
    Files,
    TellUpdate,
    Update,
    Rebuild,
    TellCompact,
    Compact,
    TellGc,
    Gc,
    Check,
    AskDrop,
    TellDrop,
    Drop,
    NoTargets,
    AskForget,
    TellForget,
    Forget,
    Unlock,
    Unknown,
}

/// What is to be done with the index.
pub open spec fn index_step_of(
    sub: Seq<char>,
    dry_run: bool,
    yes: bool,
    any_target: bool,
) -> IndexStep {
    if sub == "path"@ {
        IndexStep::Path
    } else if sub == "status"@ {
        IndexStep::Status
    } else if sub == "files"@ {
        IndexStep::Files
    } else if sub == "update"@ {
        if dry_run {
            IndexStep::TellUpdate
        } else {
            IndexStep::Update
        }
    } else if sub == "rebuild"@ {
        IndexStep::Rebuild
    } else if sub == "compact"@ {
        if dry_run {
            IndexStep::TellCompact
        } else {
            IndexStep::Compact
        }
    } else if sub == "gc"@ {
        if dry_run {
            IndexStep::TellGc
        } else {
            IndexStep::Gc
        }
    } else if sub == "check"@ {
        IndexStep::Check
    } else if sub == "drop"@ {
        if !yes {
            IndexStep::AskDrop
        } else if dry_run {
            IndexStep::TellDrop
        } else {
            IndexStep::Drop
        }
    } else if sub == "forget"@ {
        if !any_target {
            IndexStep::NoTargets
        } else if !yes {
            IndexStep::AskForget
        } else if dry_run {
            IndexStep::TellForget
        } else {
            IndexStep::Forget
        }
    } else if sub == "unlock"@ {
        IndexStep::Unlock
    } else {
        IndexStep::Unknown
    }
}

/// What is to be done with the index; `any_target` tells whether files are named.
pub fn index_step(sub: &str, dry_run: bool, yes: bool, any_target: bool) -> (r: IndexStep)
    ensures
        r == index_step_of(sub@, dry_run, yes, any_target),
{
    if same_text(sub, "path") {
        IndexStep::Path
    } else if same_text(sub, "status") {
        IndexStep::Status
    } else if same_text(sub, "files") {
        IndexStep::Files
    } else if same_text(sub, "update") {
        if dry_run {
            IndexStep::TellUpdate
        } else {
            IndexStep::Update
        }
    } else if same_text(sub, "rebuild") {
        IndexStep::Rebuild
    } else if same_text(sub, "compact") {
        if dry_run {
            IndexStep::TellCompact
        } else {
            IndexStep::Compact
        }
    } else if same_text(sub, "gc") {
        if dry_run {
            IndexStep::TellGc
        } else {
            IndexStep::Gc
        }
    } else if same_text(sub, "check") {
        IndexStep::Check
    } else if same_text(sub, "drop") {
        if !yes {
            IndexStep::AskDrop
        } else if dry_run {
            IndexStep::TellDrop
        } else {
            IndexStep::Drop
        }
    } else if same_text(sub, "forget") {
        if !any_target {
            IndexStep::NoTargets
        } else if !yes {
            IndexStep::AskForget
        } else if dry_run {
            IndexStep::TellForget
        } else {
            IndexStep::Forget
        }
    } else if same_text(sub, "unlock") {
        IndexStep::Unlock
    } else {
        IndexStep::Unknown
    }
}

/// The step takes entries or files away.
pub open spec fn takes_away(step: IndexStep) -> bool {
    step == IndexStep::Drop || step == IndexStep::Forget
}

/// The step changes the index.
pub open spec fn changes_index(step: IndexStep) -> bool {
    takes_away(step) || step == IndexStep::Update || step == IndexStep::Rebuild || step
        == IndexStep::Compact || step == IndexStep::Gc
}

/// Nothing is taken away without consent, and a trial changes nothing but where the whole
/// index is made anew.
pub proof fn index_is_guarded(sub: Seq<char>, dry_run: bool, yes: bool, any_target: bool)
    ensures
        takes_away(index_step_of(sub, dry_run, yes, any_target)) ==> yes && !dry_run,
        dry_run && sub != "rebuild"@ ==> !changes_index(
            index_step_of(sub, dry_run, yes, any_target),
        ),
{
}

/// The files that are named: neither the empty path nor that of the directory itself.
pub open spec fn named_files(paths: Seq<Seq<char>>) -> Seq<Seq<char>>
    decreases paths.len(),
{
    if paths.len() == 0 {
        paths
    } else {
        let r = named_files(paths.drop_last());
        if paths.last().len() == 0 || paths.last() == "."@ {
            r
        } else {
            r.push(paths.last())
        }
    }
}

/// The files that are named.
pub fn forget_targets(paths: &Vec<String>) -> (r: Vec<String>)
    ensures
        text_views(r@) == named_files(text_views(paths@)),
{
    let ghost all = text_views(paths@);
    let mut out: Vec<String> = Vec::new();
    let mut i: usize = 0;
    assert(all.take(0) =~= Seq::<Seq<char>>::empty());
    assert(text_views(out@) =~= Seq::<Seq<char>>::empty());
    while i < paths.len()
        invariant
            i <= paths@.len(),
            all == text_views(paths@),
            text_views(out@) == named_files(all.take(i as int)),
        decreases paths@.len() - i,
    {
        proof {
            assert(all.take(i + 1).drop_last() =~= all.take(i as int));
            assert(all.take(i + 1).last() == paths@[i as int]@);
        }
        let p = paths[i].as_str();
        if !p.is_empty() && !same_text(p, ".") {
            let ghost o0 = out@;
            out.push(owned(p));
            assert(text_views(out@) =~= text_views(o0).push(p@));
        }
        i = i + 1;
    }
    assert(all.take(all.len() as int) =~= all);
    out
}

/// What is to be done where every file has an index beside it.
#[derive(Clone, Copy, Debug, PartialEq, Eq, Structural)]
pub enum SidecarStep {
    NoPath,
    NoLock,
    NoCompact,
    NoUpdate,
    Files,
    AskDrop,
    TellDrop,
    Drop,
    Status,
    Rebuild,
    Gc,
    Unknown,
}

/// What is to be done where every file has an index beside it.
pub open spec fn sidecar_step_of(sub: Seq<char>, dry_run: bool, yes: bool) -> SidecarStep {
    if sub == "path"@ {
        SidecarStep::NoPath
    } else if sub == "unlock"@ {
        SidecarStep::NoLock
    } else if sub == "compact"@ {
        SidecarStep::NoCompact
    } else if sub == "update"@ {
        SidecarStep::NoUpdate
    } else if sub == "files"@ {
        SidecarStep::Files
    } else if sub == "drop"@ || sub == "forget"@ {
        if !yes {
            SidecarStep::AskDrop
        } else if dry_run {
            SidecarStep::TellDrop
        } else {
            SidecarStep::Drop
        }
    } else if sub == "status"@ || sub == "check"@ {
        SidecarStep::Status
    } else if sub == "rebuild"@ {
        SidecarStep::Rebuild
    } else if sub == "gc"@ {
        SidecarStep::Gc
    } else {
        SidecarStep::Unknown
    }
}

/// What is to be done where every file has an index beside it.
pub fn sidecar_step(sub: &str, dry_run: bool, yes: bool) -> (r: SidecarStep)
    ensures
        r == sidecar_step_of(sub@, dry_run, yes),
{
    if same_text(sub, "path") {
        SidecarStep::NoPath
    } else if same_text(sub, "unlock") {
        SidecarStep::NoLock
    } else if same_text(sub, "compact") {
        SidecarStep::NoCompact
    } else if same_text(sub, "update") {
        SidecarStep::NoUpdate
    } else if same_text(sub, "files") {
        SidecarStep::Files
    } else if same_text(sub, "drop") || same_text(sub, "forget") {
        if !yes {
            SidecarStep::AskDrop
        } else if dry_run {
            SidecarStep::TellDrop
        } else {
            SidecarStep::Drop
        }
    } else if same_text(sub, "status") || same_text(sub, "check") {
        SidecarStep::Status
    } else if same_text(sub, "rebuild") {
        SidecarStep::Rebuild
    } else if same_text(sub, "gc") {
        SidecarStep::Gc
    } else {
        SidecarStep::Unknown
    }
}

/// The paths that an index beside each file is asked of: those given, or the directory
/// itself.
pub open spec fn paths_or_here(paths: Seq<Seq<char>>) -> Seq<Seq<char>> {
    if paths.len() == 0 {
        seq!["."@]
    } else {
        paths
    }
}

/// The paths that an index beside each file is asked of.
pub fn sidecar_paths(paths: &Vec<String>) -> (r: Vec<String>)
    ensures
        text_views(r@) == paths_or_here(text_views(paths@)),
{
    let mut out: Vec<String> = Vec::new();
    assert(text_views(out@) =~= Seq::<Seq<char>>::empty());
    let mut i: usize = 0;
    let ghost all = text_views(paths@);
    assert(all.take(0) =~= Seq::<Seq<char>>::empty());
    while i < paths.len()
        invariant
            i <= paths@.len(),
            all == text_views(paths@),
            text_views(out@) == all.take(i as int),
        decreases paths@.len() - i,
    {
        let ghost o0 = out@;
        out.push(owned(paths[i].as_str()));
        proof {
            assert(text_views(out@) =~= text_views(o0).push(all[i as int]));
            assert(all.take(i + 1) =~= all.take(i as int).push(all[i as int]));
        }
        i = i + 1;
    }
    assert(all.take(all.len() as int) =~= all);
    if paths.len() == 0 {
        out.push(owned("."));
        assert(text_views(out@) =~= seq!["."@]);
    }
    out
}

/// Whether a file of the index is to be shown: all are, or those that are not as they
/// were.
pub open spec fn file_shown(f: crate::wsidx::FileStatus, stale_only: bool) -> bool {
    !stale_only || !f.fresh || !f.exists
}

/// The positions of the files of the index that are to be shown.
pub open spec fn files_shown(fs: Seq<crate::wsidx::FileStatus>, stale_only: bool, k: nat) -> Seq<int>
    decreases k,
{
    if k == 0 {
        Seq::empty()
    } else {
        let r = files_shown(fs, stale_only, (k - 1) as nat);
        if file_shown(fs[k - 1], stale_only) {
            r.push(k - 1)
        } else {
            r
        }
    }
}

/// The positions of the files of the index that are to be shown.
pub fn pick_files(fs: &Vec<crate::wsidx::FileStatus>, stale_only: bool) -> (r: Vec<usize>)
    ensures
        crate::model::ints(r@) == files_shown(fs@, stale_only, fs@.len()),
{
    let mut out: Vec<usize> = Vec::new();
    let mut i: usize = 0;
    assert(crate::model::ints(out@) =~= Seq::<int>::empty());
    while i < fs.len()
        invariant
            i <= fs@.len(),
            crate::model::ints(out@) == files_shown(fs@, stale_only, i as nat),
        decreases fs@.len() - i,
    {
        if !stale_only || !fs[i].fresh || !fs[i].exists {
            let ghost o0 = out@;
            out.push(i);
            assert(crate::model::ints(out@) =~= crate::model::ints(o0).push(i as int));
        }
        i = i + 1;
    }
    out
}

// ---------------------------------------------------------------------------
// Checking the index
// ---------------------------------------------------------------------------

/// A file as it is in the index and as it is read anew: how many entries it has in the
/// one, and in the other or why it could not be read.
#[derive(Debug)]
pub struct Recount {
    pub path: String,
    pub entries: u64,
    pub actual: Result<u64, String>,
}

/// What is wrong with an index.
#[derive(Debug)]
pub struct CheckOutcome {
    pub problems: u128,
    pub details: Vec<String>,
}

/// What is wrong with looking a node up, if something is.
pub open spec fn probe_fault(b: crate::ledger::WorkspaceBackend, id: Uuid) -> Option<Seq<char>> {
    match b.reader.found(id) {
        Ok(ps) => if ps.len() == 0 {
            Some("抽样定位失败："@ + crate::codec::uuid_text(id))
        } else if exists|i: int| 0 <= i < ps.len() && b.node_at_place(#[trigger] ps[i]) is Err {
            Some("抽样读取失败："@ + crate::codec::uuid_text(id))
        } else {
            None
        },
        Err(_) => Some("抽样定位失败："@ + crate::codec::uuid_text(id)),
    }
}

/// What is wrong with looking the first `k` nodes up.
pub open spec fn probe_faults(b: crate::ledger::WorkspaceBackend, ids: Seq<Uuid>, k: nat) -> Seq<
    Seq<char>,
>
    decreases k,
{
    if k == 0 {
        Seq::empty()
    } else {
        let r = probe_faults(b, ids, (k - 1) as nat);
        match probe_fault(b, ids[k - 1]) {
            Some(m) => r.push(m),
            None => r,
        }
    }
}

/// What is wrong with the entries of a file, if something is.
pub open spec fn recount_fault(c: Recount) -> Option<Seq<char>> {
    match c.actual {
        Ok(n) => if n == c.entries {
            None
        } else {
            Some(
                c.path@ + " 条目数不符：台账 "@ + decimal(c.entries as nat) + " / 实际 "@ + decimal(
                    n as nat,
                ),
            )
        },
        Err(e) => Some(c.path@ + " 重扫失败："@ + e@),
    }
}

/// What is wrong with the entries of the first `k` files.
pub open spec fn recount_faults(s: Seq<Recount>, k: nat) -> Seq<Seq<char>>
    decreases k,
{
    if k == 0 {
        Seq::empty()
    } else {
        let r = recount_faults(s, (k - 1) as nat);
        match recount_fault(s[k - 1]) {
            Some(m) => r.push(m),
            None => r,
        }
    }
}

/// What is said of files that are not as they were.
pub open spec fn stale_note(n: nat) -> Seq<Seq<char>> {
    if n > 0 {
        seq!["指纹不符 "@ + decimal(n) + " 个"@]
    } else {
        Seq::empty()
    }
}

/// Looks a node up.
fn probe(b: &crate::ledger::WorkspaceBackend, id: Uuid) -> (r: Option<String>)
    requires
        b.wf(),
    ensures
        crate::convert::opt_text(r) == probe_fault(*b, id),
{
    match b.reader.locate(id) {
        Err(_) => Some(join2("抽样定位失败：", id.to_string().as_str())),
        Ok(hits) => {
            let ghost ps = crate::ledger::place_models(hits@);
            assert(ps.len() == hits@.len());
            if hits.len() == 0 {
                return Some(join2("抽样定位失败：", id.to_string().as_str()));
            }
            let mut i: usize = 0;
            while i < hits.len()
                invariant
                    i <= hits@.len(),
                    b.wf(),
                    hits@.len() > 0,
                    ps == crate::ledger::place_models(hits@),
                    b.reader.found(id) == Ok::<Seq<crate::ledger::SpecPlace>, Seq<char>>(ps),
                    forall|k: int| 0 <= k < i ==> !(b.node_at_place(#[trigger] ps[k]) is Err),
                decreases hits@.len() - i,
            {
                assert(ps[i as int] == hits@[i as int]@);
                if b.read_node_at_hit(&hits[i]).is_err() {
                    assert(b.node_at_place(ps[i as int]) is Err);
                    return Some(join2("抽样读取失败：", id.to_string().as_str()));
                }
                i = i + 1;
            }
            None
        },
    }
}

/// Checks an index: `stale` files are not as they were; some nodes are looked up, and
/// files are recounted.
pub fn check_index(
    b: &crate::ledger::WorkspaceBackend,
    stale: usize,
    ids: &Vec<Uuid>,
    recounts: &Vec<Recount>,
) -> (r: CheckOutcome)
    requires
        b.wf(),
    ensures
        text_views(r.details@) == stale_note(stale as nat) + probe_faults(*b, ids@, ids@.len())
            + recount_faults(recounts@, recounts@.len()),
        r.problems == stale + probe_faults(*b, ids@, ids@.len()).len() + recount_faults(
            recounts@,
            recounts@.len(),
        ).len(),
{
    let mut details: Vec<String> = Vec::new();
    if stale > 0 {
        details.push(join3("指纹不符 ", decimal_text(stale as u64).as_str(), " 个"));
    }
    let ghost d0 = stale_note(stale as nat);
    assert(text_views(details@) =~= d0);
    let mut problems: u128 = stale as u128;
    let mut i: usize = 0;
    assert(text_views(details@) =~= d0 + probe_faults(*b, ids@, 0));
    while i < ids.len()
        invariant
            i <= ids@.len(),
            b.wf(),
            problems <= usize::MAX + i,
            problems == stale + probe_faults(*b, ids@, i as nat).len(),
            text_views(details@) == d0 + probe_faults(*b, ids@, i as nat),
        decreases ids@.len() - i,
    {
        let ghost o0 = details@;
        let ghost p0 = probe_faults(*b, ids@, i as nat);
        if let Some(m) = probe(b, ids[i]) {
            let ghost mv = m@;
            details.push(m);
            problems = problems + 1;
            proof {
                assert(text_views(details@) =~= text_views(o0).push(mv));
                assert(d0 + p0.push(mv) =~= (d0 + p0).push(mv));
            }
        }
        i = i + 1;
    }
    let ghost d1 = d0 + probe_faults(*b, ids@, ids@.len());
    let ghost n1 = problems;
    let mut k: usize = 0;
    assert(text_views(details@) =~= d1 + recount_faults(recounts@, 0));
    while k < recounts.len()
        invariant
            k <= recounts@.len(),
            n1 <= usize::MAX + usize::MAX,
            problems <= n1 + k,
            problems == n1 + recount_faults(recounts@, k as nat).len(),
            text_views(details@) == d1 + recount_faults(recounts@, k as nat),
        decreases recounts@.len() - k,
    {
        let c = &recounts[k];
        let ghost o0 = details@;
        let ghost p0 = recount_faults(recounts@, k as nat);
        let fault = match &c.actual {
            Ok(n) => if *n == c.entries {
                None
            } else {
                let mut m = join3(
                    c.path.as_str(),
                    " 条目数不符：台账 ",
                    decimal_text(c.entries).as_str(),
                );
                m.append(" / 实际 ");
                m.append(decimal_text(*n).as_str());
                Some(m)
            },
            Err(e) => Some(join3(c.path.as_str(), " 重扫失败：", e.as_str())),
        };
        assert(crate::convert::opt_text(fault) == recount_fault(recounts@[k as int]));
        if let Some(m) = fault {
            let ghost mv = m@;
            details.push(m);
            problems = problems + 1;
            proof {
                assert(text_views(details@) =~= text_views(o0).push(mv));
                assert(d1 + p0.push(mv) =~= (d1 + p0).push(mv));
            }
        }
        k = k + 1;
    }
    CheckOutcome { problems, details }
}

// ---------------------------------------------------------------------------
// A node in several files
// ---------------------------------------------------------------------------

/// A node on one line where only its own file is at hand.
pub open spec fn brief_label(n: SpecNode, ft: Seq<(u64, String)>) -> Seq<char> {
    if n.value is Empty {
        if n.name.len() == 0 {
            "(空节点)"@
        } else {
            n.name
        }
    } else if n.name.len() == 0 {
        plain_display(n.value, ft)
    } else {
        n.name + " = "@ + plain_display(n.value, ft)
    }
}

/// A node on one line where only its own file is at hand. `ft` gives the texts of
/// doubles.
pub fn label_brief(n: &Node, ft: &Vec<(u64, String)>) -> (r: String)
    ensures
        r@ == brief_label(n@, ft@),
{
    let empty = match &n.value {
        Value::Empty => true,
        _ => false,
    };
    if empty {
        if n.name.as_str().is_empty() {
            owned("(空节点)")
        } else {
            n.name.clone()
        }
    } else {
        let v = crate::ops::display_of_value(&n.value, ft);
        if n.name.as_str().is_empty() {
            v
        } else {
            join3(n.name.as_str(), " = ", v.as_str())
        }
    }
}

/// Texts with those of another list behind them that are not there yet.
pub open spec fn with_new(a: Seq<Seq<char>>, b: Seq<Seq<char>>) -> Seq<Seq<char>>
    decreases b.len(),
{
    if b.len() == 0 {
        a
    } else {
        let r = with_new(a, b.drop_last());
        if r.contains(b.last()) {
            r
        } else {
            r.push(b.last())
        }
    }
}

/// The files that have to do with a node: the one that is named alone, or those given and
/// those that are known to hold it.
pub open spec fn files_related(
    only: Option<Seq<char>>,
    files: Seq<Seq<char>>,
    known: Seq<Seq<char>>,
) -> Seq<Seq<char>> {
    match only {
        Some(o) => seq![o],
        None => with_new(files, known),
    }
}

/// The files that have to do with a node.
pub fn related_files(only: Option<&str>, files: &Vec<String>, known: &Vec<String>) -> (r: Vec<String>)
    ensures
        text_views(r@) == files_related(
            crate::backend::opt_view(only),
            text_views(files@),
            text_views(known@),
        ),
{
    let mut out: Vec<String> = Vec::new();
    if let Some(o) = only {
        out.push(owned(o));
        assert(text_views(out@) =~= seq![o@]);
        return out;
    }
    let ghost a = text_views(files@);
    let ghost b = text_views(known@);
    let mut i: usize = 0;
    assert(a.take(0) =~= Seq::<Seq<char>>::empty());
    assert(text_views(out@) =~= a.take(0));
    while i < files.len()
        invariant
            i <= files@.len(),
            a == text_views(files@),
            text_views(out@) == a.take(i as int),
        decreases files@.len() - i,
    {
        let ghost o0 = out@;
        out.push(owned(files[i].as_str()));
        proof {
            assert(text_views(out@) =~= text_views(o0).push(a[i as int]));
            assert(a.take(i + 1) =~= a.take(i as int).push(a[i as int]));
        }
        i = i + 1;
    }
    assert(a.take(a.len() as int) =~= a);
    let mut k: usize = 0;
    assert(b.take(0) =~= Seq::<Seq<char>>::empty());
    while k < known.len()
        invariant
            k <= known@.len(),
            b == text_views(known@),
            text_views(out@) == with_new(a, b.take(k as int)),
        decreases known@.len() - k,
    {
        proof {
            assert(b.take(k + 1).drop_last() =~= b.take(k as int));
            assert(b.take(k + 1).last() == known@[k as int]@);
        }
        if !has_flag(&out, known[k].as_str()) {
            let ghost o0 = out@;
            out.push(owned(known[k].as_str()));
            assert(text_views(out@) =~= text_views(o0).push(known@[k as int]@));
        }
        k = k + 1;
    }
    assert(b.take(b.len() as int) =~= b);
    out
}

/// The first `k` paths that lead to a file, each file once: `places` gives where a path
/// really leads, or nothing where there is no file.
pub open spec fn files_once(
    paths: Seq<Seq<char>>,
    places: Seq<Option<Seq<char>>>,
    k: nat,
) -> Seq<Seq<char>>
    decreases k,
{
    if k == 0 {
        Seq::empty()
    } else {
        let r = files_once(paths, places, (k - 1) as nat);
        if places[k - 1] is Some && !met_before(places, k - 1) {
            r.push(paths[k - 1])
        } else {
            r
        }
    }
}

/// Whether a place is met at an earlier position.
pub open spec fn met_before(places: Seq<Option<Seq<char>>>, k: int) -> bool {
    exists|j: int| 0 <= j < k && #[trigger] places[j] == places[k]
}

/// The models of places.
pub open spec fn place_views(s: Seq<Option<String>>) -> Seq<Option<Seq<char>>> {
    Seq::new(s.len(), |i: int| crate::convert::opt_text(s[i]))
}

/// The paths that lead to a file, each file once.
pub fn usable_files(paths: &Vec<String>, places: &Vec<Option<String>>) -> (r: Vec<String>)
    requires
        paths@.len() == places@.len(),
    ensures
        text_views(r@) == files_once(
            text_views(paths@),
            place_views(places@),
            paths@.len(),
        ),
{
    let ghost ps = text_views(paths@);
    let ghost ls = place_views(places@);
    let mut out: Vec<String> = Vec::new();
    let mut i: usize = 0;
    assert(text_views(out@) =~= Seq::<Seq<char>>::empty());
    while i < paths.len()
        invariant
            i <= paths@.len(),
            paths@.len() == places@.len(),
            ps == text_views(paths@),
            ls == place_views(places@),
            text_views(out@) == files_once(ps, ls, i as nat),
        decreases paths@.len() - i,
    {
        assert(ls[i as int] == crate::convert::opt_text(places@[i as int]));
        if let Some(place) = &places[i] {
            let mut j: usize = 0;
            let mut met = false;
            while j < i
                invariant
                    j <= i < places@.len(),
                    ls == place_views(places@),
                    ls[i as int] == Some(place@),
                    met == (exists|x: int| 0 <= x < j && #[trigger] ls[x] == ls[i as int]),
                decreases i - j,
            {
                assert(ls[j as int] == crate::convert::opt_text(places@[j as int]));
                if let Some(other) = &places[j] {
                    if same_text(other.as_str(), place.as_str()) {
                        assert(ls[j as int] == ls[i as int]);
                        met = true;
                    }
                }
                j = j + 1;
            }
            assert(met == met_before(ls, i as int));
            if !met {
                let ghost o0 = out@;
                out.push(owned(paths[i].as_str()));
                assert(text_views(out@) =~= text_views(o0).push(ps[i as int]));
            }
        }
        i = i + 1;
    }
    out
}

// ---------------------------------------------------------------------------
// Files that disagree
// ---------------------------------------------------------------------------

/// Whether nodes disagree: one has another name or value than the first.
pub open spec fn disagree(s: Seq<SpecNode>) -> bool {
    exists|i: int|
        0 <= i < s.len() && ((#[trigger] s[i]).name != s[0].name || !same_value(
            s[i].value,
            s[0].value,
        ))
}

/// The nodes that were found.
pub open spec fn nodes_of_views(s: Seq<crate::backend::FileNode>) -> Seq<SpecNode> {
    Seq::new(s.len(), |i: int| s[i].1@)
}

/// Whether the views of a node disagree: there are several, and one has another name or
/// value than the first.
pub fn views_disagree(views: &Vec<crate::backend::FileNode>) -> (r: bool)
    ensures
        r == (views@.len() >= 2 && disagree(nodes_of_views(views@))),
{
    let ghost s = nodes_of_views(views@);
    if views.len() < 2 {
        return false;
    }
    let mut i: usize = 0;
    while i < views.len()
        invariant
            i <= views@.len(),
            views@.len() >= 2,
            s == nodes_of_views(views@),
            forall|k: int|
                0 <= k < i ==> (#[trigger] s[k]).name == s[0].name && same_value(
                    s[k].value,
                    s[0].value,
                ),
        decreases views@.len() - i,
    {
        assert(s[i as int] == views@[i as int].1@);
        assert(s[0] == views@[0].1@);
        if !same_text(views[i].1.name.as_str(), views[0].1.name.as_str()) || !(views[i].1.value
            == views[0].1.value) {
            return true;
        }
        i = i + 1;
    }
    false
}

/// What aligning a node with that of another file came to.
#[derive(Debug)]
pub enum Synced {
    Absent,
    Same,
    Done,
    Failed(String),
}

/// Whether `u` is `t` with node `i` given another name, with a trace, where it has
/// another one.
pub open spec fn name_aligned(t: Nodes, u: Nodes, i: int, name: Seq<char>) -> bool {
    crate::change::name_put(t, u, i, name, false)
}

/// Whether `u` is `m` with the node `id` given another value, with a trace, if it
/// `differs`.
pub open spec fn value_aligned(m: Nodes, u: Nodes, id: Uuid, v: SpecValue, differs: bool) -> bool {
    if differs {
        find_id(m, id) is Some && crate::change::value_put(
            m,
            u,
            find_id(m, id)->Some_0,
            v,
            false,
        )
    } else {
        u == m
    }
}

/// Gives a node the name and the value that it has in another file, with traces. What
/// hangs on it stays as it is.
pub fn sync_node(store: &mut Store, id: Uuid, base: &Node) -> (r: Synced)
    requires
        old(store).wf(),
    ensures
        final(store).wf(),
        match find_id(old(store)@, id) {
            None => r is Absent && final(store)@ == old(store)@,
            Some(i) => {
                let n = old(store)@[i];
                let differs = !same_value(n.value, base@.value);
                if n.name == base@.name && !differs {
                    r is Same && final(store)@ == old(store)@
                } else if n.name != base@.name && vstd::utf8::encode_utf8(base@.name).len() > 255 {
                    r is Failed && r->Failed_0@ == "名字超 255 字节"@ && final(store)@ == old(store)@
                } else {
                    r is Done && exists|m: Nodes| #[trigger]
                        name_aligned(old(store)@, m, i, base@.name) && value_aligned(
                            m,
                            final(store)@,
                            id,
                            base@.value,
                            differs,
                        )
                }
            },
        },
{
    let ghost t = store@;
    proof {
        crate::model::lemma_find_id(t, id);
    }
    let (name_differs, value_differs) = match store.get(id) {
        None => {
            return Synced::Absent;
        },
        Some(n) => (
            !same_text(n.name.as_str(), base.name.as_str()),
            !(n.value == base.value),
        ),
    };
    let ghost i = find_id(t, id)->Some_0;
    if !name_differs && !value_differs {
        return Synced::Same;
    }
    if name_differs {
        if let Err(e) = store.rename(id, base.name.clone()) {
            return Synced::Failed(e);
        }
    }
    let ghost m = store@;
    proof {
        assert(name_aligned(t, m, i, base@.name));
        lemma_still_there(t, m, i, id, base@.name);
    }
    if value_differs {
        if let Err(e) = store.update(id, base.value.clone()) {
            return Synced::Failed(e);
        }
    }
    assert(value_aligned(m, store@, id, base@.value, value_differs));
    Synced::Done
}

proof fn lemma_still_there(t: Nodes, m: Nodes, i: int, id: Uuid, name: Seq<char>)
    requires
        find_id(t, id) == Some(i),
        name_aligned(t, m, i, name),
    ensures
        find_id(m, id) is Some,
{
    crate::model::lemma_find_id(t, id);
    crate::model::lemma_find_id(m, id);
    if t[i].name != name {
        assert(m[i].id == id);
    }
}

/// Where a file goes that is thrown away: into the trash under its name, with a number in
/// front where that is taken, or beside itself where there is no trash.
pub open spec fn thrown_to(
    path: Seq<char>,
    trash: Option<Seq<char>>,
    name: Option<Seq<char>>,
    taken: bool,
    number: nat,
) -> Seq<char> {
    match trash {
        Some(dir) => {
            let n = match name {
                Some(n) => n,
                None => "file"@,
            };
            if taken {
                crate::paths::joined(dir, decimal(number) + "-"@ + n)
            } else {
                crate::paths::joined(dir, n)
            }
        },
        None => path + ".trashed"@,
    }
}

/// Where a file goes that is thrown away.
pub fn trash_dest(
    path: &str,
    trash: Option<&str>,
    name: Option<&str>,
    taken: bool,
    number: u32,
) -> (r: String)
    ensures
        r@ == thrown_to(
            path@,
            crate::backend::opt_view(trash),
            crate::backend::opt_view(name),
            taken,
            number as nat,
        ),
{
    match trash {
        Some(dir) => {
            let n = match name {
                Some(n) => n,
                None => "file",
            };
            if taken {
                let numbered = join3(decimal_text(number as u64).as_str(), "-", n);
                crate::paths::path_join(dir, numbered.as_str())
            } else {
                crate::paths::path_join(dir, n)
            }
        },
        None => join2(path, ".trashed"),
    }
}

// ---------------------------------------------------------------------------
// Laws of the command line
// ---------------------------------------------------------------------------

/// The argument of a flag is what follows its first occurrence; a flag that is not given or
/// comes last has none.
pub proof fn a_flag_is_followed_by_its_argument(args: Seq<Seq<char>>, flag: Seq<char>, i: int)
    ensures
        !args.contains(flag) ==> flag_argument(args, flag) is None,
        0 <= i < args.len() && args[i] == flag && (forall|j: int| 0 <= j < i ==> #[trigger] args[j]
            != flag) ==> flag_argument(args, flag) == (if i + 1 < args.len() {
            Some(args[i + 1])
        } else {
            None
        }),
    decreases args.len(),
{
    if args.len() > 0 {
        let d = args.skip(1);
        a_flag_is_followed_by_its_argument(d, flag, i - 1);
        if !args.contains(flag) {
            assert(args[0] != flag);
            assert forall|j: int| 0 <= j < d.len() implies #[trigger] d[j] != flag by {
                assert(d[j] == args[j + 1]);
            }
        }
        if 0 < i < args.len() && args[i] == flag && forall|j: int| 0 <= j < i ==> #[trigger] args[j]
            != flag {
            assert(args[0] != flag);
            assert(d[i - 1] == args[i]);
            assert forall|j: int| 0 <= j < i - 1 implies #[trigger] d[j] != flag by {
                assert(d[j] == args[j + 1]);
            }
            if i + 1 < args.len() {
                assert(d[i] == args[i + 1]);
            }
        }
    }
}

/// A flag with a number gives that number; without one, or with none that there can be, what
/// stands for it.
pub proof fn numbers_are_taken_from_their_flag(args: Seq<Seq<char>>, flag: Seq<char>, or: nat, n: nat)
    requires
        n <= usize::MAX,
    ensures
        flag_argument(args, flag) == Some(decimal(n)) ==> number_argument(args, flag, or) == n,
        flag_argument(args, flag) is None ==> number_argument(args, flag, or) == or,
{
    crate::text::decimal_is_read(n);
    assert('0' <= decimal(n)[0] <= '9');
}

/// What is given behind a command parts into paths and flags: each goes to one of them, in
/// order; a path has no dashes in front.
pub proof fn arguments_are_parted(s: Seq<Seq<char>>)
    ensures
        parted(s).0.len() + parted(s).1.len() == s.len(),
        forall|i: int|
            0 <= i < parted(s).0.len() ==> s.contains(#[trigger] parted(s).0[i])
                && !crate::shard::starts(parted(s).0[i], "--"@),
        forall|i: int| 0 <= i < parted(s).1.len() ==> s.contains(#[trigger] parted(s).1[i]),
        forall|i: int|
            0 <= i < s.len() ==> parted(s).0.contains(#[trigger] s[i]) || parted(s).1.contains(s[i]),
    decreases s.len(),
{
    if s.len() > 0 {
        let two = s[0] == "--sample"@ && s.len() > 1;
        let n = if two {
            2int
        } else {
            1
        };
        let d = s.skip(n);
        arguments_are_parted(d);
        let r = parted(d);
        let p = parted(s);
        if two {
            reveal_strlit("--");
            reveal_strlit("--sample");
            assert("--sample"@.take(2) =~= "--"@);
        }
        assert forall|i: int| 0 <= i < d.len() implies s.contains(#[trigger] d[i]) by {
            assert(s[i + n] == d[i]);
        }
        assert forall|i: int| 0 <= i < p.0.len() implies s.contains(#[trigger] p.0[i])
            && !crate::shard::starts(p.0[i], "--"@) by {
            let off = p.0.len() - r.0.len();
            if i >= off {
                assert(p.0[i] == r.0[i - off]);
                let x = choose|x: int| 0 <= x < d.len() && d[x] == r.0[i - off];
                assert(s.contains(d[x]));
            } else {
                assert(p.0[i] == s[0]);
            }
        }
        assert forall|i: int| 0 <= i < p.1.len() implies s.contains(#[trigger] p.1[i]) by {
            let off = p.1.len() - r.1.len();
            if i >= off {
                assert(p.1[i] == r.1[i - off]);
                let x = choose|x: int| 0 <= x < d.len() && d[x] == r.1[i - off];
                assert(s.contains(d[x]));
            } else {
                assert(p.1[i] == s[i]);
            }
        }
        assert forall|i: int| 0 <= i < s.len() implies p.0.contains(#[trigger] s[i]) || p.1.contains(
            s[i],
        ) by {
            let off0 = p.0.len() - r.0.len();
            let off1 = p.1.len() - r.1.len();
            if i < n {
                if off0 > 0 {
                    assert(p.0[0] == s[0]);
                } else {
                    assert(p.1[i] == s[i]);
                }
            } else {
                assert(d[i - n] == s[i]);
                if r.0.contains(d[i - n]) {
                    let x = choose|x: int| 0 <= x < r.0.len() && r.0[x] == d[i - n];
                    assert(p.0[x + off0] == s[i]);
                } else {
                    let x = choose|x: int| 0 <= x < r.1.len() && r.1[x] == d[i - n];
                    assert(p.1[x + off1] == s[i]);
                }
            }
        }
    }
}

/// A command that changes an index is the one that is named, and is only told where it is a
/// dry run.
pub proof fn steps_do_what_is_named(sub: Seq<char>, dry_run: bool, yes: bool, any_target: bool)
    ensures
        ({
            let step = index_step_of(sub, dry_run, yes, any_target);
            &&& step == IndexStep::Update || step == IndexStep::TellUpdate <==> sub == "update"@
            &&& step == IndexStep::Rebuild <==> sub == "rebuild"@
            &&& step == IndexStep::Compact || step == IndexStep::TellCompact <==> sub == "compact"@
            &&& step == IndexStep::Gc || step == IndexStep::TellGc <==> sub == "gc"@
            &&& step == IndexStep::Drop || step == IndexStep::TellDrop || step == IndexStep::AskDrop
                <==> sub == "drop"@
            &&& step == IndexStep::Forget || step == IndexStep::TellForget || step
                == IndexStep::AskForget || step == IndexStep::NoTargets <==> sub == "forget"@
            &&& step == IndexStep::TellUpdate || step == IndexStep::TellCompact || step
                == IndexStep::TellGc || step == IndexStep::TellDrop || step == IndexStep::TellForget
                ==> dry_run
            &&& step == IndexStep::AskDrop || step == IndexStep::AskForget ==> !yes
            &&& step == IndexStep::NoTargets <==> sub == "forget"@ && !any_target
        }),
{
    reveal_strlit("path");
    reveal_strlit("status");
    reveal_strlit("files");
    reveal_strlit("update");
    reveal_strlit("rebuild");
    reveal_strlit("compact");
    reveal_strlit("gc");
    reveal_strlit("check");
    reveal_strlit("drop");
    reveal_strlit("forget");
    reveal_strlit("unlock");
    assert("path"@[0] == 'p' && "status"@[0] == 's' && "files"@[0] == 'f' && "files"@[1] == 'i'
        && "update"@[0] == 'u' && "update"@[1] == 'p' && "rebuild"@[0] == 'r' && "compact"@[0]
        == 'c' && "compact"@[1] == 'o' && "gc"@[0] == 'g' && "check"@[0] == 'c' && "check"@[1] == 'h'
        && "drop"@[0] == 'd' && "forget"@[0] == 'f' && "forget"@[1] == 'o' && "unlock"@[0] == 'u'
        && "unlock"@[1] == 'n');
}

/// Nothing beside the files goes without a yes, nor in a dry run.
pub proof fn sidecars_are_guarded(sub: Seq<char>, dry_run: bool, yes: bool)
    ensures
        sidecar_step_of(sub, dry_run, yes) == SidecarStep::Drop ==> yes && !dry_run && (sub
            == "drop"@ || sub == "forget"@),
        sidecar_step_of(sub, dry_run, yes) == SidecarStep::AskDrop ==> !yes,
        sidecar_step_of(sub, dry_run, yes) == SidecarStep::Rebuild ==> sub == "rebuild"@,
        sidecar_step_of(sub, dry_run, yes) == SidecarStep::Gc ==> sub == "gc"@,
        sidecar_step_of(sub, dry_run, yes) == SidecarStep::Status ==> sub == "status"@ || sub
            == "check"@,
        sidecar_step_of(sub, dry_run, yes) == SidecarStep::Files ==> sub == "files"@,
{
}

/// A tree takes one line for each of its nodes, the first of which ends in the label of the
/// node, or in its id where these are asked for.
pub proof fn every_node_has_a_line(v: SpecView, prefix: Seq<char>, is_last: bool, ids: bool)
    ensures
        tree_lines(v, prefix, is_last, ids).len() == crate::ops::view_size(v),
        tree_lines(v, prefix, is_last, ids)[0] == node_line(v, prefix, is_last, ids),
        !ids ==> node_line(v, prefix, is_last, ids).len() >= v.label.len() && node_line(
            v,
            prefix,
            is_last,
            ids,
        ).skip(node_line(v, prefix, is_last, ids).len() - v.label.len()) == v.label,
        node_line(v, prefix, is_last, true) == node_line(v, prefix, is_last, false) + " <"@
            + crate::codec::uuid_text(v.id) + ">"@,
    decreases v,
{
    lemma_branch_len(v.children, child_prefix(prefix, is_last), true, ids);
    let l = node_line(v, prefix, is_last, false);
    assert(l.skip(l.len() - v.label.len()) =~= v.label);
}

proof fn lemma_branch_len(s: Seq<SpecView>, prefix: Seq<char>, ends: bool, ids: bool)
    ensures
        branch_lines(s, prefix, ends, ids).len() == crate::ops::view_sizes(s),
    decreases s,
{
    if s.len() > 0 {
        lemma_branch_len(s.drop_last(), prefix, false, ids);
        every_node_has_a_line(s.last(), prefix, ends, ids);
        lemma_sizes_from_the_end(s);
    }
}

proof fn lemma_sizes_from_the_end(s: Seq<SpecView>)
    requires
        s.len() > 0,
    ensures
        crate::ops::view_sizes(s) == crate::ops::view_sizes(s.drop_last()) + crate::ops::view_size(
            s.last(),
        ),
    decreases s.len(),
{
    if s.len() > 1 {
        lemma_sizes_from_the_end(s.skip(1));
        assert(s.skip(1).drop_last() =~= s.drop_last().skip(1));
        assert(s.skip(1).last() == s.last());
    } else {
        assert(s.skip(1) =~= s.drop_last());
        assert(crate::ops::view_sizes(s.drop_last()) == 0);
    }
}

/// The lines of a child stand together, with the prefix that all children share; the last
/// child is marked as such.
pub proof fn children_stand_below_each_other(
    s: Seq<SpecView>,
    prefix: Seq<char>,
    ends: bool,
    ids: bool,
    i: int,
) -> (at: int)
    requires
        0 <= i < s.len(),
    ensures
        ({
            let one = tree_lines(s[i], prefix, ends && i == s.len() - 1, ids);
            let all = branch_lines(s, prefix, ends, ids);
            0 <= at && at + one.len() <= all.len() && all.subrange(at, at + one.len()) == one
        }),
    decreases s.len(),
{
    let d = s.drop_last();
    let before = branch_lines(d, prefix, false, ids);
    let all = branch_lines(s, prefix, ends, ids);
    if i < d.len() {
        let at = children_stand_below_each_other(d, prefix, false, ids, i);
        let one = tree_lines(d[i], prefix, false, ids);
        assert(all.subrange(at, at + one.len()) =~= before.subrange(at, at + one.len()));
        at
    } else {
        let at = before.len() as int;
        let one = tree_lines(s.last(), prefix, ends, ids);
        assert(all.subrange(at, at + one.len()) =~= one);
        at
    }
}

/// Files with new ones behind: all of both are there, and the first ones as they were.
pub proof fn new_files_come_behind(a: Seq<Seq<char>>, b: Seq<Seq<char>>, f: Seq<char>)
    ensures
        with_new(a, b).contains(f) <==> a.contains(f) || b.contains(f),
        a.len() <= with_new(a, b).len() && with_new(a, b).take(a.len() as int) == a,
    decreases b.len(),
{
    if b.len() == 0 {
        assert(a.take(a.len() as int) =~= a);
    } else {
        let d = b.drop_last();
        let r = with_new(a, d);
        let w = with_new(a, b);
        new_files_come_behind(a, d, f);
        assert(w.take(a.len() as int) =~= r.take(a.len() as int));
        if b.contains(f) && !d.contains(f) {
            let k = choose|k: int| 0 <= k < b.len() && b[k] == f;
            if k < d.len() {
                assert(d[k] == f);
            }
            assert(f == b.last());
            if !r.contains(f) {
                assert(w[r.len() as int] == f);
            }
        }
        if d.contains(f) {
            let k = choose|k: int| 0 <= k < d.len() && d[k] == f;
            assert(b[k] == f);
        }
        if r.contains(f) {
            let k = choose|k: int| 0 <= k < r.len() && r[k] == f;
            assert(w[k] == f);
        }
        if w.contains(f) && !r.contains(f) {
            let k = choose|k: int| 0 <= k < w.len() && w[k] == f;
            if k < r.len() {
                assert(r[k] == f);
            }
            assert(b[b.len() - 1] == f);
        }
    }
}

/// Nodes disagree exactly if one of them has another name than the first, or a value that is
/// not equal; a node alone disagrees only with a value that equals nothing.
pub proof fn nodes_agree_with_the_first(s: Seq<SpecNode>)
    ensures
        !disagree(s) <==> forall|i: int|
            0 <= i < s.len() ==> (#[trigger] s[i]).name == s[0].name && same_value(
                s[i].value,
                s[0].value,
            ),
{
}

/// A node that was brought in line has the name and the value of the one it was compared
/// with.
pub proof fn synced_nodes_agree(
    t: Nodes,
    m: Nodes,
    u: Nodes,
    id: Uuid,
    i: int,
    name: Seq<char>,
    v: SpecValue,
)
    requires
        0 <= i < t.len(),
        name_aligned(t, m, i, name),
        value_aligned(m, u, id, v, !same_value(t[i].value, v)),
        find_id(m, id) == Some(i),
    ensures
        u[i].id == t[i].id && u[i].parent == t[i].parent,
        u[i].name == name,
        crate::change::is_or_equals(u[i].value, v),
        forall|j: int| 0 <= j < t.len() && j != i ==> #[trigger] u[j] == t[j],
{
    crate::change::a_renamed_node_has_the_name(t, m, i, name, false);
    if !same_value(t[i].value, v) {
        crate::change::what_is_put_is_there(m, u, i, v, false);
    }
    assert forall|j: int| 0 <= j < t.len() && j != i implies #[trigger] u[j] == t[j] by {
        assert(m[j] == t[j]);
    }
}

/// A probe finds nothing wrong exactly if the id has a place and every place can be read; a
/// recount, exactly if the count is the recorded one.
pub proof fn checks_find_what_is_wrong(
    b: crate::ledger::WorkspaceBackend,
    id: Uuid,
    c: Recount,
)
    ensures
        probe_fault(b, id) is None <==> b.reader.found(id) is Ok && b.reader.found(id)->Ok_0.len() > 0
            && forall|i: int|
            0 <= i < b.reader.found(id)->Ok_0.len() ==> b.node_at_place(
                #[trigger] b.reader.found(id)->Ok_0[i],
            ) is Ok,
        recount_fault(c) is None <==> c.actual is Ok && c.actual->Ok_0 == c.entries,
{
    if b.reader.found(id) is Ok {
        let ps = b.reader.found(id)->Ok_0;
        if forall|i: int| 0 <= i < ps.len() ==> b.node_at_place(#[trigger] ps[i]) is Ok {
            assert(!exists|i: int| 0 <= i < ps.len() && b.node_at_place(#[trigger] ps[i]) is Err);
        } else {
            let i = choose|i: int| 0 <= i < ps.len() && !(b.node_at_place(#[trigger] ps[i]) is Ok);
            assert(b.node_at_place(ps[i]) is Err);
        }
    }
}

/// No fault is told exactly if no probe and no recount finds one.
pub proof fn faults_are_all_told(
    b: crate::ledger::WorkspaceBackend,
    ids: Seq<Uuid>,
    s: Seq<Recount>,
    k: nat,
)
    ensures
        k <= ids.len() ==> (probe_faults(b, ids, k).len() == 0 <==> forall|i: int|
            0 <= i < k ==> probe_fault(b, #[trigger] ids[i]) is None),
        k <= s.len() ==> (recount_faults(s, k).len() == 0 <==> forall|i: int|
            0 <= i < k ==> recount_fault(#[trigger] s[i]) is None),
    decreases k,
{
    if k > 0 {
        faults_are_all_told(b, ids, s, (k - 1) as nat);
        if k <= ids.len() && probe_faults(b, ids, k).len() == 0 {
            assert(probe_fault(b, ids[k - 1]) is None);
        }
        if k <= s.len() && recount_faults(s, k).len() == 0 {
            assert(recount_fault(s[k - 1]) is None);
        }
    }
}

/// What is left without the flags is what has no dashes in front, all of it in order.
pub proof fn flags_are_no_paths(args: Seq<Seq<char>>) -> (at: Seq<int>)
    ensures
        at.len() == no_flags(args).len(),
        forall|x: int|
            0 <= x < at.len() ==> 0 <= #[trigger] at[x] < args.len() && no_flags(args)[x] == args[at[x]]
                && !crate::shard::starts(args[at[x]], "--"@),
        forall|x: int, y: int| 0 <= x < y < at.len() ==> #[trigger] at[x] < #[trigger] at[y],
        forall|i: int| 0 <= i < args.len() && !crate::shard::starts(#[trigger] args[i], "--"@) ==> at.contains(i),
    decreases args.len(),
{
    if args.len() == 0 {
        Seq::empty()
    } else {
        let d = args.drop_last();
        let rest = flags_are_no_paths(d);
        let at = if !crate::shard::starts(args[args.len() - 1], "--"@) {
            rest.push(args.len() - 1)
        } else {
            rest
        };
        assert forall|i: int| 0 <= i < args.len() && !crate::shard::starts(#[trigger] args[i], "--"@) implies at.contains(i) by {
            if i < d.len() {
                assert(d[i] == args[i]);
                let x = choose|x: int| 0 <= x < rest.len() && rest[x] == i;
                assert(at[x] == i);
            } else {
                assert(at[rest.len() as int] == i);
            }
        }
        assert forall|x: int| 0 <= x < at.len() implies 0 <= #[trigger] at[x] < args.len()
            && no_flags(args)[x] == args[at[x]] && !crate::shard::starts(args[at[x]], "--"@) by {
            if x < rest.len() {
                assert(at[x] == rest[x]);
                assert(d[rest[x]] == args[rest[x]]);
            }
        }
        at
    }
}

/// The files that are named are those that are neither empty nor a dot, all of them in order.
pub proof fn named_files_are_all_taken(paths: Seq<Seq<char>>) -> (at: Seq<int>)
    ensures
        at.len() == named_files(paths).len(),
        forall|x: int|
            0 <= x < at.len() ==> 0 <= #[trigger] at[x] < paths.len() && named_files(paths)[x] == paths[at[x]]
                && (paths[at[x]].len() > 0 && paths[at[x]] != "."@),
        forall|x: int, y: int| 0 <= x < y < at.len() ==> #[trigger] at[x] < #[trigger] at[y],
        forall|i: int| 0 <= i < paths.len() && ((#[trigger] paths[i]).len() > 0 && paths[i] != "."@) ==> at.contains(i),
    decreases paths.len(),
{
    if paths.len() == 0 {
        Seq::empty()
    } else {
        let d = paths.drop_last();
        let rest = named_files_are_all_taken(d);
        let at = if (paths[paths.len() - 1].len() > 0 && paths[paths.len() - 1] != "."@) {
            rest.push(paths.len() - 1)
        } else {
            rest
        };
        assert forall|i: int| 0 <= i < paths.len() && ((#[trigger] paths[i]).len() > 0 && paths[i] != "."@) implies at.contains(i) by {
            if i < d.len() {
                assert(d[i] == paths[i]);
                let x = choose|x: int| 0 <= x < rest.len() && rest[x] == i;
                assert(at[x] == i);
            } else {
                assert(at[rest.len() as int] == i);
            }
        }
        assert forall|x: int| 0 <= x < at.len() implies 0 <= #[trigger] at[x] < paths.len()
            && named_files(paths)[x] == paths[at[x]] && (paths[at[x]].len() > 0 && paths[at[x]] != "."@) by {
            if x < rest.len() {
                assert(at[x] == rest[x]);
                assert(d[rest[x]] == paths[rest[x]]);
            }
        }
        at
    }
}

/// The files that are used: each that has a place, but those whose place came before, in
/// order.
pub proof fn every_place_is_used_once(
    paths: Seq<Seq<char>>,
    places: Seq<Option<Seq<char>>>,
    k: nat,
) -> (at: Seq<int>)
    ensures
        at.len() == files_once(paths, places, k).len(),
        forall|x: int|
            0 <= x < at.len() ==> 0 <= #[trigger] at[x] < k && files_once(paths, places, k)[x]
                == paths[at[x]] && places[at[x]] is Some && forall|j: int|
                0 <= j < at[x] ==> #[trigger] places[j] != places[at[x]],
        forall|x: int, y: int| 0 <= x < y < at.len() ==> #[trigger] at[x] < #[trigger] at[y],
        forall|i: int|
            0 <= i < k && places[i] is Some && (forall|j: int|
                0 <= j < i ==> #[trigger] places[j] != places[i]) ==> #[trigger] at.contains(i),
    decreases k,
{
    if k == 0 {
        Seq::empty()
    } else {
        let n = (k - 1) as nat;
        let rest = every_place_is_used_once(paths, places, n);
        let at = if places[k - 1] is Some && !met_before(places, k - 1) {
            rest.push(k - 1)
        } else {
            rest
        };
        assert forall|i: int|
            0 <= i < k && places[i] is Some && (forall|j: int|
                0 <= j < i ==> #[trigger] places[j] != places[i]) implies #[trigger] at.contains(i) by {
            if i < n {
                assert(rest.contains(i));
                let x = choose|x: int| 0 <= x < rest.len() && rest[x] == i;
                assert(at[x] == i);
            } else {
                assert(!met_before(places, i));
                assert(at[rest.len() as int] == i);
            }
        }
        at
    }
}

/// The files that are shown are all of them, or those that are stale or gone, in order.
pub proof fn stale_files_are_shown(
    fs: Seq<crate::wsidx::FileStatus>,
    stale_only: bool,
    k: nat,
    i: int,
)
    requires
        0 <= i < k <= fs.len(),
    ensures
        files_shown(fs, stale_only, k).contains(i) <==> !stale_only || !fs[i].fresh || !fs[i].exists,
        forall|x: int|
            0 <= x < files_shown(fs, stale_only, k).len() ==> 0 <= #[trigger] files_shown(
                fs,
                stale_only,
                k,
            )[x] < k,
    decreases k,
{
    let n = (k - 1) as nat;
    let r = files_shown(fs, stale_only, n);
    let s = files_shown(fs, stale_only, k);
    if n > 0 {
        stale_files_are_shown(fs, stale_only, n, if i < n {
            i
        } else {
            0
        });
    }
    assert forall|x: int| 0 <= x < s.len() implies 0 <= #[trigger] s[x] < k by {
        if x < r.len() {
            assert(s[x] == r[x]);
        }
    }
    if s.contains(i) {
        let x = choose|x: int| 0 <= x < s.len() && s[x] == i;
        if x < r.len() {
            assert(r[x] == i);
        }
    }
    if file_shown(fs[i], stale_only) {
        if i < n {
            let x = choose|x: int| 0 <= x < r.len() && r[x] == i;
            assert(s[x] == i);
        } else {
            assert(s[r.len() as int] == i);
        }
    }
}

} // verus!
