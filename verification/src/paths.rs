//! Paths as texts: joining, folding `.` and `..`, and where things are kept.
use crate::text::{begins, chars_of, join2, join3, owned, same_text, split_at_char, split_char,
    string_of, text_views};
use vstd::prelude::*;

verus! {

/// The name of the directory that keeps the index of a workspace.
pub const INDEX_DIR: &'static str = ".xirang-index";

/// A path behind another: an absolute one stands for itself.
pub open spec fn joined(base: Seq<char>, rel: Seq<char>) -> Seq<char> {
    if begins(rel, '/') {
        rel
    } else if base.len() == 0 || base.last() == '/' {
        base + rel
    } else {
        base + "/"@ + rel
    }
}

/// A path behind another.
pub fn path_join(base: &str, rel: &str) -> (r: String)
    ensures
        r@ == joined(base@, rel@),
{
    if !rel.is_empty() && rel.get_char(0) == '/' {
        return owned(rel);
    }
    let chars = chars_of(base);
    if chars.len() == 0 || chars[chars.len() - 1] == '/' {
        join2(base, rel)
    } else {
        join3(base, "/", rel)
    }
}

/// The directory that keeps the index of the workspace.
pub fn index_dir(ws_root: &str) -> (r: String)
    ensures
        r@ == joined(ws_root@, INDEX_DIR@),
{
    path_join(ws_root, INDEX_DIR)
}

/// The parts of a path with `.` left out and each `..` taking the part before it
/// away.
pub open spec fn folded_parts(parts: Seq<Seq<char>>) -> Seq<Seq<char>>
    decreases parts.len(),
{
    if parts.len() == 0 {
        Seq::<Seq<char>>::empty()
    } else {
        let r = folded_parts(parts.drop_last());
        let p = parts.last();
        if p.len() == 0 || p == "."@ {
            r
        } else if p == ".."@ {
            if r.len() == 0 {
                r
            } else {
                r.drop_last()
            }
        } else {
            r.push(p)
        }
    }
}

/// Parts with a separator between them.
pub open spec fn with_slashes(parts: Seq<Seq<char>>) -> Seq<char>
    decreases parts.len(),
{
    if parts.len() == 0 {
        Seq::<char>::empty()
    } else if parts.len() == 1 {
        parts[0]
    } else {
        with_slashes(parts.drop_last()) + "/"@ + parts.last()
    }
}

/// A path with `.` and `..` folded.
pub open spec fn normalized(p: Seq<char>) -> Seq<char> {
    let body = with_slashes(folded_parts(split_at_char(p, '/')));
    if begins(p, '/') {
        "/"@ + body
    } else {
        body
    }
}

/// A path with `.` and `..` folded.
pub fn normalize(p: &str) -> (r: String)
    ensures
        r@ == normalized(p@),
{
    let parts = split_char(p, '/');
    let ghost all = text_views(parts@);
    let mut stack: Vec<String> = Vec::new();
    let mut i: usize = 0;
    assert(all.take(0) =~= Seq::<Seq<char>>::empty());
    assert(text_views(stack@) =~= folded_parts(all.take(0)));
    while i < parts.len()
        invariant
            i <= parts@.len(),
            all == text_views(parts@),
            text_views(stack@) == folded_parts(all.take(i as int)),
        decreases parts@.len() - i,
    {
        let ghost s0 = stack@;
        proof {
            assert(all.take(i + 1).drop_last() =~= all.take(i as int));
            assert(all.take(i + 1).last() == parts@[i as int]@);
        }
        let p = parts[i].as_str();
        if p.is_empty() || same_text(p, ".") {
        } else if same_text(p, "..") {
            stack.pop();
            assert(text_views(stack@) =~= if text_views(s0).len() == 0 {
                text_views(s0)
            } else {
                text_views(s0).drop_last()
            });
        } else {
            stack.push(owned(p));
            assert(text_views(stack@) =~= text_views(s0).push(p@));
        }
        i = i + 1;
    }
    assert(all.take(all.len() as int) =~= all);
    let ghost f = text_views(stack@);
    let mut body = String::new();
    let mut k: usize = 0;
    assert(f.take(0) =~= Seq::<Seq<char>>::empty());
    while k < stack.len()
        invariant
            k <= stack@.len(),
            f == text_views(stack@),
            body@ == with_slashes(f.take(k as int)),
        decreases stack@.len() - k,
    {
        proof {
            assert(f.take(k + 1).drop_last() =~= f.take(k as int));
            assert(f.take(k + 1).last() == stack@[k as int]@);
        }
        if k == 0 {
            body = owned(stack[0].as_str());
        } else {
            body = join3(body.as_str(), "/", stack[k].as_str());
        }
        k = k + 1;
    }
    assert(f.take(f.len() as int) =~= f);
    if !p.is_empty() && p.get_char(0) == '/' {
        join2("/", body.as_str())
    } else {
        body
    }
}

/// The absolute form of a path seen from a directory, by its text alone.
pub fn lexical_abs(cwd: &str, raw: &str) -> (r: String)
    ensures
        r@ == normalized(joined(cwd@, raw@)),
{
    let p = path_join(cwd, raw);
    normalize(p.as_str())
}

/// Whether a file name is that of a data file: something, then `.xirang`.
pub open spec fn is_data_name(name: Seq<char>) -> bool {
    name.len() > ".xirang"@.len() && name.skip(name.len() - ".xirang"@.len()) == ".xirang"@
}

/// Whether a path below a workspace, seen from its root, is that of a data file outside any
/// index.
pub open spec fn is_data_path(p: Seq<char>) -> bool {
    let parts = split_at_char(p, '/');
    &&& is_data_name(parts.last())
    &&& forall|i: int| 0 <= i < parts.len() - 1 ==> #[trigger] parts[i] != INDEX_DIR@
}

/// Whether a path below a workspace, seen from its root, is that of a data file outside any
/// index.
pub fn takes_path(p: &str) -> (r: bool)
    ensures
        r == is_data_path(p@),
{
    let parts = split_char(p, '/');
    let ghost all = text_views(parts@);
    let last: usize = parts.len() - 1;
    assert(all.last() == parts@[last as int]@);
    let name = chars_of(parts[last].as_str());
    let tail = chars_of(".xirang");
    if name.len() <= tail.len() {
        return false;
    }
    let end = string_of(&name, name.len() - tail.len(), name.len());
    proof {
        assert(end@ =~= all.last().skip(all.last().len() - ".xirang"@.len()));
    }
    if !same_text(end.as_str(), ".xirang") {
        return false;
    }
    let mut i: usize = 0;
    while i < last
        invariant
            i <= last,
            last == parts@.len() - 1,
            all == text_views(parts@),
            all == split_at_char(p@, '/'),
            forall|j: int| 0 <= j < i ==> #[trigger] all[j] != INDEX_DIR@,
        decreases last - i,
    {
        assert(all[i as int] == parts@[i as int]@);
        if same_text(parts[i].as_str(), INDEX_DIR) {
            return false;
        }
        i = i + 1;
    }
    true
}

/// The key by which paths are listed: their bytes, a separator before any other.
pub open spec fn path_key(b: Seq<u8>) -> Seq<u8> {
    Seq::new(
        b.len(),
        |i: int|
            if b[i] == 0x2f {
                0u8
            } else {
                b[i]
            },
    )
}

/// The data files among paths.
pub open spec fn data_paths(s: Seq<Seq<char>>) -> Seq<Seq<char>>
    decreases s.len(),
{
    if s.len() == 0 {
        s
    } else if is_data_path(s.last()) {
        data_paths(s.drop_last()).push(s.last())
    } else {
        data_paths(s.drop_last())
    }
}

/// The keys of paths.
pub open spec fn path_keys(s: Seq<Seq<char>>) -> Seq<Seq<u8>> {
    Seq::new(s.len(), |i: int| path_key(vstd::utf8::encode_utf8(s[i])))
}

/// The data files among the paths below a workspace, seen from its root, in order.
pub fn collect_data_files(paths: &Vec<String>) -> (r: Vec<String>)
    ensures
        text_views(r@) == crate::sort::sorted(
            data_paths(text_views(paths@)),
            path_keys(data_paths(text_views(paths@))),
        ),
{
    let ghost all = text_views(paths@);
    let mut kept: Vec<String> = Vec::new();
    let mut keys: Vec<Vec<u8>> = Vec::new();
    let mut i: usize = 0;
    assert(all.take(0) =~= Seq::<Seq<char>>::empty());
    assert(text_views(kept@) =~= data_paths(all.take(0)));
    assert(crate::sort::key_views(keys@) =~= path_keys(text_views(kept@)));
    while i < paths.len()
        invariant
            i <= paths@.len(),
            all == text_views(paths@),
            text_views(kept@) == data_paths(all.take(i as int)),
            crate::sort::key_views(keys@) == path_keys(text_views(kept@)),
        decreases paths@.len() - i,
    {
        proof {
            assert(all.take(i + 1).drop_last() =~= all.take(i as int));
            assert(all.take(i + 1).last() == paths@[i as int]@);
        }
        if takes_path(paths[i].as_str()) {
            let ghost k0 = kept@;
            let ghost y0 = keys@;
            let key = make_path_key(paths[i].as_str().as_bytes());
            let ghost kv = key@;
            kept.push(paths[i].clone());
            keys.push(key);
            proof {
                assert(text_views(kept@) =~= text_views(k0).push(paths@[i as int]@));
                assert(crate::sort::key_views(keys@) =~= crate::sort::key_views(y0).push(kv));
                assert(path_keys(text_views(kept@)) =~= path_keys(text_views(k0)).push(kv));
            }
        }
        i = i + 1;
    }
    assert(all.take(all.len() as int) =~= all);
    let ghost ks = text_views(kept@);
    let pos = crate::sort::order(&keys);
    let ghost p = crate::model::ints(pos@);
    let ghost want = crate::sort::arranged(ks, p);
    let mut out: Vec<String> = Vec::new();
    let mut k: usize = 0;
    assert(crate::sort::key_views(keys@).len() == keys@.len());
    assert(path_keys(ks).len() == kept@.len());
    assert(text_views(out@) =~= want.take(0));
    while k < pos.len()
        invariant
            k <= pos@.len(),
            p == crate::model::ints(pos@),
            ks == text_views(kept@),
            want == crate::sort::arranged(ks, p),
            forall|j: int| 0 <= j < pos@.len() ==> #[trigger] pos@[j] < kept@.len(),
            text_views(out@) == want.take(k as int),
        decreases pos@.len() - k,
    {
        let ghost o0 = out@;
        out.push(kept[pos[k]].clone());
        proof {
            assert(ks[p[k as int]] == kept@[pos@[k as int] as int]@);
            assert(text_views(out@) =~= text_views(o0).push(ks[p[k as int]]));
            assert(want.take(k + 1) =~= want.take(k as int).push(ks[p[k as int]]));
        }
        k = k + 1;
    }
    proof {
        assert(want.take(want.len() as int) =~= want);
        crate::sort::lemma_sorted_is(ks, path_keys(ks), p);
    }
    out
}

/// The key of a path.
fn make_path_key(b: &[u8]) -> (r: Vec<u8>)
    ensures
        r@ == path_key(b@),
{
    let mut out: Vec<u8> = Vec::new();
    let mut i: usize = 0;
    while i < b.len()
        invariant
            i <= b@.len(),
            out@ == path_key(b@).take(i as int),
        decreases b@.len() - i,
    {
        if b[i] == 0x2f {
            out.push(0);
        } else {
            out.push(b[i]);
        }
        assert(path_key(b@).take(i + 1) =~= path_key(b@).take(i as int).push(path_key(b@)[i as int]));
        i = i + 1;
    }
    assert(path_key(b@).take(b@.len() as int) =~= path_key(b@));
    out
}

/// Where the catalog is kept: where the setting says, or else in the directory
/// for settings.
pub fn default_path(setting: Option<&str>, config_home: Option<&str>, home: Option<&str>) -> (r:
    String)
    ensures
        r@ == catalog_place(
            crate::backend::opt_view(setting),
            crate::backend::opt_view(config_home),
            crate::backend::opt_view(home),
        ),
{
    if let Some(s) = setting {
        if !s.is_empty() {
            return owned(s);
        }
    }
    let mut base = owned(".");
    let mut given = false;
    if let Some(c) = config_home {
        if !c.is_empty() {
            base = owned(c);
            given = true;
        }
    }
    if !given {
        if let Some(h) = home {
            base = path_join(h, ".config");
        }
    }
    let dir = path_join(base.as_str(), "xirang");
    path_join(dir.as_str(), "catalog.idx")
}

/// Where the catalog is kept.
pub open spec fn catalog_place(
    setting: Option<Seq<char>>,
    config_home: Option<Seq<char>>,
    home: Option<Seq<char>>,
) -> Seq<char> {
    if setting is Some && setting->Some_0.len() > 0 {
        setting->Some_0
    } else {
        let base = if config_home is Some && config_home->Some_0.len() > 0 {
            config_home->Some_0
        } else {
            match home {
                Some(h) => joined(h, ".config"@),
                None => "."@,
            }
        };
        joined(joined(base, "xirang"@), "catalog.idx"@)
    }
}

/// The root of a workspace: what the setting says, or else the path itself where
/// it is a directory, or else the directory that it stands in.
pub fn workspace_root(setting: Option<&str>, abs: &str, is_dir: bool) -> (r: String)
    ensures
        r@ == (if setting is Some && setting->Some_0@.len() > 0 {
            setting->Some_0@
        } else if is_dir {
            abs@
        } else {
            parent_of(abs@)
        }),
{
    if let Some(s) = setting {
        if !s.is_empty() {
            return owned(s);
        }
    }
    if is_dir {
        owned(abs)
    } else {
        parent_dir(abs)
    }
}

/// The position of the last separator.
pub open spec fn last_slash(p: Seq<char>) -> Option<int>
    decreases p.len(),
{
    if p.len() == 0 {
        None
    } else if p.last() == '/' {
        Some(p.len() - 1)
    } else {
        last_slash(p.drop_last())
    }
}

/// The directory that an absolute path without a separator at its end stands in.
pub open spec fn parent_of(p: Seq<char>) -> Seq<char> {
    match last_slash(p) {
        None => Seq::<char>::empty(),
        Some(i) => if i == 0 {
            if p.len() == 1 {
                p
            } else {
                p.take(1)
            }
        } else {
            p.take(i)
        },
    }
}

/// The directory that a path stands in.
pub fn parent_dir(p: &str) -> (r: String)
    ensures
        r@ == parent_of(p@),
{
    let chars = chars_of(p);
    let mut i: usize = chars.len();
    assert(p@.take(p@.len() as int) =~= p@);
    while i > 0
        invariant
            i <= chars@.len(),
            chars@ == p@,
            last_slash(p@) == last_slash(p@.take(i as int)),
        decreases i,
    {
        assert(p@.take(i as int).drop_last() =~= p@.take(i - 1));
        if chars[i - 1] == '/' {
            if i == 1 {
                if chars.len() == 1 {
                    return owned(p);
                }
                let r = string_of(&chars, 0, 1);
                assert(r@ =~= p@.take(1));
                return r;
            }
            let r = string_of(&chars, 0, i - 1);
            assert(r@ =~= p@.take(i - 1));
            return r;
        }
        i = i - 1;
    }
    assert(p@.take(0) =~= Seq::<char>::empty());
    String::new()
}

// ---------------------------------------------------------------------------
// Laws of paths
// ---------------------------------------------------------------------------

/// A path behind another: an absolute one stands for itself; else the first comes, a slash
/// where it has none at its end, and then the second.
pub proof fn joined_paths_have_one_slash(base: Seq<char>, rel: Seq<char>)
    ensures
        rel.len() > 0 && rel[0] == '/' ==> joined(base, rel) == rel,
        !(rel.len() > 0 && rel[0] == '/') ==> ({
            let j = joined(base, rel);
            let sep = if base.len() == 0 || base.last() == '/' {
                0int
            } else {
                1
            };
            &&& j.len() == base.len() + sep + rel.len()
            &&& j.take(base.len() as int) == base
            &&& j.skip(base.len() + sep) == rel
            &&& sep == 1 ==> j[base.len() as int] == '/'
        }),
{
    reveal_strlit("/");
    let j = joined(base, rel);
    if !(rel.len() > 0 && rel[0] == '/') {
        let sep = if base.len() == 0 || base.last() == '/' {
            0int
        } else {
            1
        };
        assert(j.take(base.len() as int) =~= base);
        assert(j.skip(base.len() + sep) =~= rel);
    }
}

/// Folding parts: of one more, an empty one and `.` change nothing, `..` takes the last one
/// away where there is one, and any other is added. So none of these is left.
pub proof fn dots_are_folded(parts: Seq<Seq<char>>, part: Seq<char>)
    ensures
        folded_parts(Seq::empty()) == Seq::<Seq<char>>::empty(),
        part.len() == 0 || part == "."@ ==> folded_parts(parts.push(part)) == folded_parts(parts),
        part == ".."@ && folded_parts(parts).len() > 0 ==> folded_parts(parts.push(part))
            == folded_parts(parts).drop_last(),
        part == ".."@ && folded_parts(parts).len() == 0 ==> folded_parts(parts.push(part)).len() == 0,
        part.len() > 0 && part != "."@ && part != ".."@ ==> folded_parts(parts.push(part))
            == folded_parts(parts).push(part),
        forall|i: int|
            0 <= i < folded_parts(parts).len() ==> (#[trigger] folded_parts(parts)[i]).len() > 0
                && folded_parts(parts)[i] != "."@ && folded_parts(parts)[i] != ".."@,
{
    reveal_strlit(".");
    reveal_strlit("..");
    assert("."@.len() == 1 && ".."@.len() == 2);
    assert(parts.push(part).drop_last() =~= parts);
    lemma_folded_parts(parts);
}

proof fn lemma_folded_parts(parts: Seq<Seq<char>>)
    ensures
        forall|i: int|
            0 <= i < folded_parts(parts).len() ==> (#[trigger] folded_parts(parts)[i]).len() > 0
                && folded_parts(parts)[i] != "."@ && folded_parts(parts)[i] != ".."@,
    decreases parts.len(),
{
    if parts.len() > 0 {
        let d = folded_parts(parts.drop_last());
        let f = folded_parts(parts);
        lemma_folded_parts(parts.drop_last());
        assert forall|i: int| 0 <= i < f.len() implies (#[trigger] f[i]).len() > 0 && f[i] != "."@
            && f[i] != ".."@ by {
            if i < d.len() {
                assert(f[i] == d[i]);
            }
        }
    }
}

/// A normal path is absolute exactly if the path was.
pub proof fn normal_paths_stay_absolute(p: Seq<char>)
    ensures
        p.len() > 0 && p[0] == '/' ==> normalized(p).len() > 0 && normalized(p)[0] == '/',
        !(p.len() > 0 && p[0] == '/') ==> normalized(p) == with_slashes(
            folded_parts(split_at_char(p, '/')),
        ),
{
    reveal_strlit("/");
}

/// A name is that of a data file exactly if it ends in `.xirang` and has something before.
pub proof fn data_names_have_the_ending(name: Seq<char>)
    ensures
        is_data_name(name) <==> name.len() > 7 && name.skip(name.len() - 7) == ".xirang"@,
{
    reveal_strlit(".xirang");
    assert(".xirang"@.len() == 7);
}

proof fn lemma_last_slash(p: Seq<char>)
    ensures
        match last_slash(p) {
            Some(i) => 0 <= i < p.len() && p[i] == '/' && forall|j: int|
                i < j < p.len() ==> (#[trigger] p[j]) != '/',
            None => forall|j: int| 0 <= j < p.len() ==> (#[trigger] p[j]) != '/',
        },
    decreases p.len(),
{
    if p.len() > 0 && p.last() != '/' {
        let d = p.drop_last();
        lemma_last_slash(d);
        assert forall|j: int|
            0 <= j < p.len() && (last_slash(p) matches Some(i) ==> i < j) implies (#[trigger] p[j])
            != '/' by {
            if j < d.len() {
                assert(d[j] == p[j]);
            }
        }
    }
}

/// The parent of a path is what is before its last slash; of a path right below the top, the
/// top; a path without a slash has none.
pub proof fn parents_end_before_the_last_slash(p: Seq<char>, i: int)
    ensures
        (forall|j: int| 0 <= j < p.len() ==> (#[trigger] p[j]) != '/') ==> parent_of(p).len() == 0,
        0 < i < p.len() && p[i] == '/' && (forall|j: int| i < j < p.len() ==> (#[trigger] p[j])
            != '/') ==> parent_of(p) == p.take(i),
        p.len() > 0 && p[0] == '/' && (forall|j: int| 0 < j < p.len() ==> (#[trigger] p[j]) != '/')
            ==> parent_of(p) == seq!['/'],
{
    lemma_last_slash(p);
    if let Some(k) = last_slash(p) {
        assert(p[k] == '/');
        if 0 < i < p.len() && p[i] == '/' && i < k {
            assert(p[k] == '/');
        }
        if p.len() > 0 && p[0] == '/' && forall|j: int| 0 < j < p.len() ==> (#[trigger] p[j]) != '/' {
            if k > 0 {
                assert(p[k] != '/');
            }
            assert(parent_of(p) =~= seq!['/']);
        }
    }
}

/// Where the catalog is: at the place that is set; else below `xirang` in the directory for
/// settings, which is the one that is named or `.config` in the home.
pub proof fn the_catalog_has_its_place(
    setting: Option<Seq<char>>,
    config_home: Option<Seq<char>>,
    home: Option<Seq<char>>,
)
    ensures
        setting is Some && setting->Some_0.len() > 0 ==> catalog_place(setting, config_home, home)
            == setting->Some_0,
        (setting is None || setting->Some_0.len() == 0) && config_home is Some
            && config_home->Some_0.len() > 0 ==> catalog_place(setting, config_home, home) == joined(
            joined(config_home->Some_0, "xirang"@),
            "catalog.idx"@,
        ),
        (setting is None || setting->Some_0.len() == 0) && (config_home is None
            || config_home->Some_0.len() == 0) && home is Some ==> catalog_place(
            setting,
            config_home,
            home,
        ) == joined(joined(joined(home->Some_0, ".config"@), "xirang"@), "catalog.idx"@),
{
}

/// The paths that are taken are those of data files, all of them in order.
pub proof fn data_paths_are_all_taken(s: Seq<Seq<char>>) -> (at: Seq<int>)
    ensures
        at.len() == data_paths(s).len(),
        forall|x: int|
            0 <= x < at.len() ==> 0 <= #[trigger] at[x] < s.len() && data_paths(s)[x] == s[at[x]]
                && is_data_path(s[at[x]]),
        forall|x: int, y: int| 0 <= x < y < at.len() ==> #[trigger] at[x] < #[trigger] at[y],
        forall|i: int| 0 <= i < s.len() && is_data_path(#[trigger] s[i]) ==> at.contains(i),
    decreases s.len(),
{
    if s.len() == 0 {
        Seq::empty()
    } else {
        let d = s.drop_last();
        let rest = data_paths_are_all_taken(d);
        let at = if is_data_path(s[s.len() - 1]) {
            rest.push(s.len() - 1)
        } else {
            rest
        };
        assert forall|i: int| 0 <= i < s.len() && is_data_path(#[trigger] s[i]) implies at.contains(i) by {
            if i < d.len() {
                assert(d[i] == s[i]);
                let x = choose|x: int| 0 <= x < rest.len() && rest[x] == i;
                assert(at[x] == i);
            } else {
                assert(at[rest.len() as int] == i);
            }
        }
        assert forall|x: int| 0 <= x < at.len() implies 0 <= #[trigger] at[x] < s.len()
            && data_paths(s)[x] == s[at[x]] && is_data_path(s[at[x]]) by {
            if x < rest.len() {
                assert(at[x] == rest[x]);
                assert(d[rest[x]] == s[rest[x]]);
            }
        }
        at
    }
}

} // verus!
