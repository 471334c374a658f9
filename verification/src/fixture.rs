//! Workspaces made up for tests and measurements: dictionaries with entries, and trees
//! that refer to entries of other files. Ids come from a seeded generator, so that one
//! description gives the same nodes every time.
use crate::bytes::{be, put_be};
use crate::codec::{read_uuid, uuid_at, Node, SpecNode, SpecValue, Uuid, Value};
use crate::model::Nodes;
use crate::shard::starts;
use crate::text::{decimal, decimal_text, join2, join3, owned, parse_usize, same_text, strip_prefix,
    trim, trimmed, unsigned_number};
use crate::tree::Store;
use vstd::arithmetic::power::{lemma_pow0, lemma_pow_increases, lemma_pow_positive, pow};
use vstd::prelude::*;

verus! {

/// How the nodes are spread over files.
#[derive(Clone, Copy, Debug, PartialEq, Eq, Structural)]
pub enum FixtureKind {
    /// One file with several trees.
    Single,
    /// Several files with a tree each, which refer to each other.
    Multi,
    /// A directory of shards: one big file, split by roots.
    Shards,
}

/// What is to be made.
#[derive(Debug)]
pub struct FixtureSpec {
    pub kind: FixtureKind,
    /// How many files.
    pub files: usize,
    /// How many entries in each.
    pub entries_per_file: usize,
    /// How many trees that refer to other files, per entry.
    pub inherit_ratio: usize,
    pub seed: u64,
    /// What the names of files start with.
    pub name: String,
}

impl Default for FixtureSpec {
    fn default() -> (r: Self)
        ensures
            r.kind == FixtureKind::Multi,
            r.files == 4,
            r.entries_per_file == 250,
            r.inherit_ratio == 1,
            r.seed == 20260925,
            r.name@ == "cibase"@,
    {
        FixtureSpec {
            kind: FixtureKind::Multi,
            files: 4,
            entries_per_file: 250,
            inherit_ratio: 1,
            seed: 20260925,
            name: owned("cibase"),
        }
    }
}

/// What was made: the names of the files with their nodes, and ids to ask for.
#[derive(Debug)]
pub struct FixtureInfo {
    pub files: Vec<(String, Store)>,
    /// The roots of entries.
    pub entry_ids: Vec<Uuid>,
    /// The words of entries.
    pub word_ids: Vec<Uuid>,
    /// The roots of trees that refer to other files.
    pub inherit_ids: Vec<Uuid>,
    /// The entries that those refer to.
    pub referenced_ids: Vec<Uuid>,
    /// How many nodes there are.
    pub nodes: usize,
}

// ---------------------------------------------------------------------------
// The generator
// ---------------------------------------------------------------------------

/// The state that follows.
#[verifier::opaque]
pub open spec fn next_state(s: u64) -> u64 {
    s.wrapping_add(0x9E37_79B9_7F4A_7C15)
}

/// The number that a state gives.
#[verifier::opaque]
pub open spec fn mixed(s: u64) -> u64 {
    let a = (s ^ (s >> 30)).wrapping_mul(0xBF58_476D_1CE4_E5B9);
    let b = (a ^ (a >> 27)).wrapping_mul(0x94D0_49BB_1331_11EB);
    b ^ (b >> 31)
}

/// The bytes of two numbers, one after the other.
pub open spec fn two_numbers(s: u64) -> Seq<u8> {
    let a = next_state(s);
    be(mixed(a) as nat, 8) + be(mixed(next_state(a)) as nat, 8)
}

/// The id that a state gives: two numbers, with the bits of a random id set.
#[verifier::opaque]
pub open spec fn drawn(s: u64) -> Uuid {
    let b = two_numbers(s);
    uuid_at(b.update(6, (b[6] & 0x0f) | 0x40).update(8, (b[8] & 0x3f) | 0x80), 0)
}

/// The state after an id was drawn.
pub open spec fn after_id(s: u64) -> u64 {
    next_state(next_state(s))
}

/// A small generator of numbers that are always the same for one seed.
#[derive(Debug)]
pub struct Prng(pub u64);

impl Prng {
    /// The next number.
    pub fn next(&mut self) -> (r: u64)
        ensures
            final(self).0 == next_state(old(self).0),
            r == mixed(final(self).0),
    {
        proof {
            reveal(next_state);
            reveal(mixed);
        }
        self.0 = self.0.wrapping_add(0x9E37_79B9_7F4A_7C15);
        let s: u64 = self.0;
        let a: u64 = (s ^ (s >> 30)).wrapping_mul(0xBF58_476D_1CE4_E5B9);
        let b: u64 = (a ^ (a >> 27)).wrapping_mul(0x94D0_49BB_1331_11EB);
        b ^ (b >> 31)
    }

    /// The next id.
    pub fn uuid(&mut self) -> (r: Uuid)
        ensures
            final(self).0 == after_id(old(self).0),
            r == drawn(old(self).0),
    {
        proof {
            reveal(drawn);
        }
        let mut b: Vec<u8> = Vec::new();
        let x: u64 = self.next();
        let y: u64 = self.next();
        put_be(&mut b, x, 8);
        put_be(&mut b, y, 8);
        proof {
            crate::bytes::lemma_be_len(x as nat, 8);
            crate::bytes::lemma_be_len(y as nat, 8);
            assert(b@ =~= two_numbers(old(self).0));
        }
        let six: u8 = (b[6] & 0x0f) | 0x40;
        b.set(6, six);
        let eight: u8 = (b[8] & 0x3f) | 0x80;
        b.set(8, eight);
        read_uuid(b.as_slice(), 0)
    }
}

// ---------------------------------------------------------------------------
// Entries and trees
// ---------------------------------------------------------------------------

/// A node with the id that a state gives.
pub open spec fn new_node(s: u64, parent: Option<Uuid>, name: Seq<char>, value: SpecValue) -> SpecNode {
    SpecNode { id: drawn(s), parent, name, value }
}

/// The state after `n` ids were drawn.
pub open spec fn after_ids(s: u64, n: nat) -> u64
    decreases n,
{
    if n == 0 {
        s
    } else {
        after_id(after_ids(s, (n - 1) as nat))
    }
}

/// The nodes of an entry: a word, its sound, and its meaning with a source.
#[verifier::opaque]
pub open spec fn entry_nodes(s: u64, parent: Uuid, idx: nat) -> Nodes {
    let e = drawn(s);
    let shi = drawn(after_ids(s, 3));
    seq![
        new_node(s, Some(parent), "词条"@, SpecValue::Empty),
        new_node(after_ids(s, 1), Some(e), "词形"@, SpecValue::Text("词"@ + decimal(idx))),
        new_node(after_ids(s, 2), Some(e), "拼音"@, SpecValue::Text("ci"@ + decimal(idx))),
        new_node(after_ids(s, 3), Some(e), "释义"@, SpecValue::Empty),
        new_node(
            after_ids(s, 4),
            Some(shi),
            "义项"@,
            SpecValue::Text("第 "@ + decimal(idx) + " 条的释义"@),
        ),
        new_node(after_ids(s, 5), Some(shi), "@来源"@, SpecValue::Text("CiBase"@)),
    ]
}

/// The nodes of a tree that refers to an entry of another file.
#[verifier::opaque]
pub open spec fn inherit_nodes(s: u64, parent: Uuid, target: Uuid, idx: nat) -> Nodes {
    let t = drawn(s);
    seq![
        new_node(s, Some(parent), "继承"@, SpecValue::Empty),
        new_node(after_ids(s, 1), Some(t), "基引用"@, SpecValue::Reference(target)),
        new_node(after_ids(s, 2), Some(t), "覆盖"@, SpecValue::Text("覆盖"@ + decimal(idx))),
    ]
}

/// Adds a node with the next id.
fn put_node(store: &mut Store, prng: &mut Prng, parent: Option<Uuid>, name: &str, value: Value) -> (r:
    Uuid)
    requires
        old(store).wf(),
    ensures
        final(store).wf(),
        final(store)@ == old(store)@.push(new_node(old(prng).0, parent, name@, value@)),
        final(prng).0 == after_id(old(prng).0),
        r == drawn(old(prng).0),
{
    let id = prng.uuid();
    store.add(Node { id, parent, name: owned(name), value });
    id
}

/// Adds the nodes of an entry; gives the ids of its root and its word.
pub fn build_entry(store: &mut Store, prng: &mut Prng, parent: Uuid, idx: u64) -> (r: (Uuid, Uuid))
    requires
        old(store).wf(),
    ensures
        final(store).wf(),
        final(store)@ == old(store)@ + entry_nodes(old(prng).0, parent, idx as nat),
        final(prng).0 == after_ids(old(prng).0, 6),
        r == (drawn(old(prng).0), drawn(after_ids(old(prng).0, 1))),
{
    proof {
        reveal_with_fuel(after_ids, 7);
        reveal(entry_nodes);
    }
    let n = decimal_text(idx);
    let e = put_node(store, prng, Some(parent), "词条", Value::Empty);
    let w = put_node(store, prng, Some(e), "词形", Value::Text(join2("词", n.as_str())));
    put_node(store, prng, Some(e), "拼音", Value::Text(join2("ci", n.as_str())));
    let shi = put_node(store, prng, Some(e), "释义", Value::Empty);
    put_node(
        store,
        prng,
        Some(shi),
        "义项",
        Value::Text(join3("第 ", n.as_str(), " 条的释义")),
    );
    put_node(store, prng, Some(shi), "@来源", Value::Text(owned("CiBase")));
    assert(store@ =~= old(store)@ + entry_nodes(old(prng).0, parent, idx as nat));
    (e, w)
}

/// Adds the nodes of a tree that refers to an entry of another file; gives the id of
/// its root.
pub fn build_inherit(
    store: &mut Store,
    prng: &mut Prng,
    parent: Uuid,
    target: Uuid,
    idx: u64,
) -> (r: Uuid)
    requires
        old(store).wf(),
    ensures
        final(store).wf(),
        final(store)@ == old(store)@ + inherit_nodes(old(prng).0, parent, target, idx as nat),
        final(prng).0 == after_ids(old(prng).0, 3),
        r == drawn(old(prng).0),
{
    proof {
        reveal_with_fuel(after_ids, 4);
        reveal(inherit_nodes);
    }
    let n = decimal_text(idx);
    let t = put_node(store, prng, Some(parent), "继承", Value::Empty);
    put_node(store, prng, Some(t), "基引用", Value::Reference(target));
    put_node(store, prng, Some(t), "覆盖", Value::Text(join2("覆盖", n.as_str())));
    assert(store@ =~= old(store)@ + inherit_nodes(old(prng).0, parent, target, idx as nat));
    t
}

// ---------------------------------------------------------------------------
// Files
// ---------------------------------------------------------------------------

/// The nodes of `n` entries, the first with the number `first`.
pub open spec fn entries(s: u64, parent: Uuid, first: nat, n: nat) -> Nodes
    decreases n,
{
    if n == 0 {
        Seq::<SpecNode>::empty()
    } else {
        let m = (n - 1) as nat;
        entries(s, parent, first, m) + entry_nodes(after_ids(s, 6 * m), parent, first + m)
    }
}

/// The ids of the roots and words of `n` entries.
pub open spec fn entry_pairs(s: u64, n: nat) -> Seq<(Uuid, Uuid)> {
    Seq::new(
        n,
        |i: int| (drawn(after_ids(s, (6 * i) as nat)), drawn(after_ids(s, (6 * i + 1) as nat))),
    )
}

/// The nodes of `n` trees that refer to the entries given, in turn.
pub open spec fn inherits(s: u64, parent: Uuid, targets: Seq<(Uuid, Uuid)>, n: nat) -> Nodes
    decreases n,
{
    if n == 0 {
        Seq::<SpecNode>::empty()
    } else {
        let m = (n - 1) as nat;
        inherits(s, parent, targets, m) + inherit_nodes(
            after_ids(s, 3 * m),
            parent,
            targets[(m % targets.len()) as int].0,
            m,
        )
    }
}

/// The ids of the roots of `n` trees that refer to entries.
pub open spec fn inherit_roots(s: u64, n: nat) -> Seq<Uuid> {
    Seq::new(n, |k: int| drawn(after_ids(s, (3 * k) as nat)))
}

/// The entries that `n` trees refer to.
pub open spec fn referred(targets: Seq<(Uuid, Uuid)>, n: nat) -> Seq<Uuid> {
    Seq::new(n, |k: int| targets[k % (targets.len() as int)].0)
}

/// How many ids a file of entries takes.
pub open spec fn file_ids(per: nat) -> nat {
    1 + 6 * per
}

/// The state at which the file with the number starts.
pub open spec fn file_state(seed: u64, f: nat, per: nat) -> u64 {
    after_ids(seed, f * file_ids(per))
}

/// The ids of the roots and words of the entries of a file.
pub open spec fn file_pairs(seed: u64, f: nat, per: nat) -> Seq<(Uuid, Uuid)> {
    entry_pairs(after_id(file_state(seed, f, per)), per)
}

/// The nodes of a file before trees that refer to other files are added.
pub open spec fn entry_file(seed: u64, f: nat, per: nat) -> Nodes {
    let s = file_state(seed, f, per);
    seq![new_node(s, None, "部类"@ + decimal(f), SpecValue::Empty)] + entries(
        after_id(s),
        drawn(s),
        f * per,
        per,
    )
}

/// How many trees that refer to other files a file has.
pub open spec fn inherit_count(per: nat, ratio: nat) -> nat {
    per * ratio
}

/// The state at which the trees of a file that refer to other files start.
pub open spec fn inherit_state(seed: u64, files: nat, f: nat, per: nat, ratio: nat) -> u64 {
    after_ids(file_state(seed, files, per), f * (3 * inherit_count(per, ratio)))
}

/// The nodes of a file.
pub open spec fn whole_file(seed: u64, files: nat, f: nat, per: nat, ratio: nat) -> Nodes {
    entry_file(seed, f, per) + inherits(
        inherit_state(seed, files, f, per, ratio),
        drawn(file_state(seed, f, per)),
        file_pairs(seed, (f + 1) % files, per),
        inherit_count(per, ratio),
    )
}

proof fn lemma_after_ids_sum(s: u64, a: nat, b: nat)
    ensures
        after_ids(after_ids(s, a), b) == after_ids(s, a + b),
    decreases b,
{
    if b > 0 {
        lemma_after_ids_sum(s, a, (b - 1) as nat);
    }
}

/// Three digits at least, with zeros in front.
pub open spec fn three_digits(n: nat) -> Seq<char> {
    let d = decimal(n);
    if d.len() >= 3 {
        d
    } else if d.len() == 2 {
        "0"@ + d
    } else {
        "00"@ + d
    }
}

fn three_digits_text(n: u64) -> (r: String)
    ensures
        r@ == three_digits(n as nat),
{
    proof {
        reveal_with_fuel(decimal, 3);
    }
    let d = decimal_text(n);
    if n < 10 {
        join2("00", d.as_str())
    } else if n < 100 {
        join2("0", d.as_str())
    } else {
        proof {
            lemma_long_decimal(n as nat);
        }
        d
    }
}

proof fn lemma_long_decimal(n: nat)
    requires
        n >= 100,
    ensures
        decimal(n).len() >= 3,
    decreases n,
{
    reveal_with_fuel(decimal, 3);
    if n / 10 >= 100 {
        lemma_long_decimal(n / 10);
    }
}

/// Makes a file of entries; gives the ids of their roots and words.
fn build_file(prng: &mut Prng, f: u64, per: usize) -> (r: (Store, Vec<(Uuid, Uuid)>))
    requires
        f * per + per <= u64::MAX,
    ensures
        ({
            let s = old(prng).0;
            &&& r.0.wf()
            &&& r.0@ == seq![new_node(s, None, "部类"@ + decimal(f as nat), SpecValue::Empty)]
                + entries(after_id(s), drawn(s), (f * per) as nat, per as nat)
            &&& r.1@ == entry_pairs(after_id(s), per as nat)
            &&& final(prng).0 == after_ids(s, file_ids(per as nat))
        }),
{
    let ghost s = prng.0;
    let mut store = Store::new();
    let name = join2("部类", decimal_text(f).as_str());
    let root = put_node(&mut store, prng, None, name.as_str(), Value::Empty);
    let ghost head = store@;
    let ghost t = after_id(s);
    let first: u64 = f * per as u64;
    let mut pairs: Vec<(Uuid, Uuid)> = Vec::new();
    let mut i: usize = 0;
    assert(head + entries(t, root, first as nat, 0) =~= head);
    while i < per
        invariant
            i <= per,
            first == f * per,
            f * per + per <= u64::MAX,
            store.wf(),
            store@ == head + entries(t, root, first as nat, i as nat),
            prng.0 == after_ids(t, (6 * i) as nat),
            pairs@ == entry_pairs(t, i as nat),
        decreases per - i,
    {
        let p = build_entry(&mut store, prng, root, first + i as u64);
        pairs.push(p);
        proof {
            lemma_after_ids_sum(t, (6 * i) as nat, 1);
            lemma_after_ids_sum(t, (6 * i) as nat, 6);
            assert(head + entries(t, root, first as nat, (i + 1) as nat) =~= store@);
            assert(pairs@ =~= entry_pairs(t, (i + 1) as nat));
        }
        i = i + 1;
    }
    proof {
        reveal_with_fuel(after_ids, 2);
        lemma_after_ids_sum(s, 1, (6 * per) as nat);
        assert(head =~= seq![new_node(s, None, "部类"@ + decimal(f as nat), SpecValue::Empty)]);
    }
    (store, pairs)
}

/// Adds trees that refer to the entries given, in turn; their ids and those of the
/// entries are put behind the others.
fn add_inherits(
    store: &mut Store,
    prng: &mut Prng,
    root: Uuid,
    targets: &Vec<(Uuid, Uuid)>,
    n: usize,
    ids: &mut Vec<Uuid>,
    referenced: &mut Vec<Uuid>,
)
    requires
        old(store).wf(),
        n > 0 ==> targets@.len() > 0,
    ensures
        final(store).wf(),
        final(store)@ == old(store)@ + inherits(old(prng).0, root, targets@, n as nat),
        final(prng).0 == after_ids(old(prng).0, (3 * n) as nat),
        final(ids)@ == old(ids)@ + inherit_roots(old(prng).0, n as nat),
        final(referenced)@ == old(referenced)@ + referred(targets@, n as nat),
{
    let ghost s = prng.0;
    let ghost head = store@;
    let ghost ids0 = ids@;
    let ghost refs0 = referenced@;
    let mut k: usize = 0;
    proof {
        assert(head + inherits(s, root, targets@, 0) =~= head);
        assert(ids@ =~= ids0 + inherit_roots(s, 0));
        assert(referenced@ =~= refs0 + referred(targets@, 0));
    }
    while k < n
        invariant
            k <= n,
            n > 0 ==> targets@.len() > 0,
            store.wf(),
            store@ == head + inherits(s, root, targets@, k as nat),
            prng.0 == after_ids(s, (3 * k) as nat),
            ids@ == ids0 + inherit_roots(s, k as nat),
            referenced@ == refs0 + referred(targets@, k as nat),
        decreases n - k,
    {
        let x: usize = k % targets.len();
        let target = targets[x].0;
        let id = build_inherit(store, prng, root, target, k as u64);
        ids.push(id);
        referenced.push(target);
        proof {
            lemma_after_ids_sum(s, (3 * k) as nat, 3);
            assert((k as nat) % targets@.len() == x);
            assert(head + inherits(s, root, targets@, (k + 1) as nat) =~= store@);
            assert(ids@ =~= ids0 + inherit_roots(s, (k + 1) as nat));
            assert(referenced@ =~= refs0 + referred(targets@, (k + 1) as nat));
        }
        k = k + 1;
    }
}

/// The name of a file.
pub open spec fn file_name(name: Seq<char>, f: nat) -> Seq<char> {
    name + "-"@ + (three_digits(f) + ".xirang"@)
}

/// The ids of the roots of the entries of the first `k` files.
pub open spec fn all_entries(seed: u64, per: nat, k: nat) -> Seq<Uuid>
    decreases k,
{
    if k == 0 {
        Seq::<Uuid>::empty()
    } else {
        let ps = file_pairs(seed, (k - 1) as nat, per);
        all_entries(seed, per, (k - 1) as nat) + Seq::new(ps.len(), |i: int| ps[i].0)
    }
}

/// The ids of the words of the first `k` files.
pub open spec fn all_words(seed: u64, per: nat, k: nat) -> Seq<Uuid>
    decreases k,
{
    if k == 0 {
        Seq::<Uuid>::empty()
    } else {
        let ps = file_pairs(seed, (k - 1) as nat, per);
        all_words(seed, per, (k - 1) as nat) + Seq::new(ps.len(), |i: int| ps[i].1)
    }
}

/// The ids of the roots of the trees of the first `k` files that refer to others.
pub open spec fn all_inherits(seed: u64, files: nat, per: nat, ratio: nat, k: nat) -> Seq<Uuid>
    decreases k,
{
    if k == 0 {
        Seq::<Uuid>::empty()
    } else {
        all_inherits(seed, files, per, ratio, (k - 1) as nat) + inherit_roots(
            inherit_state(seed, files, (k - 1) as nat, per, ratio),
            inherit_count(per, ratio),
        )
    }
}

/// The entries that the trees of the first `k` files refer to.
pub open spec fn all_referred(seed: u64, files: nat, per: nat, ratio: nat, k: nat) -> Seq<Uuid>
    decreases k,
{
    if k == 0 {
        Seq::<Uuid>::empty()
    } else {
        all_referred(seed, files, per, ratio, (k - 1) as nat) + referred(
            file_pairs(seed, k % files, per),
            inherit_count(per, ratio),
        )
    }
}

/// How many nodes the first `k` files have.
pub open spec fn node_count(seed: u64, files: nat, per: nat, ratio: nat, k: nat) -> nat
    decreases k,
{
    if k == 0 {
        0
    } else {
        node_count(seed, files, per, ratio, (k - 1) as nat) + whole_file(
            seed,
            files,
            (k - 1) as nat,
            per,
            ratio,
        ).len()
    }
}

/// Whether what was made is what was described.
pub open spec fn is_fixture(r: FixtureInfo, spec: FixtureSpec) -> bool {
    let files = spec.files as nat;
    let per = spec.entries_per_file as nat;
    let ratio = spec.inherit_ratio as nat;
    &&& r.files@.len() == files
    &&& forall|f: int|
        0 <= f < files ==> (#[trigger] r.files@[f]).1.wf() && r.files@[f].0@ == file_name(
            spec.name@,
            f as nat,
        ) && r.files@[f].1@ == whole_file(spec.seed, files, f as nat, per, ratio)
    &&& r.entry_ids@ == all_entries(spec.seed, per, files)
    &&& r.word_ids@ == all_words(spec.seed, per, files)
    &&& r.inherit_ids@ == all_inherits(spec.seed, files, per, ratio, files)
    &&& r.referenced_ids@ == all_referred(spec.seed, files, per, ratio, files)
    &&& r.nodes == node_count(spec.seed, files, per, ratio, files)
}

proof fn lemma_times(f: nat, m: nat)
    ensures
        (f + 1) * m == f * m + m,
{
    assert((f + 1) * m == f * m + m) by (nonlinear_arith);
}

proof fn lemma_node_count_grows(seed: u64, files: nat, per: nat, ratio: nat, k: nat, n: nat)
    requires
        k <= n,
    ensures
        node_count(seed, files, per, ratio, k) <= node_count(seed, files, per, ratio, n),
    decreases n - k,
{
    if k < n {
        lemma_node_count_grows(seed, files, per, ratio, k, (n - 1) as nat);
    }
}

/// Makes the files that are described.
pub fn build(spec: &FixtureSpec) -> (r: FixtureInfo)
    requires
        spec.files * spec.entries_per_file <= u64::MAX,
        spec.entries_per_file * spec.inherit_ratio <= usize::MAX,
        node_count(
            spec.seed,
            spec.files as nat,
            spec.entries_per_file as nat,
            spec.inherit_ratio as nat,
            spec.files as nat,
        ) <= usize::MAX,
    ensures
        is_fixture(r, *spec),
{
    let ghost seed = spec.seed;
    let ghost files = spec.files as nat;
    let ghost per = spec.entries_per_file as nat;
    let ghost ratio = spec.inherit_ratio as nat;
    let mut prng = Prng(spec.seed);
    let mut stores: Vec<Store> = Vec::new();
    let mut pairs: Vec<Vec<(Uuid, Uuid)>> = Vec::new();
    let mut f: usize = 0;
    assert(0 * file_ids(per) == 0) by (nonlinear_arith);
    while f < spec.files
        invariant
            f <= spec.files,
            per == spec.entries_per_file,
            seed == spec.seed,
            spec.files * spec.entries_per_file <= u64::MAX,
            prng.0 == file_state(seed, f as nat, per),
            stores@.len() == f,
            pairs@.len() == f,
            forall|k: int|
                0 <= k < f ==> (#[trigger] stores@[k]).wf() && stores@[k]@ == entry_file(
                    seed,
                    k as nat,
                    per,
                ),
            forall|k: int|
                0 <= k < f ==> (#[trigger] pairs@[k])@ == file_pairs(seed, k as nat, per),
        decreases spec.files - f,
    {
        proof {
            let a = f as int;
            let b = spec.files as int;
            let m = spec.entries_per_file as int;
            assert(a * m + m <= b * m) by (nonlinear_arith)
                requires
                    0 <= a < b,
                    0 <= m,
            ;
            lemma_times(f as nat, file_ids(per));
            lemma_after_ids_sum(seed, f as nat * file_ids(per), file_ids(per));
        }
        let (store, ps) = build_file(&mut prng, f as u64, spec.entries_per_file);
        stores.push(store);
        pairs.push(ps);
        f = f + 1;
    }
    let n: usize = spec.entries_per_file * spec.inherit_ratio;
    let mut out: Vec<(String, Store)> = Vec::new();
    let mut entry_ids: Vec<Uuid> = Vec::new();
    let mut word_ids: Vec<Uuid> = Vec::new();
    let mut inherit_ids: Vec<Uuid> = Vec::new();
    let mut referenced_ids: Vec<Uuid> = Vec::new();
    let mut nodes: usize = 0;
    let mut k: usize = 0;
    assert(0 * (3 * inherit_count(per, ratio)) == 0) by (nonlinear_arith);
    assert(stores@.skip(0) =~= stores@);
    while k < spec.files
        invariant
            k <= spec.files,
            seed == spec.seed,
            files == spec.files,
            per == spec.entries_per_file,
            ratio == spec.inherit_ratio,
            n == inherit_count(per, ratio),
            node_count(seed, files, per, ratio, files) <= usize::MAX,
            prng.0 == inherit_state(seed, files, k as nat, per, ratio),
            stores@.len() == files - k,
            pairs@.len() == files,
            forall|j: int|
                0 <= j < files - k ==> (#[trigger] stores@[j]).wf() && stores@[j]@ == entry_file(
                    seed,
                    (j + k) as nat,
                    per,
                ),
            forall|j: int|
                0 <= j < files ==> (#[trigger] pairs@[j])@ == file_pairs(seed, j as nat, per),
            out@.len() == k,
            forall|j: int|
                0 <= j < k ==> (#[trigger] out@[j]).1.wf() && out@[j].0@ == file_name(
                    spec.name@,
                    j as nat,
                ) && out@[j].1@ == whole_file(seed, files, j as nat, per, ratio),
            entry_ids@ == all_entries(seed, per, k as nat),
            word_ids@ == all_words(seed, per, k as nat),
            inherit_ids@ == all_inherits(seed, files, per, ratio, k as nat),
            referenced_ids@ == all_referred(seed, files, per, ratio, k as nat),
            nodes == node_count(seed, files, per, ratio, k as nat),
        decreases spec.files - k,
    {
        let mut store = stores.remove(0);
        let root = drawn_root(&store, Ghost(file_state(seed, k as nat, per)), Ghost(k as nat), Ghost(per));
        let other: usize = (k + 1) % spec.files;
        proof {
            assert((k + 1) as nat % files == other);
            if n > 0 {
                assert(per > 0) by {
                    assert(per == 0 ==> per * ratio == 0) by (nonlinear_arith);
                }
            }
            assert(pairs@[other as int]@ == file_pairs(seed, other as nat, per));
            lemma_times(k as nat, 3 * inherit_count(per, ratio));
            lemma_after_ids_sum(
                file_state(seed, files, per),
                k as nat * (3 * inherit_count(per, ratio)),
                3 * inherit_count(per, ratio),
            );
        }
        add_inherits(
            &mut store,
            &mut prng,
            root,
            &pairs[other],
            n,
            &mut inherit_ids,
            &mut referenced_ids,
        );
        add_pairs(&pairs[k], &mut entry_ids, &mut word_ids);
        proof {
            lemma_node_count_grows(seed, files, per, ratio, (k + 1) as nat, files);
            assert(store@ == whole_file(seed, files, k as nat, per, ratio));
        }
        nodes = nodes + store.len();
        let tail = join2(three_digits_text(k as u64).as_str(), ".xirang");
        out.push((join3(spec.name.as_str(), "-", tail.as_str()), store));
        k = k + 1;
    }
    FixtureInfo { files: out, entry_ids, word_ids, inherit_ids, referenced_ids, nodes }
}

/// The root of a file of entries.
fn drawn_root(store: &Store, Ghost(s): Ghost<u64>, Ghost(f): Ghost<nat>, Ghost(per): Ghost<nat>) -> (r:
    Uuid)
    requires
        store@ == seq![new_node(s, None, "部类"@ + decimal(f), SpecValue::Empty)] + entries(
            after_id(s),
            drawn(s),
            f * per,
            per,
        ),
    ensures
        r == drawn(s),
{
    assert(store@[0] == new_node(s, None, "部类"@ + decimal(f), SpecValue::Empty));
    store.at(0).id
}

/// Puts the ids of the roots and words of entries behind the others.
fn add_pairs(pairs: &Vec<(Uuid, Uuid)>, entry_ids: &mut Vec<Uuid>, word_ids: &mut Vec<Uuid>)
    ensures
        final(entry_ids)@ == old(entry_ids)@ + Seq::new(pairs@.len(), |i: int| pairs@[i].0),
        final(word_ids)@ == old(word_ids)@ + Seq::new(pairs@.len(), |i: int| pairs@[i].1),
{
    let ghost es = Seq::new(pairs@.len(), |i: int| pairs@[i].0);
    let ghost ws = Seq::new(pairs@.len(), |i: int| pairs@[i].1);
    let mut i: usize = 0;
    assert(entry_ids@ =~= old(entry_ids)@ + es.take(0));
    assert(word_ids@ =~= old(word_ids)@ + ws.take(0));
    while i < pairs.len()
        invariant
            i <= pairs@.len(),
            es == Seq::new(pairs@.len(), |i: int| pairs@[i].0),
            ws == Seq::new(pairs@.len(), |i: int| pairs@[i].1),
            entry_ids@ == old(entry_ids)@ + es.take(i as int),
            word_ids@ == old(word_ids)@ + ws.take(i as int),
        decreases pairs@.len() - i,
    {
        entry_ids.push(pairs[i].0);
        word_ids.push(pairs[i].1);
        assert(es.take(i + 1) =~= es.take(i as int).push(es[i as int]));
        assert(ws.take(i + 1) =~= ws.take(i as int).push(ws[i as int]));
        i = i + 1;
    }
    assert(es.take(es.len() as int) =~= es);
    assert(ws.take(ws.len() as int) =~= ws);
}

/// How many files a fixture of so many entries gets.
pub open spec fn files_for(entries: nat) -> nat {
    let n = ((entries + 249) / 250) as nat;
    if n < 4 {
        4
    } else {
        n
    }
}

/// How many entries make so many nodes.
pub open spec fn entries_for(nodes: nat) -> nat {
    if nodes / 9 < 1 {
        1
    } else {
        nodes / 9
    }
}

/// The fixture with about so many nodes.
pub fn spec_for_nodes(target: usize, kind: FixtureKind, name: &str, seed: u64) -> (r: FixtureSpec)
    ensures
        r.kind == kind,
        r.files == files_for(entries_for(target as nat)),
        r.entries_per_file == (if entries_for(target as nat) / files_for(entries_for(target as nat))
            < 1 {
            1
        } else {
            entries_for(target as nat) / files_for(entries_for(target as nat))
        }),
        r.inherit_ratio == 1,
        r.seed == seed,
        r.name@ == name@,
{
    let mut entries: usize = target / 9;
    if entries < 1 {
        entries = 1;
    }
    let mut files: usize = (entries + 249) / 250;
    if files < 4 {
        files = 4;
    }
    let mut per: usize = entries / files;
    if per < 1 {
        per = 1;
    }
    FixtureSpec { kind, files, entries_per_file: per, inherit_ratio: 1, seed, name: owned(name) }
}

/// The number of nodes that a text asks for: a power of ten, or a number.
pub open spec fn numeric(s: Seq<char>) -> nat {
    let t = trimmed(s);
    if starts(t, "1e"@) || starts(t, "1E"@) {
        pow(10, exponent(t.skip(2))) as nat
    } else {
        match unsigned_number(t) {
            Some(n) => if n <= usize::MAX {
                n
            } else {
                10_000
            },
            None => 10_000,
        }
    }
}

/// The exponent that a text gives, or four.
pub open spec fn exponent(s: Seq<char>) -> nat {
    match unsigned_number(s) {
        Some(n) => if n <= u32::MAX {
            n
        } else {
            4
        },
        None => 4,
    }
}

/// Ten to the power of `e`, where it fits.
fn power_of_ten(e: usize) -> (r: Option<usize>)
    ensures
        match r {
            Some(n) => n == pow(10, e as nat),
            None => pow(10, e as nat) > usize::MAX,
        },
{
    let mut n: usize = 1;
    let mut i: usize = 0;
    proof {
        lemma_pow0(10);
    }
    while i < e
        invariant
            i <= e,
            n == pow(10, i as nat),
        decreases e - i,
    {
        assert(pow(10, (i + 1) as nat) == 10 * pow(10, i as nat)) by {
            reveal(pow);
        }
        match n.checked_mul(10) {
            Some(m) => {
                n = m;
            },
            None => {
                proof {
                    lemma_pow_increases(10, (i + 1) as nat, e as nat);
                }
                return None;
            },
        }
        i = i + 1;
    }
    Some(n)
}

/// The number of nodes that a text asks for, where it can be counted.
pub fn parse_numeric(s: &str) -> (r: Option<usize>)
    ensures
        match r {
            Some(n) => n == numeric(s@),
            None => numeric(s@) > usize::MAX,
        },
{
    proof {
        reveal_strlit("1e");
        reveal_strlit("1E");
    }
    let t = trim(s);
    let e = match strip_prefix(t.as_str(), "1e") {
        Some(e) => Some(e),
        None => strip_prefix(t.as_str(), "1E"),
    };
    match e {
        Some(e) => {
            assert(t@.skip(2) =~= e@);
            assert(t@.take(2) =~= "1e"@ || t@.take(2) =~= "1E"@);
            let k: usize = match parse_usize(e.as_str()) {
                Some(k) => if k <= u32::MAX as usize {
                    k
                } else {
                    4
                },
                None => 4,
            };
            proof {
                lemma_pow_positive(10, k as nat);
            }
            power_of_ten(k)
        },
        None => match parse_usize(t.as_str()) {
            Some(n) => Some(n),
            None => Some(10_000),
        },
    }
}

/// The word for a way of spreading nodes over files.
pub open spec fn kind_text(kind: FixtureKind) -> Seq<char> {
    match kind {
        FixtureKind::Multi => "multi"@,
        FixtureKind::Single => "single"@,
        FixtureKind::Shards => "shards"@,
    }
}

impl FixtureKind {
    /// The word for the way.
    pub fn word(self) -> (r: &'static str)
        ensures
            r@ == kind_text(self),
    {
        match self {
            FixtureKind::Multi => "multi",
            FixtureKind::Single => "single",
            FixtureKind::Shards => "shards",
        }
    }

    /// The way that a word stands for; several files, where it stands for none.
    pub fn of_word(word: &str) -> (r: FixtureKind)
        ensures
            kind_text(r) == word@ || (r == FixtureKind::Multi && forall|k: FixtureKind|
                kind_text(k) != word@),
    {
        proof {
            reveal_strlit("multi");
            reveal_strlit("single");
            reveal_strlit("shards");
            assert("multi"@.len() == 5 && "single"@.len() == 6 && "shards"@.len() == 6);
            assert("single"@[1] == 'i' && "shards"@[1] == 'h');
        }
        if same_text(word, "single") {
            FixtureKind::Single
        } else if same_text(word, "shards") {
            FixtureKind::Shards
        } else {
            proof {
                assert forall|k: FixtureKind| word@ != "multi"@ implies kind_text(k) != word@ by {
                    match k {
                        FixtureKind::Multi => {},
                        FixtureKind::Single => {},
                        FixtureKind::Shards => {},
                    }
                }
            }
            FixtureKind::Multi
        }
    }
}

/// An entry is six nodes: its root below the parent, its word, its sound and its meanings
/// below that, and a sense with its source below the meanings. A derived one is three, of
/// which one refers to what it is derived from.
pub proof fn entries_hang_together(s: u64, parent: Uuid, target: Uuid, idx: nat)
    ensures
        ({
            let e = entry_nodes(s, parent, idx);
            &&& e.len() == 6
            &&& e[0].parent == Some(parent)
            &&& e[1].parent == Some(e[0].id) && e[2].parent == Some(e[0].id) && e[3].parent == Some(
                e[0].id,
            )
            &&& e[4].parent == Some(e[3].id) && e[5].parent == Some(e[3].id)
            &&& e[1].value == SpecValue::Text("词"@ + decimal(idx))
        }),
        ({
            let e = inherit_nodes(s, parent, target, idx);
            &&& e.len() == 3
            &&& e[0].parent == Some(parent)
            &&& e[1].parent == Some(e[0].id) && e[2].parent == Some(e[0].id)
            &&& e[1].value == SpecValue::Reference(target)
        }),
{
    reveal(entry_nodes);
    reveal(inherit_nodes);
}

/// So many entries have six times as many nodes, and so many derived ones three times as many.
pub proof fn entries_are_counted(
    s: u64,
    parent: Uuid,
    first: nat,
    targets: Seq<(Uuid, Uuid)>,
    n: nat,
)
    ensures
        entries(s, parent, first, n).len() == 6 * n,
        inherits(s, parent, targets, n).len() == 3 * n,
    decreases n,
{
    if n > 0 {
        let m = (n - 1) as nat;
        entries_are_counted(s, parent, first, targets, m);
        entries_hang_together(after_ids(s, 6 * m), parent, parent, first + m);
        entries_hang_together(
            after_ids(s, 3 * m),
            parent,
            targets[(m % targets.len()) as int].0,
            m,
        );
    }
}

/// A file has its root, its entries and those that are derived from another file's: as many
/// for each of its own as the ratio says.
pub proof fn files_are_counted(seed: u64, files: nat, f: nat, per: nat, ratio: nat)
    ensures
        whole_file(seed, files, f, per, ratio).len() == 1 + 6 * per + 3 * (per * ratio),
        whole_file(seed, files, f, per, ratio)[0].parent is None,
{
    let st = file_state(seed, f, per);
    entries_are_counted(after_id(st), drawn(st), f * per, Seq::empty(), per);
    entries_are_counted(
        inherit_state(seed, files, f, per, ratio),
        drawn(st),
        0,
        file_pairs(seed, (f + 1) % files, per),
        inherit_count(per, ratio),
    );
}

/// There are at least four files, and no more than two hundred and fifty entries in each.
pub proof fn files_are_not_too_large(entries: nat)
    ensures
        files_for(entries) >= 4,
        files_for(entries) * 250 >= entries,
        files_for(entries) > 4 ==> (files_for(entries) - 1) * 250 < entries,
{
}

} // verus!
