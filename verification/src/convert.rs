//! A store in other formats: JSON, YAML and XML, from which it can be read again, and
//! Markdown.
use base64::Engine;
use crate::codec::{id_of_text, models, uuid_text, Node, SpecNode, SpecValue, Uuid, Value};
use crate::floats::{float_bits_for, float_bits_of, float_text_for, float_text_of};
use crate::json::{decimal_json, field_of, fields_map, is_yaml_line, json_bool, json_decimal,
    json_from_text, json_int, json_list, json_null, json_object, json_read, json_text, json_to_text,
    json_tree, json_trees, number_bits, plain, pretty_json, ref_tree, yaml_from_text, yaml_most,
    yaml_plain, yaml_read, yaml_text_of, yaml_to_text, Json, JsonRef, SpecJson};
use crate::idmap::IdSet;
use crate::model::{children_of, picked, Nodes};
use crate::text::{decimal, decimal_text, join2, join3, owned, same_text, signed_decimal,
    signed_decimal_text, signed_number, trim_end, trimmed_end};
use crate::tree::{ref_models, Store};
use crate::xml::{attr_model, attr_models, attr_text, attrs_text, ends, good_attrs, good_piece,
    good_pieces, is_unmarked, is_word, markup, open_names, piece_text, terminated, xml_pieces,
    xml_rest, SpecAttr, SpecXml, XmlEvent, XmlReader};
use vstd::prelude::*;

verus! {

/// The version of the node format, as it is written down in other formats.
pub const KERNEL: &'static str = "1.0";

// ---------------------------------------------------------------------------
// Base64
// ---------------------------------------------------------------------------

/// Bytes as Base64.
pub uninterp spec fn base64_text(bytes: Seq<u8>) -> Seq<char>;

/// The bytes that a text is as Base64.
pub uninterp spec fn base64_bytes(text: Seq<char>) -> Option<Seq<u8>>;

/// Whether a character is one of Base64.
pub open spec fn is_base64_char(c: char) -> bool {
    ('A' <= c <= 'Z') || ('a' <= c <= 'z') || ('0' <= c <= '9') || c == '+' || c == '/' || c == '='
}

/// `base64::engine::general_purpose::STANDARD.encode`: bytes as Base64, in the
/// characters of that and no others; no bytes give no characters. The text is read as
/// the bytes that it was made of.
#[verifier::external_body]
fn base64_encode(bytes: &[u8]) -> (r: String)
    ensures
        r@ == base64_text(bytes@),
        base64_bytes(r@) == Some(bytes@),
        forall|i: int| 0 <= i < r@.len() ==> is_base64_char(#[trigger] r@[i]),
        r@.len() == 0 <==> bytes@.len() == 0,
{
    base64::engine::general_purpose::STANDARD.encode(bytes)
}

/// `base64::engine::general_purpose::STANDARD.decode`: the bytes that a text is as
/// Base64, if it is that.
#[verifier::external_body]
fn base64_decode(text: &str) -> (r: Option<Vec<u8>>)
    ensures
        match r {
            Some(b) => base64_bytes(text@) == Some(b@),
            None => base64_bytes(text@) is None,
        },
{
    base64::engine::general_purpose::STANDARD.decode(text).ok()
}

// ---------------------------------------------------------------------------
// The kinds of values
// ---------------------------------------------------------------------------

/// The name of a value's kind.
pub open spec fn kind_word(v: SpecValue) -> Seq<char> {
    match v {
        SpecValue::Empty => "empty"@,
        SpecValue::Int(_) => "integer"@,
        SpecValue::Float(_) => "float"@,
        SpecValue::Bool(_) => "boolean"@,
        SpecValue::Text(_) => "text"@,
        SpecValue::Reference(_) => "reference"@,
        SpecValue::Blob(_) => "blob"@,
    }
}

/// The name of a value's kind.
pub fn kind_word_of(v: &Value) -> (r: &'static str)
    ensures
        r@ == kind_word(v@),
{
    match v {
        Value::Empty => "empty",
        Value::Int(_) => "integer",
        Value::Float(_) => "float",
        Value::Bool(_) => "boolean",
        Value::Text(_) => "text",
        Value::Reference(_) => "reference",
        Value::Blob(_) => "blob",
    }
}

/// The names of kinds are different.
proof fn lemma_kind_words()
    ensures
        "empty"@ != "integer"@ && "empty"@ != "float"@ && "empty"@ != "boolean"@ && "empty"@
            != "text"@ && "empty"@ != "reference"@ && "empty"@ != "blob"@,
        "integer"@ != "float"@ && "integer"@ != "boolean"@ && "integer"@ != "text"@ && "integer"@
            != "reference"@ && "integer"@ != "blob"@,
        "float"@ != "boolean"@ && "float"@ != "text"@ && "float"@ != "reference"@ && "float"@
            != "blob"@,
        "boolean"@ != "text"@ && "boolean"@ != "reference"@ && "boolean"@ != "blob"@,
        "text"@ != "reference"@ && "text"@ != "blob"@,
        "reference"@ != "blob"@,
{
    reveal_strlit("empty");
    reveal_strlit("integer");
    reveal_strlit("float");
    reveal_strlit("boolean");
    reveal_strlit("text");
    reveal_strlit("reference");
    reveal_strlit("blob");
    assert("empty"@[0] == 'e');
    assert("integer"@[0] == 'i');
    assert("float"@[0] == 'f');
    assert("boolean"@[0] == 'b' && "boolean"@[1] == 'o');
    assert("text"@[0] == 't');
    assert("reference"@[0] == 'r');
    assert("blob"@[0] == 'b' && "blob"@[1] == 'l');
}

// ---------------------------------------------------------------------------
// Nodes as they stand in a document
// ---------------------------------------------------------------------------

/// A value as it stands in a document: the name of its kind, and what the value is as a
/// whole number, as a double, as a truth value and as a text.
#[derive(Debug)]
pub struct FlatValue {
    pub kind: Option<String>,
    pub int: Option<i64>,
    pub float: Option<u64>,
    pub flag: Option<bool>,
    pub text: Option<String>,
}

/// A node as it stands in a document: its fields, as far as they are there.
#[derive(Debug)]
pub struct FlatNode {
    pub id: Option<String>,
    pub parent: Option<String>,
    pub name: Option<String>,
    pub value: Option<FlatValue>,
}

/// What a value in a document is: the model of [`FlatValue`].
pub struct SpecFlatValue {
    pub kind: Option<Seq<char>>,
    pub int: Option<i64>,
    pub float: Option<u64>,
    pub flag: Option<bool>,
    pub text: Option<Seq<char>>,
}

/// What a node in a document is: the model of [`FlatNode`].
pub struct SpecFlat {
    pub id: Option<Seq<char>>,
    pub parent: Option<Seq<char>>,
    pub name: Option<Seq<char>>,
    pub value: Option<SpecFlatValue>,
}

/// An optional text.
pub open spec fn opt_text(s: Option<String>) -> Option<Seq<char>> {
    match s {
        Some(t) => Some(t@),
        None => None,
    }
}

impl View for FlatValue {
    type V = SpecFlatValue;

    open spec fn view(&self) -> SpecFlatValue {
        SpecFlatValue {
            kind: opt_text(self.kind),
            int: self.int,
            float: self.float,
            flag: self.flag,
            text: opt_text(self.text),
        }
    }
}

impl View for FlatNode {
    type V = SpecFlat;

    open spec fn view(&self) -> SpecFlat {
        SpecFlat {
            id: opt_text(self.id),
            parent: opt_text(self.parent),
            name: opt_text(self.name),
            value: match self.value {
                Some(v) => Some(v@),
                None => None,
            },
        }
    }
}

/// The models of nodes in a document.
pub open spec fn flat_models(s: Seq<FlatNode>) -> Seq<SpecFlat> {
    Seq::new(s.len(), |i: int| s[i]@)
}

/// The value that stands in a document; or what is wrong with it.
pub open spec fn value_of_flat(f: SpecFlatValue) -> Result<SpecValue, Seq<char>> {
    match f.kind {
        None => Err("C001：类型名非法（缺 type）"@),
        Some(k) => if k == "empty"@ {
            Ok(SpecValue::Empty)
        } else if k == "integer"@ {
            match f.int {
                Some(n) => Ok(SpecValue::Int(n)),
                None => Err("C001：整数类型值非法"@),
            }
        } else if k == "float"@ {
            match f.float {
                Some(b) => Ok(SpecValue::Float(b)),
                None => Err("C001：浮点类型值非法"@),
            }
        } else if k == "boolean"@ {
            match f.flag {
                Some(b) => Ok(SpecValue::Bool(b)),
                None => Err("C001：布尔类型值非法"@),
            }
        } else if k == "text"@ {
            match f.text {
                Some(s) => Ok(SpecValue::Text(s)),
                None => Err("C001：文本类型值非法"@),
            }
        } else if k == "reference"@ {
            match f.text {
                None => Err("C002：UUID 非法"@),
                Some(s) => match id_of_text(s) {
                    Some(u) => Ok(SpecValue::Reference(u)),
                    None => Err("C002：UUID 非法（"@ + s + "）"@),
                },
            }
        } else if k == "blob"@ {
            match f.text {
                None => Err("C003：二进制块编码非法"@),
                Some(s) => match base64_bytes(s) {
                    Some(b) => Ok(SpecValue::Blob(b)),
                    None => Err("C003：二进制块编码非法（Base64 解码失败）"@),
                },
            }
        } else {
            Err("C001：类型名非法（"@ + k + "）"@)
        },
    }
}

/// The value that stands in a document; or what is wrong with it.
pub fn flat_to_value(f: &FlatValue) -> (r: Result<Value, String>)
    ensures
        match value_of_flat(f@) {
            Ok(v) => r is Ok && r->Ok_0@ == v,
            Err(e) => r is Err && r->Err_0@ == e,
        },
{
    let k = match &f.kind {
        None => return Err(owned("C001：类型名非法（缺 type）")),
        Some(k) => k.as_str(),
    };
    if same_text(k, "empty") {
        return Ok(Value::Empty);
    }
    if same_text(k, "integer") {
        return match f.int {
            Some(n) => Ok(Value::Int(n)),
            None => Err(owned("C001：整数类型值非法")),
        };
    }
    if same_text(k, "float") {
        return match f.float {
            Some(b) => Ok(Value::Float(b)),
            None => Err(owned("C001：浮点类型值非法")),
        };
    }
    if same_text(k, "boolean") {
        return match f.flag {
            Some(b) => Ok(Value::Bool(b)),
            None => Err(owned("C001：布尔类型值非法")),
        };
    }
    if same_text(k, "text") {
        return match &f.text {
            Some(s) => Ok(Value::Text(s.clone())),
            None => Err(owned("C001：文本类型值非法")),
        };
    }
    if same_text(k, "reference") {
        return match &f.text {
            None => Err(owned("C002：UUID 非法")),
            Some(s) => match Uuid::parse(s.as_str()) {
                Some(u) => Ok(Value::Reference(u)),
                None => Err(join3("C002：UUID 非法（", s.as_str(), "）")),
            },
        };
    }
    if same_text(k, "blob") {
        return match &f.text {
            None => Err(owned("C003：二进制块编码非法")),
            Some(s) => match base64_decode(s.as_str()) {
                Some(b) => Ok(Value::Blob(b)),
                None => Err(owned("C003：二进制块编码非法（Base64 解码失败）")),
            },
        };
    }
    Err(join3("C001：类型名非法（", k, "）"))
}

/// The node that stands in a document; or what is wrong with it.
pub open spec fn node_of_flat(f: SpecFlat) -> Result<SpecNode, Seq<char>> {
    match f.id {
        None => Err("C005：节点字段缺失（id）"@),
        Some(id) => match id_of_text(id) {
            None => Err("C002：UUID 非法（id）"@),
            Some(u) => match f.name {
                None => Err("C005：节点字段缺失（name）"@),
                Some(name) => match f.value {
                    None => Err("C005：节点字段缺失（value）"@),
                    Some(v) => match parent_of_flat(f.parent) {
                        Err(e) => Err(e),
                        Ok(parent) => match value_of_flat(v) {
                            Err(e) => Err(e),
                            Ok(value) => Ok(SpecNode { id: u, parent, name, value }),
                        },
                    },
                },
            },
        },
    }
}

/// The parent that stands in a document; or what is wrong with it.
pub open spec fn parent_of_flat(p: Option<Seq<char>>) -> Result<Option<Uuid>, Seq<char>> {
    match p {
        None => Ok(None),
        Some(s) => match id_of_text(s) {
            Some(u) => Ok(Some(u)),
            None => Err("C002：UUID 非法（parent="@ + s + "）"@),
        },
    }
}

/// The node that stands in a document; or what is wrong with it.
fn flat_to_node(f: &FlatNode) -> (r: Result<Node, String>)
    ensures
        match node_of_flat(f@) {
            Ok(n) => r is Ok && r->Ok_0@ == n,
            Err(e) => r is Err && r->Err_0@ == e,
        },
{
    let id = match &f.id {
        None => return Err(owned("C005：节点字段缺失（id）")),
        Some(s) => match Uuid::parse(s.as_str()) {
            None => return Err(owned("C002：UUID 非法（id）")),
            Some(u) => u,
        },
    };
    let name = match &f.name {
        None => return Err(owned("C005：节点字段缺失（name）")),
        Some(s) => s.clone(),
    };
    let flat = match &f.value {
        None => return Err(owned("C005：节点字段缺失（value）")),
        Some(v) => v,
    };
    let parent = match &f.parent {
        None => None,
        Some(s) => match Uuid::parse(s.as_str()) {
            Some(u) => Some(u),
            None => return Err(join3("C002：UUID 非法（parent=", s.as_str(), "）")),
        },
    };
    match flat_to_value(flat) {
        Err(e) => Err(e),
        Ok(value) => Ok(Node { id, parent, name, value }),
    }
}

/// The nodes that stand in a document; or what is wrong with the first that is wrong.
pub open spec fn nodes_of_flats(fs: Seq<SpecFlat>) -> Result<Nodes, Seq<char>>
    decreases fs.len(),
{
    if fs.len() == 0 {
        Ok(Seq::<SpecNode>::empty())
    } else {
        match nodes_of_flats(fs.drop_last()) {
            Err(e) => Err(e),
            Ok(t) => match node_of_flat(fs.last()) {
                Err(e) => Err(e),
                Ok(n) => Ok(t.push(n)),
            },
        }
    }
}

proof fn lemma_flats_fail(fs: Seq<SpecFlat>, i: int)
    requires
        0 <= i <= fs.len(),
        nodes_of_flats(fs.take(i)) is Err,
    ensures
        nodes_of_flats(fs) == nodes_of_flats(fs.take(i)),
    decreases fs.len(),
{
    if i < fs.len() {
        let d = fs.drop_last();
        assert(d.take(i) =~= fs.take(i));
        lemma_flats_fail(d, i);
    } else {
        assert(fs.take(i) =~= fs);
    }
}

/// The store of the nodes that stand in a document; or what is wrong with the first
/// that is wrong.
pub fn flat_to_store(nodes: &Vec<FlatNode>) -> (r: Result<Store, String>)
    ensures
        match nodes_of_flats(flat_models(nodes@)) {
            Ok(t) => r is Ok && r->Ok_0.wf() && r->Ok_0@ == t,
            Err(e) => r is Err && r->Err_0@ == e,
        },
{
    let ghost fs = flat_models(nodes@);
    let mut store = Store::new();
    let mut i: usize = 0;
    assert(fs.take(0) =~= Seq::<SpecFlat>::empty());
    while i < nodes.len()
        invariant
            i <= nodes@.len(),
            fs == flat_models(nodes@),
            store.wf(),
            nodes_of_flats(fs.take(i as int)) == Ok::<Nodes, Seq<char>>(store@),
        decreases nodes@.len() - i,
    {
        proof {
            assert(fs.take(i + 1).drop_last() =~= fs.take(i as int));
            assert(fs.take(i + 1).last() == nodes@[i as int]@);
        }
        match flat_to_node(&nodes[i]) {
            Ok(n) => store.add(n),
            Err(e) => {
                proof {
                    lemma_flats_fail(fs, i + 1);
                }
                return Err(e);
            },
        }
        i = i + 1;
    }
    assert(fs.take(fs.len() as int) =~= fs);
    Ok(store)
}

// ---------------------------------------------------------------------------
// JSON and YAML
// ---------------------------------------------------------------------------

/// What a value's content is in a document. `ft` gives the texts of doubles.
pub open spec fn content_json(v: SpecValue, ft: Seq<(u64, String)>) -> SpecJson {
    match v {
        SpecValue::Empty => SpecJson::Null,
        SpecValue::Int(n) => SpecJson::Int(n as int),
        SpecValue::Float(b) => decimal_json(float_text_of(b, ft)),
        SpecValue::Bool(b) => SpecJson::Bool(b),
        SpecValue::Text(t) => SpecJson::Text(t),
        SpecValue::Reference(u) => SpecJson::Text(uuid_text(u)),
        SpecValue::Blob(b) => SpecJson::Text(base64_text(b)),
    }
}

/// What a value is in a document.
pub open spec fn value_json(v: SpecValue, ft: Seq<(u64, String)>) -> SpecJson {
    let m = Map::<Seq<char>, SpecJson>::empty().insert(
        "type"@,
        SpecJson::Text(kind_word(v)),
    ).insert("value"@, content_json(v, ft));
    if v is Blob {
        SpecJson::Object(m.insert("encoding"@, SpecJson::Text("base64"@)))
    } else {
        SpecJson::Object(m)
    }
}

/// What a node is in a document.
pub open spec fn node_json(n: SpecNode, ft: Seq<(u64, String)>) -> SpecJson {
    SpecJson::Object(
        Map::<Seq<char>, SpecJson>::empty().insert("id"@, SpecJson::Text(uuid_text(n.id))).insert(
            "parent"@,
            match n.parent {
                Some(p) => SpecJson::Text(uuid_text(p)),
                None => SpecJson::Null,
            },
        ).insert("name"@, SpecJson::Text(n.name)).insert("value"@, value_json(n.value, ft)),
    )
}

/// What nodes are in a document.
pub open spec fn nodes_json(t: Nodes, ft: Seq<(u64, String)>) -> Seq<SpecJson> {
    Seq::new(t.len(), |i: int| node_json(t[i], ft))
}

/// The document of nodes.
pub open spec fn document(t: Nodes, ft: Seq<(u64, String)>) -> SpecJson {
    SpecJson::Object(
        Map::<Seq<char>, SpecJson>::empty().insert("format"@, SpecJson::Text("xirang"@)).insert(
            "kernel"@,
            SpecJson::Text(KERNEL@),
        ).insert("nodes"@, SpecJson::List(nodes_json(t, ft))),
    )
}

/// Whether a blob as Base64 is made of the characters of that, and read as that blob.
pub open spec fn blob_reads_back(v: SpecValue) -> bool {
    v is Blob ==> {
        let s = base64_text(v->Blob_0);
        &&& base64_bytes(s) == Some(v->Blob_0)
        &&& forall|i: int| 0 <= i < s.len() ==> is_base64_char(#[trigger] s[i])
    }
}

/// Whether every blob as Base64 is made of the characters of that, and read as that
/// blob.
pub open spec fn blobs_read_back(t: Nodes) -> bool {
    forall|i: int| 0 <= i < t.len() ==> blob_reads_back((#[trigger] t[i]).value)
}

/// Puts a field behind the others.
fn add_field(fields: &mut Vec<(String, Json)>, key: &str, v: Json)
    ensures
        fields_map(final(fields)@) == fields_map(old(fields)@).insert(key@, json_tree(v)),
{
    let ghost f0 = fields@;
    fields.push((owned(key), v));
    assert(fields@.drop_last() =~= f0);
}

/// No fields.
fn no_fields() -> (r: Vec<(String, Json)>)
    ensures
        fields_map(r@) == Map::<Seq<char>, SpecJson>::empty(),
{
    Vec::new()
}

/// What a value is in a document.
fn value_to_json(v: &Value, ft: &Vec<(u64, String)>) -> (r: Json)
    ensures
        json_tree(r) == value_json(v@, ft@),
        blob_reads_back(v@),
{
    let content = match v {
        Value::Empty => json_null(),
        Value::Int(n) => json_int(*n),
        Value::Float(b) => json_decimal(float_text_for(*b, ft).as_str()),
        Value::Bool(b) => json_bool(*b),
        Value::Text(t) => json_text(t.clone()),
        Value::Reference(u) => json_text(u.to_string()),
        Value::Blob(b) => json_text(base64_encode(b.as_slice())),
    };
    let mut fields = no_fields();
    add_field(&mut fields, "type", json_text(owned(kind_word_of(v))));
    add_field(&mut fields, "value", content);
    if let Value::Blob(_) = v {
        add_field(&mut fields, "encoding", json_text(owned("base64")));
    }
    json_object(fields)
}

/// What nodes are in a document.
fn flat_nodes(store: &Store, ft: &Vec<(u64, String)>) -> (r: Vec<Json>)
    requires
        store.wf(),
    ensures
        json_trees(r@) == nodes_json(store@, ft@),
        blobs_read_back(store@),
{
    let nodes = store.nodes();
    let mut out: Vec<Json> = Vec::new();
    let mut i: usize = 0;
    assert(json_trees(out@) =~= nodes_json(store@, ft@).take(0));
    while i < nodes.len()
        invariant
            i <= nodes@.len(),
            models(nodes@) == store@,
            json_trees(out@) == nodes_json(store@, ft@).take(i as int),
            forall|k: int| 0 <= k < i ==> blob_reads_back((#[trigger] store@[k]).value),
        decreases nodes@.len() - i,
    {
        let n = &nodes[i];
        assert(store@[i as int] == n@);
        let parent = match n.parent {
            Some(p) => json_text(p.to_string()),
            None => json_null(),
        };
        let mut fields = no_fields();
        add_field(&mut fields, "id", json_text(n.id.to_string()));
        add_field(&mut fields, "parent", parent);
        add_field(&mut fields, "name", json_text(n.name.clone()));
        add_field(&mut fields, "value", value_to_json(&n.value, ft));
        let ghost o0 = out@;
        let j = json_object(fields);
        let ghost jt = json_tree(j);
        assert(jt == node_json(n@, ft@));
        out.push(j);
        proof {
            assert(json_trees(out@) =~= json_trees(o0).push(jt));
            assert(nodes_json(store@, ft@).take(i + 1) =~= nodes_json(store@, ft@).take(
                i as int,
            ).push(jt));
        }
        i = i + 1;
    }
    assert(nodes_json(store@, ft@).take(store@.len() as int) =~= nodes_json(store@, ft@));
    out
}

/// The document of a store.
fn store_document(store: &Store, ft: &Vec<(u64, String)>) -> (r: Json)
    requires
        store.wf(),
    ensures
        json_tree(r) == document(store@, ft@),
        blobs_read_back(store@),
{
    let mut fields = no_fields();
    add_field(&mut fields, "format", json_text(owned("xirang")));
    add_field(&mut fields, "kernel", json_text(owned(KERNEL)));
    add_field(&mut fields, "nodes", json_list(flat_nodes(store, ft)));
    json_object(fields)
}

/// The text in a field of an object.
pub open spec fn text_field(j: SpecJson, key: Seq<char>) -> Option<Seq<char>> {
    match field_of(j, key) {
        Some(SpecJson::Text(s)) => Some(s),
        _ => None,
    }
}

/// A value as it stands in a document.
pub open spec fn flat_value_of(j: SpecJson) -> SpecFlatValue {
    let c = field_of(j, "value"@);
    SpecFlatValue {
        kind: text_field(j, "type"@),
        int: match c {
            Some(SpecJson::Int(n)) => if i64::MIN <= n <= i64::MAX {
                Some(n as i64)
            } else {
                None
            },
            _ => None,
        },
        float: match c {
            Some(x) => number_bits(x),
            None => None,
        },
        flag: match c {
            Some(SpecJson::Bool(b)) => Some(b),
            _ => None,
        },
        text: text_field(j, "value"@),
    }
}

/// A node as it stands in a document.
pub open spec fn flat_of(j: SpecJson) -> SpecFlat {
    SpecFlat {
        id: text_field(j, "id"@),
        parent: text_field(j, "parent"@),
        name: text_field(j, "name"@),
        value: match field_of(j, "value"@) {
            Some(v) => Some(flat_value_of(v)),
            None => None,
        },
    }
}

/// The nodes as they stand in a document, if it has any.
pub open spec fn flats_of(j: SpecJson) -> Option<Seq<SpecFlat>> {
    match field_of(j, "nodes"@) {
        Some(SpecJson::List(items)) => Some(Seq::new(items.len(), |i: int| flat_of(items[i]))),
        _ => None,
    }
}

/// The nodes of a document; or what is wrong with it.
pub open spec fn nodes_of_document(j: SpecJson) -> Result<Nodes, Seq<char>> {
    match flats_of(j) {
        None => Err("C005：缺 nodes 数组"@),
        Some(fs) => nodes_of_flats(fs),
    }
}

/// The text in a field of an object.
fn read_text(j: &JsonRef<'_>, key: &str) -> (r: Option<String>)
    ensures
        opt_text(r) == text_field(ref_tree(*j), key@),
{
    match j.get(key) {
        Some(x) => match x.as_str() {
            Some(s) => Some(owned(s)),
            None => None,
        },
        None => None,
    }
}

/// A value as it stands in a document.
fn read_value(j: &JsonRef<'_>) -> (r: FlatValue)
    ensures
        r@ == flat_value_of(ref_tree(*j)),
{
    let kind = read_text(j, "type");
    let text = read_text(j, "value");
    match j.get("value") {
        Some(c) => FlatValue {
            kind,
            int: c.as_i64(),
            float: c.float_bits(),
            flag: c.as_bool(),
            text,
        },
        None => FlatValue { kind, int: None, float: None, flag: None, text },
    }
}

/// A node as it stands in a document.
fn read_flat(j: &JsonRef<'_>) -> (r: FlatNode)
    ensures
        r@ == flat_of(ref_tree(*j)),
{
    let value = match j.get("value") {
        Some(v) => Some(read_value(&v)),
        None => None,
    };
    FlatNode { id: read_text(j, "id"), parent: read_text(j, "parent"), name: read_text(j, "name"), value }
}

/// The store of a document; or what is wrong with it.
fn document_to_store(root: &Json) -> (r: Result<Store, String>)
    ensures
        match nodes_of_document(json_tree(*root)) {
            Ok(t) => r is Ok && r->Ok_0.wf() && r->Ok_0@ == t,
            Err(e) => r is Err && r->Err_0@ == e,
        },
{
    let items = match root.view_of().get("nodes") {
        Some(x) => match x.items() {
            Some(v) => v,
            None => return Err(owned("C005：缺 nodes 数组")),
        },
        None => return Err(owned("C005：缺 nodes 数组")),
    };
    let ghost want = flats_of(json_tree(*root))->Some_0;
    let mut flats: Vec<FlatNode> = Vec::new();
    let mut i: usize = 0;
    assert(flat_models(flats@) =~= want.take(0));
    while i < items.len()
        invariant
            i <= items@.len(),
            want.len() == items@.len(),
            forall|k: int| 0 <= k < want.len() ==> want[k] == flat_of(ref_tree(#[trigger] items@[k])),
            flat_models(flats@) == want.take(i as int),
        decreases items@.len() - i,
    {
        let ghost f0 = flats@;
        let f = read_flat(&items[i]);
        let ghost fm = f@;
        flats.push(f);
        proof {
            assert(fm == flat_of(ref_tree(items@[i as int])));
            assert(flat_models(flats@) =~= flat_models(f0).push(fm));
            assert(want.take(i + 1) =~= want.take(i as int).push(fm));
        }
        i = i + 1;
    }
    assert(want.take(want.len() as int) =~= want);
    flat_to_store(&flats)
}

/// What a text is read as where it is read as JSON.
pub open spec fn json_nodes(text: Seq<char>) -> Result<Nodes, Seq<char>> {
    match json_read(text) {
        Err(e) => Err("JSON 解析失败："@ + e),
        Ok(j) => nodes_of_document(j),
    }
}

/// What a text is read as where it is read as YAML.
pub open spec fn yaml_nodes(text: Seq<char>) -> Result<Nodes, Seq<char>> {
    match yaml_read(text) {
        Err(e) => Err("YAML 解析失败："@ + e),
        Ok(j) => nodes_of_document(j),
    }
}

/// Whether no node has a double for a value.
pub open spec fn no_floats(t: Nodes) -> bool {
    forall|i: int| 0 <= i < t.len() ==> !((#[trigger] t[i]).value is Float)
}

/// A store as JSON. `ft` gives the texts of doubles. The text is read as the nodes that
/// it was made of, where none has a double for a value.
pub fn to_json(store: &Store, ft: &Vec<(u64, String)>) -> (r: String)
    requires
        store.wf(),
    ensures
        r@ == pretty_json(document(store@, ft@)),
        no_floats(store@) ==> json_nodes(r@) == Ok::<Nodes, Seq<char>>(store@),
{
    let doc = store_document(store, ft);
    proof {
        if no_floats(store@) {
            lemma_plain_document(store@, ft@);
            document_reads_back(store@, ft@);
        }
    }
    json_to_text(&doc)
}

/// The store that a text is as JSON; or what is wrong with it.
pub fn from_json(text: &str) -> (r: Result<Store, String>)
    ensures
        match json_nodes(text@) {
            Ok(t) => r is Ok && r->Ok_0.wf() && r->Ok_0@ == t,
            Err(e) => r is Err && r->Err_0@ == e,
        },
{
    match json_from_text(text) {
        Err(e) => Err(join2("JSON 解析失败：", e.as_str())),
        Ok(root) => document_to_store(&root),
    }
}

/// Whether YAML has room for a node: its name and what its value is written as are not too
/// long.
pub open spec fn yaml_keeps(n: SpecNode) -> bool {
    &&& n.name.len() <= yaml_most()
    &&& match n.value {
        SpecValue::Text(s) => s.len() <= yaml_most(),
        SpecValue::Blob(b) => base64_text(b).len() <= yaml_most(),
        _ => true,
    }
}

/// Whether YAML has room for all nodes.
pub open spec fn yaml_keeps_all(t: Nodes) -> bool {
    forall|i: int| 0 <= i < t.len() ==> yaml_keeps(#[trigger] t[i])
}

/// A store as YAML. `ft` gives the texts of doubles. The text is read as the nodes that
/// it was made of, where YAML has room for them and the texts of doubles are read as those
/// doubles.
pub fn to_yaml(store: &Store, ft: &Vec<(u64, String)>) -> (r: String)
    requires
        store.wf(),
    ensures
        r@ == yaml_text_of(document(store@, ft@)),
        yaml_keeps_all(store@) && floats_read_back(store@, ft@) ==> yaml_nodes(r@) == Ok::<
            Nodes,
            Seq<char>,
        >(store@),
{
    let doc = store_document(store, ft);
    proof {
        if yaml_keeps_all(store@) && floats_read_back(store@, ft@) {
            lemma_yaml_document(store@, ft@);
            document_reads_back(store@, ft@);
        }
    }
    yaml_to_text(&doc)
}

/// The store that a text is as YAML; or what is wrong with it.
pub fn from_yaml(text: &str) -> (r: Result<Store, String>)
    ensures
        match yaml_nodes(text@) {
            Ok(t) => r is Ok && r->Ok_0.wf() && r->Ok_0@ == t,
            Err(e) => r is Err && r->Err_0@ == e,
        },
{
    match yaml_from_text(text) {
        Err(e) => Err(join2("YAML 解析失败：", e.as_str())),
        Ok(root) => document_to_store(&root),
    }
}

/// The names of fields are different.
proof fn lemma_field_names()
    ensures
        "type"@ != "value"@ && "type"@ != "encoding"@ && "value"@ != "encoding"@,
        "id"@ != "parent"@ && "id"@ != "name"@ && "id"@ != "value"@,
        "parent"@ != "name"@ && "parent"@ != "value"@ && "name"@ != "value"@,
        "format"@ != "kernel"@ && "format"@ != "nodes"@ && "kernel"@ != "nodes"@,
{
    reveal_strlit("type");
    reveal_strlit("value");
    reveal_strlit("encoding");
    reveal_strlit("id");
    reveal_strlit("parent");
    reveal_strlit("name");
    reveal_strlit("format");
    reveal_strlit("kernel");
    reveal_strlit("nodes");
    assert("type"@[0] == 't');
    assert("value"@[0] == 'v');
    assert("encoding"@[0] == 'e');
    assert("id"@[0] == 'i');
    assert("parent"@[0] == 'p');
    assert("name"@[0] == 'n');
    assert("format"@[0] == 'f');
    assert("kernel"@[0] == 'k');
    assert("nodes"@[0] == 'n' && "nodes"@[1] == 'o');
}

proof fn lemma_plain_value(v: SpecValue, ft: Seq<(u64, String)>)
    requires
        !(v is Float),
    ensures
        plain(value_json(v, ft), 97),
{
    lemma_field_names();
    let m = value_json(v, ft)->Object_0;
    assert(plain(content_json(v, ft), 96)) by {
        reveal_with_fuel(plain, 2);
    }
    assert forall|k: Seq<char>| #[trigger] m.contains_key(k) implies plain(m[k], 96) by {
        reveal_with_fuel(plain, 2);
        assert(k == "type"@ || k == "value"@ || k == "encoding"@);
    }
}

proof fn lemma_plain_node(n: SpecNode, ft: Seq<(u64, String)>)
    requires
        !(n.value is Float),
    ensures
        plain(node_json(n, ft), 98),
{
    lemma_field_names();
    let m = node_json(n, ft)->Object_0;
    lemma_plain_value(n.value, ft);
    assert forall|k: Seq<char>| #[trigger] m.contains_key(k) implies plain(m[k], 97) by {
        reveal_with_fuel(plain, 2);
        assert(k == "id"@ || k == "parent"@ || k == "name"@ || k == "value"@);
    }
}

proof fn lemma_plain_document(t: Nodes, ft: Seq<(u64, String)>)
    requires
        no_floats(t),
    ensures
        plain(document(t, ft), 100),
{
    lemma_field_names();
    let m = document(t, ft)->Object_0;
    let items = nodes_json(t, ft);
    assert forall|i: int| 0 <= i < items.len() implies plain(#[trigger] items[i], 98) by {
        lemma_plain_node(t[i], ft);
    }
    assert(plain(SpecJson::List(items), 99));
    assert forall|k: Seq<char>| #[trigger] m.contains_key(k) implies plain(m[k], 99) by {
        assert(k == "format"@ || k == "kernel"@ || k == "nodes"@);
    }
}

/// The words of a document are of one line each.
proof fn lemma_document_words(v: SpecValue)
    ensures
        is_yaml_line("type"@, 30) && is_yaml_line("value"@, 30) && is_yaml_line("encoding"@, 30),
        is_yaml_line("id"@, 30) && is_yaml_line("parent"@, 30) && is_yaml_line("name"@, 30),
        is_yaml_line("format"@, 30) && is_yaml_line("kernel"@, 30) && is_yaml_line("nodes"@, 30),
        is_yaml_line("base64"@, 30) && is_yaml_line("xirang"@, 30) && is_yaml_line(KERNEL@, 30),
        is_yaml_line(kind_word(v), 30),
{
    reveal_strlit("type");
    reveal_strlit("value");
    reveal_strlit("encoding");
    reveal_strlit("id");
    reveal_strlit("parent");
    reveal_strlit("name");
    reveal_strlit("format");
    reveal_strlit("kernel");
    reveal_strlit("nodes");
    reveal_strlit("base64");
    reveal_strlit("xirang");
    reveal_strlit("1.0");
    reveal_strlit("empty");
    reveal_strlit("integer");
    reveal_strlit("float");
    reveal_strlit("boolean");
    reveal_strlit("text");
    reveal_strlit("reference");
    reveal_strlit("blob");
}

proof fn lemma_id_is_short(u: Uuid)
    ensures
        uuid_text(u).len() <= yaml_most(),
{
    lemma_id_len(u, 16);
}

proof fn lemma_id_len(u: Uuid, n: nat)
    ensures
        crate::codec::uuid_text_upto(u, n).len() <= 3 * n,
    decreases n,
{
    if n > 0 {
        lemma_id_len(u, (n - 1) as nat);
    }
}

proof fn lemma_yaml_value(v: SpecValue, ft: Seq<(u64, String)>)
    requires
        v is Float ==> decimal_json(float_text_of(v->Float_0, ft)) == SpecJson::Float(v->Float_0),
        v is Text ==> v->Text_0.len() <= yaml_most(),
        v is Blob ==> base64_text(v->Blob_0).len() <= yaml_most(),
        blob_reads_back(v),
    ensures
        yaml_plain(value_json(v, ft), 97),
{
    lemma_field_names();
    lemma_document_words(v);
    let m = value_json(v, ft)->Object_0;
    assert(yaml_plain(content_json(v, ft), 96)) by {
        reveal_with_fuel(yaml_plain, 2);
        if let SpecValue::Reference(u) = v {
            lemma_id_is_short(u);
        }
    }
    assert(m.dom().len() != 1) by {
        assert(m.contains_key("type"@) && m.contains_key("value"@));
        lemma_two_names(m, "type"@, "value"@);
    }
    assert forall|k: Seq<char>| #[trigger] m.contains_key(k) implies is_yaml_line(k, 30)
        && yaml_plain(m[k], 96) by {
        reveal_with_fuel(yaml_plain, 2);
        assert(k == "type"@ || k == "value"@ || k == "encoding"@);
    }
}

proof fn lemma_two_names(m: Map<Seq<char>, SpecJson>, a: Seq<char>, b: Seq<char>)
    requires
        a != b,
        m.dom().finite(),
        m.contains_key(a),
        m.contains_key(b),
    ensures
        m.dom().len() != 1,
{
    if m.dom().len() == 1 {
        let rest = m.dom().remove(a);
        assert(rest.contains(b));
        rest.lemma_len0_is_empty();
    }
}

proof fn lemma_yaml_node(n: SpecNode, ft: Seq<(u64, String)>)
    requires
        yaml_keeps(n),
        n.value is Float ==> decimal_json(float_text_of(n.value->Float_0, ft)) == SpecJson::Float(
            n.value->Float_0,
        ),
        blob_reads_back(n.value),
    ensures
        yaml_plain(node_json(n, ft), 98),
{
    lemma_field_names();
    lemma_document_words(n.value);
    let m = node_json(n, ft)->Object_0;
    lemma_yaml_value(n.value, ft);
    lemma_id_is_short(n.id);
    if let Some(p) = n.parent {
        lemma_id_is_short(p);
    }
    assert(m.contains_key("id"@) && m.contains_key("name"@));
    lemma_two_names(m, "id"@, "name"@);
    assert forall|k: Seq<char>| #[trigger] m.contains_key(k) implies is_yaml_line(k, 30)
        && yaml_plain(m[k], 97) by {
        reveal_with_fuel(yaml_plain, 2);
        assert(k == "id"@ || k == "parent"@ || k == "name"@ || k == "value"@);
    }
}

proof fn lemma_yaml_document(t: Nodes, ft: Seq<(u64, String)>)
    requires
        yaml_keeps_all(t),
        floats_read_back(t, ft),
        blobs_read_back(t),
    ensures
        yaml_plain(document(t, ft), 100),
{
    lemma_field_names();
    lemma_document_words(SpecValue::Empty);
    let m = document(t, ft)->Object_0;
    let items = nodes_json(t, ft);
    assert forall|i: int| 0 <= i < items.len() implies yaml_plain(#[trigger] items[i], 98) by {
        assert(yaml_keeps(t[i]));
        assert(blob_reads_back(t[i].value));
        lemma_yaml_node(t[i], ft);
    }
    assert(yaml_plain(SpecJson::List(items), 99));
    assert(m.contains_key("format"@) && m.contains_key("nodes"@));
    lemma_two_names(m, "format"@, "nodes"@);
    assert forall|k: Seq<char>| #[trigger] m.contains_key(k) implies is_yaml_line(k, 30)
        && yaml_plain(m[k], 99) by {
        assert(k == "format"@ || k == "kernel"@ || k == "nodes"@);
    }
}

/// Whether the texts of doubles are read as those doubles.
pub open spec fn floats_read_back(t: Nodes, ft: Seq<(u64, String)>) -> bool {
    forall|i: int|
        0 <= i < t.len() && (#[trigger] t[i]).value is Float ==> decimal_json(
            float_text_of(t[i].value->Float_0, ft),
        ) == SpecJson::Float(t[i].value->Float_0)
}

proof fn lemma_value_reads_back(v: SpecValue, ft: Seq<(u64, String)>)
    requires
        v is Float ==> decimal_json(float_text_of(v->Float_0, ft)) == SpecJson::Float(v->Float_0),
        blob_reads_back(v),
    ensures
        value_of_flat(flat_value_of(value_json(v, ft))) == Ok::<SpecValue, Seq<char>>(v),
{
    lemma_field_names();
    lemma_kind_words();
    let j = value_json(v, ft);
    assert(field_of(j, "type"@) == Some(SpecJson::Text(kind_word(v))));
    assert(field_of(j, "value"@) == Some(content_json(v, ft)));
    if let SpecValue::Reference(u) = v {
        crate::codec::uuid_text_round_trip(u, u);
        crate::codec::lemma_spelled(uuid_text(u), u);
    }
}

proof fn lemma_node_reads_back(n: SpecNode, ft: Seq<(u64, String)>)
    requires
        n.value is Float ==> decimal_json(float_text_of(n.value->Float_0, ft)) == SpecJson::Float(
            n.value->Float_0,
        ),
        blob_reads_back(n.value),
    ensures
        node_of_flat(flat_of(node_json(n, ft))) == Ok::<SpecNode, Seq<char>>(n),
{
    lemma_field_names();
    lemma_value_reads_back(n.value, ft);
    crate::codec::uuid_text_round_trip(n.id, n.id);
    crate::codec::lemma_spelled(uuid_text(n.id), n.id);
    if let Some(p) = n.parent {
        crate::codec::uuid_text_round_trip(p, p);
        crate::codec::lemma_spelled(uuid_text(p), p);
    }
    let j = node_json(n, ft);
    assert(field_of(j, "id"@) == Some(SpecJson::Text(uuid_text(n.id))));
    assert(field_of(j, "name"@) == Some(SpecJson::Text(n.name)));
    assert(field_of(j, "value"@) == Some(value_json(n.value, ft)));
    assert(field_of(j, "parent"@) == Some(
        match n.parent {
            Some(p) => SpecJson::Text(uuid_text(p)),
            None => SpecJson::Null,
        },
    ));
}

/// The document of nodes is read as those nodes, where the texts of doubles and of blobs
/// are read as what they were made of.
pub proof fn document_reads_back(t: Nodes, ft: Seq<(u64, String)>)
    requires
        floats_read_back(t, ft),
        blobs_read_back(t),
    ensures
        nodes_of_document(document(t, ft)) == Ok::<Nodes, Seq<char>>(t),
{
    lemma_field_names();
    let items = nodes_json(t, ft);
    assert(field_of(document(t, ft), "nodes"@) == Some(SpecJson::List(items)));
    let fs = Seq::new(items.len(), |i: int| flat_of(items[i]));
    assert forall|i: int| 0 <= i < fs.len() implies node_of_flat(#[trigger] fs[i]) == Ok::<
        SpecNode,
        Seq<char>,
    >(t[i]) by {
        assert(blob_reads_back(t[i].value));
        lemma_node_reads_back(t[i], ft);
    }
    lemma_flats_read_back(fs, t);
}

proof fn lemma_flats_read_back(fs: Seq<SpecFlat>, t: Nodes)
    requires
        fs.len() == t.len(),
        forall|i: int|
            0 <= i < fs.len() ==> node_of_flat(#[trigger] fs[i]) == Ok::<SpecNode, Seq<char>>(t[i]),
    ensures
        nodes_of_flats(fs) == Ok::<Nodes, Seq<char>>(t),
    decreases fs.len(),
{
    if fs.len() > 0 {
        let d = fs.drop_last();
        assert forall|i: int| 0 <= i < d.len() implies node_of_flat(#[trigger] d[i]) == Ok::<
            SpecNode,
            Seq<char>,
        >(t.drop_last()[i]) by {
            assert(d[i] == fs[i]);
        }
        lemma_flats_read_back(d, t.drop_last());
        assert(fs.last() == fs[fs.len() - 1]);
        assert(t.drop_last().push(t.last()) =~= t);
    } else {
        assert(t =~= Seq::<SpecNode>::empty());
    }
}

// ---------------------------------------------------------------------------
// Entities
// ---------------------------------------------------------------------------

/// A character as it stands in XML.
pub open spec fn entity(c: char) -> Seq<char> {
    if c == '&' {
        seq!['&', 'a', 'm', 'p', ';']
    } else if c == '<' {
        seq!['&', 'l', 't', ';']
    } else if c == '>' {
        seq!['&', 'g', 't', ';']
    } else if c == '"' {
        seq!['&', 'q', 'u', 'o', 't', ';']
    } else if c == '\'' {
        seq!['&', 'a', 'p', 'o', 's', ';']
    } else {
        seq![c]
    }
}

/// A text as it stands in XML.
pub open spec fn escaped(s: Seq<char>) -> Seq<char>
    decreases s.len(),
{
    if s.len() == 0 {
        s
    } else {
        escaped(s.drop_last()) + entity(s.last())
    }
}

/// The length of the entity at the head of a text, and the character that it stands
/// for.
pub open spec fn head_entity(s: Seq<char>) -> Option<(int, char)> {
    if s.len() >= 4 && s.take(4) == entity('<') {
        Some((4, '<'))
    } else if s.len() >= 4 && s.take(4) == entity('>') {
        Some((4, '>'))
    } else if s.len() >= 6 && s.take(6) == entity('"') {
        Some((6, '"'))
    } else if s.len() >= 6 && s.take(6) == entity('\'') {
        Some((6, '\''))
    } else if s.len() >= 5 && s.take(5) == entity('&') {
        Some((5, '&'))
    } else {
        None
    }
}

/// A text with its entities made characters.
pub open spec fn unescaped(s: Seq<char>) -> Seq<char>
    decreases s.len(),
{
    if s.len() == 0 {
        s
    } else {
        match head_entity(s) {
            Some((n, c)) => seq![c] + unescaped(s.skip(n)),
            None => seq![s[0]] + unescaped(s.skip(1)),
        }
    }
}

/// A text as it stands in XML.
pub fn xml_escape(s: &str) -> (r: String)
    ensures
        r@ == escaped(s@),
{
    let chars = crate::text::chars_of(s);
    let mut out = String::new();
    let mut i: usize = 0;
    assert(s@.take(0) =~= Seq::<char>::empty());
    while i < chars.len()
        invariant
            i <= chars@.len(),
            chars@ == s@,
            out@ == escaped(s@.take(i as int)),
        decreases chars@.len() - i,
    {
        let c = chars[i];
        proof {
            assert(s@.take(i + 1).drop_last() =~= s@.take(i as int));
            assert(s@.take(i + 1).last() == c);
            reveal_strlit("&amp;");
            reveal_strlit("&lt;");
            reveal_strlit("&gt;");
            reveal_strlit("&quot;");
            reveal_strlit("&apos;");
            assert("&amp;"@ =~= seq!['&', 'a', 'm', 'p', ';']);
            assert("&lt;"@ =~= seq!['&', 'l', 't', ';']);
            assert("&gt;"@ =~= seq!['&', 'g', 't', ';']);
            assert("&quot;"@ =~= seq!['&', 'q', 'u', 'o', 't', ';']);
            assert("&apos;"@ =~= seq!['&', 'a', 'p', 'o', 's', ';']);
        }
        if c == '&' {
            out.append("&amp;");
        } else if c == '<' {
            out.append("&lt;");
        } else if c == '>' {
            out.append("&gt;");
        } else if c == '"' {
            out.append("&quot;");
        } else if c == '\'' {
            out.append("&apos;");
        } else {
            let ghost o0 = out@;
            crate::text::push_char(&mut out, c);
            assert(out@ =~= o0 + seq![c]);
        }
        i = i + 1;
    }
    assert(s@.take(s@.len() as int) =~= s@);
    out
}

/// Whether the characters of `e` stand at a place.
fn stand_at(chars: &Vec<char>, i: usize, e: &str) -> (r: bool)
    requires
        i <= chars@.len(),
        e@.len() <= 6,
    ensures
        r == (chars@.len() - i >= e@.len() && chars@.skip(i as int).take(e@.len() as int) == e@),
{
    let want = crate::text::chars_of(e);
    let n: usize = want.len();
    let m: usize = chars.len();
    if m - i < n {
        return false;
    }
    let ghost part = chars@.skip(i as int).take(n as int);
    let mut k: usize = 0;
    while k < n
        invariant
            k <= n,
            n == want@.len(),
            want@ == e@,
            m == chars@.len(),
            i + n <= m,
            part == chars@.skip(i as int).take(n as int),
            forall|j: int| 0 <= j < k ==> part[j] == e@[j],
        decreases n - k,
    {
        assert(part[k as int] == chars@[i + k]);
        if chars[i + k] != want[k] {
            assert(part[k as int] != e@[k as int]);
            return false;
        }
        k = k + 1;
    }
    assert(part =~= e@);
    true
}

/// A text with its entities made characters.
pub fn xml_unescape(s: &str) -> (r: String)
    ensures
        r@ == unescaped(s@),
{
    let chars = crate::text::chars_of(s);
    let mut out = String::new();
    let mut i: usize = 0;
    assert(s@.skip(0) =~= s@);
    assert(out@ + unescaped(s@) =~= unescaped(s@));
    while i < chars.len()
        invariant
            i <= chars@.len(),
            chars@ == s@,
            unescaped(s@) == out@ + unescaped(s@.skip(i as int)),
        decreases chars@.len() - i,
    {
        let ghost rest = s@.skip(i as int);
        proof {
            reveal_strlit("&amp;");
            reveal_strlit("&lt;");
            reveal_strlit("&gt;");
            reveal_strlit("&quot;");
            reveal_strlit("&apos;");
            assert("&amp;"@ =~= seq!['&', 'a', 'm', 'p', ';']);
            assert("&lt;"@ =~= seq!['&', 'l', 't', ';']);
            assert("&gt;"@ =~= seq!['&', 'g', 't', ';']);
            assert("&quot;"@ =~= seq!['&', 'q', 'u', 'o', 't', ';']);
            assert("&apos;"@ =~= seq!['&', 'a', 'p', 'o', 's', ';']);
            assert(rest[0] == chars@[i as int]);
        }
        let (n, c): (usize, char) = if stand_at(&chars, i, "&lt;") {
            (4, '<')
        } else if stand_at(&chars, i, "&gt;") {
            (4, '>')
        } else if stand_at(&chars, i, "&quot;") {
            (6, '"')
        } else if stand_at(&chars, i, "&apos;") {
            (6, '\'')
        } else if stand_at(&chars, i, "&amp;") {
            (5, '&')
        } else {
            (1, chars[i])
        };
        let ghost o0 = out@;
        crate::text::push_char(&mut out, c);
        proof {
            assert(rest.skip(n as int) =~= s@.skip(i + n));
            assert(unescaped(rest) == seq![c] + unescaped(rest.skip(n as int)));
            assert(o0 + (seq![c] + unescaped(s@.skip(i + n))) =~= out@ + unescaped(s@.skip(i + n)));
        }
        i = i + n;
    }
    assert(s@.skip(s@.len() as int) =~= Seq::<char>::empty());
    assert(out@ + Seq::<char>::empty() =~= out@);
    out
}

/// The head of a text that starts with a character as it stands in XML.
proof fn lemma_head_entity(c: char, rest: Seq<char>)
    ensures
        ({
            let s = entity(c) + rest;
            &&& unescaped(s) == seq![c] + unescaped(rest)
        }),
{
    let s = entity(c) + rest;
    let n = entity(c).len() as int;
    assert(s.skip(n) =~= rest);
    assert(s.take(n) =~= entity(c));
    if c == '&' {
        assert(s.take(4)[1] == 'a' && entity('<')[1] == 'l' && entity('>')[1] == 'g');
        if s.len() >= 6 {
            assert(s.take(6)[1] == 'a' && entity('"')[1] == 'q');
            assert(s.take(6)[2] == 'm' && entity('\'')[2] == 'p');
        }
        assert(head_entity(s) == Some((5int, '&')));
    } else if c == '<' {
        assert(head_entity(s) == Some((4int, '<')));
    } else if c == '>' {
        assert(s.take(4)[1] == 'g' && entity('<')[1] == 'l');
        assert(head_entity(s) == Some((4int, '>')));
    } else if c == '"' {
        assert(s.take(4)[1] == 'q' && entity('<')[1] == 'l' && entity('>')[1] == 'g');
        assert(head_entity(s) == Some((6int, '"')));
    } else if c == '\'' {
        assert(s.take(4)[1] == 'a' && entity('<')[1] == 'l' && entity('>')[1] == 'g');
        assert(s.take(6)[1] == 'a' && entity('"')[1] == 'q');
        assert(head_entity(s) == Some((6int, '\'')));
    } else {
        assert(s[0] == c);
        if s.len() >= 4 {
            assert(s.take(4)[0] == c && entity('<')[0] == '&' && entity('>')[0] == '&');
        }
        if s.len() >= 5 {
            assert(s.take(5)[0] == c && entity('&')[0] == '&');
        }
        if s.len() >= 6 {
            assert(s.take(6)[0] == c && entity('"')[0] == '&' && entity('\'')[0] == '&');
        }
        assert(head_entity(s) is None);
    }
}

proof fn lemma_escaped_front(s: Seq<char>)
    requires
        s.len() > 0,
    ensures
        escaped(s) == entity(s[0]) + escaped(s.skip(1)),
    decreases s.len(),
{
    if s.len() == 1 {
        assert(s.drop_last() =~= Seq::<char>::empty());
        assert(s.skip(1) =~= Seq::<char>::empty());
        assert(Seq::<char>::empty() + entity(s[0]) =~= entity(s[0]) + Seq::<char>::empty());
    } else {
        let d = s.drop_last();
        lemma_escaped_front(d);
        assert(d.skip(1) =~= s.skip(1).drop_last());
        assert(s.skip(1).last() == s.last());
        assert((entity(s[0]) + escaped(d.skip(1))) + entity(s.last()) =~= entity(s[0]) + (escaped(
            d.skip(1),
        ) + entity(s.last())));
    }
}

/// A text as it stands in XML is read as that text.
pub proof fn escaped_is_read(s: Seq<char>)
    ensures
        unescaped(escaped(s)) == s,
    decreases s.len(),
{
    if s.len() > 0 {
        lemma_escaped_front(s);
        lemma_head_entity(s[0], escaped(s.skip(1)));
        escaped_is_read(s.skip(1));
        assert(seq![s[0]] + s.skip(1) =~= s);
    }
}

/// A text as it stands in XML holds no `<`, and is empty only where the text is.
proof fn lemma_escaped_chars(s: Seq<char>)
    ensures
        !escaped(s).contains('<'),
        escaped(s).len() == 0 <==> s.len() == 0,
    decreases s.len(),
{
    if s.len() > 0 {
        let a = escaped(s.drop_last());
        let b = entity(s.last());
        lemma_escaped_chars(s.drop_last());
        assert(!b.contains('<'));
        if (a + b).contains('<') {
            let i = choose|i: int| 0 <= i < (a + b).len() && (a + b)[i] == '<';
            if i < a.len() {
                assert(a[i] == '<');
            } else {
                assert(b[i - a.len()] == '<');
            }
        }
    }
}

// ---------------------------------------------------------------------------
// Writing XML
// ---------------------------------------------------------------------------

/// A value as a text. `ft` gives the texts of doubles.
pub open spec fn value_words(v: SpecValue, ft: Seq<(u64, String)>) -> Seq<char> {
    match v {
        SpecValue::Empty => Seq::<char>::empty(),
        SpecValue::Int(n) => signed_decimal(n as int),
        SpecValue::Float(b) => float_text_of(b, ft),
        SpecValue::Bool(b) => if b {
            "true"@
        } else {
            "false"@
        },
        SpecValue::Text(t) => t,
        SpecValue::Reference(u) => uuid_text(u),
        SpecValue::Blob(_) => Seq::<char>::empty(),
    }
}

/// A value as a text. `ft` gives the texts of doubles.
pub fn value_text(v: &Value, ft: &Vec<(u64, String)>) -> (r: String)
    ensures
        r@ == value_words(v@, ft@),
{
    match v {
        Value::Empty => String::new(),
        Value::Int(n) => signed_decimal_text(*n),
        Value::Float(b) => float_text_for(*b, ft),
        Value::Bool(b) => if *b {
            owned("true")
        } else {
            owned("false")
        },
        Value::Text(t) => t.clone(),
        Value::Reference(u) => u.to_string(),
        Value::Blob(_) => String::new(),
    }
}

/// What stands in XML for a value.
pub open spec fn value_content(v: SpecValue, ft: Seq<(u64, String)>) -> Seq<char> {
    match v {
        SpecValue::Blob(b) => base64_text(b),
        _ => escaped(value_words(v, ft)),
    }
}

/// A text as a piece of XML, if there is one.
pub open spec fn text_piece(t: Seq<char>) -> Seq<SpecXml> {
    if t.len() == 0 {
        Seq::<SpecXml>::empty()
    } else {
        seq![SpecXml::Text(t)]
    }
}

/// The attributes of a node.
pub open spec fn node_attrs(n: SpecNode) -> Seq<SpecAttr> {
    match n.parent {
        Some(p) => seq![Ok(("id"@, uuid_text(n.id))), Ok(("parent"@, uuid_text(p)))],
        None => seq![Ok(("id"@, uuid_text(n.id)))],
    }
}

/// The attributes of a value.
pub open spec fn value_attrs(v: SpecValue) -> Seq<SpecAttr> {
    if v is Blob {
        seq![Ok(("type"@, kind_word(v))), Ok(("encoding"@, "base64"@))]
    } else {
        seq![Ok(("type"@, kind_word(v)))]
    }
}

/// The pieces of XML that a node is.
pub open spec fn node_pieces(n: SpecNode, ft: Seq<(u64, String)>) -> Seq<SpecXml> {
    seq![
        SpecXml::Start("node"@, node_attrs(n)),
        SpecXml::Start("name"@, Seq::<SpecAttr>::empty()),
    ] + text_piece(escaped(n.name)) + seq![
        SpecXml::End("name"@),
        SpecXml::Start("value"@, value_attrs(n.value)),
    ] + text_piece(value_content(n.value, ft)) + seq![SpecXml::End("value"@), SpecXml::End("node"@)]
}

/// The pieces of XML that nodes are.
pub open spec fn nodes_pieces(t: Nodes, ft: Seq<(u64, String)>) -> Seq<SpecXml>
    decreases t.len(),
{
    if t.len() == 0 {
        Seq::<SpecXml>::empty()
    } else {
        nodes_pieces(t.drop_last(), ft) + node_pieces(t.last(), ft)
    }
}

/// The declaration at the head.
pub const XML_HEAD: &'static str = "xml version=\"1.0\" encoding=\"UTF-8\"";

/// The pieces of XML before the nodes.
pub open spec fn head_pieces() -> Seq<SpecXml> {
    seq![
        SpecXml::Decl(XML_HEAD@),
        SpecXml::Text(seq!['\n']),
        SpecXml::Start("xirang"@, seq![Ok(("kernel"@, KERNEL@))]),
    ]
}

/// The pieces of the XML of nodes.
pub open spec fn all_pieces(t: Nodes, ft: Seq<(u64, String)>) -> Seq<SpecXml> {
    (head_pieces() + nodes_pieces(t, ft)).push(SpecXml::End("xirang"@))
}

/// Nodes as XML.
pub open spec fn xml_text(t: Nodes, ft: Seq<(u64, String)>) -> Seq<char> {
    markup(all_pieces(t, ft))
}

/// Writes an attribute.
fn put_attr(out: &mut String, name: &str, value: &str)
    ensures
        final(out)@ == old(out)@ + attr_text(Ok((name@, value@))),
{
    proof {
        reveal_strlit(" ");
        reveal_strlit("=\"");
        reveal_strlit("\"");
        assert(" "@ =~= seq![' ']);
        assert("=\""@ =~= seq!['=', '"']);
        assert("\""@ =~= seq!['"']);
    }
    out.append(" ");
    out.append(name);
    out.append("=\"");
    out.append(value);
    out.append("\"");
    assert(out@ =~= old(out)@ + attr_text(Ok((name@, value@))));
}

/// Writes the start of an element with at most two attributes.
fn put_start(out: &mut String, name: &str, first: Option<(&str, &str)>, second: Option<(&str, &str)>)
    ensures
        final(out)@ == old(out)@ + piece_text(
            SpecXml::Start(name@, pair_attr(first) + pair_attr(second)),
        ),
{
    proof {
        reveal_strlit("<");
        reveal_strlit(">");
        assert("<"@ =~= seq!['<']);
        assert(">"@ =~= seq!['>']);
        reveal_with_fuel(attrs_text, 3);
    }
    out.append("<");
    out.append(name);
    let ghost o1 = out@;
    if let Some((k, v)) = first {
        put_attr(out, k, v);
    }
    assert(out@ =~= o1 + attrs_text(pair_attr(first))) by {
        if first is Some {
            assert(pair_attr(first).drop_last() =~= Seq::<SpecAttr>::empty());
        }
    }
    if let Some((k, v)) = second {
        put_attr(out, k, v);
    }
    assert(out@ =~= o1 + attrs_text(pair_attr(first) + pair_attr(second))) by {
        let both = pair_attr(first) + pair_attr(second);
        if second is Some {
            assert(both.drop_last() =~= pair_attr(first));
            assert(both.last() == pair_attr(second)[0]);
        } else {
            assert(both =~= pair_attr(first));
        }
    }
    out.append(">");
    assert(out@ =~= old(out)@ + piece_text(
        SpecXml::Start(name@, pair_attr(first) + pair_attr(second)),
    ));
}

/// An optional attribute.
pub open spec fn pair_attr(a: Option<(&str, &str)>) -> Seq<SpecAttr> {
    match a {
        Some((k, v)) => seq![Ok((k@, v@))],
        None => Seq::<SpecAttr>::empty(),
    }
}

/// Writes the end of an element.
fn put_end(out: &mut String, name: &str)
    ensures
        final(out)@ == old(out)@ + piece_text(SpecXml::End(name@)),
{
    proof {
        reveal_strlit("</");
        reveal_strlit(">");
        assert("</"@ =~= seq!['<', '/']);
        assert(">"@ =~= seq!['>']);
    }
    out.append("</");
    out.append(name);
    out.append(">");
    assert(out@ =~= old(out)@ + piece_text(SpecXml::End(name@)));
}

proof fn lemma_markup_push(ps: Seq<SpecXml>, e: SpecXml)
    ensures
        markup(ps.push(e)) == markup(ps) + piece_text(e),
{
    assert(ps.push(e).drop_last() =~= ps);
}

proof fn lemma_markup_text(ps: Seq<SpecXml>, t: Seq<char>)
    ensures
        markup(ps + text_piece(t)) == markup(ps) + t,
{
    if t.len() == 0 {
        assert(ps + text_piece(t) =~= ps);
        assert(markup(ps) + t =~= markup(ps));
    } else {
        assert(ps + text_piece(t) =~= ps.push(SpecXml::Text(t)));
        lemma_markup_push(ps, SpecXml::Text(t));
    }
}

/// Writes a node.
fn put_xml_node(out: &mut String, n: &Node, ft: &Vec<(u64, String)>, Ghost(ps): Ghost<Seq<SpecXml>>)
    requires
        old(out)@ == markup(ps),
    ensures
        final(out)@ == markup(ps + node_pieces(n@, ft@)),
        blob_reads_back(n.value@),
{
    let id_text = n.id.to_string();
    let id = id_text.as_str();
    match n.parent {
        Some(p) => {
            let parent_text = p.to_string();
            let parent = parent_text.as_str();
            put_start(out, "node", Some(("id", id)), Some(("parent", parent)));
            assert(pair_attr(Some(("id", id))) + pair_attr(Some(("parent", parent))) =~= node_attrs(
                n@,
            ));
        },
        None => {
            put_start(out, "node", Some(("id", id)), None);
            assert(pair_attr(Some(("id", id))) + pair_attr(None) =~= node_attrs(n@));
        },
    }
    let ghost p1 = ps.push(SpecXml::Start("node"@, node_attrs(n@)));
    proof {
        lemma_markup_push(ps, SpecXml::Start("node"@, node_attrs(n@)));
    }
    put_start(out, "name", None, None);
    let ghost none = Seq::<SpecAttr>::empty();
    let ghost p2 = p1.push(SpecXml::Start("name"@, none));
    proof {
        assert(pair_attr(None) + pair_attr(None) =~= none);
        lemma_markup_push(p1, SpecXml::Start("name"@, none));
    }
    let name = xml_escape(n.name.as_str());
    out.append(name.as_str());
    let ghost p3 = p2 + text_piece(escaped(n.name@));
    proof {
        lemma_markup_text(p2, escaped(n.name@));
    }
    put_end(out, "name");
    let ghost p4 = p3.push(SpecXml::End("name"@));
    proof {
        lemma_markup_push(p3, SpecXml::End("name"@));
    }
    let kind = kind_word_of(&n.value);
    let content = match &n.value {
        Value::Blob(b) => {
            put_start(out, "value", Some(("type", kind)), Some(("encoding", "base64")));
            assert(pair_attr(Some(("type", kind))) + pair_attr(Some(("encoding", "base64")))
                =~= value_attrs(n.value@));
            base64_encode(b.as_slice())
        },
        _ => {
            put_start(out, "value", Some(("type", kind)), None);
            assert(pair_attr(Some(("type", kind))) + pair_attr(None) =~= value_attrs(n.value@));
            xml_escape(value_text(&n.value, ft).as_str())
        },
    };
    let ghost p5 = p4.push(SpecXml::Start("value"@, value_attrs(n.value@)));
    proof {
        lemma_markup_push(p4, SpecXml::Start("value"@, value_attrs(n.value@)));
    }
    out.append(content.as_str());
    let ghost p6 = p5 + text_piece(content@);
    proof {
        lemma_markup_text(p5, content@);
    }
    put_end(out, "value");
    let ghost p7 = p6.push(SpecXml::End("value"@));
    proof {
        lemma_markup_push(p6, SpecXml::End("value"@));
    }
    put_end(out, "node");
    proof {
        lemma_markup_push(p7, SpecXml::End("node"@));
        assert(p7.push(SpecXml::End("node"@)) =~= ps + node_pieces(n@, ft@));
    }
}

/// A store as XML. `ft` gives the texts of doubles.
pub fn to_xml(store: &Store, ft: &Vec<(u64, String)>) -> (r: String)
    requires
        store.wf(),
    ensures
        r@ == xml_text(store@, ft@),
        blobs_read_back(store@),
{
    let nodes = store.nodes();
    let mut out = String::new();
    proof {
        reveal_strlit("<?");
        reveal_strlit("?>");
        reveal_strlit("\n");
        assert("<?"@ =~= seq!['<', '?']);
        assert("?>"@ =~= seq!['?', '>']);
        assert("\n"@ =~= seq!['\n']);
    }
    out.append("<?");
    out.append(XML_HEAD);
    out.append("?>");
    out.append("\n");
    put_start(&mut out, "xirang", Some(("kernel", KERNEL)), None);
    proof {
        let h = head_pieces();
        let a = Seq::<SpecXml>::empty();
        let b = a.push(SpecXml::Decl(XML_HEAD@));
        let c = b.push(SpecXml::Text(seq!['\n']));
        let d = c.push(SpecXml::Start("xirang"@, seq![Ok(("kernel"@, KERNEL@))]));
        lemma_markup_push(a, SpecXml::Decl(XML_HEAD@));
        lemma_markup_push(b, SpecXml::Text(seq!['\n']));
        lemma_markup_push(c, SpecXml::Start("xirang"@, seq![Ok(("kernel"@, KERNEL@))]));
        assert(pair_attr(Some(("kernel", KERNEL))) + pair_attr(None) =~= seq![
            Ok(("kernel"@, KERNEL@)),
        ]);
        assert(d =~= h);
        assert(out@ =~= markup(h));
        assert(store@.take(0) =~= Seq::<SpecNode>::empty());
        assert(h + nodes_pieces(store@.take(0), ft@) =~= h);
    }
    let mut i: usize = 0;
    while i < nodes.len()
        invariant
            i <= nodes@.len(),
            models(nodes@) == store@,
            out@ == markup(head_pieces() + nodes_pieces(store@.take(i as int), ft@)),
            forall|k: int| 0 <= k < i ==> blob_reads_back((#[trigger] store@[k]).value),
        decreases nodes@.len() - i,
    {
        let ghost ps = head_pieces() + nodes_pieces(store@.take(i as int), ft@);
        put_xml_node(&mut out, &nodes[i], ft, Ghost(ps));
        proof {
            assert(store@[i as int] == nodes@[i as int]@);
            assert(store@.take(i + 1).drop_last() =~= store@.take(i as int));
            assert(store@.take(i + 1).last() == store@[i as int]);
            assert(ps + node_pieces(store@[i as int], ft@) =~= head_pieces() + nodes_pieces(
                store@.take(i + 1),
                ft@,
            ));
        }
        i = i + 1;
    }
    put_end(&mut out, "xirang");
    proof {
        assert(store@.take(store@.len() as int) =~= store@);
        lemma_markup_push(head_pieces() + nodes_pieces(store@, ft@), SpecXml::End("xirang"@));
    }
    out
}

// ---------------------------------------------------------------------------
// Reading XML
// ---------------------------------------------------------------------------

/// A node as it stands in XML: its ids as far as they are there, its name, the name of
/// its kind, and the text of its value, which is Base64 or not.
#[derive(Debug)]
pub struct XmlNode {
    pub id: Option<Uuid>,
    pub parent: Option<Uuid>,
    pub name: String,
    pub kind: String,
    pub text: String,
    pub encoded: bool,
}

/// What a node in XML is: the model of [`XmlNode`].
pub struct SpecXmlNode {
    pub id: Option<Uuid>,
    pub parent: Option<Uuid>,
    pub name: Seq<char>,
    pub kind: Seq<char>,
    pub text: Seq<char>,
    pub encoded: bool,
}

impl View for XmlNode {
    type V = SpecXmlNode;

    open spec fn view(&self) -> SpecXmlNode {
        SpecXmlNode {
            id: self.id,
            parent: self.parent,
            name: self.name@,
            kind: self.kind@,
            text: self.text@,
            encoded: self.encoded,
        }
    }
}

/// The models of nodes in XML.
pub open spec fn xml_models(s: Seq<XmlNode>) -> Seq<SpecXmlNode> {
    Seq::new(s.len(), |i: int| s[i]@)
}

/// Where the reader of nodes is: what it has of a node, and whether it is in a name or
/// in a value.
pub struct XmlState {
    pub at: SpecXmlNode,
    pub in_name: bool,
    pub in_value: bool,
}

/// What is said of an attribute that is wrong.
pub open spec fn attr_message(e: Seq<char>) -> Seq<char> {
    "XML 属性错误："@ + e
}

/// A node with the ids of attributes; or what is wrong with the first that is wrong.
pub open spec fn with_node_attrs(n: SpecXmlNode, attrs: Seq<SpecAttr>) -> Result<
    SpecXmlNode,
    Seq<char>,
>
    decreases attrs.len(),
{
    if attrs.len() == 0 {
        Ok(SpecXmlNode { id: None, parent: None, ..n })
    } else {
        match with_node_attrs(n, attrs.drop_last()) {
            Err(e) => Err(e),
            Ok(m) => match attrs.last() {
                Err(e) => Err(attr_message(e)),
                Ok((k, v)) => if k == "id"@ {
                    Ok(SpecXmlNode { id: id_of_text(v), ..m })
                } else if k == "parent"@ {
                    Ok(SpecXmlNode { parent: id_of_text(v), ..m })
                } else {
                    Ok(m)
                },
            },
        }
    }
}

/// A node with the kind and the encoding of attributes; or what is wrong with the first
/// that is wrong.
pub open spec fn with_value_attrs(n: SpecXmlNode, attrs: Seq<SpecAttr>) -> Result<
    SpecXmlNode,
    Seq<char>,
>
    decreases attrs.len(),
{
    if attrs.len() == 0 {
        Ok(
            SpecXmlNode {
                kind: Seq::<char>::empty(),
                text: Seq::<char>::empty(),
                encoded: false,
                ..n
            },
        )
    } else {
        match with_value_attrs(n, attrs.drop_last()) {
            Err(e) => Err(e),
            Ok(m) => match attrs.last() {
                Err(e) => Err(attr_message(e)),
                Ok((k, v)) => if k == "type"@ {
                    Ok(SpecXmlNode { kind: v, ..m })
                } else if k == "encoding"@ {
                    Ok(SpecXmlNode { encoded: true, ..m })
                } else {
                    Ok(m)
                },
            },
        }
    }
}

/// What a piece makes of where the reader is, and the node that it ends, if it does.
pub open spec fn xml_step(st: XmlState, e: SpecXml) -> Result<
    (XmlState, Option<SpecXmlNode>),
    Seq<char>,
> {
    match e {
        SpecXml::Start(name, attrs) => if name == "node"@ {
            match with_node_attrs(st.at, attrs) {
                Err(e) => Err(e),
                Ok(at) => Ok((XmlState { at, ..st }, None)),
            }
        } else if name == "name"@ {
            Ok(
                (
                    XmlState {
                        at: SpecXmlNode { name: Seq::<char>::empty(), ..st.at },
                        in_name: true,
                        ..st
                    },
                    None,
                ),
            )
        } else if name == "value"@ {
            match with_value_attrs(st.at, attrs) {
                Err(e) => Err(e),
                Ok(at) => Ok((XmlState { at, in_value: true, ..st }, None)),
            }
        } else {
            Ok((st, None))
        },
        SpecXml::Text(t) => if st.in_name {
            Ok(
                (
                    XmlState {
                        at: SpecXmlNode { name: st.at.name + unescaped(t), ..st.at },
                        ..st
                    },
                    None,
                ),
            )
        } else if st.in_value {
            Ok(
                (
                    XmlState {
                        at: SpecXmlNode { text: st.at.text + unescaped(t), ..st.at },
                        ..st
                    },
                    None,
                ),
            )
        } else {
            Ok((st, None))
        },
        SpecXml::End(name) => if name == "name"@ {
            Ok((XmlState { in_name: false, ..st }, None))
        } else if name == "value"@ {
            Ok((XmlState { in_value: false, ..st }, None))
        } else if name == "node"@ {
            Ok(
                (
                    XmlState { at: SpecXmlNode { name: Seq::<char>::empty(), ..st.at }, ..st },
                    Some(st.at),
                ),
            )
        } else {
            Ok((st, None))
        },
        _ => Ok((st, None)),
    }
}

/// The nodes in pieces behind those met before, up to the end or to what is wrong, with
/// that.
pub open spec fn xml_scan(es: Seq<SpecXml>, st: XmlState, done: Seq<SpecXmlNode>) -> (
    Seq<SpecXmlNode>,
    Option<Seq<char>>,
)
    decreases es.len(),
{
    if es.len() == 0 || es[0] is Eof {
        (done, None)
    } else if es[0] is Fault {
        (done, Some("XML 解析失败："@ + es[0]->Fault_0))
    } else {
        match xml_step(st, es[0]) {
            Err(e) => (done, Some(e)),
            Ok((s, None)) => xml_scan(es.skip(1), s, done),
            Ok((s, Some(n))) => xml_scan(es.skip(1), s, done.push(n)),
        }
    }
}

/// Where the reader of nodes starts.
pub open spec fn xml_start() -> XmlState {
    XmlState {
        at: SpecXmlNode {
            id: None,
            parent: None,
            name: Seq::<char>::empty(),
            kind: Seq::<char>::empty(),
            text: Seq::<char>::empty(),
            encoded: false,
        },
        in_name: false,
        in_value: false,
    }
}

/// The value of a node in XML; or what is wrong with it. `fp` gives the doubles that
/// texts are.
pub open spec fn xml_value(n: SpecXmlNode, fp: Seq<(String, u64)>) -> Result<SpecValue, Seq<char>> {
    let k = n.kind;
    if k == "blob"@ {
        if n.encoded {
            match base64_bytes(n.text) {
                Some(b) => Ok(SpecValue::Blob(b)),
                None => Err("C003：二进制块编码非法"@),
            }
        } else {
            Ok(SpecValue::Blob(Seq::<u8>::empty()))
        }
    } else if k == "reference"@ {
        match id_of_text(n.text) {
            Some(u) => Ok(SpecValue::Reference(u)),
            None => Err("C002：UUID 非法"@),
        }
    } else if k == "empty"@ {
        Ok(SpecValue::Empty)
    } else if k == "integer"@ {
        match signed_number(n.text) {
            Some(x) => if i64::MIN <= x <= i64::MAX {
                Ok(SpecValue::Int(x as i64))
            } else {
                Err("C001：整数类型值非法"@)
            },
            None => Err("C001：整数类型值非法"@),
        }
    } else if k == "float"@ {
        match float_bits_of(n.text, fp) {
            Some(b) => Ok(SpecValue::Float(b)),
            None => Err("C001：浮点类型值非法"@),
        }
    } else if k == "boolean"@ {
        Ok(SpecValue::Bool(n.text == "true"@))
    } else if k == "text"@ {
        Ok(SpecValue::Text(n.text))
    } else {
        Err("C001：类型名非法（"@ + k + "）"@)
    }
}

/// The node that a node in XML is; or what is wrong with it.
pub open spec fn xml_node(n: SpecXmlNode, fp: Seq<(String, u64)>) -> Result<SpecNode, Seq<char>> {
    match n.id {
        None => Err("C005：节点字段缺失（id）"@),
        Some(id) => match xml_value(n, fp) {
            Err(e) => Err(e),
            Ok(value) => Ok(SpecNode { id, parent: n.parent, name: n.name, value }),
        },
    }
}

/// The nodes that nodes in XML are; or what is wrong with the first that is wrong.
pub open spec fn xml_nodes(ns: Seq<SpecXmlNode>, fp: Seq<(String, u64)>) -> Result<Nodes, Seq<char>>
    decreases ns.len(),
{
    if ns.len() == 0 {
        Ok(Seq::<SpecNode>::empty())
    } else {
        match xml_nodes(ns.drop_last(), fp) {
            Err(e) => Err(e),
            Ok(t) => match xml_node(ns.last(), fp) {
                Err(e) => Err(e),
                Ok(n) => Ok(t.push(n)),
            },
        }
    }
}

/// What XML is read as: the nodes in its pieces, unless one of them, or a piece behind
/// them, is wrong.
pub open spec fn xml_outcome(
    scan: (Seq<SpecXmlNode>, Option<Seq<char>>),
    fp: Seq<(String, u64)>,
) -> Result<Nodes, Seq<char>> {
    match xml_nodes(scan.0, fp) {
        Err(e) => Err(e),
        Ok(t) => match scan.1 {
            Some(e) => Err(e),
            None => Ok(t),
        },
    }
}

/// A node with the ids of attributes; or what is wrong with the first that is wrong.
fn take_node_attrs(at: &mut XmlNode, attrs: &Vec<Result<(String, String), String>>) -> (r: Result<
    (),
    String,
>)
    ensures
        match with_node_attrs(old(at)@, attr_models(attrs@)) {
            Ok(n) => r is Ok && final(at)@ == n,
            Err(e) => r is Err && r->Err_0@ == e,
        },
{
    let ghost before = at@;
    let ghost ms = attr_models(attrs@);
    at.id = None;
    at.parent = None;
    let mut i: usize = 0;
    assert(ms.take(0) =~= Seq::<SpecAttr>::empty());
    while i < attrs.len()
        invariant
            i <= attrs@.len(),
            before == old(at)@,
            ms == attr_models(attrs@),
            with_node_attrs(before, ms.take(i as int)) == Ok::<SpecXmlNode, Seq<char>>(at@),
        decreases attrs@.len() - i,
    {
        proof {
            assert(ms.take(i + 1).drop_last() =~= ms.take(i as int));
            assert(ms.take(i + 1).last() == attr_model(attrs@[i as int]));
        }
        match &attrs[i] {
            Err(e) => {
                proof {
                    lemma_node_attrs_fail(before, ms, i + 1);
                }
                return Err(join2("XML 属性错误：", e.as_str()));
            },
            Ok(p) => {
                if same_text(p.0.as_str(), "id") {
                    at.id = Uuid::parse(p.1.as_str());
                } else if same_text(p.0.as_str(), "parent") {
                    at.parent = Uuid::parse(p.1.as_str());
                }
            },
        }
        i = i + 1;
    }
    assert(ms.take(ms.len() as int) =~= ms);
    Ok(())
}

proof fn lemma_node_attrs_fail(n: SpecXmlNode, attrs: Seq<SpecAttr>, i: int)
    requires
        0 <= i <= attrs.len(),
        with_node_attrs(n, attrs.take(i)) is Err,
    ensures
        with_node_attrs(n, attrs) == with_node_attrs(n, attrs.take(i)),
    decreases attrs.len(),
{
    if i < attrs.len() {
        let d = attrs.drop_last();
        assert(d.take(i) =~= attrs.take(i));
        lemma_node_attrs_fail(n, d, i);
    } else {
        assert(attrs.take(i) =~= attrs);
    }
}

/// A node with the kind and the encoding of attributes; or what is wrong with the first
/// that is wrong.
fn take_value_attrs(at: &mut XmlNode, attrs: &Vec<Result<(String, String), String>>) -> (r: Result<
    (),
    String,
>)
    ensures
        match with_value_attrs(old(at)@, attr_models(attrs@)) {
            Ok(n) => r is Ok && final(at)@ == n,
            Err(e) => r is Err && r->Err_0@ == e,
        },
{
    let ghost before = at@;
    let ghost ms = attr_models(attrs@);
    at.kind = String::new();
    at.text = String::new();
    at.encoded = false;
    let mut i: usize = 0;
    proof {
        assert(ms.take(0) =~= Seq::<SpecAttr>::empty());
        assert(at.kind@ =~= Seq::<char>::empty());
        assert(at.text@ =~= Seq::<char>::empty());
    }
    while i < attrs.len()
        invariant
            i <= attrs@.len(),
            before == old(at)@,
            ms == attr_models(attrs@),
            with_value_attrs(before, ms.take(i as int)) == Ok::<SpecXmlNode, Seq<char>>(at@),
        decreases attrs@.len() - i,
    {
        proof {
            assert(ms.take(i + 1).drop_last() =~= ms.take(i as int));
            assert(ms.take(i + 1).last() == attr_model(attrs@[i as int]));
        }
        match &attrs[i] {
            Err(e) => {
                proof {
                    lemma_value_attrs_fail(before, ms, i + 1);
                }
                return Err(join2("XML 属性错误：", e.as_str()));
            },
            Ok(p) => {
                if same_text(p.0.as_str(), "type") {
                    at.kind = p.1.clone();
                } else if same_text(p.0.as_str(), "encoding") {
                    at.encoded = true;
                }
            },
        }
        i = i + 1;
    }
    assert(ms.take(ms.len() as int) =~= ms);
    Ok(())
}

proof fn lemma_value_attrs_fail(n: SpecXmlNode, attrs: Seq<SpecAttr>, i: int)
    requires
        0 <= i <= attrs.len(),
        with_value_attrs(n, attrs.take(i)) is Err,
    ensures
        with_value_attrs(n, attrs) == with_value_attrs(n, attrs.take(i)),
    decreases attrs.len(),
{
    if i < attrs.len() {
        let d = attrs.drop_last();
        assert(d.take(i) =~= attrs.take(i));
        lemma_value_attrs_fail(n, d, i);
    } else {
        assert(attrs.take(i) =~= attrs);
    }
}

/// What reading XML has come to: the nodes that were met, and what was wrong behind
/// them, if anything.
#[derive(Debug)]
pub struct XmlScan {
    pub nodes: Vec<XmlNode>,
    pub fault: Option<String>,
}

impl View for XmlScan {
    type V = (Seq<SpecXmlNode>, Option<Seq<char>>);

    open spec fn view(&self) -> (Seq<SpecXmlNode>, Option<Seq<char>>) {
        (xml_models(self.nodes@), opt_text(self.fault))
    }
}

/// The reader of nodes in XML.
#[derive(Debug)]
pub struct XmlMachine {
    pub at: XmlNode,
    pub in_name: bool,
    pub in_value: bool,
    pub nodes: Vec<XmlNode>,
}

impl XmlMachine {
    /// Where the reader is.
    pub open spec fn state(self) -> XmlState {
        XmlState { at: self.at@, in_name: self.in_name, in_value: self.in_value }
    }

    /// A reader that has met nothing.
    pub fn new() -> (r: Self)
        ensures
            r.state() == xml_start(),
            r.nodes@.len() == 0,
    {
        let at = XmlNode {
            id: None,
            parent: None,
            name: String::new(),
            kind: String::new(),
            text: String::new(),
            encoded: false,
        };
        proof {
            assert(at.name@ =~= Seq::<char>::empty());
            assert(at.kind@ =~= Seq::<char>::empty());
            assert(at.text@ =~= Seq::<char>::empty());
        }
        XmlMachine { at, in_name: false, in_value: false, nodes: Vec::new() }
    }

    /// Takes in a piece.
    pub fn step(&mut self, e: &XmlEvent) -> (r: Result<(), String>)
        ensures
            match xml_step(old(self).state(), e@) {
                Err(m) => r is Err && r->Err_0@ == m && final(self).nodes == old(self).nodes,
                Ok((s, None)) => r is Ok && final(self).state() == s && final(self).nodes == old(
                    self,
                ).nodes,
                Ok((s, Some(n))) => r is Ok && final(self).state() == s && xml_models(
                    final(self).nodes@,
                ) == xml_models(old(self).nodes@).push(n),
            },
    {
        match e {
            XmlEvent::Start(name, attrs) => {
                if same_text(name.as_str(), "node") {
                    return take_node_attrs(&mut self.at, attrs);
                }
                if same_text(name.as_str(), "name") {
                    self.in_name = true;
                    self.at.name = String::new();
                    assert(self.at.name@ =~= Seq::<char>::empty());
                } else if same_text(name.as_str(), "value") {
                    self.in_value = true;
                    return take_value_attrs(&mut self.at, attrs);
                }
                Ok(())
            },
            XmlEvent::Text(t) => {
                if self.in_name {
                    let s = xml_unescape(t.as_str());
                    self.at.name.append(s.as_str());
                } else if self.in_value {
                    let s = xml_unescape(t.as_str());
                    self.at.text.append(s.as_str());
                }
                Ok(())
            },
            XmlEvent::End(name) => {
                if same_text(name.as_str(), "name") {
                    self.in_name = false;
                } else if same_text(name.as_str(), "value") {
                    self.in_value = false;
                } else if same_text(name.as_str(), "node") {
                    let n = XmlNode {
                        id: self.at.id,
                        parent: self.at.parent,
                        name: self.at.name.clone(),
                        kind: self.at.kind.clone(),
                        text: self.at.text.clone(),
                        encoded: self.at.encoded,
                    };
                    let ghost nm = n@;
                    let ghost n0 = self.nodes@;
                    self.nodes.push(n);
                    self.at.name = String::new();
                    assert(self.at.name@ =~= Seq::<char>::empty());
                    assert(xml_models(self.nodes@) =~= xml_models(n0).push(nm));
                }
                Ok(())
            },
            _ => Ok(()),
        }
    }
}

/// The nodes in XML, up to its end or to what is wrong with it, with that.
pub fn read_xml(text: &str) -> (r: XmlScan)
    ensures
        r@ == xml_scan(xml_pieces(text@), xml_start(), Seq::<SpecXmlNode>::empty()),
        forall|es: Seq<SpecXml>|
            good_pieces(es) && text@ == #[trigger] markup(es) ==> r@ == xml_scan(
                es.push(SpecXml::Eof),
                xml_start(),
                Seq::<SpecXmlNode>::empty(),
            ),
{
    let mut reader = XmlReader::new(text);
    let ghost all = xml_rest(reader);
    let ghost want = xml_scan(all, xml_start(), Seq::<SpecXmlNode>::empty());
    let mut m = XmlMachine::new();
    assert(xml_models(m.nodes@) =~= Seq::<SpecXmlNode>::empty());
    loop
        invariant
            terminated(xml_rest(reader)),
            want == xml_scan(all, xml_start(), Seq::<SpecXmlNode>::empty()),
            all == xml_pieces(text@),
            forall|es: Seq<SpecXml>|
                good_pieces(es) && text@ == #[trigger] markup(es) ==> all == es.push(SpecXml::Eof),
            want == xml_scan(xml_rest(reader), m.state(), xml_models(m.nodes@)),
        decreases xml_rest(reader).len(),
    {
        let ghost es = xml_rest(reader);
        let e = reader.next();
        match &e {
            XmlEvent::Eof => return XmlScan { nodes: m.nodes, fault: None },
            XmlEvent::Fault(err) => {
                return XmlScan {
                    nodes: m.nodes,
                    fault: Some(join2("XML 解析失败：", err.as_str())),
                };
            },
            _ => {},
        }
        proof {
            assert(!ends(es[0]));
            assert(es.len() > 1);
            assert forall|i: int| 0 <= i < es.skip(1).len() - 1 implies !ends(
                #[trigger] es.skip(1)[i],
            ) by {
                assert(es.skip(1)[i] == es[i + 1]);
            }
            assert(es.skip(1).last() == es.last());
        }
        match m.step(&e) {
            Err(msg) => return XmlScan { nodes: m.nodes, fault: Some(msg) },
            Ok(()) => {},
        }
    }
}

/// The value of a node in XML; or what is wrong with it.
fn xml_to_value(n: &XmlNode, fp: &Vec<(String, u64)>) -> (r: Result<Value, String>)
    ensures
        match xml_value(n@, fp@) {
            Ok(v) => r is Ok && r->Ok_0@ == v,
            Err(e) => r is Err && r->Err_0@ == e,
        },
{
    proof {
        lemma_kind_words();
    }
    let k = n.kind.as_str();
    if same_text(k, "blob") {
        if !n.encoded {
            let none: Vec<u8> = Vec::new();
            assert(none@ =~= Seq::<u8>::empty());
            return Ok(Value::Blob(none));
        }
        return match base64_decode(n.text.as_str()) {
            Some(b) => Ok(Value::Blob(b)),
            None => Err(owned("C003：二进制块编码非法")),
        };
    }
    if same_text(k, "reference") {
        return match Uuid::parse(n.text.as_str()) {
            Some(u) => Ok(Value::Reference(u)),
            None => Err(owned("C002：UUID 非法")),
        };
    }
    if same_text(k, "empty") {
        return Ok(Value::Empty);
    }
    if same_text(k, "integer") {
        return match crate::text::parse_i64(n.text.as_str()) {
            Some(x) => Ok(Value::Int(x)),
            None => Err(owned("C001：整数类型值非法")),
        };
    }
    if same_text(k, "float") {
        return match float_bits_for(n.text.as_str(), fp) {
            Some(b) => Ok(Value::Float(b)),
            None => Err(owned("C001：浮点类型值非法")),
        };
    }
    if same_text(k, "boolean") {
        return Ok(Value::Bool(same_text(n.text.as_str(), "true")));
    }
    if same_text(k, "text") {
        return Ok(Value::Text(n.text.clone()));
    }
    Err(join3("C001：类型名非法（", k, "）"))
}

proof fn lemma_xml_nodes_fail(ns: Seq<SpecXmlNode>, fp: Seq<(String, u64)>, i: int)
    requires
        0 <= i <= ns.len(),
        xml_nodes(ns.take(i), fp) is Err,
    ensures
        xml_nodes(ns, fp) == xml_nodes(ns.take(i), fp),
    decreases ns.len(),
{
    if i < ns.len() {
        let d = ns.drop_last();
        assert(d.take(i) =~= ns.take(i));
        lemma_xml_nodes_fail(d, fp, i);
    } else {
        assert(ns.take(i) =~= ns);
    }
}

/// The store of the nodes that were met in XML; or what is wrong. `fp` gives the doubles
/// that texts are.
pub fn xml_to_store(scan: &XmlScan, fp: &Vec<(String, u64)>) -> (r: Result<Store, String>)
    ensures
        match xml_outcome(scan@, fp@) {
            Ok(t) => r is Ok && r->Ok_0.wf() && r->Ok_0@ == t,
            Err(e) => r is Err && r->Err_0@ == e,
        },
{
    let ghost ns = xml_models(scan.nodes@);
    let mut store = Store::new();
    let mut i: usize = 0;
    assert(ns.take(0) =~= Seq::<SpecXmlNode>::empty());
    while i < scan.nodes.len()
        invariant
            i <= scan.nodes@.len(),
            ns == xml_models(scan.nodes@),
            store.wf(),
            xml_nodes(ns.take(i as int), fp@) == Ok::<Nodes, Seq<char>>(store@),
        decreases scan.nodes@.len() - i,
    {
        let n = &scan.nodes[i];
        proof {
            assert(ns.take(i + 1).drop_last() =~= ns.take(i as int));
            assert(ns.take(i + 1).last() == n@);
            if xml_node(n@, fp@) is Err {
                lemma_xml_nodes_fail(ns, fp@, i + 1);
            }
        }
        let id = match n.id {
            None => return Err(owned("C005：节点字段缺失（id）")),
            Some(id) => id,
        };
        match xml_to_value(n, fp) {
            Err(e) => return Err(e),
            Ok(value) => store.add(
                Node { id, parent: n.parent, name: n.name.clone(), value },
            ),
        }
        i = i + 1;
    }
    assert(ns.take(ns.len() as int) =~= ns);
    match &scan.fault {
        Some(e) => Err(e.clone()),
        None => Ok(store),
    }
}

// ---------------------------------------------------------------------------
// XML that was written is read as what it was made of
// ---------------------------------------------------------------------------

/// The names of elements and attributes are words, and different.
proof fn lemma_element_names()
    ensures
        is_word("node"@) && is_word("name"@) && is_word("value"@) && is_word("xirang"@),
        is_word("id"@) && is_word("parent"@) && is_word("type"@) && is_word("encoding"@) && is_word(
            "kernel"@,
        ),
        "node"@ != "name"@ && "node"@ != "value"@ && "name"@ != "value"@,
        "xirang"@ != "node"@ && "xirang"@ != "name"@ && "xirang"@ != "value"@,
        "id"@ != "parent"@ && "type"@ != "encoding"@,
{
    reveal_strlit("node");
    reveal_strlit("name");
    reveal_strlit("value");
    reveal_strlit("xirang");
    reveal_strlit("id");
    reveal_strlit("parent");
    reveal_strlit("type");
    reveal_strlit("encoding");
    reveal_strlit("kernel");
    assert("node"@[0] == 'n' && "node"@[1] == 'o');
    assert("name"@[0] == 'n' && "name"@[1] == 'a');
    assert("value"@[0] == 'v');
    assert("xirang"@[0] == 'x');
    assert("id"@[0] == 'i');
    assert("parent"@[0] == 'p');
    assert("type"@[0] == 't');
    assert("encoding"@[0] == 'e');
}

/// What stands in attributes is unmarked.
proof fn lemma_attr_values(u: Uuid, v: SpecValue)
    ensures
        is_unmarked(uuid_text(u)),
        is_unmarked(kind_word(v)),
        is_unmarked("base64"@),
        is_unmarked(KERNEL@),
{
    crate::codec::uuid_text_chars(u, 16);
    reveal_strlit("empty");
    reveal_strlit("integer");
    reveal_strlit("float");
    reveal_strlit("boolean");
    reveal_strlit("text");
    reveal_strlit("reference");
    reveal_strlit("blob");
    reveal_strlit("base64");
    reveal_strlit("1.0");
}

/// The attributes of a node can stand in a text.
proof fn lemma_node_attrs_good(n: SpecNode)
    ensures
        good_attrs(node_attrs(n)),
{
    lemma_element_names();
    lemma_attr_values(n.id, n.value);
    let s = node_attrs(n);
    if let Some(p) = n.parent {
        lemma_attr_values(p, n.value);
        assert(s.len() == 2);
    } else {
        assert(s.len() == 1);
    }
}

/// The attributes of a value can stand in a text.
proof fn lemma_value_attrs_good(v: SpecValue)
    ensures
        good_attrs(value_attrs(v)),
{
    lemma_element_names();
    lemma_attr_values(crate::codec::nil_id(), v);
    assert(value_attrs(v).len() <= 2);
}

/// What stands in XML for a value holds no `<`.
proof fn lemma_content_chars(v: SpecValue, ft: Seq<(u64, String)>)
    requires
        blob_reads_back(v),
    ensures
        !value_content(v, ft).contains('<'),
{
    lemma_escaped_chars(value_words(v, ft));
    if let SpecValue::Blob(b) = v {
        let s = base64_text(b);
        if s.contains('<') {
            let i = choose|i: int| 0 <= i < s.len() && s[i] == '<';
            assert(is_base64_char(s[i]));
        }
    }
}

/// Whether pieces can go on with markup: they are good so far.
spec fn goes_on(es: Seq<SpecXml>, names: Seq<Seq<char>>) -> bool {
    &&& good_pieces(es)
    &&& es.len() > 0
    &&& open_names(es) == Some(names)
}

proof fn lemma_goes_on(es: Seq<SpecXml>, names: Seq<Seq<char>>, e: SpecXml)
    requires
        goes_on(es, names),
        good_piece(e),
        e is Text ==> !(es.last() is Text),
        e is End ==> names.len() > 0 && names.last() == e->End_0,
    ensures
        goes_on(
            es.push(e),
            match e {
                SpecXml::Start(n, _) => names.push(n),
                SpecXml::End(_) => names.drop_last(),
                _ => names,
            },
        ),
{
    let p = es.push(e);
    assert(p.drop_last() =~= es);
    assert forall|i: int| 0 <= i < p.len() implies good_piece(#[trigger] p[i]) by {
        if i < es.len() {
            assert(p[i] == es[i]);
        }
    }
    assert forall|i: int| 0 < i < p.len() implies !((#[trigger] p[i]) is Text && p[i - 1] is Text) by {
        if i < es.len() {
            assert(p[i] == es[i] && p[i - 1] == es[i - 1]);
        }
    }
}

/// A text that holds no `<` can go on behind markup.
proof fn lemma_goes_on_text(es: Seq<SpecXml>, names: Seq<Seq<char>>, t: Seq<char>)
    requires
        goes_on(es, names),
        !(es.last() is Text),
        !t.contains('<'),
    ensures
        goes_on(es + text_piece(t), names),
{
    if t.len() == 0 {
        assert(es + text_piece(t) =~= es);
    } else {
        assert(es + text_piece(t) =~= es.push(SpecXml::Text(t)));
        lemma_goes_on(es, names, SpecXml::Text(t));
    }
}

proof fn lemma_node_goes_on(
    es: Seq<SpecXml>,
    names: Seq<Seq<char>>,
    n: SpecNode,
    ft: Seq<(u64, String)>,
)
    requires
        goes_on(es, names),
        blob_reads_back(n.value),
    ensures
        goes_on(es + node_pieces(n, ft), names),
        !((es + node_pieces(n, ft)).last() is Text),
{
    lemma_element_names();
    lemma_node_attrs_good(n);
    lemma_value_attrs_good(n.value);
    lemma_escaped_chars(n.name);
    lemma_content_chars(n.value, ft);
    let none = Seq::<SpecAttr>::empty();
    let e1 = SpecXml::Start("node"@, node_attrs(n));
    let p1 = es.push(e1);
    lemma_goes_on(es, names, e1);
    let n1 = names.push("node"@);
    let e2 = SpecXml::Start("name"@, none);
    let p2 = p1.push(e2);
    lemma_goes_on(p1, n1, e2);
    let n2 = n1.push("name"@);
    let p3 = p2 + text_piece(escaped(n.name));
    lemma_goes_on_text(p2, n2, escaped(n.name));
    let e4 = SpecXml::End("name"@);
    let p4 = p3.push(e4);
    lemma_goes_on(p3, n2, e4);
    assert(n2.drop_last() =~= n1);
    let e5 = SpecXml::Start("value"@, value_attrs(n.value));
    let p5 = p4.push(e5);
    lemma_goes_on(p4, n1, e5);
    let n5 = n1.push("value"@);
    let p6 = p5 + text_piece(value_content(n.value, ft));
    lemma_goes_on_text(p5, n5, value_content(n.value, ft));
    let e7 = SpecXml::End("value"@);
    let p7 = p6.push(e7);
    lemma_goes_on(p6, n5, e7);
    assert(n5.drop_last() =~= n1);
    let e8 = SpecXml::End("node"@);
    let p8 = p7.push(e8);
    lemma_goes_on(p7, n1, e8);
    assert(n1.drop_last() =~= names);
    assert(p8 =~= es + node_pieces(n, ft));
}

proof fn lemma_nodes_go_on(t: Nodes, ft: Seq<(u64, String)>)
    requires
        blobs_read_back(t),
    ensures
        goes_on(head_pieces() + nodes_pieces(t, ft), seq!["xirang"@]),
    decreases t.len(),
{
    if t.len() == 0 {
        lemma_element_names();
        lemma_attr_values(crate::codec::nil_id(), SpecValue::Empty);
        let a = Seq::<SpecXml>::empty();
        let e1 = SpecXml::Decl(XML_HEAD@);
        let b = a.push(e1);
        let none = Seq::<Seq<char>>::empty();
        reveal_strlit("xml version=\"1.0\" encoding=\"UTF-8\"");
        assert(XML_HEAD@.take(4) =~= seq!['x', 'm', 'l', ' ']);
        assert(good_piece(e1));
        assert(b.drop_last() =~= a);
        assert(open_names(a) == Some(none));
        assert(open_names(b) == Some(none));
        assert(goes_on(b, none));
        let e2 = SpecXml::Text(seq!['\n']);
        lemma_goes_on(b, none, e2);
        let c = b.push(e2);
        let attrs: Seq<SpecAttr> = seq![Ok(("kernel"@, KERNEL@))];
        assert(good_attrs(attrs));
        let e3 = SpecXml::Start("xirang"@, attrs);
        lemma_goes_on(c, none, e3);
        assert(none.push("xirang"@) =~= seq!["xirang"@]);
        assert(c.push(e3) =~= head_pieces());
        assert(head_pieces() + nodes_pieces(t, ft) =~= head_pieces());
    } else {
        let d = t.drop_last();
        assert forall|i: int| 0 <= i < d.len() implies blob_reads_back((#[trigger] d[i]).value) by {
            assert(d[i] == t[i]);
        }
        lemma_nodes_go_on(d, ft);
        let es = head_pieces() + nodes_pieces(d, ft);
        assert(t.last() == t[t.len() - 1]);
        lemma_node_goes_on(es, seq!["xirang"@], t.last(), ft);
        assert(es + node_pieces(t.last(), ft) =~= head_pieces() + nodes_pieces(t, ft));
    }
}

/// The pieces of the XML of nodes can stand in a text.
proof fn lemma_pieces_good(t: Nodes, ft: Seq<(u64, String)>)
    requires
        blobs_read_back(t),
    ensures
        good_pieces(all_pieces(t, ft)),
{
    lemma_nodes_go_on(t, ft);
    lemma_element_names();
    lemma_goes_on(
        head_pieces() + nodes_pieces(t, ft),
        seq!["xirang"@],
        SpecXml::End("xirang"@),
    );
}

/// A node as it stands in its XML.
pub open spec fn written_node(n: SpecNode, ft: Seq<(u64, String)>) -> SpecXmlNode {
    SpecXmlNode {
        id: Some(n.id),
        parent: n.parent,
        name: n.name,
        kind: kind_word(n.value),
        text: if n.value is Blob {
            base64_text(n.value->Blob_0)
        } else {
            value_words(n.value, ft)
        },
        encoded: n.value is Blob,
    }
}

/// A text without `&` has no entities.
proof fn lemma_no_entities(s: Seq<char>)
    requires
        forall|i: int| 0 <= i < s.len() ==> #[trigger] s[i] != '&',
    ensures
        unescaped(s) == s,
    decreases s.len(),
{
    if s.len() > 0 {
        assert(s[0] != '&');
        if s.len() >= 4 {
            assert(s.take(4)[0] == s[0] && entity('<')[0] == '&' && entity('>')[0] == '&');
        }
        if s.len() >= 5 {
            assert(s.take(5)[0] == s[0] && entity('&')[0] == '&');
        }
        if s.len() >= 6 {
            assert(s.take(6)[0] == s[0] && entity('"')[0] == '&' && entity('\'')[0] == '&');
        }
        assert(head_entity(s) is None);
        let r = s.skip(1);
        assert forall|i: int| 0 <= i < r.len() implies #[trigger] r[i] != '&' by {
            assert(r[i] == s[i + 1]);
        }
        lemma_no_entities(r);
        assert(seq![s[0]] + r =~= s);
    }
}

/// What stands in XML for a value is read as its text.
proof fn lemma_content_is_read(v: SpecValue, ft: Seq<(u64, String)>)
    requires
        blob_reads_back(v),
    ensures
        unescaped(value_content(v, ft)) == (if v is Blob {
            base64_text(v->Blob_0)
        } else {
            value_words(v, ft)
        }),
{
    if let SpecValue::Blob(b) = v {
        let s = base64_text(b);
        assert forall|i: int| 0 <= i < s.len() implies #[trigger] s[i] != '&' by {
            assert(is_base64_char(s[i]));
        }
        lemma_no_entities(s);
    } else {
        escaped_is_read(value_words(v, ft));
    }
}

proof fn lemma_scan_one(e: SpecXml, rest: Seq<SpecXml>, st: XmlState, done: Seq<SpecXmlNode>)
    requires
        !ends(e),
    ensures
        xml_scan(seq![e] + rest, st, done) == (match xml_step(st, e) {
            Err(m) => (done, Some(m)),
            Ok((s, None)) => xml_scan(rest, s, done),
            Ok((s, Some(n))) => xml_scan(rest, s, done.push(n)),
        }),
{
    let es = seq![e] + rest;
    assert(es[0] == e);
    assert(es.skip(1) =~= rest);
}

/// A text, if there is one, is taken in as a piece.
proof fn lemma_scan_text(t: Seq<char>, rest: Seq<SpecXml>, st: XmlState, done: Seq<SpecXmlNode>)
    requires
        st.in_name != st.in_value,
    ensures
        xml_scan(text_piece(t) + rest, st, done) == xml_scan(
            rest,
            XmlState {
                at: if st.in_name {
                    SpecXmlNode { name: st.at.name + unescaped(t), ..st.at }
                } else {
                    SpecXmlNode { text: st.at.text + unescaped(t), ..st.at }
                },
                ..st
            },
            done,
        ),
{
    if t.len() == 0 {
        assert(text_piece(t) + rest =~= rest);
        assert(unescaped(t) =~= Seq::<char>::empty());
        assert(st.at.name + unescaped(t) =~= st.at.name);
        assert(st.at.text + unescaped(t) =~= st.at.text);
    } else {
        lemma_scan_one(SpecXml::Text(t), rest, st, done);
    }
}

/// The text of an id is read as that id.
proof fn lemma_id_is_read(u: Uuid)
    ensures
        id_of_text(uuid_text(u)) == Some(u),
{
    crate::codec::uuid_text_round_trip(u, u);
    crate::codec::lemma_spelled(uuid_text(u), u);
}

/// The attribute of a node without a parent is read as its id.
proof fn lemma_id_attr_read(id: Uuid, at: SpecXmlNode)
    ensures
        with_node_attrs(at, seq![Ok(("id"@, uuid_text(id)))]) == Ok::<SpecXmlNode, Seq<char>>(
            SpecXmlNode { id: Some(id), parent: None, ..at },
        ),
{
    lemma_element_names();
    lemma_id_is_read(id);
    let none = Seq::<SpecAttr>::empty();
    let one: Seq<SpecAttr> = seq![Ok(("id"@, uuid_text(id)))];
    assert(one.drop_last() =~= none);
    assert(with_node_attrs(at, none) == Ok::<SpecXmlNode, Seq<char>>(
        SpecXmlNode { id: None, parent: None, ..at },
    ));
}

/// The attributes of a node are read as its ids.
proof fn lemma_node_attrs_read(n: SpecNode, at: SpecXmlNode)
    ensures
        with_node_attrs(at, node_attrs(n)) == Ok::<SpecXmlNode, Seq<char>>(
            SpecXmlNode { id: Some(n.id), parent: n.parent, ..at },
        ),
{
    lemma_id_attr_read(n.id, at);
    let s = node_attrs(n);
    let one: Seq<SpecAttr> = seq![Ok(("id"@, uuid_text(n.id)))];
    if let Some(p) = n.parent {
        lemma_element_names();
        lemma_id_is_read(p);
        assert(s.drop_last() =~= one);
        assert(s.last() == Ok::<(Seq<char>, Seq<char>), Seq<char>>(("parent"@, uuid_text(p))));
    } else {
        assert(s =~= one);
    }
}

/// The attributes of a value are read as its kind and encoding.
proof fn lemma_value_attrs_read(v: SpecValue, at: SpecXmlNode)
    ensures
        with_value_attrs(at, value_attrs(v)) == Ok::<SpecXmlNode, Seq<char>>(
            SpecXmlNode {
                kind: kind_word(v),
                text: Seq::<char>::empty(),
                encoded: v is Blob,
                ..at
            },
        ),
{
    lemma_element_names();
    reveal_with_fuel(with_value_attrs, 3);
    let s = value_attrs(v);
    let none = Seq::<SpecAttr>::empty();
    let one: Seq<SpecAttr> = seq![Ok(("type"@, kind_word(v)))];
    assert(one.drop_last() =~= none);
    if v is Blob {
        assert(s.drop_last() =~= one);
        assert(s.last() == Ok::<(Seq<char>, Seq<char>), Seq<char>>(("encoding"@, "base64"@)));
    } else {
        assert(s =~= one);
    }
}

/// The pieces of a node are read as the node that stands there.
proof fn lemma_scan_node(
    n: SpecNode,
    ft: Seq<(u64, String)>,
    rest: Seq<SpecXml>,
    st: XmlState,
    done: Seq<SpecXmlNode>,
) -> (out: XmlState)
    requires
        !st.in_name,
        !st.in_value,
        blob_reads_back(n.value),
    ensures
        !out.in_name,
        !out.in_value,
        xml_scan(node_pieces(n, ft) + rest, st, done) == xml_scan(
            rest,
            out,
            done.push(written_node(n, ft)),
        ),
{
    lemma_element_names();
    let none = Seq::<SpecAttr>::empty();
    let name = escaped(n.name);
    let content = value_content(n.value, ft);
    let e1 = SpecXml::Start("node"@, node_attrs(n));
    let e2 = SpecXml::Start("name"@, none);
    let e4 = SpecXml::End("name"@);
    let e5 = SpecXml::Start("value"@, value_attrs(n.value));
    let e7 = SpecXml::End("value"@);
    let e8 = SpecXml::End("node"@);
    let r8 = seq![e8] + rest;
    let r7 = seq![e7] + r8;
    let r6 = text_piece(content) + r7;
    let r5 = seq![e5] + r6;
    let r4 = seq![e4] + r5;
    let r3 = text_piece(name) + r4;
    let r2 = seq![e2] + r3;
    let r1 = seq![e1] + r2;
    assert(node_pieces(n, ft) + rest =~= r1);
    lemma_node_attrs_read(n, st.at);
    lemma_scan_one(e1, r2, st, done);
    let s1 = XmlState {
        at: SpecXmlNode { id: Some(n.id), parent: n.parent, ..st.at },
        ..st
    };
    lemma_scan_one(e2, r3, s1, done);
    let s2 = XmlState {
        at: SpecXmlNode { name: Seq::<char>::empty(), ..s1.at },
        in_name: true,
        ..s1
    };
    lemma_scan_text(name, r4, s2, done);
    escaped_is_read(n.name);
    assert(Seq::<char>::empty() + n.name =~= n.name);
    let s3 = XmlState { at: SpecXmlNode { name: n.name, ..s2.at }, ..s2 };
    lemma_scan_one(e4, r5, s3, done);
    let s4 = XmlState { in_name: false, ..s3 };
    lemma_value_attrs_read(n.value, s4.at);
    lemma_scan_one(e5, r6, s4, done);
    let s5 = XmlState {
        at: SpecXmlNode {
            kind: kind_word(n.value),
            text: Seq::<char>::empty(),
            encoded: n.value is Blob,
            ..s4.at
        },
        in_value: true,
        ..s4
    };
    lemma_scan_text(content, r7, s5, done);
    lemma_content_is_read(n.value, ft);
    let w = written_node(n, ft);
    assert(Seq::<char>::empty() + w.text =~= w.text);
    let s6 = XmlState { at: w, ..s5 };
    lemma_scan_one(e7, r8, s6, done);
    let s7 = XmlState { in_value: false, ..s6 };
    lemma_scan_one(e8, rest, s7, done);
    XmlState { at: SpecXmlNode { name: Seq::<char>::empty(), ..s7.at }, ..s7 }
}

/// The nodes as they stand in their XML.
pub open spec fn written_nodes(t: Nodes, ft: Seq<(u64, String)>) -> Seq<SpecXmlNode> {
    Seq::new(t.len(), |i: int| written_node(t[i], ft))
}

/// The pieces of nodes from `i` on.
spec fn pieces_from(t: Nodes, ft: Seq<(u64, String)>, i: int) -> Seq<SpecXml>
    decreases t.len() - i,
{
    if i >= t.len() {
        Seq::<SpecXml>::empty()
    } else {
        node_pieces(t[i], ft) + pieces_from(t, ft, i + 1)
    }
}

proof fn lemma_pieces_from(t: Nodes, ft: Seq<(u64, String)>, i: int)
    requires
        0 <= i <= t.len(),
    ensures
        nodes_pieces(t, ft) == nodes_pieces(t.take(i), ft) + pieces_from(t, ft, i),
    decreases t.len() - i,
{
    if i == t.len() {
        assert(t.take(i) =~= t);
        assert(nodes_pieces(t, ft) + Seq::<SpecXml>::empty() =~= nodes_pieces(t, ft));
    } else {
        lemma_pieces_from(t, ft, i + 1);
        assert(t.take(i + 1).drop_last() =~= t.take(i));
        assert(t.take(i + 1).last() == t[i]);
        assert((nodes_pieces(t.take(i), ft) + node_pieces(t[i], ft)) + pieces_from(t, ft, i + 1)
            =~= nodes_pieces(t.take(i), ft) + pieces_from(t, ft, i));
    }
}

proof fn lemma_scan_nodes(
    t: Nodes,
    ft: Seq<(u64, String)>,
    i: int,
    tail: Seq<SpecXml>,
    st: XmlState,
) -> (out: XmlState)
    requires
        0 <= i <= t.len(),
        !st.in_name,
        !st.in_value,
        blobs_read_back(t),
    ensures
        !out.in_name,
        !out.in_value,
        xml_scan(pieces_from(t, ft, i) + tail, st, written_nodes(t, ft).take(i)) == xml_scan(
            tail,
            out,
            written_nodes(t, ft),
        ),
    decreases t.len() - i,
{
    let w = written_nodes(t, ft);
    if i == t.len() {
        assert(pieces_from(t, ft, i) + tail =~= tail);
        assert(w.take(i) =~= w);
        st
    } else {
        let rest = pieces_from(t, ft, i + 1) + tail;
        assert(pieces_from(t, ft, i) + tail =~= node_pieces(t[i], ft) + rest);
        assert(blob_reads_back(t[i].value));
        let s = lemma_scan_node(t[i], ft, rest, st, w.take(i));
        assert(w.take(i).push(written_node(t[i], ft)) =~= w.take(i + 1));
        lemma_scan_nodes(t, ft, i + 1, tail, s)
    }
}

/// The pieces of the XML of nodes are read as those nodes.
proof fn lemma_scan_all(t: Nodes, ft: Seq<(u64, String)>)
    requires
        blobs_read_back(t),
    ensures
        xml_scan(
            all_pieces(t, ft).push(SpecXml::Eof),
            xml_start(),
            Seq::<SpecXmlNode>::empty(),
        ) == (written_nodes(t, ft), None::<Seq<char>>),
{
    lemma_element_names();
    let done = Seq::<SpecXmlNode>::empty();
    let st = xml_start();
    let h = head_pieces();
    let last = SpecXml::End("xirang"@);
    let r5 = seq![SpecXml::Eof];
    let tail = seq![last] + r5;
    let r3 = pieces_from(t, ft, 0) + tail;
    let r2 = seq![h[2]] + r3;
    let r1 = seq![h[1]] + r2;
    let r0 = seq![h[0]] + r1;
    lemma_pieces_from(t, ft, 0);
    assert(t.take(0) =~= Seq::<SpecNode>::empty());
    assert(nodes_pieces(t, ft) =~= pieces_from(t, ft, 0));
    assert(all_pieces(t, ft).push(SpecXml::Eof) =~= r0);
    lemma_scan_one(h[0], r1, st, done);
    lemma_scan_one(h[1], r2, st, done);
    lemma_scan_one(h[2], r3, st, done);
    assert(written_nodes(t, ft).take(0) =~= done);
    let s = lemma_scan_nodes(t, ft, 0, tail, st);
    lemma_scan_one(last, r5, s, written_nodes(t, ft));
    assert(r5[0] is Eof);
}

/// Whether the texts of doubles are read as those doubles.
pub open spec fn floats_parse_back(
    t: Nodes,
    ft: Seq<(u64, String)>,
    fp: Seq<(String, u64)>,
) -> bool {
    forall|i: int|
        0 <= i < t.len() && (#[trigger] t[i]).value is Float ==> float_bits_of(
            float_text_of(t[i].value->Float_0, ft),
            fp,
        ) == Some(t[i].value->Float_0)
}

proof fn lemma_written_value(n: SpecNode, ft: Seq<(u64, String)>, fp: Seq<(String, u64)>)
    requires
        blob_reads_back(n.value),
        n.value is Float ==> float_bits_of(float_text_of(n.value->Float_0, ft), fp) == Some(
            n.value->Float_0,
        ),
    ensures
        xml_node(written_node(n, ft), fp) == Ok::<SpecNode, Seq<char>>(n),
{
    lemma_kind_words();
    match n.value {
        SpecValue::Int(x) => {
            crate::text::signed_decimal_is_read(x as int);
        },
        SpecValue::Bool(b) => {
            reveal_strlit("true");
            reveal_strlit("false");
            assert("true"@[0] == 't' && "false"@[0] == 'f');
        },
        SpecValue::Reference(u) => {
            crate::codec::uuid_text_round_trip(u, u);
            crate::codec::lemma_spelled(uuid_text(u), u);
        },
        _ => {},
    }
}

proof fn lemma_written_nodes(t: Nodes, ft: Seq<(u64, String)>, fp: Seq<(String, u64)>)
    requires
        blobs_read_back(t),
        floats_parse_back(t, ft, fp),
    ensures
        xml_nodes(written_nodes(t, ft), fp) == Ok::<Nodes, Seq<char>>(t),
    decreases t.len(),
{
    if t.len() == 0 {
        assert(t =~= Seq::<SpecNode>::empty());
    } else {
        let d = t.drop_last();
        assert forall|i: int| 0 <= i < d.len() implies blob_reads_back((#[trigger] d[i]).value) by {
            assert(d[i] == t[i]);
        }
        assert forall|i: int|
            0 <= i < d.len() && (#[trigger] d[i]).value is Float implies float_bits_of(
            float_text_of(d[i].value->Float_0, ft),
            fp,
        ) == Some(d[i].value->Float_0) by {
            assert(d[i] == t[i]);
        }
        lemma_written_nodes(d, ft, fp);
        let w = written_nodes(t, ft);
        assert(w.drop_last() =~= written_nodes(d, ft));
        assert(w.last() == written_node(t.last(), ft));
        assert(t.last() == t[t.len() - 1]);
        lemma_written_value(t.last(), ft, fp);
        assert(d.push(t.last()) =~= t);
    }
}

/// The pieces of the XML of nodes are read as those nodes, where the texts of doubles
/// and of blobs are read as what they were made of; and they can stand in a text.
pub proof fn written_xml_is_read(t: Nodes, ft: Seq<(u64, String)>, fp: Seq<(String, u64)>)
    requires
        blobs_read_back(t),
        floats_parse_back(t, ft, fp),
    ensures
        good_pieces(all_pieces(t, ft)),
        xml_outcome(
            xml_scan(
                all_pieces(t, ft).push(SpecXml::Eof),
                xml_start(),
                Seq::<SpecXmlNode>::empty(),
            ),
            fp,
        ) == Ok::<Nodes, Seq<char>>(t),
{
    lemma_pieces_good(t, ft);
    lemma_scan_all(t, ft);
    lemma_written_nodes(t, ft, fp);
}

/// What a text is read as where it is read as XML.
pub open spec fn xml_read(text: Seq<char>, fp: Seq<(String, u64)>) -> Result<Nodes, Seq<char>> {
    xml_outcome(xml_scan(xml_pieces(text), xml_start(), Seq::<SpecXmlNode>::empty()), fp)
}

/// The store that a text is as XML; or what is wrong with it. `fp` gives the doubles that
/// texts are. The XML of nodes is read as those nodes, where the texts of doubles and of
/// blobs are read as what they were made of.
pub fn from_xml(text: &str, fp: &Vec<(String, u64)>) -> (r: Result<Store, String>)
    ensures
        match xml_read(text@, fp@) {
            Ok(t) => r is Ok && r->Ok_0.wf() && r->Ok_0@ == t,
            Err(e) => r is Err && r->Err_0@ == e,
        },
        forall|t: Nodes, ft: Seq<(u64, String)>|
            text@ == #[trigger] xml_text(t, ft) && blobs_read_back(t) && floats_parse_back(
                t,
                ft,
                fp@,
            ) ==> r is Ok && r->Ok_0@ == t,
{
    let scan = read_xml(text);
    proof {
        assert forall|t: Nodes, ft: Seq<(u64, String)>|
            text@ == #[trigger] xml_text(t, ft) && blobs_read_back(t) && floats_parse_back(
                t,
                ft,
                fp@,
            ) implies xml_outcome(scan@, fp@) == Ok::<Nodes, Seq<char>>(t) by {
            written_xml_is_read(t, ft, fp@);
            assert(text@ == markup(all_pieces(t, ft)));
        }
    }
    xml_to_store(&scan, fp)
}

// ---------------------------------------------------------------------------
// Markdown
// ---------------------------------------------------------------------------

/// A value as it is shown: a reference by the name of its target, a blob by its size.
pub open spec fn shown_value(t: Nodes, v: SpecValue, ft: Seq<(u64, String)>) -> Seq<char> {
    match v {
        SpecValue::Reference(u) => match crate::tree::found(t, u) {
            Some(n) => "→ "@ + n.name,
            None => "→ "@ + uuid_text(u),
        },
        SpecValue::Blob(b) => "[二进制块] "@ + decimal(b.len()) + " 字节"@,
        _ => value_words(v, ft),
    }
}

/// A name as it is shown.
pub open spec fn shown_name(s: Seq<char>) -> Seq<char> {
    if s.len() == 0 {
        "(未命名)"@
    } else {
        s
    }
}

/// What is still to be shown: a node with a heading, a node on a line, or the end of a
/// node's part.
pub enum MdItem {
    Enter(SpecNode, Seq<char>),
    Line(SpecNode),
    Close,
}

/// How much an item counts: what is to be shown counts twice as much as an end.
pub open spec fn md_weight(todo: Seq<MdItem>) -> nat
    decreases todo.len(),
{
    if todo.len() == 0 {
        0
    } else {
        md_weight(todo.drop_last()) + (if todo.last() is Close {
            1nat
        } else {
            2nat
        })
    }
}

/// Children as items: those with children get a heading, one deeper.
pub open spec fn md_items(t: Nodes, cs: Nodes, marks: Seq<char>) -> Seq<MdItem> {
    Seq::new(
        cs.len(),
        |i: int|
            if children_of(t, cs[i].id).len() > 0 {
                MdItem::Enter(cs[i], marks)
            } else {
                MdItem::Line(cs[i])
            },
    )
}

/// Weights add up.
pub proof fn lemma_md_weight(a: Seq<MdItem>, b: Seq<MdItem>)
    ensures
        md_weight(a + b) == md_weight(a) + md_weight(b),
    decreases b.len(),
{
    if b.len() == 0 {
        assert(a + b =~= a);
    } else {
        lemma_md_weight(a, b.drop_last());
        assert((a + b).drop_last() =~= a + b.drop_last());
    }
}

/// Children weigh twice their number.
pub proof fn lemma_md_items_weight(t: Nodes, cs: Nodes, marks: Seq<char>)
    ensures
        md_weight(md_items(t, cs, marks)) == 2 * cs.len(),
    decreases cs.len(),
{
    if cs.len() > 0 {
        lemma_md_items_weight(t, cs.drop_last(), marks);
        assert(md_items(t, cs, marks).drop_last() =~= md_items(t, cs.drop_last(), marks));
    }
}

/// Showing a node that was not met before leaves less to show.
pub proof fn lemma_md_shrinks(t: Nodes, todo: Seq<MdItem>, seen: Set<Uuid>, n: SpecNode, marks: Seq<char>)
    requires
        todo.len() > 0,
        !(todo[0] is Close),
        !seen.contains(n.id),
    ensures
        md_weight(
            md_items(t, children_of(t, n.id), marks) + seq![MdItem::Close] + todo.skip(1),
        ) + 2 * crate::model::pending(t, seen.insert(n.id)) < md_weight(todo) + 2
            * crate::model::pending(t, seen),
        md_weight(todo.skip(1)) < md_weight(todo),
{
    let cs = children_of(t, n.id);
    let items = md_items(t, cs, marks);
    let rest = todo.skip(1);
    crate::model::lemma_pending_insert(t, seen, n.id);
    lemma_md_items_weight(t, cs, marks);
    reveal_with_fuel(md_weight, 2);
    assert(seq![MdItem::Close].drop_last() =~= Seq::<MdItem>::empty());
    lemma_md_weight(items + seq![MdItem::Close], rest);
    lemma_md_weight(items, seq![MdItem::Close]);
    lemma_md_front(todo);
}

/// The first item and the rest make up the weight.
pub proof fn lemma_md_front(todo: Seq<MdItem>)
    requires
        todo.len() > 0,
    ensures
        md_weight(todo) == md_weight(todo.skip(1)) + (if todo[0] is Close {
            1nat
        } else {
            2nat
        }),
{
    reveal_with_fuel(md_weight, 2);
    assert(seq![todo[0]].drop_last() =~= Seq::<MdItem>::empty());
    lemma_md_weight(seq![todo[0]], todo.skip(1));
    assert(seq![todo[0]] + todo.skip(1) =~= todo);
}

/// The heading of a node, and its value where it has one.
pub open spec fn md_head(t: Nodes, n: SpecNode, marks: Seq<char>, ft: Seq<(u64, String)>) -> Seq<
    Seq<char>,
> {
    let none = Seq::<char>::empty();
    let head = seq![none, marks + " "@ + shown_name(n.name)];
    let v = shown_value(t, n.value, ft);
    let with_value = if v.len() > 0 {
        head + seq![none, v]
    } else {
        head
    };
    if children_of(t, n.id).len() > 0 {
        with_value.push(none)
    } else {
        with_value
    }
}

/// The lines that items are shown on. A node that was met before is not shown again.
pub open spec fn md_lines(
    t: Nodes,
    todo: Seq<MdItem>,
    seen: Set<Uuid>,
    ft: Seq<(u64, String)>,
) -> Seq<Seq<char>>
    decreases md_weight(todo) + 2 * crate::model::pending(t, seen),
{
    let none = Seq::<char>::empty();
    if todo.len() == 0 {
        Seq::<Seq<char>>::empty()
    } else {
        proof {
            lemma_md_front(todo);
        }
        match todo[0] {
            MdItem::Close => seq![none] + md_lines(t, todo.skip(1), seen, ft),
            MdItem::Line(n) => seq![
                "- **"@ + shown_name(n.name) + "**: "@ + shown_value(t, n.value, ft),
            ] + md_lines(t, todo.skip(1), seen, ft),
            MdItem::Enter(n, marks) => if seen.contains(n.id) {
                seq![none, marks + " （父边成环，已跳过）"@, none] + md_lines(
                    t,
                    todo.skip(1),
                    seen,
                    ft,
                )
            } else {
                proof {
                    lemma_md_shrinks(t, todo, seen, n, marks.push('#'));
                }
                md_head(t, n, marks, ft) + md_lines(
                    t,
                    md_items(t, children_of(t, n.id), marks.push('#')) + seq![MdItem::Close]
                        + todo.skip(1),
                    seen.insert(n.id),
                    ft,
                )
            },
        }
    }
}

/// Lines, each behind the end of the line before.
pub open spec fn glued(lines: Seq<Seq<char>>) -> Seq<char>
    decreases lines.len(),
{
    if lines.len() == 0 {
        Seq::<char>::empty()
    } else {
        glued(lines.drop_last()) + seq!['\n'] + lines.last()
    }
}

/// Roots as items.
pub open spec fn md_roots(t: Nodes) -> Seq<MdItem> {
    let rs = picked(t, |n: SpecNode| n.parent is None);
    Seq::new(rs.len(), |i: int| MdItem::Enter(rs[i], seq!['#', '#']))
}

/// Nodes as Markdown.
pub open spec fn md_text(t: Nodes, ft: Seq<(u64, String)>) -> Seq<char> {
    trimmed_end("# 息壤树"@ + glued(md_lines(t, md_roots(t), Set::<Uuid>::empty(), ft))).push('\n')
}

proof fn lemma_glued(a: Seq<Seq<char>>, b: Seq<Seq<char>>)
    ensures
        glued(a + b) == glued(a) + glued(b),
    decreases b.len(),
{
    if b.len() == 0 {
        assert(a + b =~= a);
        assert(glued(a) + Seq::<char>::empty() =~= glued(a));
    } else {
        lemma_glued(a, b.drop_last());
        assert((a + b).drop_last() =~= a + b.drop_last());
        assert((a + b).last() == b.last());
        assert((glued(a) + glued(b.drop_last())) + seq!['\n'] + b.last() =~= glued(a) + (glued(
            b.drop_last(),
        ) + seq!['\n'] + b.last()));
    }
}

/// Adds a line.
fn put_line(out: &mut String, line: &str, Ghost(lines): Ghost<Seq<Seq<char>>>, Ghost(head): Ghost<
    Seq<char>,
>)
    requires
        old(out)@ == head + glued(lines),
    ensures
        final(out)@ == head + glued(lines.push(line@)),
{
    crate::text::push_char(out, '\n');
    out.append(line);
    assert(lines.push(line@).drop_last() =~= lines);
    assert(out@ =~= head + glued(lines.push(line@)));
}

/// A value as it is shown.
fn md_value(store: &Store, v: &Value, ft: &Vec<(u64, String)>) -> (r: String)
    requires
        store.wf(),
    ensures
        r@ == shown_value(store@, v@, ft@),
{
    match v {
        Value::Reference(u) => match store.get(*u) {
            Some(n) => join2("→ ", n.name.as_str()),
            None => join2("→ ", u.to_string().as_str()),
        },
        Value::Blob(b) => join3("[二进制块] ", decimal_text(b.len() as u64).as_str(), " 字节"),
        _ => value_text(v, ft),
    }
}

/// A name as it is shown.
fn md_name(s: &str) -> (r: String)
    ensures
        r@ == shown_name(s@),
{
    if s.is_empty() {
        owned("(未命名)")
    } else {
        owned(s)
    }
}

/// What is still to be shown.
#[derive(Debug)]
pub enum MdTodo<'a> {
    Enter(&'a Node, String),
    Line(&'a Node),
    Close,
}

impl<'a> View for MdTodo<'a> {
    type V = MdItem;

    open spec fn view(&self) -> MdItem {
        match *self {
            MdTodo::Enter(n, marks) => MdItem::Enter(n@, marks@),
            MdTodo::Line(n) => MdItem::Line(n@),
            MdTodo::Close => MdItem::Close,
        }
    }
}

/// What a stack holds, from its top down.
spec fn md_stacked(s: Seq<MdTodo<'_>>) -> Seq<MdItem> {
    Seq::new(s.len(), |i: int| s[s.len() - 1 - i]@)
}

/// Adds the heading of a node, and its value where it has one.
fn put_head(
    out: &mut String,
    store: &Store,
    n: &Node,
    marks: &str,
    ft: &Vec<(u64, String)>,
    with_children: bool,
    Ghost(lines): Ghost<Seq<Seq<char>>>,
    Ghost(head): Ghost<Seq<char>>,
)
    requires
        store.wf(),
        old(out)@ == head + glued(lines),
        with_children == (children_of(store@, n@.id).len() > 0),
    ensures
        final(out)@ == head + glued(lines + md_head(store@, n@, marks@, ft@)),
{
    let ghost none = Seq::<char>::empty();
    proof {
        reveal_strlit("");
        assert(""@ =~= none);
    }
    put_line(out, "", Ghost(lines), Ghost(head));
    let name = md_name(n.name.as_str());
    let title = join3(marks, " ", name.as_str());
    let ghost l1 = lines.push(none);
    put_line(out, title.as_str(), Ghost(l1), Ghost(head));
    let ghost mut l2 = l1.push(title@);
    let v = md_value(store, &n.value, ft);
    if !v.as_str().is_empty() {
        put_line(out, "", Ghost(l2), Ghost(head));
        put_line(out, v.as_str(), Ghost(l2.push(none)), Ghost(head));
        proof {
            l2 = l2.push(none).push(v@);
        }
    }
    if with_children {
        put_line(out, "", Ghost(l2), Ghost(head));
        proof {
            l2 = l2.push(none);
        }
    }
    assert(l2 =~= lines + md_head(store@, n@, marks@, ft@));
}

/// Puts the children of a node on the stack, the first on top.
fn push_children<'a>(store: &'a Store, stack: &mut Vec<MdTodo<'a>>, pos: &Vec<usize>, n: &Node, marks: &str)
    requires
        store.wf(),
        crate::model::ints(pos@) == crate::model::kids(store@, n@.id),
        forall|k: int| 0 <= k < pos@.len() ==> #[trigger] pos@[k] < store@.len(),
    ensures
        md_stacked(final(stack)@) == md_items(store@, children_of(store@, n@.id), marks@)
            + md_stacked(old(stack)@),
{
    let ghost c = children_of(store@, n@.id);
    let ghost items = md_items(store@, c, marks@);
    let ghost rest = md_stacked(stack@);
    let mut k: usize = pos.len();
    assert(items.subrange(k as int, items.len() as int) + rest =~= md_stacked(stack@));
    while k > 0
        invariant
            k <= pos@.len(),
            store.wf(),
            c == children_of(store@, n@.id),
            items == md_items(store@, c, marks@),
            crate::model::ints(pos@) == crate::model::kids(store@, n@.id),
            forall|j: int| 0 <= j < pos@.len() ==> #[trigger] pos@[j] < store@.len(),
            md_stacked(stack@) == items.subrange(k as int, items.len() as int) + rest,
        decreases k,
    {
        k = k - 1;
        let ghost s0 = stack@;
        let m = store.at(pos[k]);
        let below = store.child_positions(m.id);
        proof {
            assert(crate::model::ints(pos@)[k as int] == pos@[k as int]);
            assert(c[k as int] == m@);
            assert(crate::model::ints(below@).len() == below@.len());
            assert(children_of(store@, m@.id).len() == below@.len());
        }
        if below.len() > 0 {
            stack.push(MdTodo::Enter(m, owned(marks)));
        } else {
            stack.push(MdTodo::Line(m));
        }
        proof {
            assert(stack@.last()@ == items[k as int]);
            assert(md_stacked(stack@) =~= seq![items[k as int]] + md_stacked(s0));
            assert(items.subrange(k as int, items.len() as int) =~= seq![items[k as int]]
                + items.subrange(k + 1, items.len() as int));
            assert(md_stacked(stack@) =~= items.subrange(k as int, items.len() as int) + rest);
        }
    }
    assert(items.subrange(0, items.len() as int) =~= items);
}

/// A store as Markdown: names stand for what they name. `ft` gives the texts of doubles.
pub fn to_md(store: &Store, ft: &Vec<(u64, String)>) -> (r: String)
    requires
        store.wf(),
    ensures
        r@ == md_text(store@, ft@),
{
    let ghost head = "# 息壤树"@;
    let ghost t = store@;
    let ghost all = md_lines(t, md_roots(t), Set::<Uuid>::empty(), ft@);
    let roots = store.roots();
    let mut stack: Vec<MdTodo<'_>> = Vec::new();
    let mut k: usize = roots.len();
    let ghost want = md_roots(t);
    proof {
        assert(ref_models(roots@).len() == roots@.len());
        assert(want.subrange(k as int, want.len() as int) =~= md_stacked(stack@));
    }
    while k > 0
        invariant
            k <= roots@.len(),
            want == md_roots(t),
            want.len() == roots@.len(),
            ref_models(roots@) == picked(t, |n: SpecNode| n.parent is None),
            md_stacked(stack@) == want.subrange(k as int, want.len() as int),
        decreases k,
    {
        k = k - 1;
        let ghost s0 = stack@;
        let marks = owned("##");
        proof {
            reveal_strlit("##");
            assert("##"@ =~= seq!['#', '#']);
            assert(ref_models(roots@)[k as int] == roots@[k as int]@);
        }
        stack.push(MdTodo::Enter(roots[k], marks));
        proof {
            assert(stack@.last()@ == want[k as int]);
            assert(md_stacked(stack@) =~= seq![want[k as int]] + md_stacked(s0));
            assert(want.subrange(k as int, want.len() as int) =~= seq![want[k as int]]
                + want.subrange(k + 1, want.len() as int));
        }
    }
    assert(want.subrange(0, want.len() as int) =~= want);
    let mut out = owned("# 息壤树");
    let mut seen = IdSet::new();
    let ghost mut lines: Seq<Seq<char>> = Seq::empty();
    proof {
        assert(out@ =~= head + glued(lines));
        assert(lines + md_lines(t, md_stacked(stack@), seen@, ft@) =~= all);
    }
    while stack.len() > 0
        invariant
            store.wf(),
            t == store@,
            all == lines + md_lines(t, md_stacked(stack@), seen@, ft@),
            out@ == head + glued(lines),
        decreases md_weight(md_stacked(stack@)) + 2 * crate::model::pending(t, seen@),
    {
        let ghost todo = md_stacked(stack@);
        let ghost s0 = seen@;
        let ghost l0 = lines;
        let ghost none = Seq::<char>::empty();
        proof {
            lemma_md_front(todo);
            reveal_strlit("");
            assert(""@ =~= none);
        }
        let item = match stack.pop() {
            Some(x) => x,
            None => MdTodo::Close,
        };
        let ghost rest = md_stacked(stack@);
        assert(todo[0] == item@);
        assert(rest =~= todo.skip(1));
        match item {
            MdTodo::Close => {
                put_line(&mut out, "", Ghost(lines), Ghost(head));
                proof {
                    lines = l0.push(none);
                    assert(l0 + (seq![none] + md_lines(t, rest, s0, ft@)) =~= lines + md_lines(
                        t,
                        rest,
                        s0,
                        ft@,
                    ));
                }
            },
            MdTodo::Line(n) => {
                let name = md_name(n.name.as_str());
                let v = md_value(store, &n.value, ft);
                let mut line = join3("- **", name.as_str(), "**: ");
                line.append(v.as_str());
                put_line(&mut out, line.as_str(), Ghost(lines), Ghost(head));
                proof {
                    lines = l0.push(line@);
                    assert(l0 + (seq![line@] + md_lines(t, rest, s0, ft@)) =~= lines + md_lines(
                        t,
                        rest,
                        s0,
                        ft@,
                    ));
                }
            },
            MdTodo::Enter(n, marks) => {
                if seen.insert(n.id) {
                    let pos = store.child_positions(n.id);
                    let ghost c = children_of(t, n.id);
                    proof {
                        assert(crate::model::ints(pos@).len() == pos@.len());
                        lemma_md_shrinks(t, todo, s0, n@, marks@.push('#'));
                    }
                    put_head(
                        &mut out,
                        store,
                        n,
                        marks.as_str(),
                        ft,
                        pos.len() > 0,
                        Ghost(lines),
                        Ghost(head),
                    );
                    let mut deeper = marks.clone();
                    crate::text::push_char(&mut deeper, '#');
                    let ghost st1 = stack@;
                    stack.push(MdTodo::Close);
                    let ghost closed = md_stacked(stack@);
                    assert(closed =~= seq![MdItem::Close] + rest);
                    push_children(store, &mut stack, &pos, n, deeper.as_str());
                    proof {
                        let h = md_head(t, n@, marks@, ft@);
                        let items = md_items(t, c, marks@.push('#'));
                        lines = l0 + h;
                        assert(md_stacked(stack@) =~= items + seq![MdItem::Close] + todo.skip(1));
                        assert(l0 + (h + md_lines(t, md_stacked(stack@), seen@, ft@)) =~= lines
                            + md_lines(t, md_stacked(stack@), seen@, ft@));
                    }
                } else {
                    let note = join2(marks.as_str(), " （父边成环，已跳过）");
                    put_line(&mut out, "", Ghost(lines), Ghost(head));
                    put_line(&mut out, note.as_str(), Ghost(lines.push(none)), Ghost(head));
                    put_line(
                        &mut out,
                        "",
                        Ghost(lines.push(none).push(note@)),
                        Ghost(head),
                    );
                    proof {
                        assert(seen@ =~= s0);
                        lines = l0.push(none).push(note@).push(none);
                        assert(l0 + (seq![none, note@, none] + md_lines(t, rest, s0, ft@))
                            =~= lines + md_lines(t, rest, s0, ft@));
                    }
                }
            },
        }
    }
    assert(lines =~= all);
    let mut r = trim_end(out.as_str());
    crate::text::push_char(&mut r, '\n');
    r
}

// ---------------------------------------------------------------------------
// Laws of documents
// ---------------------------------------------------------------------------

/// A document says its format and its kernel, and lists every node in order: its id, its
/// parent or null, its name, and its value with the word for its kind.
pub proof fn documents_list_every_node(t: Nodes, ft: Seq<(u64, String)>, i: int)
    requires
        0 <= i < t.len(),
    ensures
        ({
            let d = document(t, ft);
            &&& field_of(d, "format"@) == Some(SpecJson::Text("xirang"@))
            &&& field_of(d, "kernel"@) == Some(SpecJson::Text("1.0"@))
            &&& field_of(d, "nodes"@) is Some && field_of(d, "nodes"@)->Some_0 is List
            &&& field_of(d, "nodes"@)->Some_0->List_0.len() == t.len()
            &&& ({
                let n = field_of(d, "nodes"@)->Some_0->List_0[i];
                &&& field_of(n, "id"@) == Some(SpecJson::Text(uuid_text(t[i].id)))
                &&& t[i].parent is Some ==> field_of(n, "parent"@) == Some(
                    SpecJson::Text(uuid_text(t[i].parent->Some_0)),
                )
                &&& t[i].parent is None ==> field_of(n, "parent"@) == Some(SpecJson::Null)
                &&& field_of(n, "name"@) == Some(SpecJson::Text(t[i].name))
                &&& field_of(n, "value"@) == Some(value_json(t[i].value, ft))
            })
        }),
{
    reveal_strlit("format");
    reveal_strlit("kernel");
    reveal_strlit("nodes");
    reveal_strlit("id");
    reveal_strlit("parent");
    reveal_strlit("name");
    reveal_strlit("value");
    assert("format"@[0] == 'f' && "kernel"@[0] == 'k' && "nodes"@[0] == 'n' && "id"@[0] == 'i'
        && "parent"@[0] == 'p' && "name"@[0] == 'n' && "value"@[0] == 'v');
}

/// A value in a document: the word for its kind and its content; a blob says how it is
/// written, nothing else does.
pub proof fn documents_tell_kinds(v: SpecValue, ft: Seq<(u64, String)>)
    ensures
        ({
            let j = value_json(v, ft);
            &&& v == SpecValue::Empty ==> field_of(j, "type"@) == Some(SpecJson::Text("empty"@))
                && field_of(j, "value"@) == Some(SpecJson::Null)
            &&& v is Int ==> field_of(j, "type"@) == Some(SpecJson::Text("integer"@)) && field_of(
                j,
                "value"@,
            ) == Some(SpecJson::Int(v->Int_0 as int))
            &&& v is Float ==> field_of(j, "type"@) == Some(SpecJson::Text("float"@))
            &&& v is Bool ==> field_of(j, "type"@) == Some(SpecJson::Text("boolean"@)) && field_of(
                j,
                "value"@,
            ) == Some(SpecJson::Bool(v->Bool_0))
            &&& v is Text ==> field_of(j, "type"@) == Some(SpecJson::Text("text"@)) && field_of(
                j,
                "value"@,
            ) == Some(SpecJson::Text(v->Text_0))
            &&& v is Reference ==> field_of(j, "type"@) == Some(SpecJson::Text("reference"@))
                && field_of(j, "value"@) == Some(SpecJson::Text(uuid_text(v->Reference_0)))
            &&& v is Blob ==> field_of(j, "type"@) == Some(SpecJson::Text("blob"@)) && field_of(
                j,
                "encoding"@,
            ) == Some(SpecJson::Text("base64"@)) && field_of(j, "value"@) == Some(
                SpecJson::Text(base64_text(v->Blob_0)),
            )
            &&& !(v is Blob) ==> field_of(j, "encoding"@) is None
        }),
{
    reveal_strlit("type");
    reveal_strlit("value");
    reveal_strlit("encoding");
    assert("type"@[0] == 't' && "value"@[0] == 'v' && "encoding"@[0] == 'e');
}

/// A document whose node has no id, no name or no value is not read, nor is one with a kind
/// that there is not.
pub proof fn broken_nodes_are_not_read(f: SpecFlat)
    ensures
        node_of_flat(f) is Ok ==> f.id is Some && f.name is Some && f.value is Some && id_of_text(
            f.id->Some_0,
        ) == Some(node_of_flat(f)->Ok_0.id) && node_of_flat(f)->Ok_0.name == f.name->Some_0
            && value_of_flat(f.value->Some_0) == Ok::<SpecValue, Seq<char>>(
            node_of_flat(f)->Ok_0.value,
        ),
        node_of_flat(f) is Ok && f.parent is None ==> node_of_flat(f)->Ok_0.parent is None,
        node_of_flat(f) is Ok && f.parent is Some ==> node_of_flat(f)->Ok_0.parent is Some
            && id_of_text(f.parent->Some_0) == node_of_flat(f)->Ok_0.parent,
{
}

proof fn lemma_md_shown(
    t: Nodes,
    todo: Seq<MdItem>,
    seen: Set<Uuid>,
    ft: Seq<(u64, String)>,
    i: int,
)
    requires
        0 <= i < todo.len(),
    ensures
        md_lines(t, todo, seen, ft).len() > 0,
        shows(t, md_lines(t, todo, seen, ft), todo[i], ft),
    decreases md_weight(todo) + 2 * crate::model::pending(t, seen),
{
    lemma_md_front(todo);
    let lines = md_lines(t, todo, seen, ft);
    let none = Seq::<char>::empty();
    match todo[0] {
        MdItem::Close => {
            let front = seq![none];
            let rest = md_lines(t, todo.skip(1), seen, ft);
            assert(lines == front + rest);
            if i > 0 {
                lemma_md_shown(t, todo.skip(1), seen, ft, i - 1);
                lemma_shows_behind(t, front, rest, todo[i], ft);
            }
        },
        MdItem::Line(n) => {
            let front = seq!["- **"@ + shown_name(n.name) + "**: "@ + shown_value(t, n.value, ft)];
            let rest = md_lines(t, todo.skip(1), seen, ft);
            assert(lines == front + rest);
            if i > 0 {
                lemma_md_shown(t, todo.skip(1), seen, ft, i - 1);
                lemma_shows_behind(t, front, rest, todo[i], ft);
            } else {
                assert(lines[0] == front[0]);
            }
        },
        MdItem::Enter(n, marks) => {
            if seen.contains(n.id) {
                let front = seq![none, marks + " （父边成环，已跳过）"@, none];
                let rest = md_lines(t, todo.skip(1), seen, ft);
                assert(lines == front + rest);
                if i > 0 {
                    lemma_md_shown(t, todo.skip(1), seen, ft, i - 1);
                    lemma_shows_behind(t, front, rest, todo[i], ft);
                } else {
                    assert(lines[1] == front[1]);
                }
            } else {
                lemma_md_shrinks(t, todo, seen, n, marks.push('#'));
                let front = md_head(t, n, marks, ft);
                let items = md_items(t, children_of(t, n.id), marks.push('#'));
                let more = items + seq![MdItem::Close] + todo.skip(1);
                let rest = md_lines(t, more, seen.insert(n.id), ft);
                assert(lines == front + rest);
                if i > 0 {
                    assert(more[items.len() + i] == todo[i]);
                    lemma_md_shown(t, more, seen.insert(n.id), ft, items.len() + i);
                    lemma_shows_behind(t, front, rest, todo[i], ft);
                } else {
                    assert(lines[1] == front[1]);
                }
            }
        },
    }
}

/// Whether lines show an item: a heading with its marks and the name, or that the node was
/// met before; or a line with the name and the value.
pub open spec fn shows(
    t: Nodes,
    lines: Seq<Seq<char>>,
    item: MdItem,
    ft: Seq<(u64, String)>,
) -> bool {
    match item {
        MdItem::Close => true,
        MdItem::Line(n) => exists|k: int|
            0 <= k < lines.len() && #[trigger] lines[k] == "- **"@ + shown_name(n.name) + "**: "@
                + shown_value(t, n.value, ft),
        MdItem::Enter(n, marks) => exists|k: int|
            0 <= k < lines.len() && (#[trigger] lines[k] == marks + " "@ + shown_name(n.name)
                || lines[k] == marks + " （父边成环，已跳过）"@),
    }
}

proof fn lemma_shows_behind(
    t: Nodes,
    front: Seq<Seq<char>>,
    rest: Seq<Seq<char>>,
    item: MdItem,
    ft: Seq<(u64, String)>,
)
    requires
        shows(t, rest, item, ft),
    ensures
        shows(t, front + rest, item, ft),
{
    let all = front + rest;
    match item {
        MdItem::Close => {},
        MdItem::Line(n) => {
            let k = choose|k: int|
                0 <= k < rest.len() && #[trigger] rest[k] == "- **"@ + shown_name(n.name) + "**: "@
                    + shown_value(t, n.value, ft);
            assert(all[front.len() + k] == rest[k]);
        },
        MdItem::Enter(n, marks) => {
            let k = choose|k: int|
                0 <= k < rest.len() && (#[trigger] rest[k] == marks + " "@ + shown_name(n.name)
                    || rest[k] == marks + " （父边成环，已跳过）"@);
            assert(all[front.len() + k] == rest[k]);
        },
    }
}

/// Every node without a parent has a heading with two marks.
pub proof fn every_root_has_a_heading(t: Nodes, ft: Seq<(u64, String)>, i: int)
    requires
        0 <= i < t.len(),
        t[i].parent is None,
    ensures
        shows(
            t,
            md_lines(t, md_roots(t), Set::<Uuid>::empty(), ft),
            MdItem::Enter(t[i], seq!['#', '#']),
            ft,
        ),
{
    let p = |n: SpecNode| n.parent is None;
    crate::model::lemma_picks(t, p);
    assert(p(t[i]));
    let ks = crate::model::picks(t, p);
    let k = choose|k: int| 0 <= k < ks.len() && ks[k] == i;
    assert(md_roots(t)[k] == MdItem::Enter(t[i], seq!['#', '#']));
    lemma_md_shown(t, md_roots(t), Set::<Uuid>::empty(), ft, k);
}

/// Below the heading of a node that was not met before, each of its children is shown: with a
/// heading that has one mark more where it has children, and else on a line with its value.
pub proof fn every_child_is_shown(
    t: Nodes,
    todo: Seq<MdItem>,
    seen: Set<Uuid>,
    ft: Seq<(u64, String)>,
    n: SpecNode,
    marks: Seq<char>,
    i: int,
)
    requires
        todo.len() > 0,
        todo[0] == MdItem::Enter(n, marks),
        !seen.contains(n.id),
        0 <= i < t.len(),
        t[i].parent == Some(n.id),
    ensures
        (exists|j: int| 0 <= j < t.len() && (#[trigger] t[j]).parent == Some(t[i].id)) ==> shows(
            t,
            md_lines(t, todo, seen, ft),
            MdItem::Enter(t[i], marks.push('#')),
            ft,
        ),
        (forall|j: int| 0 <= j < t.len() ==> (#[trigger] t[j]).parent != Some(t[i].id)) ==> shows(
            t,
            md_lines(t, todo, seen, ft),
            MdItem::Line(t[i]),
            ft,
        ),
{
    lemma_md_front(todo);
    lemma_md_shrinks(t, todo, seen, n, marks.push('#'));
    let at = crate::model::children_stand_in_order(t, n.id, Seq::empty());
    let k = choose|k: int| 0 <= k < at.len() && at[k] == i;
    assert(0 <= at[k]);
    let items = md_items(t, children_of(t, n.id), marks.push('#'));
    let more = items + seq![MdItem::Close] + todo.skip(1);
    let rest = md_lines(t, more, seen.insert(n.id), ft);
    let front = md_head(t, n, marks, ft);
    assert(md_lines(t, todo, seen, ft) == front + rest);
    assert(more[k] == items[k]);
    lemma_md_shown(t, more, seen.insert(n.id), ft, k);
    lemma_shows_behind(t, front, rest, items[k], ft);
    let below = crate::model::children_stand_in_order(t, t[i].id, Seq::empty());
    if exists|j: int| 0 <= j < t.len() && (#[trigger] t[j]).parent == Some(t[i].id) {
        let j = choose|j: int| 0 <= j < t.len() && (#[trigger] t[j]).parent == Some(t[i].id);
        assert(below.contains(j));
    } else if below.len() > 0 {
        assert(t[below[0]].parent == Some(t[i].id));
    }
}

/// In an escaped text no character of markup is left, and every other one stands for itself.
pub proof fn nothing_of_markup_is_left(s: Seq<char>, c: char)
    ensures
        entity('&') == "&amp;"@ && entity('<') == "&lt;"@ && entity('>') == "&gt;"@ && entity('"')
            == "&quot;"@ && entity('\'') == "&apos;"@,
        c != '&' && c != '<' && c != '>' && c != '"' && c != '\'' ==> entity(c) == seq![c],
        forall|i: int|
            0 <= i < escaped(s).len() ==> #[trigger] escaped(s)[i] != '<' && escaped(s)[i] != '>'
                && escaped(s)[i] != '"' && escaped(s)[i] != '\'',
    decreases s.len(),
{
    reveal_strlit("&amp;");
    reveal_strlit("&lt;");
    reveal_strlit("&gt;");
    reveal_strlit("&quot;");
    reveal_strlit("&apos;");
    assert(entity('&') =~= "&amp;"@);
    assert(entity('<') =~= "&lt;"@);
    assert(entity('>') =~= "&gt;"@);
    assert(entity('"') =~= "&quot;"@);
    assert(entity('\'') =~= "&apos;"@);
    if s.len() > 0 {
        let d = s.drop_last();
        let e = entity(s.last());
        nothing_of_markup_is_left(d, c);
        assert forall|i: int| 0 <= i < e.len() implies #[trigger] e[i] != '<' && e[i] != '>' && e[i]
            != '"' && e[i] != '\'' by {}
        assert forall|i: int| 0 <= i < escaped(s).len() implies #[trigger] escaped(s)[i] != '<'
            && escaped(s)[i] != '>' && escaped(s)[i] != '"' && escaped(s)[i] != '\'' by {
            if i < escaped(d).len() {
                assert(escaped(s)[i] == escaped(d)[i]);
            } else {
                assert(escaped(s)[i] == e[i - escaped(d).len()]);
            }
        }
    }
}

/// A node in XML: an element with its id and its parent, in it the name and then the value
/// with the word for its kind.
pub proof fn xml_elements_tell_nodes(n: SpecNode, ft: Seq<(u64, String)>)
    ensures
        ({
            let p = node_pieces(n, ft);
            &&& p.len() > 1
            &&& p[0] is Start && p[0]->Start_0 == "node"@
            &&& p[0]->Start_1[0] == Ok::<(Seq<char>, Seq<char>), Seq<char>>(
                ("id"@, uuid_text(n.id)),
            )
            &&& n.parent is Some ==> p[0]->Start_1.len() == 2 && p[0]->Start_1[1] == Ok::<
                (Seq<char>, Seq<char>),
                Seq<char>,
            >(("parent"@, uuid_text(n.parent->Some_0)))
            &&& n.parent is None ==> p[0]->Start_1.len() == 1
            &&& p[1] == SpecXml::Start("name"@, Seq::<SpecAttr>::empty())
            &&& p.last() == SpecXml::End("node"@)
            &&& p[p.len() - 2] == SpecXml::End("value"@)
        }),
        value_attrs(n.value)[0] == Ok::<(Seq<char>, Seq<char>), Seq<char>>(
            ("type"@, kind_word(n.value)),
        ),
{
}

} // verus!
