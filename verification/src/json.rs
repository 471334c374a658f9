//! JSON values, and their text as JSON and as YAML.
use crate::sort::bytes_lt;
use vstd::prelude::*;
use vstd::utf8::encode_utf8;

verus! {

/// What a JSON value is. Whole numbers are between -2^63 and 2^64 - 1; other numbers
/// are given by the bits of a double.
pub enum SpecJson {
    Null,
    Bool(bool),
    Int(int),
    Float(u64),
    Text(Seq<char>),
    List(Seq<SpecJson>),
    Object(Map<Seq<char>, SpecJson>),
}

/// A `serde_json::Value`.
#[verifier::external_body]
#[derive(Debug)]
pub struct Json {
    inner: serde_json::Value,
}

/// A reference to a `serde_json::Value`.
#[verifier::external_body]
#[derive(Debug)]
pub struct JsonRef<'a> {
    inner: &'a serde_json::Value,
}

/// What a value holds.
pub uninterp spec fn json_tree(v: Json) -> SpecJson;

/// What the value that is referred to holds.
pub uninterp spec fn ref_tree(v: JsonRef) -> SpecJson;

/// What values hold.
pub open spec fn json_trees(s: Seq<Json>) -> Seq<SpecJson> {
    Seq::new(s.len(), |i: int| json_tree(s[i]))
}

/// What the values that are referred to hold.
pub open spec fn ref_trees(s: Seq<JsonRef>) -> Seq<SpecJson> {
    Seq::new(s.len(), |i: int| ref_tree(s[i]))
}

/// The fields of an object: a later one takes the place of an earlier one with the
/// same name.
pub open spec fn fields_map(fields: Seq<(String, Json)>) -> Map<Seq<char>, SpecJson>
    decreases fields.len(),
{
    if fields.len() == 0 {
        Map::<Seq<char>, SpecJson>::empty()
    } else {
        fields_map(fields.drop_last()).insert(fields.last().0@, json_tree(fields.last().1))
    }
}

/// The field of an object.
pub open spec fn field_of(j: SpecJson, key: Seq<char>) -> Option<SpecJson> {
    match j {
        SpecJson::Object(m) => if m.contains_key(key) {
            Some(m[key])
        } else {
            None
        },
        _ => None,
    }
}

impl Json {
    /// A reference to the value.
    #[verifier::external_body]
    pub(crate) fn view_of(&self) -> (r: JsonRef<'_>)
        ensures
            ref_tree(r) == json_tree(*self),
    {
        JsonRef { inner: &self.inner }
    }
}

impl Json {
    /// A reference to the value.
    pub fn root(&self) -> (r: JsonRef<'_>)
        ensures
            ref_tree(r) == json_tree(*self),
    {
        self.view_of()
    }

    /// The text of the value on one line.
    pub fn line(&self) -> (r: String)
        ensures
            r@ == compact_json(json_tree(*self)),
            (plain(json_tree(*self), 100) ==> json_read(r@) == Ok::<SpecJson, Seq<char>>(
                json_tree(*self),
            )),
    {
        json_to_line(self)
    }
}

/// The value that a text is as JSON; or what is wrong with it.
pub fn parse_json(text: &str) -> (r: Result<Json, String>)
    ensures
        match r {
            Ok(v) => json_read(text@) == Ok::<SpecJson, Seq<char>>(json_tree(v)),
            Err(e) => json_read(text@) == Err::<SpecJson, Seq<char>>(e@),
        },
{
    json_from_text(text)
}

/// The bits of the double that a whole number is turned into.
pub uninterp spec fn int_float_bits(n: int) -> u64;

impl<'a> JsonRef<'a> {
    /// `serde_json::Value::get` with the name of a field: the field of an object, and
    /// nothing for any other value.
    #[verifier::external_body]
    pub(crate) fn get(&self, key: &str) -> (r: Option<JsonRef<'a>>)
        ensures
            match r {
                Some(x) => field_of(ref_tree(*self), key@) == Some(ref_tree(x)),
                None => field_of(ref_tree(*self), key@) is None,
            },
    {
        self.inner.get(key).map(|inner| JsonRef { inner })
    }

    /// `serde_json::Value::as_str`: the text of a text, and nothing for any other
    /// value.
    #[verifier::external_body]
    pub(crate) fn as_str(&self) -> (r: Option<&'a str>)
        ensures
            match r {
                Some(s) => ref_tree(*self) == SpecJson::Text(s@),
                None => !(ref_tree(*self) is Text),
            },
    {
        self.inner.as_str()
    }

    /// `serde_json::Value::as_bool`: the truth value, and nothing for any other value.
    #[verifier::external_body]
    pub(crate) fn as_bool(&self) -> (r: Option<bool>)
        ensures
            match r {
                Some(b) => ref_tree(*self) == SpecJson::Bool(b),
                None => !(ref_tree(*self) is Bool),
            },
    {
        self.inner.as_bool()
    }

    /// `serde_json::Value::as_i64`: a whole number that an `i64` can hold, and nothing
    /// for any other value.
    #[verifier::external_body]
    pub(crate) fn as_i64(&self) -> (r: Option<i64>)
        ensures
            match r {
                Some(n) => ref_tree(*self) == SpecJson::Int(n as int),
                None => match ref_tree(*self) {
                    SpecJson::Int(n) => n < i64::MIN || n > i64::MAX,
                    _ => true,
                },
            },
    {
        self.inner.as_i64()
    }

    /// `serde_json::Value::as_u64`: a whole number that a `u64` can hold, and nothing for
    /// any other value.
    #[verifier::external_body]
    pub(crate) fn as_u64(&self) -> (r: Option<u64>)
        ensures
            match r {
                Some(n) => ref_tree(*self) == SpecJson::Int(n as int),
                None => match ref_tree(*self) {
                    SpecJson::Int(n) => n < 0 || n > u64::MAX,
                    _ => true,
                },
            },
    {
        self.inner.as_u64()
    }

    /// `serde_json::Value::is_null`: whether the value stands for nothing.
    #[verifier::external_body]
    pub(crate) fn is_null(&self) -> (r: bool)
        ensures
            r == (ref_tree(*self) is Null),
    {
        self.inner.is_null()
    }

    /// `serde_json::Value::clone`: a value that holds the same.
    #[verifier::external_body]
    pub(crate) fn cloned(&self) -> (r: Json)
        ensures
            json_tree(r) == ref_tree(*self),
    {
        Json { inner: self.inner.clone() }
    }

    /// `serde_json::Value::as_f64`: the bits of a number as a double, and nothing for
    /// any other value. What double a whole number becomes is not stated.
    #[verifier::external_body]
    pub(crate) fn float_bits(&self) -> (r: Option<u64>)
        ensures
            r == (match ref_tree(*self) {
                SpecJson::Float(b) => Some(b),
                SpecJson::Int(n) => Some(int_float_bits(n)),
                _ => None,
            }),
    {
        self.inner.as_f64().map(|x| x.to_bits())
    }

    /// `serde_json::Value::as_array`: the items of a list, and nothing for any other
    /// value.
    #[verifier::external_body]
    pub(crate) fn items(&self) -> (r: Option<Vec<JsonRef<'a>>>)
        ensures
            match r {
                Some(items) => ref_tree(*self) == SpecJson::List(ref_trees(items@)),
                None => !(ref_tree(*self) is List),
            },
    {
        self.inner.as_array().map(|v| v.iter().map(|inner| JsonRef { inner }).collect())
    }

    /// `serde_json::Value::as_object`: the fields of an object, which is kept in a
    /// `BTreeMap` and so gives them in the order of their names, and nothing for any
    /// other value.
    #[verifier::external_body]
    pub(crate) fn fields(&self) -> (r: Option<Vec<(String, JsonRef<'a>)>>)
        ensures
            match r {
                Some(fs) => {
                    let t = ref_tree(*self);
                    &&& t is Object
                    &&& names_in_order(t->Object_0, field_names(fs@))
                    &&& forall|i: int|
                        0 <= i < fs@.len() ==> ref_tree((#[trigger] fs@[i]).1)
                            == t->Object_0[fs@[i].0@]
                },
                None => !(ref_tree(*self) is Object),
            },
    {
        let fields = self.inner.as_object();
        fields.map(|m| m.iter().map(|(k, inner)| (k.clone(), JsonRef { inner })).collect())
    }
}

/// The names of fields.
pub open spec fn field_names(fields: Seq<(String, JsonRef)>) -> Seq<Seq<char>> {
    Seq::new(fields.len(), |i: int| fields[i].0@)
}

/// Whether these are the names of all fields of an object, in the order of their bytes.
pub open spec fn names_in_order(m: Map<Seq<char>, SpecJson>, names: Seq<Seq<char>>) -> bool {
    &&& forall|i: int| 0 <= i < names.len() ==> m.contains_key(#[trigger] names[i])
    &&& forall|k: Seq<char>| #[trigger] m.contains_key(k) ==> names.contains(k)
    &&& forall|i: int, j: int|
        0 <= i < j < names.len() ==> bytes_lt(
            encode_utf8(#[trigger] names[i]),
            encode_utf8(#[trigger] names[j]),
        )
}

/// The names of the fields of an object, in the order of their bytes.
pub open spec fn object_names(m: Map<Seq<char>, SpecJson>) -> Seq<Seq<char>> {
    choose|names: Seq<Seq<char>>| names_in_order(m, names)
}

proof fn lemma_same_start(
    m: Map<Seq<char>, SpecJson>,
    a: Seq<Seq<char>>,
    b: Seq<Seq<char>>,
    n: int,
)
    requires
        names_in_order(m, a),
        names_in_order(m, b),
        0 <= n <= a.len(),
    ensures
        n <= b.len(),
        forall|i: int| 0 <= i < n ==> #[trigger] a[i] == b[i],
    decreases n,
{
    if n > 0 {
        lemma_same_start(m, a, b, n - 1);
        let i = n - 1;
        assert(m.contains_key(a[i]));
        let j = choose|j: int| 0 <= j < b.len() && b[j] == a[i];
        if j < i {
            assert(a[j] == b[j]);
            assert(bytes_lt(encode_utf8(a[j]), encode_utf8(a[i])));
        }
        if j > i {
            assert(m.contains_key(b[i]));
            let k = choose|k: int| 0 <= k < a.len() && a[k] == b[i];
            assert(bytes_lt(encode_utf8(b[i]), encode_utf8(b[j])));
            if k < i {
                assert(a[k] == b[k]);
                assert(bytes_lt(encode_utf8(b[k]), encode_utf8(b[i])));
            } else if k == i {
                assert(bytes_lt(encode_utf8(a[i]), encode_utf8(a[i])));
            } else {
                assert(bytes_lt(encode_utf8(a[i]), encode_utf8(a[k])));
                crate::sort::lemma_bytes_le_antisymmetric(encode_utf8(a[i]), encode_utf8(b[i]));
            }
        }
    }
}

/// Names that are in order are the names of the object; there are finitely many.
pub proof fn lemma_object_names(m: Map<Seq<char>, SpecJson>, names: Seq<Seq<char>>)
    requires
        names_in_order(m, names),
    ensures
        object_names(m) == names,
        m.dom().finite(),
{
    let o = object_names(m);
    lemma_same_start(m, names, o, names.len() as int);
    lemma_same_start(m, o, names, o.len() as int);
    assert(o =~= names);
    assert(m.dom() =~= names.to_set());
    vstd::seq_lib::seq_to_set_is_finite(names);
}

/// The bits of the double that a value is read as.
pub open spec fn number_bits(j: SpecJson) -> Option<u64> {
    match j {
        SpecJson::Float(b) => Some(b),
        SpecJson::Int(n) => Some(int_float_bits(n)),
        _ => None,
    }
}

/// `serde_json::Value::Null`: the value that stands for nothing.
#[verifier::external_body]
pub(crate) fn json_null() -> (r: Json)
    ensures
        json_tree(r) == SpecJson::Null,
{
    Json { inner: serde_json::Value::Null }
}

/// `serde_json::Value::from` on a truth value.
#[verifier::external_body]
pub(crate) fn json_bool(b: bool) -> (r: Json)
    ensures
        json_tree(r) == SpecJson::Bool(b),
{
    Json { inner: serde_json::Value::from(b) }
}

/// `serde_json::Value::from` on a whole number.
#[verifier::external_body]
pub(crate) fn json_int(n: i64) -> (r: Json)
    ensures
        json_tree(r) == SpecJson::Int(n as int),
{
    Json { inner: serde_json::Value::from(n) }
}

/// `serde_json::Value::from` on a whole number that is not negative.
#[verifier::external_body]
pub(crate) fn json_whole(n: u64) -> (r: Json)
    ensures
        json_tree(r) == SpecJson::Int(n as int),
{
    Json { inner: serde_json::Value::from(n) }
}

/// `serde_json::Value::from` on a text.
#[verifier::external_body]
pub(crate) fn json_text(s: String) -> (r: Json)
    ensures
        json_tree(r) == SpecJson::Text(s@),
{
    Json { inner: serde_json::Value::from(s) }
}

/// What a number with the decimal text is as a JSON value.
pub uninterp spec fn decimal_json(text: Seq<char>) -> SpecJson;

/// `serde_json::Number::from_f64` on the double with the decimal text: a number, or
/// nothing where the text gives no finite one.
#[verifier::external_body]
pub(crate) fn json_decimal(text: &str) -> (r: Json)
    ensures
        json_tree(r) == decimal_json(text@),
        json_tree(r) is Float || json_tree(r) is Null,
{
    let number = text.parse().ok().and_then(serde_json::Number::from_f64);
    Json { inner: number.map_or(serde_json::Value::Null, serde_json::Value::Number) }
}

/// Collecting values into a `serde_json::Value`: a list of them.
#[verifier::external_body]
pub(crate) fn json_list(items: Vec<Json>) -> (r: Json)
    ensures
        json_tree(r) == SpecJson::List(json_trees(items@)),
{
    Json { inner: items.into_iter().map(|v| v.inner).collect() }
}

/// Collecting fields into a `serde_json::Value`: an object with them.
#[verifier::external_body]
pub(crate) fn json_object(fields: Vec<(String, Json)>) -> (r: Json)
    ensures
        json_tree(r) == SpecJson::Object(fields_map(fields@)),
{
    Json { inner: fields.into_iter().map(|(k, v)| (k, v.inner)).collect() }
}

/// Whether a value has no other numbers than whole ones, and is no more than `depth`
/// levels deep.
pub open spec fn plain(j: SpecJson, depth: nat) -> bool
    decreases depth,
{
    match j {
        SpecJson::Float(_) => false,
        SpecJson::Int(n) => i64::MIN <= n <= u64::MAX,
        SpecJson::List(items) => depth > 0 && forall|i: int|
            0 <= i < items.len() ==> plain(#[trigger] items[i], (depth - 1) as nat),
        SpecJson::Object(m) => depth > 0 && forall|k: Seq<char>| #[trigger]
            m.contains_key(k) ==> plain(m[k], (depth - 1) as nat),
        _ => true,
    }
}

/// The text of a value as JSON, over several lines.
pub uninterp spec fn pretty_json(j: SpecJson) -> Seq<char>;

/// What a text is as JSON; or what is wrong with it.
pub uninterp spec fn json_read(text: Seq<char>) -> Result<SpecJson, Seq<char>>;

/// `serde_json::to_string_pretty`: the text of a value. The text is read as the value
/// that it was made of, where that has no other numbers than whole ones and is not too
/// deep for the parser, which takes no more than 127 levels; doubles may come back with
/// another last bit.
#[verifier::external_body]
pub(crate) fn json_to_text(v: &Json) -> (r: String)
    ensures
        r@ == pretty_json(json_tree(*v)),
        (plain(json_tree(*v), 100) ==> json_read(r@) == Ok::<SpecJson, Seq<char>>(json_tree(*v))),
{
    serde_json::to_string_pretty(&v.inner).unwrap_or_default()
}

/// The text of a value as JSON, on one line.
pub uninterp spec fn compact_json(j: SpecJson) -> Seq<char>;

/// `serde_json::Value::to_string`: the text of a value on one line. It is read as the
/// value that it was made of as far as that holds of the text over several lines.
#[verifier::external_body]
pub(crate) fn json_to_line(v: &Json) -> (r: String)
    ensures
        r@ == compact_json(json_tree(*v)),
        (plain(json_tree(*v), 100) ==> json_read(r@) == Ok::<SpecJson, Seq<char>>(json_tree(*v))),
{
    v.inner.to_string()
}

/// `serde_json::from_str`: the value that a text is, or the text of the error.
#[verifier::external_body]
pub(crate) fn json_from_text(text: &str) -> (r: Result<Json, String>)
    ensures
        match r {
            Ok(v) => json_read(text@) == Ok::<SpecJson, Seq<char>>(json_tree(v)),
            Err(e) => json_read(text@) == Err::<SpecJson, Seq<char>>(e@),
        },
{
    match serde_json::from_str(text) {
        Ok(inner) => Ok(Json { inner }),
        Err(e) => Err(e.to_string()),
    }
}

/// Whether a character stands for itself in YAML and breaks no line.
pub open spec fn is_yaml_char(c: char) -> bool {
    let n = c as int;
    &&& 0x20 <= n <= 0x7e || 0xa0 <= n <= 0xfffd || n >= 0x10000
    &&& n != 0x2028 && n != 0x2029 && n != 0xfeff
}

/// Whether a text is of such characters, and of no more than `most`.
pub open spec fn is_yaml_line(s: Seq<char>, most: nat) -> bool {
    s.len() <= most && forall|i: int| 0 <= i < s.len() ==> is_yaml_char(#[trigger] s[i])
}

/// How many characters a text in YAML may have; its length is handed on as a signed number
/// of 32 bits, and so is the column that it is written up to.
pub open spec fn yaml_most() -> nat {
    300000000
}

/// Whether a value has texts that are not too long, names of fields that are short and of
/// one line each, no object with a single field, and is no more than `depth` levels deep.
pub open spec fn yaml_plain(j: SpecJson, depth: nat) -> bool
    decreases depth,
{
    match j {
        SpecJson::Int(n) => i64::MIN <= n <= u64::MAX,
        SpecJson::Text(s) => s.len() <= yaml_most(),
        SpecJson::List(items) => depth > 0 && forall|i: int|
            0 <= i < items.len() ==> yaml_plain(#[trigger] items[i], (depth - 1) as nat),
        SpecJson::Object(m) => depth > 0 && m.dom().len() != 1 && forall|k: Seq<char>| #[trigger]
            m.contains_key(k) ==> is_yaml_line(k, 30) && yaml_plain(m[k], (depth - 1) as nat),
        _ => true,
    }
}

/// The text of a value as YAML.
pub uninterp spec fn yaml_text_of(j: SpecJson) -> Seq<char>;

/// What a text is as YAML; or what is wrong with it.
pub uninterp spec fn yaml_read(text: Seq<char>) -> Result<SpecJson, Seq<char>>;

/// `serde_yaml::to_string`: the text of a value, which is read as the value that it was
/// made of. A text that could be taken for something else is quoted. One with line feeds
/// is written line by line, with its indentation and what becomes of its last breaks
/// noted in front, unless it has blanks at the end of a line; then, and where it has
/// characters that cannot stand in YAML, it is written in double quotes with these
/// escaped. No line is folded. A double is written with the digits that tell it from all
/// others, and read as the double nearest to them. The value is not too deep for the
/// parser, which takes no more than 128 levels, and its texts are not too long for the
/// emitter. Of an object with a single field, whose name may be taken for a tag, and of
/// long names of fields, that is not stated.
#[verifier::external_body]
pub(crate) fn yaml_to_text(v: &Json) -> (r: String)
    ensures
        r@ == yaml_text_of(json_tree(*v)),
        (yaml_plain(json_tree(*v), 100) ==> yaml_read(r@) == Ok::<SpecJson, Seq<char>>(
            json_tree(*v),
        )),
{
    serde_yaml::to_string(&v.inner).unwrap_or_default()
}

/// `serde_yaml::from_str`: the value that a text is, or the text of the error.
#[verifier::external_body]
pub(crate) fn yaml_from_text(text: &str) -> (r: Result<Json, String>)
    ensures
        match r {
            Ok(v) => yaml_read(text@) == Ok::<SpecJson, Seq<char>>(json_tree(v)),
            Err(e) => yaml_read(text@) == Err::<SpecJson, Seq<char>>(e@),
        },
{
    match serde_yaml::from_str(text) {
        Ok(inner) => Ok(Json { inner }),
        Err(e) => Err(e.to_string()),
    }
}

} // verus!
