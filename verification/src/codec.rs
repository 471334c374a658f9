//! Nodes and their bytes.
//!
//! A node is its id, its parent's id (all zero for a root), its name and its
//! value. All numbers are big-endian.
use crate::bytes::{be, be_value, get_be, get_be128, i64_bits, i64_from_bits, i64_of_bits,
    i64_to_bits, put_be, put_slice, same_bytes, sub_bytes};
use crate::text::{chars_of, owned, push_char, same_text, text_of_bytes};
use vstd::prelude::*;
use vstd::utf8::{decode_utf8, encode_utf8, valid_utf8};

verus! {

/// Tag of an empty value: a pure container.
pub const EMPTY: u8 = 0;

/// Tag of an integer.
pub const INT: u8 = 1;

/// Tag of a floating-point number.
pub const FLOAT: u8 = 2;

/// Tag of a boolean.
pub const BOOL: u8 = 3;

/// Tag of a text.
pub const TEXT: u8 = 4;

/// Tag of a reference to another node.
pub const REFERENCE: u8 = 5;

/// Tag of a run of raw bytes.
pub const BLOB: u8 = 6;

/// A 16-byte id, of a node or of a reference's target.
#[derive(Clone, Copy, Eq, Hash, Debug)]
pub struct Uuid(pub [u8; 16]);

/// The all-zero id, which stands for "no parent".
pub open spec fn nil_id() -> Uuid {
    Uuid([0u8, 0u8, 0u8, 0u8, 0u8, 0u8, 0u8, 0u8, 0u8, 0u8, 0u8, 0u8, 0u8, 0u8, 0u8, 0u8])
}

/// The all-zero id.
pub fn nil_uuid() -> (r: Uuid)
    ensures
        r == nil_id(),
{
    Uuid([0u8, 0u8, 0u8, 0u8, 0u8, 0u8, 0u8, 0u8, 0u8, 0u8, 0u8, 0u8, 0u8, 0u8, 0u8, 0u8])
}

impl PartialEq for Uuid {
    fn eq(&self, other: &Self) -> (r: bool) {
        same_uuid(self, other)
    }
}

impl vstd::std_specs::cmp::PartialEqSpecImpl for Uuid {
    open spec fn obeys_eq_spec() -> bool {
        true
    }

    open spec fn eq_spec(&self, other: &Self) -> bool {
        *self == *other
    }
}

impl Default for Uuid {
    fn default() -> (r: Self)
        ensures
            r == nil_id(),
    {
        nil_uuid()
    }
}

fn same_uuid(a: &Uuid, b: &Uuid) -> (r: bool)
    ensures
        r == (*a == *b),
{
    let mut i: usize = 0;
    while i < 16
        invariant
            i <= 16,
            forall|j: int| 0 <= j < i ==> a.0@[j] == b.0@[j],
        decreases 16 - i,
    {
        if a.0[i] != b.0[i] {
            return false;
        }
        i = i + 1;
    }
    assert(a.0 =~= b.0);
    true
}

/// The 16 bytes of `s` from `o` on, as an id.
pub open spec fn uuid_at(s: Seq<u8>, o: int) -> Uuid {
    Uuid(
        [
            s[o],
            s[o + 1],
            s[o + 2],
            s[o + 3],
            s[o + 4],
            s[o + 5],
            s[o + 6],
            s[o + 7],
            s[o + 8],
            s[o + 9],
            s[o + 10],
            s[o + 11],
            s[o + 12],
            s[o + 13],
            s[o + 14],
            s[o + 15],
        ],
    )
}

pub proof fn lemma_uuid_at(s: Seq<u8>, o: int, u: Uuid)
    requires
        0 <= o,
        o + 16 <= s.len(),
        s.subrange(o, o + 16) == u.0@,
    ensures
        uuid_at(s, o) == u,
{
    let a = uuid_at(s, o);
    assert forall|i: int| 0 <= i < 16 implies a.0@[i] == u.0@[i] by {
        assert(s.subrange(o, o + 16)[i] == s[o + i]);
    }
    assert(a.0 =~= u.0);
}

/// Reads an id at `o`.
pub fn read_uuid(data: &[u8], o: usize) -> (u: Uuid)
    requires
        o + 16 <= data@.len(),
    ensures
        u == uuid_at(data@, o as int),
        u.0@ == data@.subrange(o as int, o + 16),
{
    let len: usize = data.len();
    let u = Uuid(
        [
            data[o],
            data[o + 1],
            data[o + 2],
            data[o + 3],
            data[o + 4],
            data[o + 5],
            data[o + 6],
            data[o + 7],
            data[o + 8],
            data[o + 9],
            data[o + 10],
            data[o + 11],
            data[o + 12],
            data[o + 13],
            data[o + 14],
            data[o + 15],
        ],
    );
    assert(u.0@ =~= data@.subrange(o as int, o + 16));
    proof {
        lemma_uuid_at(data@, o as int, u);
    }
    u
}

/// The value of a hexadecimal digit, in either case.
pub open spec fn hex_value(c: char) -> Option<nat> {
    if '0' <= c <= '9' {
        Some((c as int - 48) as nat)
    } else if 'a' <= c <= 'f' {
        Some((c as int - 87) as nat)
    } else if 'A' <= c <= 'F' {
        Some((c as int - 55) as nat)
    } else {
        None
    }
}

fn hex_digit(c: char) -> (r: Option<u8>)
    ensures
        match r {
            Some(v) => hex_value(c) == Some(v as nat) && v < 16,
            None => hex_value(c) is None,
        },
{
    if '0' <= c && c <= '9' {
        Some((c as u32 - 48) as u8)
    } else if 'a' <= c && c <= 'f' {
        Some((c as u32 - 87) as u8)
    } else if 'A' <= c && c <= 'F' {
        Some((c as u32 - 55) as u8)
    } else {
        None
    }
}

/// A text without its hyphens.
pub open spec fn without_hyphens(s: Seq<char>) -> Seq<char>
    decreases s.len(),
{
    if s.len() == 0 {
        s
    } else if s.last() == '-' {
        without_hyphens(s.drop_last())
    } else {
        without_hyphens(s.drop_last()).push(s.last())
    }
}

/// Whether every character is a hexadecimal digit.
pub open spec fn all_hex(s: Seq<char>) -> bool {
    forall|i: int| 0 <= i < s.len() ==> hex_value(#[trigger] s[i]) is Some
}

/// The byte that the digits `2 * i` and `2 * i + 1` spell.
pub open spec fn hex_byte(s: Seq<char>, i: int) -> nat {
    hex_value(s[2 * i])->Some_0 * 16 + hex_value(s[2 * i + 1])->Some_0
}

/// Whether `s`, without its hyphens, is 32 hexadecimal digits that spell `u`.
pub open spec fn spells(s: Seq<char>, u: Uuid) -> bool {
    let h = without_hyphens(s);
    &&& h.len() == 32
    &&& all_hex(h)
    &&& forall|i: int| 0 <= i < 16 ==> u.0@[i] as nat == #[trigger] hex_byte(h, i)
}

/// The id that a text spells.
pub open spec fn id_of_text(s: Seq<char>) -> Option<Uuid> {
    let h = without_hyphens(s);
    if h.len() == 32 && all_hex(h) {
        Some(uuid_at(Seq::new(16, |i: int| hex_byte(h, i) as u8), 0))
    } else {
        None
    }
}

/// The id that a text spells is that one.
pub proof fn lemma_spelled(s: Seq<char>, u: Uuid)
    requires
        spells(s, u),
    ensures
        id_of_text(s) == Some(u),
{
    let h = without_hyphens(s);
    let b = Seq::new(16, |i: int| hex_byte(h, i) as u8);
    assert forall|i: int| 0 <= i < 16 implies b[i] == u.0@[i] by {
        assert(u.0@[i] as nat == hex_byte(h, i));
    }
    assert(b.subrange(0, 16) =~= u.0@);
    lemma_uuid_at(b, 0, u);
}

/// The hexadecimal digit of a number below 16, in lower case.
pub open spec fn hex_char(d: nat) -> char {
    if d < 10 {
        (48 + d) as char
    } else {
        (87 + d) as char
    }
}

fn push_hex(out: &mut String, b: u8)
    ensures
        final(out)@ == old(out)@ + hex2(b),
{
    let hi: u8 = b / 16;
    let lo: u8 = b % 16;
    push_char(out, if hi < 10 { (48 + hi) as char } else { (87 + hi) as char });
    push_char(out, if lo < 10 { (48 + lo) as char } else { (87 + lo) as char });
    assert(out@ =~= old(out)@ + hex2(b));
}

/// The two digits of a byte.
pub open spec fn hex2(b: u8) -> Seq<char> {
    seq![hex_char(b as nat / 16), hex_char(b as nat % 16)]
}

/// The digits of the first `n` bytes of an id, with a hyphen before the bytes
/// 4, 6, 8 and 10.
pub open spec fn uuid_text_upto(u: Uuid, n: nat) -> Seq<char>
    decreases n,
{
    if n == 0 {
        Seq::<char>::empty()
    } else {
        let i = (n - 1) as nat;
        let before = uuid_text_upto(u, i);
        let sep = if i == 4 || i == 6 || i == 8 || i == 10 {
            before.push('-')
        } else {
            before
        };
        sep + hex2(u.0@[i as int])
    }
}

/// An id in its 8-4-4-4-12 form.
pub open spec fn uuid_text(u: Uuid) -> Seq<char> {
    uuid_text_upto(u, 16)
}

impl Uuid {
    /// Whether this is the all-zero id.
    pub fn is_nil(&self) -> (r: bool)
        ensures
            r == (*self == nil_id()),
    {
        *self == nil_uuid()
    }

    /// The id as a big-endian number, by which ids are ordered and looked up.
    pub open spec fn key(self) -> nat {
        be_value(self.0@)
    }

    /// The id as a big-endian number.
    pub fn to_key(&self) -> (r: u128)
        ensures
            r as nat == self.key(),
    {
        get_be128(&self.0)
    }

    /// Reads an id from text: 32 hexadecimal digits, hyphens left out of
    /// account; `None` for any other text.
    pub fn parse(s: &str) -> (r: Option<Uuid>)
        ensures
            match r {
                Some(u) => spells(s@, u),
                None => !(without_hyphens(s@).len() == 32 && all_hex(without_hyphens(s@))),
            },
            r == id_of_text(s@),
    {
        let chars = chars_of(s);
        let mut hex: Vec<char> = Vec::new();
        let mut i: usize = 0;
        assert(s@.take(0) =~= Seq::<char>::empty());
        while i < chars.len()
            invariant
                i <= chars@.len(),
                hex@ == without_hyphens(chars@.take(i as int)),
            decreases chars@.len() - i,
        {
            assert(chars@.take(i + 1).drop_last() =~= chars@.take(i as int));
            if chars[i] != '-' {
                hex.push(chars[i]);
            }
            i = i + 1;
        }
        assert(chars@.take(chars@.len() as int) =~= s@);
        if hex.len() != 32 {
            return None;
        }
        let mut b: [u8; 16] = [0u8; 16];
        let mut k: usize = 0;
        while k < 16
            invariant
                k <= 16,
                hex@.len() == 32,
                hex@ == without_hyphens(s@),
                forall|j: int| 0 <= j < 2 * k ==> hex_value(#[trigger] hex@[j]) is Some,
                forall|j: int| 0 <= j < k ==> b@[j] as nat == #[trigger] hex_byte(hex@, j),
            decreases 16 - k,
        {
            let hi = hex_digit(hex[2 * k]);
            let lo = hex_digit(hex[2 * k + 1]);
            match (hi, lo) {
                (Some(h), Some(l)) => {
                    b[k] = h * 16 + l;
                },
                _ => {
                    return None;
                },
            }
            k = k + 1;
        }
        proof {
            lemma_spelled(s@, Uuid(b));
        }
        Some(Uuid(b))
    }

    /// A fresh random id (version 4): never the all-zero one.
    pub fn random_v4() -> (u: Uuid)
        ensures
            drawn(u),
    {
        let b = new_v4_bytes();
        let u = Uuid(b);
        assert(nil_id().0@[6] == 0);
        u
    }

    /// The id in its 8-4-4-4-12 form, in lower case.
    pub fn to_string(&self) -> (r: String)
        ensures
            r@ == uuid_text(*self),
    {
        let mut out = String::new();
        let mut i: usize = 0;
        while i < 16
            invariant
                i <= 16,
                out@ == uuid_text_upto(*self, i as nat),
            decreases 16 - i,
        {
            if i == 4 || i == 6 || i == 8 || i == 10 {
                push_char(&mut out, '-');
            }
            push_hex(&mut out, self.0[i]);
            i = i + 1;
        }
        out
    }
}

/// Whether an id has the form in which ids are drawn: that of version 4, which the
/// all-zero id has not.
pub open spec fn drawn(u: Uuid) -> bool {
    u != nil_id() && u.0@[6] / 16 == 4 && u.0@[8] / 64 == 2
}

/// `uuid::Uuid::new_v4`: 16 random bytes, with the version 4 in the upper half
/// of byte 6 and the two bits `10` on top of byte 8.
#[verifier::external_body]
fn new_v4_bytes() -> (b: [u8; 16])
    ensures
        b@[6] / 16 == 4,
        b@[8] / 64 == 2,
{
    *uuid::Uuid::new_v4().as_bytes()
}

/// Ids with the same bytes are the same.
pub proof fn lemma_same_bytes_same_id(a: Uuid, b: Uuid)
    requires
        a.0@ == b.0@,
    ensures
        a == b,
{
    assert(a.0 =~= b.0);
}

/// Ids with the same number are the same.
pub proof fn lemma_key_injective(a: Uuid, b: Uuid)
    requires
        a.key() == b.key(),
    ensures
        a == b,
{
    crate::bytes::lemma_be_value_injective(a.0@, b.0@);
    assert(a.0 =~= b.0);
}

proof fn lemma_text_digits(u: Uuid, n: nat)
    requires
        n <= 16,
    ensures
        ({
            let h = without_hyphens(uuid_text_upto(u, n));
            &&& h.len() == 2 * n
            &&& forall|i: int| 0 <= i < n ==> h[2 * i] == hex_char(u.0@[i] as nat / 16)
            &&& forall|i: int| 0 <= i < n ==> h[2 * i + 1] == hex_char(u.0@[i] as nat % 16)
        }),
    decreases n,
{
    if n > 0 {
        let i = (n - 1) as nat;
        lemma_text_digits(u, i);
        let before = uuid_text_upto(u, i);
        let sep = if i == 4 || i == 6 || i == 8 || i == 10 {
            before.push('-')
        } else {
            before
        };
        assert(before.push('-').drop_last() =~= before);
        assert(without_hyphens(sep) == without_hyphens(before));
        let b = u.0@[i as int];
        let c1 = hex_char(b as nat / 16);
        let c2 = hex_char(b as nat % 16);
        let s1 = sep.push(c1);
        let s2 = s1.push(c2);
        assert(uuid_text_upto(u, n) =~= s2);
        assert(s2.drop_last() =~= s1);
        assert(s1.drop_last() =~= sep);
        assert(c1 != '-' && c2 != '-');
        let h = without_hyphens(s2);
        assert(without_hyphens(s1) == without_hyphens(sep).push(c1));
        assert(h == without_hyphens(s1).push(c2));
    } else {
        assert(uuid_text_upto(u, 0) =~= Seq::<char>::empty());
    }
}

/// The text form of an id spells that id, and no other.
pub proof fn uuid_text_round_trip(u: Uuid, v: Uuid)
    ensures
        spells(uuid_text(u), u),
        spells(uuid_text(u), v) ==> v == u,
{
    lemma_text_digits(u, 16);
    let h = without_hyphens(uuid_text(u));
    assert forall|i: int| 0 <= i < 16 implies u.0@[i] as nat == #[trigger] hex_byte(h, i) by {
        let b = u.0@[i] as nat;
        assert(h[2 * i] == hex_char(b / 16));
        assert(h[2 * i + 1] == hex_char(b % 16));
    }
    assert forall|j: int| 0 <= j < h.len() implies hex_value(#[trigger] h[j]) is Some by {
        if j % 2 == 0 {
            assert(h[2 * (j / 2)] == hex_char(u.0@[j / 2] as nat / 16));
        } else {
            assert(h[2 * (j / 2) + 1] == hex_char(u.0@[j / 2] as nat % 16));
        }
    }
    if spells(uuid_text(u), v) {
        assert forall|i: int| 0 <= i < 16 implies v.0@[i] == u.0@[i] by {
            assert(v.0@[i] as nat == hex_byte(h, i));
        }
        assert(v.0 =~= u.0);
    }
}

/// What a value is: the model of [`Value`].
pub enum SpecValue {
    Empty,
    Int(i64),
    Float(u64),
    Bool(bool),
    Text(Seq<char>),
    Reference(Uuid),
    Blob(Seq<u8>),
}

/// A node's value. A floating-point number is held as its IEEE 754 bit
/// pattern.
#[derive(Debug)]
pub enum Value {
    Empty,
    Int(i64),
    Float(u64),
    Bool(bool),
    Text(String),
    Reference(Uuid),
    Blob(Vec<u8>),
}

impl View for Value {
    type V = SpecValue;

    open spec fn view(&self) -> SpecValue {
        match self {
            Value::Empty => SpecValue::Empty,
            Value::Int(n) => SpecValue::Int(*n),
            Value::Float(x) => SpecValue::Float(*x),
            Value::Bool(b) => SpecValue::Bool(*b),
            Value::Text(s) => SpecValue::Text(s@),
            Value::Reference(u) => SpecValue::Reference(*u),
            Value::Blob(b) => SpecValue::Blob(b@),
        }
    }
}

/// What a node is: the model of [`Node`].
pub struct SpecNode {
    pub id: Uuid,
    pub parent: Option<Uuid>,
    pub name: Seq<char>,
    pub value: SpecValue,
}

/// A node: its id, its parent (`None` for a root), its name and its value.
#[derive(Debug)]
pub struct Node {
    pub id: Uuid,
    pub parent: Option<Uuid>,
    pub name: String,
    pub value: Value,
}

impl View for Node {
    type V = SpecNode;

    open spec fn view(&self) -> SpecNode {
        SpecNode { id: self.id, parent: self.parent, name: self.name@, value: self.value@ }
    }
}

/// The models of a run of nodes.
pub open spec fn models(nodes: Seq<Node>) -> Seq<SpecNode> {
    Seq::new(nodes.len(), |i: int| nodes[i]@)
}

/// Why bytes are no node, or a node has no bytes.
#[derive(Debug, PartialEq, Eq, Clone, Copy)]
pub enum Error {
    /// The data end too early.
    Truncated,
    /// No value has this tag.
    InvalidTag(u8),
    /// A name or a text is no UTF-8.
    InvalidUtf8,
    /// The name takes more than 255 bytes.
    NameTooLong(usize),
}

/// Whether a bit pattern is a NaN.
pub open spec fn float_is_nan(bits: u64) -> bool {
    bits % 0x8000_0000_0000_0000 > 0x7ff0_0000_0000_0000
}

/// Equality of floating-point numbers: a NaN equals nothing, the two zeros are
/// equal.
pub open spec fn float_same(a: u64, b: u64) -> bool {
    &&& !float_is_nan(a)
    &&& !float_is_nan(b)
    &&& (a == b || (a % 0x8000_0000_0000_0000 == 0 && b % 0x8000_0000_0000_0000 == 0))
}

/// Equality of values.
pub open spec fn same_value(a: SpecValue, b: SpecValue) -> bool {
    match (a, b) {
        (SpecValue::Float(x), SpecValue::Float(y)) => float_same(x, y),
        _ => a == b,
    }
}

/// Equality of nodes.
pub open spec fn same_node(a: SpecNode, b: SpecNode) -> bool {
    a.id == b.id && a.parent == b.parent && a.name == b.name && same_value(a.value, b.value)
}

fn equal_values(a: &Value, b: &Value) -> (r: bool)
    ensures
        r == same_value(a@, b@),
{
    match (a, b) {
        (Value::Empty, Value::Empty) => true,
        (Value::Int(x), Value::Int(y)) => *x == *y,
        (Value::Float(x), Value::Float(y)) => {
            let p: u64 = *x % 0x8000_0000_0000_0000;
            let q: u64 = *y % 0x8000_0000_0000_0000;
            p <= 0x7ff0_0000_0000_0000 && q <= 0x7ff0_0000_0000_0000 && (*x == *y || (p == 0 && q
                == 0))
        },
        (Value::Bool(x), Value::Bool(y)) => *x == *y,
        (Value::Text(x), Value::Text(y)) => same_text(x.as_str(), y.as_str()),
        (Value::Reference(x), Value::Reference(y)) => *x == *y,
        (Value::Blob(x), Value::Blob(y)) => same_bytes(x.as_slice(), y.as_slice()),
        _ => false,
    }
}

impl PartialEq for Value {
    fn eq(&self, other: &Self) -> (r: bool) {
        equal_values(self, other)
    }
}

impl vstd::std_specs::cmp::PartialEqSpecImpl for Value {
    open spec fn obeys_eq_spec() -> bool {
        true
    }

    open spec fn eq_spec(&self, other: &Self) -> bool {
        same_value(self@, other@)
    }
}

impl PartialEq for Node {
    fn eq(&self, other: &Self) -> (r: bool) {
        self.id == other.id && self.parent == other.parent && same_text(
            self.name.as_str(),
            other.name.as_str(),
        ) && equal_values(&self.value, &other.value)
    }
}

impl vstd::std_specs::cmp::PartialEqSpecImpl for Node {
    open spec fn obeys_eq_spec() -> bool {
        true
    }

    open spec fn eq_spec(&self, other: &Self) -> bool {
        same_node(self@, other@)
    }
}

impl Clone for Value {
    fn clone(&self) -> (r: Self)
        ensures
            r@ == self@,
    {
        match self {
            Value::Empty => Value::Empty,
            Value::Int(n) => Value::Int(*n),
            Value::Float(x) => Value::Float(*x),
            Value::Bool(b) => Value::Bool(*b),
            Value::Text(s) => Value::Text(s.clone()),
            Value::Reference(u) => Value::Reference(*u),
            Value::Blob(b) => {
                assert(b@.subrange(0, b@.len() as int) =~= b@);
                Value::Blob(sub_bytes(b.as_slice(), 0, b.len()))
            },
        }
    }
}

impl Clone for Node {
    fn clone(&self) -> (r: Self)
        ensures
            r@ == self@,
    {
        Node {
            id: self.id,
            parent: self.parent,
            name: self.name.clone(),
            value: self.value.clone(),
        }
    }
}

/// The tag of a value.
pub open spec fn tag_of(v: SpecValue) -> u8 {
    match v {
        SpecValue::Empty => EMPTY,
        SpecValue::Int(_) => INT,
        SpecValue::Float(_) => FLOAT,
        SpecValue::Bool(_) => BOOL,
        SpecValue::Text(_) => TEXT,
        SpecValue::Reference(_) => REFERENCE,
        SpecValue::Blob(_) => BLOB,
    }
}

impl Value {
    /// The tag byte of the value.
    pub fn tag(&self) -> (r: u8)
        ensures
            r == tag_of(self@),
    {
        match self {
            Value::Empty => EMPTY,
            Value::Int(_) => INT,
            Value::Float(_) => FLOAT,
            Value::Bool(_) => BOOL,
            Value::Text(_) => TEXT,
            Value::Reference(_) => REFERENCE,
            Value::Blob(_) => BLOB,
        }
    }
}

/// What follows the tag in the bytes of a value.
pub open spec fn payload(v: SpecValue) -> Seq<u8> {
    match v {
        SpecValue::Empty => Seq::<u8>::empty(),
        SpecValue::Int(n) => be(i64_bits(n), 8),
        SpecValue::Float(x) => be(x as nat, 8),
        SpecValue::Bool(b) => seq![if b { 1u8 } else { 0u8 }],
        SpecValue::Text(s) => be(encode_utf8(s).len(), 4) + encode_utf8(s),
        SpecValue::Reference(u) => u.0@,
        SpecValue::Blob(b) => be(b.len(), 8) + b,
    }
}

/// The bytes of a value: its tag, then its payload.
pub open spec fn value_bytes(v: SpecValue) -> Seq<u8> {
    seq![tag_of(v)] + payload(v)
}

/// The bytes of a value.
pub fn encode_value(v: &Value) -> (out: Vec<u8>)
    ensures
        out@ == value_bytes(v@),
{
    let mut out: Vec<u8> = Vec::new();
    out.push(v.tag());
    match v {
        Value::Empty => {},
        Value::Int(n) => {
            put_be(&mut out, i64_to_bits(*n), 8);
        },
        Value::Float(x) => {
            put_be(&mut out, *x, 8);
        },
        Value::Bool(b) => {
            out.push(if *b { 1 } else { 0 });
        },
        Value::Text(s) => {
            let b = s.as_str().as_bytes();
            put_be(&mut out, b.len() as u64, 4);
            put_slice(&mut out, b);
        },
        Value::Reference(u) => {
            put_slice(&mut out, u.0.as_slice());
        },
        Value::Blob(b) => {
            put_be(&mut out, b.len() as u64, 8);
            put_slice(&mut out, b.as_slice());
        },
    }
    assert(out@ =~= value_bytes(v@));
    out
}

/// The id that stands in a node's bytes for its parent.
pub open spec fn parent_or_nil(p: Option<Uuid>) -> Uuid {
    match p {
        Some(u) => u,
        None => nil_id(),
    }
}

/// The bytes of a node: id, parent, length of the name, name, value.
pub open spec fn node_bytes(n: SpecNode) -> Seq<u8> {
    n.id.0@ + parent_or_nil(n.parent).0@ + seq![encode_utf8(n.name).len() as u8] + encode_utf8(
        n.name,
    ) + value_bytes(n.value)
}

/// The bytes of a node; a name of more than 255 bytes has none.
pub fn encode_node(n: &Node) -> (r: Result<Vec<u8>, Error>)
    ensures
        match r {
            Ok(out) => encode_utf8(n.name@).len() <= 255 && out@ == node_bytes(n@),
            Err(e) => encode_utf8(n.name@).len() > 255 && e is NameTooLong && e->NameTooLong_0
                == encode_utf8(n.name@).len(),
        },
{
    let nb = n.name.as_str().as_bytes();
    if nb.len() > 255 {
        return Err(Error::NameTooLong(nb.len()));
    }
    let mut out: Vec<u8> = Vec::new();
    put_slice(&mut out, n.id.0.as_slice());
    let p = match n.parent {
        Some(u) => u,
        None => nil_uuid(),
    };
    put_slice(&mut out, p.0.as_slice());
    out.push(nb.len() as u8);
    put_slice(&mut out, nb);
    let v = encode_value(&n.value);
    put_slice(&mut out, v.as_slice());
    assert(out@ =~= node_bytes(n@));
    Ok(out)
}

/// Reading a value at `off`: the value or the error, and where reading ended.
pub open spec fn value_at(data: Seq<u8>, off: int) -> (Result<SpecValue, Error>, int) {
    let len = data.len() as int;
    let o = off + 1;
    if o > len {
        (Err(Error::Truncated), off)
    } else if data[off] == EMPTY {
        (Ok(SpecValue::Empty), o)
    } else if data[off] == INT {
        if o + 8 > len {
            (Err(Error::Truncated), o)
        } else {
            (Ok(SpecValue::Int(i64_of_bits(be_value(data.subrange(o, o + 8))))), o + 8)
        }
    } else if data[off] == FLOAT {
        if o + 8 > len {
            (Err(Error::Truncated), o)
        } else {
            (Ok(SpecValue::Float(be_value(data.subrange(o, o + 8)) as u64)), o + 8)
        }
    } else if data[off] == BOOL {
        if o + 1 > len {
            (Err(Error::Truncated), o)
        } else {
            (Ok(SpecValue::Bool(data[o] != 0)), o + 1)
        }
    } else if data[off] == TEXT {
        if o + 4 > len {
            (Err(Error::Truncated), o)
        } else {
            let n = be_value(data.subrange(o, o + 4)) as int;
            let p = o + 4;
            if p + n > len {
                (Err(Error::Truncated), p)
            } else if valid_utf8(data.subrange(p, p + n)) {
                (Ok(SpecValue::Text(decode_utf8(data.subrange(p, p + n)))), p + n)
            } else {
                (Err(Error::InvalidUtf8), p + n)
            }
        }
    } else if data[off] == REFERENCE {
        if o + 16 > len {
            (Err(Error::Truncated), o)
        } else {
            (Ok(SpecValue::Reference(uuid_at(data, o))), o + 16)
        }
    } else if data[off] == BLOB {
        if o + 8 > len {
            (Err(Error::Truncated), o)
        } else {
            let n = be_value(data.subrange(o, o + 8)) as int;
            let p = o + 8;
            if p + n > len {
                (Err(Error::Truncated), p)
            } else {
                (Ok(SpecValue::Blob(data.subrange(p, p + n))), p + n)
            }
        }
    } else {
        (Err(Error::InvalidTag(data[off])), o)
    }
}

/// Reading a node at `off`: the node or the error, and where reading ended.
#[verifier::opaque]
pub open spec fn node_at(data: Seq<u8>, off: int) -> (Result<SpecNode, Error>, int) {
    let len = data.len() as int;
    if off + 16 > len {
        (Err(Error::Truncated), off)
    } else if off + 32 > len {
        (Err(Error::Truncated), off + 16)
    } else if off + 33 > len {
        (Err(Error::Truncated), off + 32)
    } else {
        let id = uuid_at(data, off);
        let p = uuid_at(data, off + 16);
        let parent = if p == nil_id() { None } else { Some(p) };
        let n = data[off + 32] as int;
        let o = off + 33;
        if o + n > len {
            (Err(Error::Truncated), o)
        } else if !valid_utf8(data.subrange(o, o + n)) {
            (Err(Error::InvalidUtf8), o + n)
        } else {
            let name = decode_utf8(data.subrange(o, o + n));
            match value_at(data, o + n) {
                (Ok(value), end) => (Ok(SpecNode { id, parent, name, value }), end),
                (Err(e), end) => (Err(e), end),
            }
        }
    }
}

/// Whether `n` more bytes stand at `off`.
fn has_bytes(data: &[u8], off: usize, n: u64) -> (r: bool)
    ensures
        r == (off + n <= data@.len()),
{
    let len: usize = data.len();
    off <= len && n <= (len - off) as u64
}

/// What reading a value ended with, as a model.
pub open spec fn value_outcome(r: Result<Value, Error>) -> Result<SpecValue, Error> {
    match r {
        Ok(v) => Ok(v@),
        Err(e) => Err(e),
    }
}

/// What reading a node ended with, as a model.
pub open spec fn node_outcome(r: Result<Node, Error>) -> Result<SpecNode, Error> {
    match r {
        Ok(n) => Ok(n@),
        Err(e) => Err(e),
    }
}

/// Reads a value at `off` and moves `off` behind what was read.
pub fn decode_value(data: &[u8], off: &mut usize) -> (r: Result<Value, Error>)
    ensures
        (value_outcome(r), *final(off) as int) == value_at(data@, *old(off) as int),
{
    if !has_bytes(data, *off, 1) {
        return Err(Error::Truncated);
    }
    let tag: u8 = data[*off];
    *off = *off + 1;
    let o: usize = *off;
    if tag == EMPTY {
        Ok(Value::Empty)
    } else if tag == INT {
        if !has_bytes(data, o, 8) {
            return Err(Error::Truncated);
        }
        *off = o + 8;
        Ok(Value::Int(i64_from_bits(get_be(data, o, 8))))
    } else if tag == FLOAT {
        if !has_bytes(data, o, 8) {
            return Err(Error::Truncated);
        }
        *off = o + 8;
        Ok(Value::Float(get_be(data, o, 8)))
    } else if tag == BOOL {
        if !has_bytes(data, o, 1) {
            return Err(Error::Truncated);
        }
        *off = o + 1;
        Ok(Value::Bool(data[o] != 0))
    } else if tag == TEXT {
        if !has_bytes(data, o, 4) {
            return Err(Error::Truncated);
        }
        let n: u64 = get_be(data, o, 4);
        let p: usize = o + 4;
        *off = p;
        if !has_bytes(data, p, n) {
            return Err(Error::Truncated);
        }
        let e: usize = p + n as usize;
        *off = e;
        match text_of_bytes(sub_bytes(data, p, e)) {
            Some(s) => Ok(Value::Text(s)),
            None => Err(Error::InvalidUtf8),
        }
    } else if tag == REFERENCE {
        if !has_bytes(data, o, 16) {
            return Err(Error::Truncated);
        }
        *off = o + 16;
        Ok(Value::Reference(read_uuid(data, o)))
    } else if tag == BLOB {
        if !has_bytes(data, o, 8) {
            return Err(Error::Truncated);
        }
        let n: u64 = get_be(data, o, 8);
        let p: usize = o + 8;
        *off = p;
        if !has_bytes(data, p, n) {
            return Err(Error::Truncated);
        }
        let e: usize = p + n as usize;
        *off = e;
        Ok(Value::Blob(sub_bytes(data, p, e)))
    } else {
        Err(Error::InvalidTag(tag))
    }
}

/// Reads a node at `off` and moves `off` behind what was read.
pub fn decode_node(data: &[u8], off: &mut usize) -> (r: Result<Node, Error>)
    ensures
        (node_outcome(r), *final(off) as int) == node_at(data@, *old(off) as int),
{
    let start: usize = *off;
    let len: usize = data.len();
    proof {
        reveal(node_at);
    }
    if !has_bytes(data, start, 16) {
        return Err(Error::Truncated);
    }
    *off = start + 16;
    if !has_bytes(data, start, 32) {
        return Err(Error::Truncated);
    }
    *off = start + 32;
    if !has_bytes(data, start, 33) {
        return Err(Error::Truncated);
    }
    *off = start + 33;
    let id = read_uuid(data, start);
    let p = read_uuid(data, start + 16);
    let parent = if p.is_nil() {
        None
    } else {
        Some(p)
    };
    let n: usize = data[start + 32] as usize;
    let o: usize = start + 33;
    if !has_bytes(data, o, n as u64) {
        return Err(Error::Truncated);
    }
    *off = o + n;
    let name = match text_of_bytes(sub_bytes(data, o, o + n)) {
        Some(s) => s,
        None => return Err(Error::InvalidUtf8),
    };
    match decode_value(data, off) {
        Ok(value) => Ok(Node { id, parent, name, value }),
        Err(e) => Err(e),
    }
}

/// Whether the bytes of a value give the value back: the length of its text or
/// blob fits its length field.
pub open spec fn value_fits(v: SpecValue) -> bool {
    match v {
        SpecValue::Text(s) => encode_utf8(s).len() < 0x1_0000_0000,
        SpecValue::Blob(b) => b.len() < 0x1_0000_0000_0000_0000,
        _ => true,
    }
}

/// Whether the bytes of a node give the node back.
pub open spec fn node_fits(n: SpecNode) -> bool {
    &&& encode_utf8(n.name).len() <= 255
    &&& n.parent != Some(nil_id())
    &&& value_fits(n.value)
}

/// Wherever the bytes of a value stand, reading there gives the value and
/// ends behind them.
pub proof fn value_round_trip(v: SpecValue, before: Seq<u8>, after: Seq<u8>)
    requires
        value_fits(v),
    ensures
        value_at(before + value_bytes(v) + after, before.len() as int) == (
            Ok::<SpecValue, Error>(v),
            (before.len() + value_bytes(v).len()) as int,
        ),
{
    let data = before + value_bytes(v) + after;
    let off = before.len() as int;
    let o = off + 1;
    assert(data[off] == tag_of(v));
    crate::bytes::lemma_pow256_values();
    match v {
        SpecValue::Empty => {},
        SpecValue::Int(n) => {
            crate::bytes::lemma_be_len(i64_bits(n), 8);
            crate::bytes::lemma_be_value_of_be(i64_bits(n), 8);
            assert(data.subrange(o, o + 8) =~= be(i64_bits(n), 8));
        },
        SpecValue::Float(x) => {
            crate::bytes::lemma_be_len(x as nat, 8);
            crate::bytes::lemma_be_value_of_be(x as nat, 8);
            assert(data.subrange(o, o + 8) =~= be(x as nat, 8));
        },
        SpecValue::Bool(b) => {},
        SpecValue::Text(s) => {
            let e = encode_utf8(s);
            crate::bytes::lemma_be_len(e.len(), 4);
            crate::bytes::lemma_be_value_of_be(e.len(), 4);
            assert(data.subrange(o, o + 4) =~= be(e.len(), 4));
            assert(data.subrange(o + 4, o + 4 + e.len()) =~= e);
            vstd::utf8::encode_utf8_valid_utf8(s);
            vstd::utf8::encode_utf8_decode_utf8(s);
        },
        SpecValue::Reference(u) => {
            assert(data.subrange(o, o + 16) =~= u.0@);
            lemma_uuid_at(data, o, u);
        },
        SpecValue::Blob(b) => {
            crate::bytes::lemma_be_len(b.len(), 8);
            crate::bytes::lemma_be_value_of_be(b.len(), 8);
            assert(data.subrange(o, o + 8) =~= be(b.len(), 8));
            assert(data.subrange(o + 8, o + 8 + b.len()) =~= b);
        },
    }
}

/// Wherever the bytes of a node stand, reading there gives the node and ends
/// behind them.
pub proof fn node_round_trip(n: SpecNode, before: Seq<u8>, after: Seq<u8>)
    requires
        node_fits(n),
    ensures
        node_at(before + node_bytes(n) + after, before.len() as int) == (
            Ok::<SpecNode, Error>(n),
            (before.len() + node_bytes(n).len()) as int,
        ),
{
    reveal(node_at);
    let data = before + node_bytes(n) + after;
    let off = before.len() as int;
    let e = encode_utf8(n.name);
    let p = parent_or_nil(n.parent);
    assert(data.subrange(off, off + 16) =~= n.id.0@);
    lemma_uuid_at(data, off, n.id);
    assert(data.subrange(off + 16, off + 32) =~= p.0@);
    lemma_uuid_at(data, off + 16, p);
    assert(data[off + 32] == e.len() as u8);
    assert(data.subrange(off + 33, off + 33 + e.len()) =~= e);
    vstd::utf8::encode_utf8_valid_utf8(n.name);
    vstd::utf8::encode_utf8_decode_utf8(n.name);
    let head = before + n.id.0@ + p.0@ + seq![e.len() as u8] + e;
    assert(head + value_bytes(n.value) + after =~= data);
    value_round_trip(n.value, head, after);
}

/// A node that was read ended behind its start and inside the data.
pub proof fn lemma_node_at_progress(data: Seq<u8>, off: int)
    requires
        0 <= off,
        node_at(data, off).0 is Ok,
    ensures
        off + 34 <= node_at(data, off).1 <= data.len(),
{
    reveal(node_at);
}

/// What was read depends on no byte behind its end.
pub proof fn lemma_node_at_prefix(data: Seq<u8>, more: Seq<u8>, off: int)
    requires
        0 <= off,
        node_at(data, off).0 !== Err(Error::Truncated),
    ensures
        node_at(data + more, off) == node_at(data, off),
{
    reveal(node_at);
    let all = data + more;
    assert forall|i: int, j: int| 0 <= i <= j <= data.len() implies #[trigger] all.subrange(i, j)
        == data.subrange(i, j) by {
        assert(all.subrange(i, j) =~= data.subrange(i, j));
    }
    assert(forall|i: int| 0 <= i < data.len() ==> all[i] == data[i]);
}

/// Where reading ended, counted from another start.
pub open spec fn moved<A>(r: (Result<A, Error>, int), by: int) -> (Result<A, Error>, int) {
    (r.0, r.1 + by)
}

/// What was read depends on no byte before its start.
pub proof fn lemma_node_at_skip(data: Seq<u8>, off: int)
    requires
        0 <= off <= data.len(),
    ensures
        node_at(data, off) == moved(node_at(data.skip(off), 0), off),
{
    reveal(node_at);
    let rest = data.skip(off);
    assert forall|i: int, j: int| 0 <= i <= j <= rest.len() implies #[trigger] rest.subrange(i, j)
        == data.subrange(i + off, j + off) by {
        assert(rest.subrange(i, j) =~= data.subrange(i + off, j + off));
    }
    assert(forall|i: int| 0 <= i < rest.len() ==> rest[i] == data[i + off]);
}

/// Nodes one after the other, read one at a time.
pub struct NodeIter<'a> {
    data: &'a [u8],
    off: usize,
}

impl<'a> NodeIter<'a> {
    /// The bytes that are read.
    pub closed spec fn bytes(self) -> Seq<u8> {
        self.data@
    }

    /// Where the next node starts.
    pub closed spec fn position(self) -> int {
        self.off as int
    }

    /// Starts at the first byte.
    pub fn new(data: &'a [u8]) -> (r: Self)
        ensures
            r.bytes() == data@,
            r.position() == 0,
    {
        NodeIter { data, off: 0 }
    }

    /// The next node, or the error that stands in its place; `None` at the end.
    pub fn next(&mut self) -> (r: Option<Result<Node, Error>>)
        ensures
            final(self).bytes() == old(self).bytes(),
            match r {
                None => old(self).position() >= old(self).bytes().len() && final(self).position()
                    == old(self).position(),
                Some(x) => old(self).position() < old(self).bytes().len() && (
                    node_outcome(x),
                    final(self).position(),
                ) == node_at(old(self).bytes(), old(self).position()),
            },
    {
        if self.off >= self.data.len() {
            return None;
        }
        let mut o: usize = self.off;
        let r = decode_node(self.data, &mut o);
        self.off = o;
        Some(r)
    }
}

/// A text without one leading minus sign.
pub open spec fn without_minus(s: Seq<char>) -> Seq<char> {
    if s.len() > 0 && s[0] == '-' {
        s.skip(1)
    } else {
        s
    }
}

/// Whether every character is a decimal digit.
pub open spec fn all_digits(s: Seq<char>) -> bool {
    forall|i: int| 0 <= i < s.len() ==> '0' <= #[trigger] s[i] <= '9'
}

/// Whether the text is a decimal integer without needless leading zeros.
pub open spec fn canonical_int(s: Seq<char>) -> bool {
    let body = without_minus(s);
    &&& body.len() > 0
    &&& all_digits(body)
    &&& (body.len() == 1 || body[0] != '0')
}

/// The number that decimal digits denote.
pub open spec fn digits_value(s: Seq<char>) -> nat
    decreases s.len(),
{
    if s.len() == 0 {
        0
    } else {
        digits_value(s.drop_last()) * 10 + (s.last() as int - 48) as nat
    }
}

/// The number that a decimal integer denotes.
pub open spec fn int_value(s: Seq<char>) -> int {
    if s.len() > 0 && s[0] == '-' {
        -(digits_value(without_minus(s)) as int)
    } else {
        digits_value(s) as int
    }
}

/// Whether the text holds the character.
pub open spec fn holds_char(s: Seq<char>, c: char) -> bool {
    exists|i: int| 0 <= i < s.len() && s[i] == c
}

/// The value that an input text stands for. `float` is the number that the
/// text denotes, if it denotes a floating-point number.
pub open spec fn parsed_value(s: Seq<char>, float: Option<u64>) -> SpecValue {
    if canonical_int(s) && i64::MIN <= int_value(s) <= i64::MAX {
        SpecValue::Int(int_value(s) as i64)
    } else if float is Some && (holds_char(s, '.') || holds_char(s, 'e') || holds_char(s, 'E')) {
        SpecValue::Float(float->Some_0)
    } else if s == "true"@ {
        SpecValue::Bool(true)
    } else if s == "false"@ {
        SpecValue::Bool(false)
    } else {
        SpecValue::Text(s)
    }
}

fn canonical_chars(chars: &Vec<char>) -> (r: bool)
    ensures
        r == canonical_int(chars@),
{
    let start: usize = if chars.len() > 0 && chars[0] == '-' { 1 } else { 0 };
    let ghost body = without_minus(chars@);
    assert(body =~= chars@.skip(start as int));
    if chars.len() == start {
        return false;
    }
    let mut i: usize = start;
    while i < chars.len()
        invariant
            start <= i <= chars@.len(),
            body == chars@.skip(start as int),
            body == without_minus(chars@),
            forall|j: int| 0 <= j < i - start ==> '0' <= #[trigger] body[j] <= '9',
        decreases chars@.len() - i,
    {
        if !('0' <= chars[i] && chars[i] <= '9') {
            assert(body[i - start] == chars@[i as int]);
            return false;
        }
        i = i + 1;
    }
    assert(all_digits(body));
    chars.len() - start == 1 || chars[start] != '0'
}

/// Whether the text is a decimal integer without needless leading zeros, as
/// `0`, `51975` and `-3` are and `01` is not.
pub fn is_canonical_int(s: &str) -> (r: bool)
    ensures
        r == canonical_int(s@),
{
    let chars = chars_of(s);
    canonical_chars(&chars)
}

fn has_char(chars: &Vec<char>, c: char) -> (r: bool)
    ensures
        r == holds_char(chars@, c),
{
    let mut i: usize = 0;
    while i < chars.len()
        invariant
            i <= chars@.len(),
            forall|j: int| 0 <= j < i ==> chars@[j] != c,
        decreases chars@.len() - i,
    {
        if chars[i] == c {
            return true;
        }
        i = i + 1;
    }
    false
}

proof fn lemma_digits_grow(s: Seq<char>, i: int)
    requires
        0 <= i <= s.len(),
        all_digits(s),
    ensures
        digits_value(s.take(i)) <= digits_value(s),
    decreases s.len() - i,
{
    if i < s.len() {
        lemma_digits_grow(s, i + 1);
        assert(s.take(i + 1).drop_last() =~= s.take(i));
        assert('0' <= s[i] <= '9');
    } else {
        assert(s.take(i) =~= s);
    }
}

/// The number that a canonical decimal integer denotes, if it fits 64 bits.
fn int_of_chars(chars: &Vec<char>) -> (r: Option<i64>)
    requires
        canonical_int(chars@),
    ensures
        match r {
            Some(n) => n == int_value(chars@),
            None => !(i64::MIN <= int_value(chars@) <= i64::MAX),
        },
{
    let neg: bool = chars[0] == '-';
    let start: usize = if neg { 1 } else { 0 };
    let ghost body = without_minus(chars@);
    assert(body =~= chars@.skip(start as int));
    let mut acc: u64 = 0;
    let mut i: usize = start;
    assert(body.take(0) =~= Seq::<char>::empty());
    while i < chars.len()
        invariant
            start <= i <= chars@.len(),
            start == (if neg { 1int } else { 0int }),
            neg == (chars@[0] == '-'),
            chars@.len() > 0,
            body == chars@.skip(start as int),
            body == without_minus(chars@),
            all_digits(body),
            acc as nat == digits_value(body.take(i - start)),
            acc <= 0x8000_0000_0000_0000,
        decreases chars@.len() - i,
    {
        assert(body[i - start] == chars@[i as int]);
        let d: u64 = chars[i] as u64 - 48;
        proof {
            assert(body.take(i - start + 1).drop_last() =~= body.take(i - start));
            lemma_digits_grow(body, i - start + 1);
        }
        if acc > (0x8000_0000_0000_0000 - d) / 10 {
            return None;
        }
        acc = acc * 10 + d;
        i = i + 1;
    }
    assert(body.take(body.len() as int) =~= body);
    if neg {
        if acc == 0x8000_0000_0000_0000 {
            Some(i64::MIN)
        } else {
            Some(-(acc as i64))
        }
    } else if acc <= 0x7fff_ffff_ffff_ffff {
        assert(without_minus(chars@) =~= chars@);
        Some(acc as i64)
    } else {
        assert(without_minus(chars@) =~= chars@);
        None
    }
}

/// The value that an input text stands for: an integer, a floating-point
/// number, a boolean or else the text itself. Texts such as `01` and `007` stay
/// texts. `float` is the number that the text denotes, as a bit pattern, if it
/// denotes a floating-point number.
pub fn parse_value(s: &str, float: Option<u64>) -> (r: Value)
    ensures
        r@ == parsed_value(s@, float),
{
    let chars = chars_of(s);
    if canonical_chars(&chars) {
        if let Some(n) = int_of_chars(&chars) {
            return Value::Int(n);
        }
    }
    if let Some(bits) = float {
        if has_char(&chars, '.') || has_char(&chars, 'e') || has_char(&chars, 'E') {
            return Value::Float(bits);
        }
    }
    if same_text(s, "true") {
        return Value::Bool(true);
    }
    if same_text(s, "false") {
        return Value::Bool(false);
    }
    Value::Text(owned(s))
}

/// Whether a character may stand in the text form of an id.
pub open spec fn is_id_char(c: char) -> bool {
    ('0' <= c <= '9') || ('a' <= c <= 'f') || c == '-'
}

/// The text form of an id is made of digits, letters from a to f and hyphens.
pub proof fn uuid_text_chars(u: Uuid, n: nat)
    requires
        n <= 16,
    ensures
        forall|i: int|
            0 <= i < uuid_text_upto(u, n).len() ==> is_id_char(#[trigger] uuid_text_upto(u, n)[i]),
    decreases n,
{
    if n > 0 {
        let m = (n - 1) as nat;
        uuid_text_chars(u, m);
        let before = uuid_text_upto(u, m);
        let s = uuid_text_upto(u, n);
        assert forall|i: int| 0 <= i < s.len() implies is_id_char(#[trigger] s[i]) by {
            if i < before.len() {
                assert(s[i] == before[i]);
            } else {
                assert(s[i] == '-' || s[i] == hex2(u.0@[m as int])[0] || s[i] == hex2(
                    u.0@[m as int],
                )[1]);
            }
        }
    }
}

/// Values are equal exactly if they are the same, but for doubles: one that is not a number
/// equals nothing, and the two zeros are equal. Equality goes both ways.
pub proof fn equal_values_are_the_same(a: SpecValue, b: SpecValue)
    ensures
        !(a is Float && b is Float) ==> (same_value(a, b) <==> a == b),
        a is Float && same_value(a, b) && a != b ==> b is Float && ({
            let x = a->Float_0;
            let y = b->Float_0;
            (x == 0 && y == 0x8000_0000_0000_0000) || (y == 0 && x == 0x8000_0000_0000_0000)
        }),
        a is Float ==> (same_value(a, a) <==> !float_is_nan(a->Float_0)),
        same_value(a, b) == same_value(b, a),
        float_is_nan(0x7ff8_0000_0000_0000) && !float_is_nan(0x7ff0_0000_0000_0000)
            && !float_is_nan(0xfff0_0000_0000_0000) && !float_is_nan(0) && !float_is_nan(
            0x3ff0_0000_0000_0000,
        ),
{
}

/// The bytes of a value, by its kind: a tag of one byte, and then nothing, eight bytes for a
/// number, one for a truth value, four for the length of a text and the text, the sixteen of
/// an id, eight for the length of a blob and the blob.
pub proof fn values_are_laid_out(v: SpecValue)
    ensures
        v == SpecValue::Empty ==> value_bytes(v) == seq![0x00u8],
        v is Int ==> value_bytes(v) == seq![0x01u8] + be(i64_bits(v->Int_0), 8),
        v is Float ==> value_bytes(v) == seq![0x02u8] + be(v->Float_0 as nat, 8),
        v == SpecValue::Bool(false) ==> value_bytes(v) == seq![0x03u8, 0u8],
        v == SpecValue::Bool(true) ==> value_bytes(v) == seq![0x03u8, 1u8],
        v is Text ==> value_bytes(v) == seq![0x04u8] + be(encode_utf8(v->Text_0).len(), 4)
            + encode_utf8(v->Text_0),
        v is Reference ==> value_bytes(v) == seq![0x05u8] + v->Reference_0.0@,
        v is Blob ==> value_bytes(v) == seq![0x06u8] + be(v->Blob_0.len(), 8) + v->Blob_0,
{
    match v {
        SpecValue::Empty => {
            assert(value_bytes(v) =~= seq![EMPTY]);
        },
        SpecValue::Bool(b) => {
            assert(value_bytes(v) =~= seq![BOOL, if b { 1u8 } else { 0u8 }]);
        },
        SpecValue::Text(s) => {
            assert(value_bytes(v) =~= seq![TEXT] + be(encode_utf8(s).len(), 4) + encode_utf8(s));
        },
        SpecValue::Blob(b) => {
            assert(value_bytes(v) =~= seq![BLOB] + be(b.len(), 8) + b);
        },
        _ => {},
    }
}

/// The bytes of a node: those of its id, those of its parent or zeros, the length of its name,
/// its name, and its value.
pub proof fn nodes_are_laid_out(n: SpecNode)
    requires
        encode_utf8(n.name).len() < 256,
    ensures
        ({
            let b = node_bytes(n);
            let l = encode_utf8(n.name).len() as int;
            &&& b.len() == 33 + l + value_bytes(n.value).len()
            &&& b.subrange(0, 16) == n.id.0@
            &&& n.parent is Some ==> b.subrange(16, 32) == n.parent->Some_0.0@
            &&& n.parent is None ==> forall|i: int| 16 <= i < 32 ==> #[trigger] b[i] == 0
            &&& b[32] == l
            &&& b.subrange(33, 33 + l) == encode_utf8(n.name)
            &&& b.skip(33 + l) == value_bytes(n.value)
        }),
{
    let b = node_bytes(n);
    let l = encode_utf8(n.name).len() as int;
    assert(n.id.0@.len() == 16 && parent_or_nil(n.parent).0@.len() == 16);
    assert(b.subrange(0, 16) =~= n.id.0@);
    assert(b.subrange(16, 32) =~= parent_or_nil(n.parent).0@);
    assert(b.subrange(33, 33 + l) =~= encode_utf8(n.name));
    assert(b.skip(33 + l) =~= value_bytes(n.value));
    if n.parent is None {
        assert forall|i: int| 16 <= i < 32 implies #[trigger] b[i] == 0 by {
            assert(b.subrange(16, 32)[i - 16] == b[i]);
            assert(nil_id().0@[i - 16] == 0u8);
        }
    }
}

/// Reading a value that is not whole fails, as does one with a tag that there is not; any
/// byte but zero is true.
pub proof fn only_whole_values_are_read(data: Seq<u8>, off: int)
    requires
        0 <= off <= data.len(),
    ensures
        off == data.len() ==> value_at(data, off).0 == Err::<SpecValue, Error>(Error::Truncated),
        off < data.len() && data[off] > 6 ==> value_at(data, off).0 == Err::<SpecValue, Error>(
            Error::InvalidTag(data[off]),
        ),
        off + 1 < data.len() && data[off] == 3 ==> value_at(data, off) == (
            Ok::<SpecValue, Error>(SpecValue::Bool(data[off + 1] != 0)),
            off + 2,
        ),
        off < data.len() && (data[off] == 1 || data[off] == 2) && data.len() < off + 9 ==> value_at(
            data,
            off,
        ).0 == Err::<SpecValue, Error>(Error::Truncated),
        value_at(data, off).0 is Ok ==> off < value_at(data, off).1 <= data.len(),
{
}

proof fn lemma_same_digits(s: Seq<char>)
    ensures
        digits_value(s) == crate::text::digits_number(s),
    decreases s.len(),
{
    if s.len() > 0 {
        lemma_same_digits(s.drop_last());
    }
}

/// A text is read as the number whose decimal digits it is, as a truth value where it is
/// `true` or `false`, as a double where it has a point or an exponent and denotes one, and
/// else as the text that it is.
pub proof fn texts_stand_for_values(s: Seq<char>, n: i64, float: Option<u64>)
    ensures
        parsed_value(crate::text::signed_decimal(n as int), float) == SpecValue::Int(n),
        parsed_value(s, float) is Text ==> parsed_value(s, float) == SpecValue::Text(s),
        parsed_value(s, float) is Float ==> float is Some && parsed_value(s, float)
            == SpecValue::Float(float->Some_0) && exists|i: int|
            0 <= i < s.len() && (s[i] == '.' || s[i] == 'e' || s[i] == 'E'),
        parsed_value("true"@, None) == SpecValue::Bool(true),
        parsed_value("false"@, None) == SpecValue::Bool(false),
        parsed_value(s, float) == SpecValue::Bool(true) ==> s == "true"@,
        parsed_value(s, float) == SpecValue::Bool(false) ==> s == "false"@,
        !(parsed_value(s, float) is Empty) && !(parsed_value(s, float) is Reference) && !(
        parsed_value(s, float) is Blob),
        float is Some && (exists|i: int|
            0 <= i < s.len() && (s[i] == '.' || s[i] == 'e' || s[i] == 'E')) ==> parsed_value(
            s,
            float,
        ) == SpecValue::Float(float->Some_0),
{
    let d = crate::text::signed_decimal(n as int);
    let m = if n >= 0 {
        n as nat
    } else {
        (-n) as nat
    };
    crate::text::decimal_is_read(m);
    crate::text::decimals_have_no_needless_zero(m);
    lemma_same_digits(crate::text::decimal(m));
    if n < 0 {
        assert(d[0] == '-');
        assert(without_minus(d) =~= crate::text::decimal(m));
    } else {
        assert('0' <= d[0] <= '9');
        assert(without_minus(d) == d);
    }
    assert(canonical_int(d));
    assert(int_value(d) == n);
    reveal_strlit("true");
    reveal_strlit("false");
    assert(without_minus("true"@)[0] == 't');
    assert(without_minus("false"@)[0] == 'f');
    assert(!all_digits("true"@));
    assert(!all_digits("false"@));
    assert("true"@.len() != "false"@.len());
    if exists|i: int| 0 <= i < s.len() && (s[i] == '.' || s[i] == 'e' || s[i] == 'E') {
        let i = choose|i: int| 0 <= i < s.len() && (s[i] == '.' || s[i] == 'e' || s[i] == 'E');
        let body = without_minus(s);
        let k = if body == s {
            i
        } else {
            i - 1
        };
        if s[0] == '-' && i > 0 {
            assert(body[i - 1] == s[i]);
        }
        assert(!all_digits(body));
        if s[i] == '.' {
            assert(holds_char(s, '.'));
        } else if s[i] == 'e' {
            assert(holds_char(s, 'e'));
        } else {
            assert(holds_char(s, 'E'));
        }
    }
}

/// A text spells an id exactly if it is thirty-two hexadecimal digits but for its hyphens;
/// these do not count, nor does the case of the digits.
pub proof fn ids_are_spelled_by_digits(s: Seq<char>, c: char, v: nat)
    ensures
        id_of_text(s) is Some <==> without_hyphens(s).len() == 32 && forall|i: int|
            0 <= i < without_hyphens(s).len() ==> hex_value(#[trigger] without_hyphens(s)[i]) is Some,
        id_of_text(without_hyphens(s)) == id_of_text(s),
        hex_value(c) == Some(v) <==> (v < 10 && c as int == 48 + v) || (10 <= v < 16 && (c as int
            == 87 + v || c as int == 55 + v)),
{
    lemma_no_hyphens(s);
}

proof fn lemma_no_hyphens(s: Seq<char>)
    ensures
        without_hyphens(without_hyphens(s)) == without_hyphens(s),
    decreases s.len(),
{
    if s.len() > 0 {
        let d = s.drop_last();
        lemma_no_hyphens(d);
        if s.last() != '-' {
            assert(without_hyphens(d).push(s.last()).drop_last() =~= without_hyphens(d));
        } else {
            assert(without_hyphens(s) == without_hyphens(d));
        }
    } else {
        assert(without_hyphens(s) =~= s);
    }
}

/// The text form of an id has thirty-six characters, with hyphens behind the first eight, and
/// then behind four, four and four digits; two digits for each byte.
pub proof fn ids_are_written_in_groups(u: Uuid)
    ensures
        uuid_text(u).len() == 36,
        uuid_text(u)[8] == '-' && uuid_text(u)[13] == '-' && uuid_text(u)[18] == '-' && uuid_text(
            u,
        )[23] == '-',
        uuid_text(u).subrange(0, 2) == hex2(u.0@[0]),
        uuid_text(u).subrange(34, 36) == hex2(u.0@[15]),
{
    reveal_with_fuel(uuid_text_upto, 17);
    let t = uuid_text(u);
    assert(t.subrange(0, 2) =~= hex2(u.0@[0]));
    assert(t.subrange(34, 36) =~= hex2(u.0@[15]));
}

} // verus!
