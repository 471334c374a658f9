//! Text: comparing, joining and searching strings, and decimal numbers.
use vstd::prelude::*;
use vstd::string::StringExecFns;
use vstd::utf8::{decode_utf8, valid_utf8};

verus! {

/// `String::from_utf8`: it succeeds exactly on valid UTF-8, and the text is
/// the decoding of the bytes.
#[verifier::external_body]
fn string_from_utf8(bytes: Vec<u8>) -> (r: Result<String, std::string::FromUtf8Error>)
    ensures
        r is Ok <==> valid_utf8(bytes@),
        r is Ok ==> r->Ok_0@ == decode_utf8(bytes@),
{
    String::from_utf8(bytes)
}

/// `String::push`: the character comes after those that are there.
#[verifier::external_body]
pub(crate) fn push_char(s: &mut String, c: char)
    ensures
        final(s)@ == old(s)@.push(c),
{
    s.push(c)
}

/// The text that `String::from_utf8_lossy` makes of bytes that are no valid UTF-8.
pub uninterp spec fn repaired_text(bytes: Seq<u8>) -> Seq<char>;

/// The text of bytes: their decoding, or what stands for them where they are no
/// valid UTF-8.
pub open spec fn lossy_text(bytes: Seq<u8>) -> Seq<char> {
    if valid_utf8(bytes) {
        decode_utf8(bytes)
    } else {
        repaired_text(bytes)
    }
}

/// `String::from_utf8_lossy`: the decoding of bytes that are valid UTF-8. What
/// stands for others is left unsaid, but for being a function of the bytes.
#[verifier::external_body]
pub(crate) fn lossy(bytes: &[u8]) -> (r: String)
    ensures
        valid_utf8(bytes@) ==> r@ == decode_utf8(bytes@),
        !valid_utf8(bytes@) ==> r@ == repaired_text(bytes@),
{
    String::from_utf8_lossy(bytes).into_owned()
}

#[verifier::external_type_specification]
#[verifier::external_body]
pub struct ExFromUtf8Error(std::string::FromUtf8Error);

/// The text that `bytes` encode, if they are valid UTF-8.
pub fn text_of_bytes(bytes: Vec<u8>) -> (r: Option<String>)
    ensures
        r is Some <==> valid_utf8(bytes@),
        r is Some ==> r->Some_0@ == decode_utf8(bytes@),
{
    match string_from_utf8(bytes) {
        Ok(s) => Some(s),
        Err(_) => None,
    }
}

/// Whether two strings hold the same characters.
pub fn same_text(a: &str, b: &str) -> (r: bool)
    ensures
        r == (a@ == b@),
{
    let r = crate::bytes::same_bytes(a.as_bytes(), b.as_bytes());
    proof {
        vstd::utf8::encode_utf8_decode_utf8(a@);
        vstd::utf8::encode_utf8_decode_utf8(b@);
    }
    r
}

/// A copy of a string slice.
pub fn owned(s: &str) -> (r: String)
    ensures
        r@ == s@,
{
    s.to_owned()
}

/// The characters of a string.
pub fn chars_of(s: &str) -> (r: Vec<char>)
    ensures
        r@ == s@,
{
    let mut out: Vec<char> = Vec::new();
    for c in it: s.chars()
        invariant
            out@ == it.seq().take(it.index() as int),
            it.seq() == s@,
    {
        out.push(c);
        assert(it.seq().take(it.index() + 1) =~= it.seq().take(it.index() as int).push(it.seq()[it.index() as int]));
    }
    assert(s@.take(s@.len() as int) =~= s@);
    out
}

/// The string of a run of characters.
pub fn string_of(chars: &Vec<char>, from: usize, to: usize) -> (r: String)
    requires
        from <= to <= chars@.len(),
    ensures
        r@ == chars@.subrange(from as int, to as int),
{
    let mut out = String::new();
    let mut i: usize = from;
    while i < to
        invariant
            from <= i <= to <= chars@.len(),
            out@ == chars@.subrange(from as int, i as int),
        decreases to - i,
    {
        push_char(&mut out, chars[i]);
        assert(chars@.subrange(from as int, i + 1) =~= chars@.subrange(from as int, i as int).push(chars@[i as int]));
        i = i + 1;
    }
    out
}

/// `a` followed by `b`.
pub fn join2(a: &str, b: &str) -> (r: String)
    ensures
        r@ == a@ + b@,
{
    let mut s = a.to_owned();
    s.append(b);
    s
}

/// `a`, `b` and `c` one after the other.
pub fn join3(a: &str, b: &str, c: &str) -> (r: String)
    ensures
        r@ == a@ + b@ + c@,
{
    let mut s = a.to_owned();
    s.append(b);
    s.append(c);
    s
}

/// Whether the text starts with the character `c`.
pub open spec fn begins(s: Seq<char>, c: char) -> bool {
    s.len() > 0 && s[0] == c
}

/// Whether the name marks an auxiliary node: it starts with `@`.
pub fn is_aux_name(s: &str) -> (r: bool)
    ensures
        r == begins(s@, '@'),
{
    !s.is_empty() && s.get_char(0) == '@'
}

/// The decimal digits of `n`.
pub open spec fn decimal(n: nat) -> Seq<char>
    decreases n,
{
    if n < 10 {
        seq![digit(n)]
    } else {
        decimal(n / 10).push(digit(n % 10))
    }
}

/// The character of a decimal digit.
pub open spec fn digit(d: nat) -> char {
    (48 + d) as char
}

fn digit_char(d: u64) -> (c: char)
    requires
        d < 10,
    ensures
        c == digit(d as nat),
{
    (48 + d as u8) as char
}

fn push_decimal(out: &mut String, n: u64)
    ensures
        final(out)@ == old(out)@ + decimal(n as nat),
    decreases n,
{
    if n < 10 {
        push_char(out, digit_char(n));
    } else {
        push_decimal(out, n / 10);
        push_char(out, digit_char(n % 10));
    }
    assert(out@ =~= old(out)@ + decimal(n as nat));
}

/// `n` in decimal.
pub fn decimal_text(n: u64) -> (r: String)
    ensures
        r@ == decimal(n as nat),
{
    let mut out = String::new();
    push_decimal(&mut out, n);
    assert(out@ =~= decimal(n as nat));
    out
}

/// A signed number in decimal, with a minus sign where it is negative.
pub open spec fn signed_decimal(n: int) -> Seq<char> {
    if n >= 0 {
        decimal(n as nat)
    } else {
        seq!['-'] + decimal((-n) as nat)
    }
}

/// `n` in decimal.
pub fn signed_decimal_text(n: i64) -> (r: String)
    ensures
        r@ == signed_decimal(n as int),
{
    if n >= 0 {
        decimal_text(n as u64)
    } else {
        let mut out = String::new();
        push_char(&mut out, '-');
        let m: u64 = (-(n + 1)) as u64 + 1;
        push_decimal(&mut out, m);
        assert(out@ =~= signed_decimal(n as int));
        out
    }
}

/// The order of texts by their characters' code points, which is the order of
/// their UTF-8 bytes.
pub open spec fn lex_less(a: Seq<char>, b: Seq<char>) -> bool
    decreases b.len(),
{
    if b.len() == 0 {
        false
    } else if a.len() == 0 {
        true
    } else if a[0] != b[0] {
        a[0] < b[0]
    } else {
        lex_less(a.skip(1), b.skip(1))
    }
}

/// Whether `a` comes before `b`.
pub fn text_less(a: &str, b: &str) -> (r: bool)
    ensures
        r == lex_less(a@, b@),
{
    let x = chars_of(a);
    let y = chars_of(b);
    let mut i: usize = 0;
    assert(a@.skip(0) =~= a@);
    assert(b@.skip(0) =~= b@);
    while i < y.len()
        invariant
            x@ == a@,
            y@ == b@,
            i <= x@.len(),
            i <= y@.len(),
            lex_less(a@, b@) == lex_less(a@.skip(i as int), b@.skip(i as int)),
        decreases y@.len() - i,
    {
        if i >= x.len() {
            return true;
        }
        assert(a@.skip(i as int).skip(1) =~= a@.skip(i + 1));
        assert(b@.skip(i as int).skip(1) =~= b@.skip(i + 1));
        if x[i] != y[i] {
            return x[i] < y[i];
        }
        i = i + 1;
    }
    false
}

/// Whether `needle` stands in `hay` at `i`.
pub open spec fn stands_at(hay: Seq<char>, needle: Seq<char>, i: int) -> bool {
    0 <= i && i + needle.len() <= hay.len() && hay.subrange(i, i + needle.len()) == needle
}

/// Whether `needle` stands somewhere in `hay`.
pub open spec fn holds_text(hay: Seq<char>, needle: Seq<char>) -> bool {
    exists|i: int| #[trigger] stands_at(hay, needle, i)
}

/// Whether `needle` stands somewhere in `hay`.
pub fn contains_text(hay: &str, needle: &str) -> (r: bool)
    ensures
        r == holds_text(hay@, needle@),
{
    let h = chars_of(hay);
    let n = chars_of(needle);
    if n.len() > h.len() {
        return false;
    }
    let last: usize = h.len() - n.len();
    let mut i: usize = 0;
    while i <= last
        invariant
            h@ == hay@,
            n@ == needle@,
            last == h@.len() - n@.len(),
            i <= last + 1,
            h@.len() <= usize::MAX,
            forall|j: int| 0 <= j < i ==> !#[trigger] stands_at(hay@, needle@, j),
        decreases last + 1 - i,
    {
        let mut k: usize = 0;
        while k < n.len() && h[i + k] == n[k]
            invariant
                h@ == hay@,
                n@ == needle@,
                i <= last,
                last == h@.len() - n@.len(),
                h@.len() <= usize::MAX,
                k <= n@.len(),
                forall|j: int| 0 <= j < k ==> h@[i + j] == n@[j],
            decreases n@.len() - k,
        {
            k = k + 1;
        }
        if k == n.len() {
            assert(hay@.subrange(i as int, i + n@.len()) =~= needle@);
            assert(stands_at(hay@, needle@, i as int));
            return true;
        }
        assert(!stands_at(hay@, needle@, i as int)) by {
            assert(hay@.subrange(i as int, i + n@.len())[k as int] == h@[i + k]);
        }
        if i == last {
            return false;
        }
        i = i + 1;
    }
    false
}

/// The parts of a text between the separators.
pub open spec fn split_at_char(s: Seq<char>, c: char) -> Seq<Seq<char>>
    decreases s.len(),
{
    if s.len() == 0 {
        seq![Seq::<char>::empty()]
    } else {
        let before = split_at_char(s.drop_last(), c);
        if s.last() == c {
            before.push(Seq::<char>::empty())
        } else {
            before.drop_last().push(before.last().push(s.last()))
        }
    }
}

/// The views of strings.
pub open spec fn text_views(v: Seq<String>) -> Seq<Seq<char>> {
    Seq::new(v.len(), |i: int| v[i]@)
}

proof fn lemma_split_len(s: Seq<char>, c: char)
    ensures
        split_at_char(s, c).len() >= 1,
    decreases s.len(),
{
    if s.len() > 0 {
        lemma_split_len(s.drop_last(), c);
    }
}

/// The parts of a text between the separators; at least one.
pub fn split_char(s: &str, c: char) -> (r: Vec<String>)
    ensures
        text_views(r@) == split_at_char(s@, c),
        r@.len() >= 1,
{
    let chars = chars_of(s);
    let mut out: Vec<String> = Vec::new();
    let mut cur = String::new();
    let mut i: usize = 0;
    assert(s@.take(0) =~= Seq::<char>::empty());
    assert(text_views(out@).push(cur@) =~= split_at_char(s@.take(0), c));
    while i < chars.len()
        invariant
            i <= chars@.len(),
            chars@ == s@,
            text_views(out@).push(cur@) == split_at_char(s@.take(i as int), c),
        decreases chars@.len() - i,
    {
        let ghost parts = split_at_char(s@.take(i as int), c);
        let ghost o0 = out@;
        let ghost c0 = cur@;
        proof {
            assert(s@.take(i + 1).drop_last() =~= s@.take(i as int));
            assert(parts.drop_last() =~= text_views(o0));
            assert(parts.last() == c0);
        }
        if chars[i] == c {
            out.push(cur);
            cur = String::new();
            assert(text_views(out@) =~= text_views(o0).push(c0));
            assert(text_views(out@).push(cur@) =~= parts.push(Seq::<char>::empty()));
        } else {
            push_char(&mut cur, chars[i]);
        }
        i = i + 1;
    }
    assert(s@.take(s@.len() as int) =~= s@);
    let ghost o0 = out@;
    let ghost c0 = cur@;
    out.push(cur);
    assert(text_views(out@) =~= text_views(o0).push(c0));
    out
}

/// Whether every character is a decimal digit.
pub open spec fn is_digits(s: Seq<char>) -> bool {
    forall|i: int| 0 <= i < s.len() ==> '0' <= #[trigger] s[i] <= '9'
}

/// The number that decimal digits denote.
pub open spec fn digits_number(s: Seq<char>) -> nat
    decreases s.len(),
{
    if s.len() == 0 {
        0
    } else {
        digits_number(s.drop_last()) * 10 + (s.last() as int - 48) as nat
    }
}

/// The digits of a number behind its sign.
pub open spec fn after_sign(s: Seq<char>) -> Seq<char> {
    if s.len() > 0 && (s[0] == '+' || s[0] == '-') {
        s.skip(1)
    } else {
        s
    }
}

/// The signed number that a text denotes: digits, behind a sign or not.
pub open spec fn signed_number(s: Seq<char>) -> Option<int> {
    let d = after_sign(s);
    if d.len() == 0 || !is_digits(d) {
        None
    } else if s[0] == '-' {
        Some(-(digits_number(d) as int))
    } else {
        Some(digits_number(d) as int)
    }
}

proof fn lemma_digits_grow(s: Seq<char>, i: int)
    requires
        0 <= i <= s.len(),
        is_digits(s),
    ensures
        digits_number(s.take(i)) <= digits_number(s),
    decreases s.len() - i,
{
    if i < s.len() {
        lemma_digits_grow(s, i + 1);
        assert(s.take(i + 1).drop_last() =~= s.take(i));
        assert('0' <= s[i] <= '9');
    } else {
        assert(s.take(i) =~= s);
    }
}

/// What the digits from `start` on denote.
#[derive(Clone, Copy)]
pub enum Digits {
    /// There are none, or something else stands among them.
    No,
    /// A number that takes more than 64 bits.
    Large,
    /// The number.
    Number(u64),
}

fn read_digits(chars: &Vec<char>, start: usize) -> (r: Digits)
    requires
        start <= chars@.len(),
    ensures
        ({
            let d = chars@.skip(start as int);
            match r {
                Digits::No => d.len() == 0 || !is_digits(d),
                Digits::Large => d.len() > 0 && is_digits(d) && digits_number(d) > u64::MAX,
                Digits::Number(n) => d.len() > 0 && is_digits(d) && digits_number(d) == n,
            }
        }),
{
    let ghost d = chars@.skip(start as int);
    if start == chars.len() {
        return Digits::No;
    }
    let mut i: usize = start;
    while i < chars.len()
        invariant
            start <= i <= chars@.len(),
            d == chars@.skip(start as int),
            forall|j: int| 0 <= j < i - start ==> '0' <= #[trigger] d[j] <= '9',
        decreases chars@.len() - i,
    {
        if !('0' <= chars[i] && chars[i] <= '9') {
            assert(d[i - start] == chars@[i as int]);
            return Digits::No;
        }
        i = i + 1;
    }
    let mut acc: u64 = 0;
    let mut k: usize = start;
    assert(d.take(0) =~= Seq::<char>::empty());
    while k < chars.len()
        invariant
            start <= k <= chars@.len(),
            d == chars@.skip(start as int),
            is_digits(d),
            d.len() > 0,
            acc == digits_number(d.take(k - start)),
        decreases chars@.len() - k,
    {
        assert(d[k - start] == chars@[k as int]);
        let x: u64 = chars[k] as u64 - 48;
        proof {
            assert(d.take(k - start + 1).drop_last() =~= d.take(k - start));
            lemma_digits_grow(d, k - start + 1);
        }
        if acc > (0xffff_ffff_ffff_ffff - x) / 10 {
            return Digits::Large;
        }
        acc = acc * 10 + x;
        k = k + 1;
    }
    assert(d.take(d.len() as int) =~= d);
    Digits::Number(acc)
}

/// The 64-bit signed number that a text denotes, if it does.
pub fn parse_i64(s: &str) -> (r: Option<i64>)
    ensures
        match r {
            Some(n) => signed_number(s@) == Some(n as int),
            None => match signed_number(s@) {
                Some(n) => !(i64::MIN <= n <= i64::MAX),
                None => true,
            },
        },
{
    let chars = chars_of(s);
    let signed = chars.len() > 0 && (chars[0] == '+' || chars[0] == '-');
    let start: usize = if signed { 1 } else { 0 };
    assert(after_sign(s@) =~= chars@.skip(start as int));
    match read_digits(&chars, start) {
        Digits::No => None,
        Digits::Large => None,
        Digits::Number(n) => if chars[0] == '-' {
            if n <= 0x7fff_ffff_ffff_ffff {
                Some(-(n as i64))
            } else if n == 0x8000_0000_0000_0000 {
                Some(i64::MIN)
            } else {
                None
            }
        } else if n <= 0x7fff_ffff_ffff_ffff {
            Some(n as i64)
        } else {
            None
        },
    }
}

/// The unsigned number that a text denotes: digits, behind a plus sign or not.
pub open spec fn unsigned_number(s: Seq<char>) -> Option<nat> {
    let d = if s.len() > 0 && s[0] == '+' {
        s.skip(1)
    } else {
        s
    };
    if d.len() == 0 || !is_digits(d) {
        None
    } else {
        Some(digits_number(d))
    }
}

/// The unsigned number that a text denotes, if it fits.
pub fn parse_usize(s: &str) -> (r: Option<usize>)
    ensures
        match r {
            Some(n) => unsigned_number(s@) == Some(n as nat),
            None => match unsigned_number(s@) {
                Some(n) => n > usize::MAX,
                None => true,
            },
        },
{
    let chars = chars_of(s);
    let start: usize = if chars.len() > 0 && chars[0] == '+' { 1 } else { 0 };
    assert((if s@.len() > 0 && s@[0] == '+' { s@.skip(1) } else { s@ }) =~= chars@.skip(start as int));
    match read_digits(&chars, start) {
        Digits::No => None,
        Digits::Large => None,
        Digits::Number(n) => if n <= usize::MAX as u64 {
            Some(n as usize)
        } else {
            None
        },
    }
}

/// The rest of a text behind a prefix.
pub fn strip_prefix(s: &str, prefix: &str) -> (r: Option<String>)
    ensures
        match r {
            Some(rest) => s@ == prefix@ + rest@,
            None => !(prefix@.len() <= s@.len() && s@.take(prefix@.len() as int) == prefix@),
        },
{
    let a = chars_of(s);
    let b = chars_of(prefix);
    if b.len() > a.len() {
        return None;
    }
    let mut i: usize = 0;
    while i < b.len()
        invariant
            a@ == s@,
            b@ == prefix@,
            i <= b@.len() <= a@.len(),
            forall|j: int| 0 <= j < i ==> a@[j] == b@[j],
        decreases b@.len() - i,
    {
        if a[i] != b[i] {
            assert(s@.take(prefix@.len() as int)[i as int] == a@[i as int]);
            return None;
        }
        i = i + 1;
    }
    let rest = string_of(&a, b.len(), a.len());
    assert(s@ =~= prefix@ + rest@);
    Some(rest)
}

/// A number in decimal is read as that number.
pub proof fn decimal_is_read(n: nat)
    ensures
        decimal(n).len() > 0,
        is_digits(decimal(n)),
        digits_number(decimal(n)) == n,
    decreases n,
{
    let d = decimal(n);
    if n < 10 {
        reveal_with_fuel(digits_number, 2);
        assert(d.drop_last() =~= Seq::<char>::empty());
        assert(d.last() == digit(n));
    } else {
        decimal_is_read(n / 10);
        let f = decimal(n / 10);
        assert(d.drop_last() =~= f);
        assert(d.last() == digit(n % 10));
        assert forall|i: int| 0 <= i < d.len() implies '0' <= #[trigger] d[i] <= '9' by {
            if i < f.len() {
                assert(d[i] == f[i]);
            }
        }
    }
}

/// A signed number in decimal is read as that number.
pub proof fn signed_decimal_is_read(n: int)
    ensures
        signed_number(signed_decimal(n)) == Some(n),
{
    let s = signed_decimal(n);
    if n >= 0 {
        decimal_is_read(n as nat);
        assert('0' <= s[0] <= '9');
    } else {
        decimal_is_read((-n) as nat);
        assert(s.skip(1) =~= decimal((-n) as nat));
    }
}

/// Whether a character is white space (the Unicode property `White_Space`).
pub open spec fn is_white(c: char) -> bool {
    let n = c as int;
    (9 <= n <= 13) || n == 32 || n == 0x85 || n == 0xa0 || n == 0x1680 || (0x2000 <= n <= 0x200a)
        || n == 0x2028 || n == 0x2029 || n == 0x202f || n == 0x205f || n == 0x3000
}

/// Whether a character is white space.
pub fn white(c: char) -> (r: bool)
    ensures
        r == is_white(c),
{
    let n: u32 = c as u32;
    (9 <= n && n <= 13) || n == 32 || n == 0x85 || n == 0xa0 || n == 0x1680 || (0x2000 <= n && n
        <= 0x200a) || n == 0x2028 || n == 0x2029 || n == 0x202f || n == 0x205f || n == 0x3000
}

/// A text without the white space at its end.
pub open spec fn trimmed_end(s: Seq<char>) -> Seq<char>
    decreases s.len(),
{
    if s.len() > 0 && is_white(s.last()) {
        trimmed_end(s.drop_last())
    } else {
        s
    }
}

/// A text without the white space at its end.
pub fn trim_end(s: &str) -> (r: String)
    ensures
        r@ == trimmed_end(s@),
{
    let chars = chars_of(s);
    let mut n: usize = chars.len();
    assert(s@.take(n as int) =~= s@);
    while n > 0 && white(chars[n - 1])
        invariant
            n <= chars@.len(),
            chars@ == s@,
            trimmed_end(s@) == trimmed_end(s@.take(n as int)),
        decreases n,
    {
        assert(s@.take(n as int).drop_last() =~= s@.take(n - 1));
        n = n - 1;
    }
    assert(s@.subrange(0, n as int) =~= s@.take(n as int));
    string_of(&chars, 0, n)
}

/// A text without the white space at its start.
pub open spec fn trimmed_start(s: Seq<char>) -> Seq<char>
    decreases s.len(),
{
    if s.len() > 0 && is_white(s[0]) {
        trimmed_start(s.skip(1))
    } else {
        s
    }
}

/// A text without the white space around it.
pub open spec fn trimmed(s: Seq<char>) -> Seq<char> {
    trimmed_end(trimmed_start(s))
}

/// A text without the white space around it.
pub fn trim(s: &str) -> (r: String)
    ensures
        r@ == trimmed(s@),
{
    let chars = chars_of(s);
    let mut i: usize = 0;
    assert(s@.skip(0) =~= s@);
    while i < chars.len() && white(chars[i])
        invariant
            i <= chars@.len(),
            chars@ == s@,
            trimmed_start(s@) == trimmed_start(s@.skip(i as int)),
        decreases chars@.len() - i,
    {
        assert(s@.skip(i as int).skip(1) =~= s@.skip(i + 1));
        i = i + 1;
    }
    let t = string_of(&chars, i, chars.len());
    assert(t@ =~= s@.skip(i as int));
    trim_end(t.as_str())
}

/// A text is held by another exactly if it stands somewhere in it.
pub proof fn held_text_stands_somewhere(hay: Seq<char>, needle: Seq<char>)
    ensures
        holds_text(hay, needle) <==> exists|k: int|
            0 <= k <= hay.len() - needle.len() && #[trigger] hay.subrange(k, k + needle.len()) == needle,
{
    if holds_text(hay, needle) {
        let k = choose|k: int| #[trigger] stands_at(hay, needle, k);
        assert(hay.subrange(k, k + needle.len()) == needle);
    }
    if exists|k: int|
        0 <= k <= hay.len() - needle.len() && #[trigger] hay.subrange(k, k + needle.len()) == needle {
        let k = choose|k: int|
            0 <= k <= hay.len() - needle.len() && #[trigger] hay.subrange(k, k + needle.len())
                == needle;
        assert(stands_at(hay, needle, k));
    }
}

/// Decimal digits go from the left: the last one is what is left by ten, and those before it
/// are the digits of the rest.
pub proof fn digits_go_from_the_left(n: nat)
    ensures
        n < 10 ==> decimal(n).len() == 1,
        decimal(n).len() > 0 && decimal(n).last() as int == 48 + n % 10,
        n >= 10 ==> decimal(n).drop_last() == decimal(n / 10),
{
    decimal_is_read(n);
    if n >= 10 {
        assert(decimal(n).drop_last() =~= decimal(n / 10));
    }
}

/// A decimal number has no zero in front, unless it is zero.
pub proof fn decimals_have_no_needless_zero(n: nat)
    ensures
        decimal(n).len() > 0,
        decimal(n).len() == 1 || decimal(n)[0] != '0',
        n > 0 ==> decimal(n)[0] != '0',
    decreases n,
{
    if n >= 10 {
        decimals_have_no_needless_zero(n / 10);
        assert(decimal(n)[0] == decimal(n / 10)[0]);
    } else {
        assert(decimal(n)[0] == digit(n));
    }
}

/// Parts with a separator between each two.
pub open spec fn joined_by(parts: Seq<Seq<char>>, c: char) -> Seq<char>
    decreases parts.len(),
{
    if parts.len() == 0 {
        Seq::empty()
    } else if parts.len() == 1 {
        parts[0]
    } else {
        joined_by(parts.drop_last(), c).push(c) + parts.last()
    }
}

/// The parts of a text make the text again with the separator between each two, and none of
/// them has the separator in it.
pub proof fn parts_make_the_text(s: Seq<char>, c: char)
    ensures
        split_at_char(s, c).len() > 0,
        joined_by(split_at_char(s, c), c) == s,
        forall|i: int|
            0 <= i < split_at_char(s, c).len() ==> !(#[trigger] split_at_char(s, c)[i]).contains(c),
    decreases s.len(),
{
    let parts = split_at_char(s, c);
    if s.len() == 0 {
        assert(joined_by(parts, c) =~= s);
    } else {
        let d = s.drop_last();
        let before = split_at_char(d, c);
        parts_make_the_text(d, c);
        assert forall|i: int| 0 <= i < parts.len() implies !(#[trigger] parts[i]).contains(c) by {
            if i < before.len() - 1 {
                assert(parts[i] == before[i]);
            } else if s.last() == c {
                if i < before.len() {
                    assert(parts[i] == before[i]);
                }
            } else {
                let l = before.last();
                assert(!before[before.len() - 1].contains(c));
                if parts[i].contains(c) {
                    let k = choose|k: int| 0 <= k < parts[i].len() && parts[i][k] == c;
                    assert(k < l.len());
                    assert(l[k] == c);
                }
            }
        }
        if s.last() == c {
            assert(parts.drop_last() =~= before);
            assert(joined_by(parts, c) =~= s);
        } else {
            assert(parts.drop_last() =~= before.drop_last());
            assert(s =~= d.push(s.last()));
            if before.len() == 1 {
                assert(before[0] == d);
                assert(parts[0] == d.push(s.last()));
            } else {
                let front = joined_by(before.drop_last(), c).push(c);
                assert(d == front + before.last());
                assert(joined_by(parts, c) == front + before.last().push(s.last()));
                assert(front + before.last().push(s.last()) =~= (front + before.last()).push(
                    s.last(),
                ));
            }
        }
    }
}

/// A trimmed text is what is left of a text without the white space around it: a part of it,
/// outside of which there is nothing but white space, and which neither begins nor ends with
/// any.
pub proof fn trimming_takes_white_space_alone(s: Seq<char>) -> (r: (int, int))
    ensures
        0 <= r.0 <= r.1 <= s.len(),
        trimmed(s) == s.subrange(r.0, r.1),
        forall|i: int| 0 <= i < r.0 || r.1 <= i < s.len() ==> is_white(#[trigger] s[i]),
        r.0 < r.1 ==> !is_white(s[r.0]) && !is_white(s[r.1 - 1]),
{
    let a = lemma_trimmed_start(s);
    let m = s.skip(a);
    let b = lemma_trimmed_end(m);
    assert(trimmed(s) =~= s.subrange(a, a + b));
    assert forall|i: int| 0 <= i < a || a + b <= i < s.len() implies is_white(#[trigger] s[i]) by {
        if i >= a + b {
            assert(m[i - a] == s[i]);
        }
    }
    if b > 0 {
        assert(m[0] == s[a] && m[b - 1] == s[a + b - 1]);
    }
    (a, a + b)
}

proof fn lemma_trimmed_start(s: Seq<char>) -> (a: int)
    ensures
        0 <= a <= s.len(),
        trimmed_start(s) == s.skip(a),
        forall|i: int| 0 <= i < a ==> is_white(#[trigger] s[i]),
        a < s.len() ==> !is_white(s[a]),
    decreases s.len(),
{
    if s.len() > 0 && is_white(s[0]) {
        let r = s.skip(1);
        let a = lemma_trimmed_start(r);
        assert(r.skip(a) =~= s.skip(a + 1));
        assert forall|i: int| 0 <= i < a + 1 implies is_white(#[trigger] s[i]) by {
            if i > 0 {
                assert(r[i - 1] == s[i]);
            }
        }
        if a < r.len() {
            assert(r[a] == s[a + 1]);
        }
        a + 1
    } else {
        assert(s.skip(0) =~= s);
        0
    }
}

proof fn lemma_trimmed_end(s: Seq<char>) -> (b: int)
    ensures
        0 <= b <= s.len(),
        trimmed_end(s) == s.take(b),
        forall|i: int| b <= i < s.len() ==> is_white(#[trigger] s[i]),
        b > 0 ==> !is_white(s[b - 1]),
    decreases s.len(),
{
    if s.len() > 0 && is_white(s.last()) {
        let d = s.drop_last();
        let b = lemma_trimmed_end(d);
        assert(d.take(b) =~= s.take(b));
        assert forall|i: int| b <= i < s.len() implies is_white(#[trigger] s[i]) by {
            if i < d.len() {
                assert(d[i] == s[i]);
            }
        }
        if b > 0 {
            assert(d[b - 1] == s[b - 1]);
        }
        b
    } else {
        assert(s.take(s.len() as int) =~= s);
        s.len() as int
    }
}

/// Of the characters below 128, white space are the space and those from 9 to 13.
pub proof fn plain_white_space(c: char)
    requires
        (c as int) < 128,
    ensures
        is_white(c) <==> c == ' ' || 9 <= c as int <= 13,
{
}

/// Texts go by the first character in which they differ; a text comes before every longer one
/// that begins with it.
pub proof fn the_first_difference_decides(a: Seq<char>, b: Seq<char>, i: int)
    requires
        0 <= i <= a.len() && i <= b.len(),
        a.take(i) == b.take(i),
    ensures
        i < a.len() && i < b.len() && a[i] != b[i] ==> (lex_less(a, b) <==> a[i] < b[i]),
        i == a.len() ==> (lex_less(a, b) <==> a.len() < b.len()),
        i == b.len() ==> !lex_less(a, b),
    decreases i,
{
    if i > 0 {
        assert(a.take(i)[0] == a[0] && b.take(i)[0] == b[0]);
        let x = a.skip(1);
        let y = b.skip(1);
        assert(x.take(i - 1) =~= a.take(i).skip(1));
        assert(y.take(i - 1) =~= b.take(i).skip(1));
        the_first_difference_decides(x, y, i - 1);
        if i < a.len() && i < b.len() {
            assert(x[i - 1] == a[i] && y[i - 1] == b[i]);
        }
    }
}

} // verus!
