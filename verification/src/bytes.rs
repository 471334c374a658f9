//! Big-endian integers in byte sequences.
use vstd::prelude::*;

verus! {

/// `256` to the power `k`.
pub open spec fn pow256(k: nat) -> nat
    decreases k,
{
    if k == 0 {
        1
    } else {
        256 * pow256((k - 1) as nat)
    }
}

/// The last `k` base-256 digits of `n`, most significant first.
pub open spec fn be(n: nat, k: nat) -> Seq<u8>
    decreases k,
{
    if k == 0 {
        Seq::<u8>::empty()
    } else {
        be(n / 256, (k - 1) as nat).push((n % 256) as u8)
    }
}

/// The number whose base-256 digits are `s`, most significant first.
pub open spec fn be_value(s: Seq<u8>) -> nat
    decreases s.len(),
{
    if s.len() == 0 {
        0
    } else {
        be_value(s.drop_last()) * 256 + s.last() as nat
    }
}

pub proof fn lemma_pow256_values()
    ensures
        pow256(0) == 1,
        pow256(1) == 0x100,
        pow256(2) == 0x1_0000,
        pow256(4) == 0x1_0000_0000,
        pow256(8) == 0x1_0000_0000_0000_0000,
        pow256(16) == 0x1_0000_0000_0000_0000_0000_0000_0000_0000,
{
    reveal_with_fuel(pow256, 17);
}

pub proof fn lemma_be_len(n: nat, k: nat)
    ensures
        be(n, k).len() == k,
    decreases k,
{
    if k > 0 {
        lemma_be_len(n / 256, (k - 1) as nat);
    }
}

pub proof fn lemma_be_value_bound(s: Seq<u8>)
    ensures
        be_value(s) < pow256(s.len()),
    decreases s.len(),
{
    if s.len() > 0 {
        lemma_be_value_bound(s.drop_last());
    }
}

/// Reading back what was written gives the number, where it fits.
pub proof fn lemma_be_value_of_be(n: nat, k: nat)
    requires
        n < pow256(k),
    ensures
        be_value(be(n, k)) == n,
    decreases k,
{
    if k > 0 {
        lemma_be_value_of_be(n / 256, (k - 1) as nat);
        lemma_be_len(n / 256, (k - 1) as nat);
        assert(be(n, k).drop_last() =~= be(n / 256, (k - 1) as nat));
    }
}

/// Writing the number that a byte sequence denotes gives the sequence back.
pub proof fn lemma_be_of_be_value(s: Seq<u8>)
    ensures
        be(be_value(s), s.len()) == s,
    decreases s.len(),
{
    if s.len() > 0 {
        lemma_be_of_be_value(s.drop_last());
        let v = be_value(s.drop_last());
        let b = s.last() as nat;
        assert((v * 256 + b) / 256 == v);
        assert((v * 256 + b) % 256 == b);
        assert(be(be_value(s), s.len()) =~= s);
    } else {
        assert(be(be_value(s), s.len()) =~= s);
    }
}

/// Two sequences of one length that denote the same number are the same.
pub proof fn lemma_be_value_injective(a: Seq<u8>, b: Seq<u8>)
    requires
        a.len() == b.len(),
        be_value(a) == be_value(b),
    ensures
        a == b,
{
    lemma_be_of_be_value(a);
    lemma_be_of_be_value(b);
}

/// Appends the low `k` bytes of `n`, most significant first.
pub fn put_be(out: &mut Vec<u8>, n: u64, k: usize)
    requires
        k <= 8,
    ensures
        final(out)@ == old(out)@ + be(n as nat, k as nat),
    decreases k,
{
    if k > 0 {
        put_be(out, n / 256, k - 1);
        out.push((n % 256) as u8);
    }
    proof {
        lemma_be_len(n as nat, k as nat);
    }
    assert(out@ =~= old(out)@ + be(n as nat, k as nat));
}

/// Reads `k` bytes at `off` as a big-endian number.
pub fn get_be(data: &[u8], off: usize, k: usize) -> (r: u64)
    requires
        k <= 8,
        off + k <= data@.len(),
    ensures
        r as nat == be_value(data@.subrange(off as int, off + k)),
{
    let mut acc: u64 = 0;
    let mut i: usize = 0;
    let len: usize = data.len();
    proof {
        assert(data@.subrange(off as int, off as int) =~= Seq::<u8>::empty());
    }
    while i < k
        invariant
            i <= k <= 8,
            off + k <= len,
            len == data@.len(),
            acc as nat == be_value(data@.subrange(off as int, off + i)),
        decreases k - i,
    {
        proof {
            let s = data@.subrange(off as int, off + i + 1);
            assert(s.drop_last() =~= data@.subrange(off as int, off + i));
            lemma_be_value_bound(s);
            lemma_pow256_monotonic((i + 1) as nat, 8);
            lemma_pow256_values();
        }
        acc = acc * 256 + data[off + i] as u64;
        i = i + 1;
    }
    acc
}

pub proof fn lemma_pow256_monotonic(a: nat, b: nat)
    requires
        a <= b,
    ensures
        pow256(a) <= pow256(b),
    decreases b,
{
    if a < b {
        lemma_pow256_monotonic(a, (b - 1) as nat);
    }
}

/// Reads 16 bytes as a big-endian number.
pub fn get_be128(data: &[u8; 16]) -> (r: u128)
    ensures
        r as nat == be_value(data@),
{
    let mut acc: u128 = 0;
    let mut i: usize = 0;
    proof {
        assert(data@.take(0) =~= Seq::<u8>::empty());
    }
    while i < 16
        invariant
            i <= 16,
            data@.len() == 16,
            acc as nat == be_value(data@.take(i as int)),
        decreases 16 - i,
    {
        proof {
            let s = data@.take(i + 1);
            assert(s.drop_last() =~= data@.take(i as int));
            lemma_be_value_bound(s);
            lemma_pow256_monotonic((i + 1) as nat, 16);
            lemma_pow256_values();
        }
        acc = acc * 256 + data[i] as u128;
        i = i + 1;
    }
    assert(data@.take(16) =~= data@);
    acc
}

/// The two's complement bit pattern of a signed number.
pub open spec fn i64_bits(n: i64) -> nat {
    if n >= 0 {
        n as nat
    } else {
        (n + 0x1_0000_0000_0000_0000) as nat
    }
}

/// The signed number of a two's complement bit pattern.
pub open spec fn i64_of_bits(b: nat) -> i64 {
    if b < 0x8000_0000_0000_0000 {
        b as i64
    } else {
        (b - 0x1_0000_0000_0000_0000) as i64
    }
}

pub fn i64_to_bits(n: i64) -> (r: u64)
    ensures
        r as nat == i64_bits(n),
{
    if n >= 0 {
        n as u64
    } else {
        (n + 0x7fff_ffff_ffff_ffff + 1) as u64 + 0x8000_0000_0000_0000
    }
}

pub fn i64_from_bits(b: u64) -> (r: i64)
    ensures
        r == i64_of_bits(b as nat),
{
    if b < 0x8000_0000_0000_0000 {
        b as i64
    } else {
        (b - 0x8000_0000_0000_0000) as i64 - 0x7fff_ffff_ffff_ffff - 1
    }
}

/// Appends all of `src`.
pub fn put_slice(out: &mut Vec<u8>, src: &[u8])
    ensures
        final(out)@ == old(out)@ + src@,
{
    let mut i: usize = 0;
    while i < src.len()
        invariant
            i <= src@.len(),
            out@ == old(out)@ + src@.take(i as int),
        decreases src@.len() - i,
    {
        out.push(src[i]);
        assert(src@.take(i + 1) =~= src@.take(i as int).push(src@[i as int]));
        i = i + 1;
    }
    assert(src@.take(src@.len() as int) =~= src@);
}

/// The bytes of `data` from `from` up to `to`.
pub fn sub_bytes(data: &[u8], from: usize, to: usize) -> (r: Vec<u8>)
    requires
        from <= to <= data@.len(),
    ensures
        r@ == data@.subrange(from as int, to as int),
{
    let mut out: Vec<u8> = Vec::new();
    let mut i: usize = from;
    while i < to
        invariant
            from <= i <= to <= data@.len(),
            out@ == data@.subrange(from as int, i as int),
        decreases to - i,
    {
        out.push(data[i]);
        assert(data@.subrange(from as int, i + 1) =~= data@.subrange(from as int, i as int).push(data@[i as int]));
        i = i + 1;
    }
    out
}

/// Whether two byte slices hold the same bytes.
pub fn same_bytes(a: &[u8], b: &[u8]) -> (r: bool)
    ensures
        r == (a@ == b@),
{
    if a.len() != b.len() {
        return false;
    }
    let mut i: usize = 0;
    while i < a.len()
        invariant
            i <= a@.len(),
            a@.len() == b@.len(),
            forall|j: int| 0 <= j < i ==> a@[j] == b@[j],
        decreases a@.len() - i,
    {
        if a[i] != b[i] {
            return false;
        }
        i = i + 1;
    }
    assert(a@ =~= b@);
    true
}

/// Numbers are written with their most significant byte first: the last byte is what is left
/// of the number by 256, and what is before it is the rest in as many bytes less one.
pub proof fn big_ends_come_first(n: nat, k: nat)
    requires
        k > 0,
    ensures
        be(n, k).len() == k,
        be(n, k).last() as nat == n % 256,
        be(n, k).drop_last() == be(n / 256, (k - 1) as nat),
        k == 1 ==> be(n, k) == seq![(n % 256) as u8],
{
    lemma_be_len(n, k);
    assert(be(n, k).drop_last() =~= be(n / 256, (k - 1) as nat));
    if k == 1 {
        assert(be(n / 256, 0) =~= Seq::<u8>::empty());
        assert(be(n, k) =~= seq![(n % 256) as u8]);
    }
}

/// A signed number is written in two's complement.
pub proof fn negative_numbers_are_complements(n: i64)
    ensures
        n >= 0 ==> i64_bits(n) == n,
        n < 0 ==> i64_bits(n) + (-n) == 0x1_0000_0000_0000_0000,
{
}

} // verus!
