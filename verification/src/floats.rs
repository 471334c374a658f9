//! The texts of floating-point numbers.
//!
//! A floating-point number is held as its bit pattern. Its decimal text is
//! looked up in a table that the caller hands in.
use vstd::prelude::*;

verus! {

/// The text that a table gives for a bit pattern: that of its first entry.
pub open spec fn float_text_of(bits: u64, table: Seq<(u64, String)>) -> Seq<char>
    decreases table.len(),
{
    if table.len() == 0 {
        Seq::<char>::empty()
    } else if table[0].0 == bits {
        table[0].1@
    } else {
        float_text_of(bits, table.skip(1))
    }
}

/// The text that a table gives for a bit pattern; empty where it has none.
pub fn float_text_for(bits: u64, table: &Vec<(u64, String)>) -> (r: String)
    ensures
        r@ == float_text_of(bits, table@),
{
    let mut i: usize = 0;
    assert(table@.skip(0) =~= table@);
    while i < table.len()
        invariant
            i <= table@.len(),
            float_text_of(bits, table@) == float_text_of(bits, table@.skip(i as int)),
        decreases table@.len() - i,
    {
        assert(table@.skip(i as int).skip(1) =~= table@.skip(i + 1));
        if table[i].0 == bits {
            return table[i].1.clone();
        }
        i = i + 1;
    }
    String::new()
}

/// The bit pattern that a table gives for a text: that of its first entry.
pub open spec fn float_bits_of(text: Seq<char>, table: Seq<(String, u64)>) -> Option<u64>
    decreases table.len(),
{
    if table.len() == 0 {
        None
    } else if table[0].0@ == text {
        Some(table[0].1)
    } else {
        float_bits_of(text, table.skip(1))
    }
}

/// The bit pattern that a table gives for a text.
pub fn float_bits_for(text: &str, table: &Vec<(String, u64)>) -> (r: Option<u64>)
    ensures
        r == float_bits_of(text@, table@),
{
    let mut i: usize = 0;
    assert(table@.skip(0) =~= table@);
    while i < table.len()
        invariant
            i <= table@.len(),
            float_bits_of(text@, table@) == float_bits_of(text@, table@.skip(i as int)),
        decreases table@.len() - i,
    {
        assert(table@.skip(i as int).skip(1) =~= table@.skip(i + 1));
        if crate::text::same_text(table[i].0.as_str(), text) {
            return Some(table[i].1);
        }
        i = i + 1;
    }
    None
}

/// A table gives for bits the text of the first entry that has them, and nothing where none
/// does; and for a text the bits of the first entry that has it.
pub proof fn the_first_entry_counts(
    bits: u64,
    text: Seq<char>,
    texts: Seq<(u64, String)>,
    parses: Seq<(String, u64)>,
    i: int,
)
    ensures
        0 <= i < texts.len() && texts[i].0 == bits && (forall|j: int| 0 <= j < i ==> (
        #[trigger] texts[j]).0 != bits) ==> float_text_of(bits, texts) == texts[i].1@,
        (forall|j: int| 0 <= j < texts.len() ==> (#[trigger] texts[j]).0 != bits) ==> float_text_of(
            bits,
            texts,
        ).len() == 0,
        0 <= i < parses.len() && parses[i].0@ == text && (forall|j: int| 0 <= j < i ==> (
        #[trigger] parses[j]).0@ != text) ==> float_bits_of(text, parses) == Some(parses[i].1),
        (forall|j: int| 0 <= j < parses.len() ==> (#[trigger] parses[j]).0@ != text)
            ==> float_bits_of(text, parses) is None,
    decreases texts.len() + parses.len(),
{
    let a = if texts.len() > 0 {
        texts.skip(1)
    } else {
        texts
    };
    let b = if parses.len() > 0 {
        parses.skip(1)
    } else {
        parses
    };
    if texts.len() + parses.len() > 0 {
        the_first_entry_counts(bits, text, a, b, i - 1);
        assert forall|j: int| 0 < j < texts.len() implies #[trigger] texts[j] == a[j - 1] by {}
        assert forall|j: int| 0 < j < parses.len() implies #[trigger] parses[j] == b[j - 1] by {}
        if texts.len() > 0 {
            assert forall|j: int| 0 <= j < a.len() implies #[trigger] a[j] == texts[j + 1] by {}
            if forall|j: int| 0 <= j < texts.len() ==> (#[trigger] texts[j]).0 != bits {
                assert(texts[0].0 != bits);
            }
        }
        if parses.len() > 0 {
            assert forall|j: int| 0 <= j < b.len() implies #[trigger] b[j] == parses[j + 1] by {}
            if forall|j: int| 0 <= j < parses.len() ==> (#[trigger] parses[j]).0@ != text {
                assert(parses[0].0@ != text);
            }
        }
    }
}

} // verus!
