//! Character sequences measured in UTF-8 bytes and in display columns.
use vstd::prelude::*;

verus! {

/// Number of bytes in the UTF-8 encoding of `c`.
pub open spec fn utf8_len(c: char) -> nat {
    if (c as u32) < 0x80 {
        1
    } else if (c as u32) < 0x800 {
        2
    } else if (c as u32) < 0x10000 {
        3
    } else {
        4
    }
}

/// Number of bytes in the UTF-8 encoding of `s`.
pub open spec fn byte_len(s: Seq<char>) -> nat
    decreases s.len(),
{
    if s.len() == 0 {
        0
    } else {
        byte_len(s.drop_last()) + utf8_len(s.last())
    }
}

/// Byte offset of character index `i` in `s`.
pub open spec fn byte_offset(s: Seq<char>, i: int) -> nat {
    byte_len(s.take(i))
}

/// `b` is a byte offset that falls between two characters of `s` (or at an end).
pub open spec fn is_boundary(s: Seq<char>, b: int) -> bool {
    exists|i: int| 0 <= i <= s.len() && #[trigger] byte_offset(s, i) == b
}

/// The character index whose byte offset is `b`, when `b` is a boundary.
pub open spec fn char_index(s: Seq<char>, b: int) -> int {
    choose|i: int| 0 <= i <= s.len() && #[trigger] byte_offset(s, i) == b
}

/// Number of display columns that the character `c` occupies on a terminal.
pub uninterp spec fn char_columns(c: char) -> nat;

/// Number of display columns of `s`: the sum over its characters.
pub open spec fn columns(s: Seq<char>) -> nat
    decreases s.len(),
{
    if s.len() == 0 {
        0
    } else {
        columns(s.drop_last()) + char_columns(s.last())
    }
}

/// Relies on unicode_width's `UnicodeWidthStr::width`, applied to the
/// one-character string of `c`: the column count depends on `c` alone.
#[verifier::external_body]
pub(crate) fn char_width(c: char) -> (r: usize)
    ensures
        r as nat == char_columns(c),
{
    unicode_width::UnicodeWidthStr::width(c.to_string().as_str())
}

/// Number of bytes that `c` takes in UTF-8.
pub fn char_byte_len(c: char) -> (r: usize)
    ensures
        r as nat == utf8_len(c),
        1 <= r <= 4,
{
    let v = c as u32;
    if v < 0x80 {
        1
    } else if v < 0x800 {
        2
    } else if v < 0x10000 {
        3
    } else {
        4
    }
}

pub proof fn lemma_byte_len_concat(a: Seq<char>, b: Seq<char>)
    ensures
        byte_len(a + b) == byte_len(a) + byte_len(b),
    decreases b.len(),
{
    if b.len() == 0 {
        assert(a + b =~= a);
    } else {
        lemma_byte_len_concat(a, b.drop_last());
        assert((a + b).drop_last() =~= a + b.drop_last());
        assert((a + b).last() == b.last());
    }
}

/// The byte offset grows by the width of each character passed.
pub proof fn lemma_offset_step(s: Seq<char>, i: int)
    requires
        0 <= i < s.len(),
    ensures
        byte_offset(s, i + 1) == byte_offset(s, i) + utf8_len(s[i]),
{
    assert(s.take(i + 1).drop_last() =~= s.take(i));
}

pub proof fn lemma_offset_full(s: Seq<char>)
    ensures
        byte_offset(s, s.len() as int) == byte_len(s),
{
    assert(s.take(s.len() as int) =~= s);
}

/// Byte offsets strictly increase with the character index.
pub proof fn lemma_offset_mono(s: Seq<char>, i: int, j: int)
    requires
        0 <= i <= j <= s.len(),
    ensures
        byte_offset(s, i) + (j - i) <= byte_offset(s, j),
    decreases j - i,
{
    if i < j {
        lemma_offset_mono(s, i, j - 1);
        lemma_offset_step(s, j - 1);
    }
}

/// A boundary names exactly one character index.
pub proof fn lemma_char_index(s: Seq<char>, i: int)
    requires
        0 <= i <= s.len(),
    ensures
        is_boundary(s, byte_offset(s, i) as int),
        char_index(s, byte_offset(s, i) as int) == i,
{
    let b = byte_offset(s, i) as int;
    assert(is_boundary(s, b));
    let k = char_index(s, b);
    if k < i {
        lemma_offset_mono(s, k, i);
    } else if k > i {
        lemma_offset_mono(s, i, k);
    }
}

/// Offsets up to `i` depend only on the first `i` characters.
pub proof fn lemma_offset_prefix(s: Seq<char>, t: Seq<char>, i: int)
    requires
        0 <= i <= s.len(),
        i <= t.len(),
        s.take(i) =~= t.take(i),
    ensures
        byte_offset(s, i) == byte_offset(t, i),
{
}

} // verus!
