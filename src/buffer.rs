//! The document text, held in a rope, addressed by byte offsets.
use vstd::prelude::*;
use crate::text::{byte_len, byte_offset, char_index, is_boundary, lemma_offset_full, lemma_offset_mono};

verus! {

#[verifier::external_type_specification]
#[verifier::external_body]
pub struct ExRope(ropey::Rope);

/// The characters that a rope holds, in order.
pub uninterp spec fn rope_chars(r: ropey::Rope) -> Seq<char>;

/// Number of line feeds in `s`.
pub open spec fn newlines(s: Seq<char>) -> nat
    decreases s.len(),
{
    if s.len() == 0 {
        0
    } else {
        newlines(s.drop_last()) + if s.last() == '\n' { 1nat } else { 0nat }
    }
}

/// Relies on `ropey::Rope::new`: an empty rope.
#[verifier::external_body]
fn rope_new() -> (r: ropey::Rope)
    ensures
        rope_chars(r) == Seq::<char>::empty(),
{
    ropey::Rope::new()
}

/// Relies on `ropey::Rope::from_str`: a rope holding the characters of `s`.
#[verifier::external_body]
fn rope_from_str(s: &str) -> (r: ropey::Rope)
    ensures
        rope_chars(r) == s@,
{
    ropey::Rope::from_str(s)
}

/// Relies on `ropey::Rope::len_chars`: the number of characters.
#[verifier::external_body]
fn rope_len_chars(r: &ropey::Rope) -> (n: usize)
    ensures
        n == rope_chars(*r).len(),
{
    r.len_chars()
}

/// Relies on `ropey::Rope::len_bytes`: the length of the UTF-8 text.
#[verifier::external_body]
fn rope_len_bytes(r: &ropey::Rope) -> (n: usize)
    ensures
        n == byte_len(rope_chars(*r)),
{
    r.len_bytes()
}

/// Relies on `ropey::Rope::char`: the character at a char index
/// (it panics past the end).
#[verifier::external_body]
fn rope_char(r: &ropey::Rope, i: usize) -> (c: char)
    requires
        i < rope_chars(*r).len(),
    ensures
        c == rope_chars(*r)[i as int],
{
    r.char(i)
}

/// Relies on `ropey::Rope::insert`: `s` enters at char index `i`
/// (it panics past the end).
#[verifier::external_body]
fn rope_insert(r: &mut ropey::Rope, i: usize, s: &str)
    requires
        i <= rope_chars(*old(r)).len(),
    ensures
        rope_chars(*final(r)) == rope_chars(*old(r)).take(i as int) + s@ + rope_chars(*old(r)).skip(
            i as int,
        ),
{
    r.insert(i, s)
}

/// Relies on `ropey::Rope::remove`: the chars in `i..j` leave
/// (it panics on a reversed or out-of-bounds range).
#[verifier::external_body]
fn rope_remove(r: &mut ropey::Rope, i: usize, j: usize)
    requires
        i <= j <= rope_chars(*old(r)).len(),
    ensures
        rope_chars(*final(r)) == rope_chars(*old(r)).take(i as int) + rope_chars(*old(r)).skip(
            j as int,
        ),
{
    r.remove(i..j)
}

/// Relies on `ropey::Rope::byte_to_char`: the index of the char that holds
/// byte `b`, or one past the end for `b` at the end (it panics past the end).
#[verifier::external_body]
fn rope_byte_to_char(r: &ropey::Rope, b: usize) -> (i: usize)
    requires
        b <= byte_len(rope_chars(*r)),
    ensures
        i <= rope_chars(*r).len(),
        byte_offset(rope_chars(*r), i as int) <= b,
        i < rope_chars(*r).len() ==> b < byte_offset(rope_chars(*r), i + 1),
{
    r.byte_to_char(b)
}

/// Relies on `ropey::Rope::char_to_byte`: the byte offset of char index `i`
/// (it panics past the end).
#[verifier::external_body]
fn rope_char_to_byte(r: &ropey::Rope, i: usize) -> (b: usize)
    requires
        i <= rope_chars(*r).len(),
    ensures
        b == byte_offset(rope_chars(*r), i as int),
{
    r.char_to_byte(i)
}

/// Relies on `ropey::Rope::char_to_line`: the number of line breaks before
/// char index `i`; built without `cr_lines`, only line feeds break lines.
#[verifier::external_body]
fn rope_char_to_line(r: &ropey::Rope, i: usize) -> (l: usize)
    requires
        i <= rope_chars(*r).len(),
    ensures
        l == newlines(rope_chars(*r).take(i as int)),
{
    r.char_to_line(i)
}

/// Relies on `ropey::Rope::line_to_char`: the char index where line `l`
/// starts, that is the start or just after the `l`-th line feed.
#[verifier::external_body]
fn rope_line_to_char(r: &ropey::Rope, l: usize) -> (i: usize)
    requires
        l <= newlines(rope_chars(*r)),
    ensures
        i <= rope_chars(*r).len(),
        newlines(rope_chars(*r).take(i as int)) == l,
        i == 0 || rope_chars(*r)[i - 1] == '\n',
{
    r.line_to_char(l)
}

/// Relies on `ropey::Rope::slice` and its `to_string`: the chars in `i..j`.
#[verifier::external_body]
fn rope_slice(r: &ropey::Rope, i: usize, j: usize) -> (s: String)
    requires
        i <= j <= rope_chars(*r).len(),
    ensures
        s@ == rope_chars(*r).subrange(i as int, j as int),
{
    r.slice(i..j).to_string()
}

/// Relies on `ropey::Rope::chars`: every char, in order.
#[verifier::external_body]
fn rope_all_chars(r: &ropey::Rope) -> (v: Vec<char>)
    ensures
        v@ == rope_chars(*r),
{
    r.chars().collect()
}

/// The document text. Positions given to and taken from it are byte offsets
/// that fall on character boundaries.
pub struct Buffer {
    rope: ropey::Rope,
}

impl View for Buffer {
    type V = Seq<char>;

    closed spec fn view(&self) -> Seq<char> {
        rope_chars(self.rope)
    }
}

impl Buffer {
    pub fn new() -> (r: Buffer)
        ensures
            r@ == Seq::<char>::empty(),
    {
        Buffer { rope: rope_new() }
    }

    pub fn from_str(s: &str) -> (r: Buffer)
        ensures
            r@ == s@,
    {
        Buffer { rope: rope_from_str(s) }
    }

    pub fn len_bytes(&self) -> (n: usize)
        ensures
            n == byte_len(self@),
    {
        rope_len_bytes(&self.rope)
    }

    pub fn len_chars(&self) -> (n: usize)
        ensures
            n == self@.len(),
    {
        rope_len_chars(&self.rope)
    }

    /// Number of logical lines: one more than the number of line feeds
    /// (saturating at `usize::MAX`).
    pub fn len_lines(&self) -> (n: usize)
        ensures
            n == if newlines(self@) < usize::MAX { newlines(self@) + 1 } else { usize::MAX as nat },
    {
        let len = rope_len_chars(&self.rope);
        let l = rope_char_to_line(&self.rope, len);
        proof {
            assert(self@.take(len as int) =~= self@);
            lemma_newlines_bound(self@);
        }
        l.saturating_add(1)
    }

    pub fn char_at(&self, i: usize) -> (c: char)
        requires
            i < self@.len(),
        ensures
            c == self@[i as int],
    {
        rope_char(&self.rope, i)
    }

    /// Char index of the boundary at byte `b`.
    pub fn byte_to_char(&self, b: usize) -> (i: usize)
        requires
            is_boundary(self@, b as int),
        ensures
            i <= self@.len(),
            byte_offset(self@, i as int) == b,
            i == char_index(self@, b as int),
    {
        let t = Ghost(self@);
        let k = Ghost(char_index(t@, b as int));
        proof {
            lemma_offset_mono(t@, k@, t@.len() as int);
            lemma_offset_full(t@);
        }
        let i = rope_byte_to_char(&self.rope, b);
        proof {
            if i < k@ {
                lemma_offset_mono(t@, i as int + 1, k@);
            } else if i > k@ {
                lemma_offset_mono(t@, k@, i as int);
            }
        }
        i
    }

    pub fn char_to_byte(&self, i: usize) -> (b: usize)
        requires
            i <= self@.len(),
        ensures
            b == byte_offset(self@, i as int),
    {
        rope_char_to_byte(&self.rope, i)
    }

    /// Index of the logical line that holds char index `i`.
    pub fn char_to_line(&self, i: usize) -> (l: usize)
        requires
            i <= self@.len(),
        ensures
            l == newlines(self@.take(i as int)),
    {
        rope_char_to_line(&self.rope, i)
    }

    /// Char index where logical line `l` starts.
    pub fn line_to_char(&self, l: usize) -> (i: usize)
        requires
            l <= newlines(self@),
        ensures
            i <= self@.len(),
            newlines(self@.take(i as int)) == l,
            i == 0 || self@[i - 1] == '\n',
    {
        rope_line_to_char(&self.rope, l)
    }

    /// Index of the logical line that holds the boundary at byte `b`.
    pub fn byte_to_line(&self, b: usize) -> (l: usize)
        requires
            is_boundary(self@, b as int),
        ensures
            l == newlines(self@.take(char_index(self@, b as int))),
    {
        let i = self.byte_to_char(b);
        self.char_to_line(i)
    }

    /// Byte offset where logical line `l` starts.
    pub fn line_to_byte(&self, l: usize) -> (b: usize)
        requires
            l <= newlines(self@),
        ensures
            is_boundary(self@, b as int),
            newlines(self@.take(char_index(self@, b as int))) == l,
            char_index(self@, b as int) == 0 || self@[char_index(self@, b as int) - 1] == '\n',
    {
        let i = self.line_to_char(l);
        let b = self.char_to_byte(i);
        proof {
            crate::text::lemma_char_index(self@, i as int);
        }
        b
    }

    /// Inserts `s` at the boundary at byte `b`.
    pub fn insert(&mut self, b: usize, s: &str)
        requires
            is_boundary(old(self)@, b as int),
        ensures
            final(self)@ == old(self)@.take(char_index(old(self)@, b as int)) + s@ + old(self)@.skip(
                char_index(old(self)@, b as int),
            ),
    {
        let i = self.byte_to_char(b);
        rope_insert(&mut self.rope, i, s);
    }

    /// Inserts `s` at char index `i`.
    pub fn insert_at_char(&mut self, i: usize, s: &str)
        requires
            i <= old(self)@.len(),
        ensures
            final(self)@ == old(self)@.take(i as int) + s@ + old(self)@.skip(i as int),
    {
        rope_insert(&mut self.rope, i, s);
    }

    /// Removes the chars in `i..j` and returns them.
    pub fn remove_chars(&mut self, i: usize, j: usize) -> (removed: String)
        requires
            i <= j <= old(self)@.len(),
        ensures
            removed@ == old(self)@.subrange(i as int, j as int),
            final(self)@ == old(self)@.take(i as int) + old(self)@.skip(j as int),
    {
        let s = rope_slice(&self.rope, i, j);
        rope_remove(&mut self.rope, i, j);
        s
    }

    /// Removes the text between the boundaries at bytes `b` and `e`, and
    /// returns it.
    pub fn remove(&mut self, b: usize, e: usize) -> (removed: String)
        requires
            is_boundary(old(self)@, b as int),
            is_boundary(old(self)@, e as int),
            b <= e,
        ensures
            removed@ == old(self)@.subrange(
                char_index(old(self)@, b as int),
                char_index(old(self)@, e as int),
            ),
            final(self)@ == old(self)@.take(char_index(old(self)@, b as int)) + old(self)@.skip(
                char_index(old(self)@, e as int),
            ),
    {
        let i = self.byte_to_char(b);
        let j = self.byte_to_char(e);
        proof {
            if j < i {
                lemma_offset_mono(self@, j as int, i as int);
            }
        }
        self.remove_chars(i, j)
    }

    /// The text between the boundaries at bytes `b` and `e`.
    pub fn slice(&self, b: usize, e: usize) -> (s: String)
        requires
            is_boundary(self@, b as int),
            is_boundary(self@, e as int),
            b <= e,
        ensures
            s@ == self@.subrange(char_index(self@, b as int), char_index(self@, e as int)),
    {
        let i = self.byte_to_char(b);
        let j = self.byte_to_char(e);
        proof {
            if j < i {
                lemma_offset_mono(self@, j as int, i as int);
            }
        }
        rope_slice(&self.rope, i, j)
    }

    /// Every char of the text, in order.
    pub fn chars(&self) -> (v: Vec<char>)
        ensures
            v@ == self@,
    {
        rope_all_chars(&self.rope)
    }
}

pub proof fn lemma_newlines_bound(s: Seq<char>)
    ensures
        newlines(s) <= s.len(),
    decreases s.len(),
{
    if s.len() > 0 {
        lemma_newlines_bound(s.drop_last());
    }
}

/// The start of the logical line that holds char index `i`.
pub open spec fn line_start(s: Seq<char>, i: int) -> int
    decreases i,
{
    if i <= 0 || s[i - 1] == '\n' {
        i
    } else {
        line_start(s, i - 1)
    }
}

pub proof fn lemma_newlines_step(s: Seq<char>, i: int)
    requires
        0 <= i < s.len(),
    ensures
        newlines(s.take(i + 1)) == newlines(s.take(i)) + if s[i] == '\n' { 1nat } else { 0nat },
{
    assert(s.take(i + 1).drop_last() =~= s.take(i));
}

pub proof fn lemma_newlines_mono(s: Seq<char>, a: int, b: int)
    requires
        0 <= a <= b <= s.len(),
    ensures
        newlines(s.take(a)) <= newlines(s.take(b)),
        (exists|k: int| a <= k < b && s[k] == '\n') ==> newlines(s.take(a)) < newlines(s.take(b)),
    decreases b - a,
{
    if a < b {
        lemma_newlines_mono(s, a, b - 1);
        lemma_newlines_step(s, b - 1);
        if exists|k: int| a <= k < b && s[k] == '\n' {
            let k = choose|k: int| a <= k < b && s[k] == '\n';
            if k < b - 1 {
                assert(exists|k2: int| a <= k2 < b - 1 && s[k2] == '\n');
            }
        }
    }
}

/// A line start at or before `i` with no line feed in between is the start
/// of the line of `i`.
pub proof fn lemma_line_start(s: Seq<char>, i: int, ls: int)
    requires
        0 <= ls <= i <= s.len(),
        ls == 0 || s[ls - 1] == '\n',
        forall|k: int| ls <= k < i ==> s[k] != '\n',
    ensures
        line_start(s, i) == ls,
    decreases i,
{
    if i > ls {
        lemma_line_start(s, i - 1, ls);
    }
}

pub proof fn lemma_newlines_concat(a: Seq<char>, b: Seq<char>)
    ensures
        newlines(a + b) == newlines(a) + newlines(b),
    decreases b.len(),
{
    if b.len() == 0 {
        assert(a + b =~= a);
    } else {
        lemma_newlines_concat(a, b.drop_last());
        assert((a + b).drop_last() =~= a + b.drop_last());
        assert((a + b).last() == b.last());
    }
}

/// Inserting or removing characters other than line feeds keeps the
/// line count.
pub proof fn lemma_newlines_splice(t: Seq<char>, i: int, j: int, s: Seq<char>)
    requires
        0 <= i <= j <= t.len(),
        newlines(s) == 0,
        newlines(t.subrange(i, j)) == 0,
    ensures
        newlines(t.take(i) + s + t.skip(j)) == newlines(t),
{
    lemma_newlines_concat(t.take(i), s);
    lemma_newlines_concat(t.take(i) + s, t.skip(j));
    lemma_newlines_concat(t.take(i), t.subrange(i, j));
    lemma_newlines_concat(t.take(i) + t.subrange(i, j), t.skip(j));
    assert(t.take(i) + t.subrange(i, j) + t.skip(j) =~= t);
}

/// A sequence of spaces holds no line feed.
pub proof fn lemma_newlines_spaces(s: Seq<char>)
    requires
        forall|k: int| 0 <= k < s.len() ==> s[k] == ' ',
    ensures
        newlines(s) == 0,
    decreases s.len(),
{
    if s.len() > 0 {
        lemma_newlines_spaces(s.drop_last());
    }
}

} // verus!
