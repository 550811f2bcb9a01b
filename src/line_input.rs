//! A one-line text field with a cursor and a selection, as used by the
//! editor's prompts (file name, find, replace).
use vstd::prelude::*;
use vstd::string::*;
use crate::find::str_to_chars;
use crate::layout::{sat, walk_to_column};
use crate::text::{char_columns, char_width, columns};

verus! {

/// Relies on `FromIterator<char>` for `String`: the string of the chars.
#[verifier::external_body]
fn chars_to_string(v: &Vec<char>) -> (s: String)
    ensures
        s@ == v@,
{
    v.iter().collect()
}

proof fn lemma_walk_le(t: Seq<char>, i: int, end: int, width: nat, target: nat)
    requires
        i <= end,
    ensures
        walk_to_column(t, i, end, width, target) <= end,
    decreases end - i,
{
    if !(i >= end || width >= target) {
        lemma_walk_le(t, i + 1, end, width + char_columns(t[i]), target);
    }
}

/// The field's text, cursor and anchor, as char indices.
pub struct LineInput {
    chars: Vec<char>,
    cursor: usize,
    anchor: Option<usize>,
    scroll_offset: usize,
}

/// The range between `cursor` and `anchor`, ordered.
pub open spec fn span(cursor: usize, anchor: usize) -> (usize, usize) {
    if anchor <= cursor {
        (anchor, cursor)
    } else {
        (cursor, anchor)
    }
}

impl LineInput {
    pub closed spec fn text_spec(&self) -> Seq<char> {
        self.chars@
    }

    pub closed spec fn cursor_spec(&self) -> usize {
        self.cursor
    }

    pub closed spec fn anchor_spec(&self) -> Option<usize> {
        self.anchor
    }

    pub closed spec fn scroll_spec(&self) -> usize {
        self.scroll_offset
    }

    /// Cursor and anchor lie within the text.
    pub closed spec fn wf(&self) -> bool {
        &&& self.cursor <= self.chars@.len()
        &&& (self.anchor matches Some(a) ==> a <= self.chars@.len())
    }

    /// The selection is not empty.
    pub open spec fn has_span(&self) -> bool {
        self.anchor_spec() matches Some(a) && span(self.cursor_spec(), a).0 < span(
            self.cursor_spec(),
            a,
        ).1
    }

    /// The text after deleting a non-empty selection.
    pub open spec fn after_delete(&self) -> Seq<char> {
        match self.anchor_spec() {
            Some(a) => {
                let (lo, hi) = span(self.cursor_spec(), a);
                if lo < hi {
                    self.text_spec().take(lo as int) + self.text_spec().skip(hi as int)
                } else {
                    self.text_spec()
                }
            },
            None => self.text_spec(),
        }
    }

    /// The cursor after deleting a non-empty selection.
    pub open spec fn cursor_after_delete(&self) -> usize {
        match self.anchor_spec() {
            Some(a) => {
                let (lo, hi) = span(self.cursor_spec(), a);
                if lo < hi {
                    lo
                } else {
                    self.cursor_spec()
                }
            },
            None => self.cursor_spec(),
        }
    }

    /// A field holding `s`, with the cursor at its end.
    pub fn from_str(s: &str) -> (r: LineInput)
        ensures
            r.wf(),
            r.text_spec() == s@,
            r.cursor_spec() == s@.len(),
            r.anchor_spec() is None,
    {
        let chars = str_to_chars(s);
        let n = chars.len();
        LineInput { chars, cursor: n, anchor: None, scroll_offset: 0 }
    }

    pub fn text(&self) -> (s: String)
        ensures
            s@ == self.text_spec(),
    {
        chars_to_string(&self.chars)
    }

    pub fn len(&self) -> (n: usize)
        ensures
            n == self.text_spec().len(),
    {
        self.chars.len()
    }

    pub fn cursor(&self) -> (c: usize)
        ensures
            c == self.cursor_spec(),
    {
        self.cursor
    }

    pub fn scroll_offset(&self) -> (o: usize)
        ensures
            o == self.scroll_spec(),
    {
        self.scroll_offset
    }

    pub fn has_selection(&self) -> (r: bool)
        ensures
            r == (self.anchor_spec() is Some),
    {
        self.anchor.is_some()
    }

    /// The selected range, ordered, as char indices.
    pub fn selection_range(&self) -> (r: Option<(usize, usize)>)
        ensures
            r == match self.anchor_spec() {
                Some(a) => Some(span(self.cursor_spec(), a)),
                None => None,
            },
    {
        match self.anchor {
            Some(a) => if a <= self.cursor {
                Some((a, self.cursor))
            } else {
                Some((self.cursor, a))
            },
            None => None,
        }
    }

    pub fn clear_selection(&mut self)
        requires
            old(self).wf(),
        ensures
            final(self).wf(),
            final(self).text_spec() == old(self).text_spec(),
            final(self).cursor_spec() == old(self).cursor_spec(),
            final(self).anchor_spec() is None,
    {
        self.anchor = None;
    }

    /// Deletes a non-empty selection; the cursor goes to its start and the
    /// selection is cleared. Returns whether anything was deleted.
    pub fn delete_selection(&mut self) -> (r: bool)
        requires
            old(self).wf(),
        ensures
            final(self).wf(),
            final(self).text_spec() == old(self).after_delete(),
            final(self).cursor_spec() == old(self).cursor_after_delete(),
            r == (old(self).anchor_spec() matches Some(a) && span(old(self).cursor_spec(), a).0 < span(
                old(self).cursor_spec(),
                a,
            ).1),
            r ==> final(self).anchor_spec() is None,
            !r ==> final(self).anchor_spec() == old(self).anchor_spec(),
    {
        if let Some((lo, hi)) = self.selection_range() {
            if lo < hi {
                let mut out: Vec<char> = Vec::new();
                let mut i: usize = 0;
                let n = self.chars.len();
                while i < n
                    invariant
                        i <= n,
                        n == self.chars@.len(),
                        lo < hi <= n,
                        out@ == if i <= lo {
                            self.chars@.take(i as int)
                        } else if i <= hi {
                            self.chars@.take(lo as int)
                        } else {
                            self.chars@.take(lo as int) + self.chars@.subrange(hi as int, i as int)
                        },
                    decreases n - i,
                {
                    if i < lo || i >= hi {
                        out.push(self.chars[i]);
                    }
                    proof {
                        assert(self.chars@.take(i + 1) =~= self.chars@.take(i as int).push(self.chars@[i as int]));
                        if i >= hi {
                            assert(self.chars@.subrange(hi as int, i + 1) =~= self.chars@.subrange(hi as int, i as int).push(self.chars@[i as int]));
                        }
                        if i + 1 == hi || (i >= lo && i < hi) {
                            assert(self.chars@.subrange(hi as int, hi as int) =~= Seq::<char>::empty());
                        }
                    }
                    i = i + 1;
                }
                proof {
                    assert(self.chars@.subrange(hi as int, n as int) =~= self.chars@.skip(hi as int));
                    assert(out@ =~= self.chars@.take(lo as int) + self.chars@.skip(hi as int));
                }
                self.chars = out;
                self.cursor = lo;
                self.anchor = None;
                return true;
            }
        }
        false
    }

    /// Selects everything: anchor at 0, cursor at the end.
    pub fn select_all(&mut self)
        requires
            old(self).wf(),
        ensures
            final(self).wf(),
            final(self).text_spec() == old(self).text_spec(),
            final(self).anchor_spec() == Some(0usize),
            final(self).cursor_spec() == old(self).text_spec().len(),
    {
        self.anchor = Some(0);
        self.cursor = self.chars.len();
    }

    /// The selected text, when the selection is not empty.
    pub fn selected_text(&self) -> (r: Option<String>)
        requires
            self.wf(),
        ensures
            match self.anchor_spec() {
                Some(a) => {
                    let (lo, hi) = span(self.cursor_spec(), a);
                    if lo < hi {
                        r matches Some(s) && s@ == self.text_spec().subrange(lo as int, hi as int)
                    } else {
                        r is None
                    }
                },
                None => r is None,
            },
    {
        match self.selection_range() {
            Some((lo, hi)) => {
                if lo < hi {
                    let mut v: Vec<char> = Vec::new();
                    let mut i = lo;
                    while i < hi
                        invariant
                            lo <= i <= hi,
                            hi <= self.chars@.len(),
                            v@ == self.chars@.subrange(lo as int, i as int),
                        decreases hi - i,
                    {
                        v.push(self.chars[i]);
                        proof {
                            assert(self.chars@.subrange(lo as int, i + 1) =~= self.chars@.subrange(
                                lo as int,
                                i as int,
                            ).push(self.chars@[i as int]));
                        }
                        i = i + 1;
                    }
                    Some(chars_to_string(&v))
                } else {
                    None
                }
            },
            None => None,
        }
    }

    /// Types `ch`: a non-empty selection is deleted first, then `ch` goes in
    /// at the cursor, which moves past it.
    pub fn insert_char(&mut self, ch: char)
        requires
            old(self).wf(),
        ensures
            final(self).wf(),
            final(self).text_spec() == old(self).after_delete().insert(
                old(self).cursor_after_delete() as int,
                ch,
            ),
            final(self).cursor_spec() == old(self).cursor_after_delete() + 1,
            final(self).anchor_spec() is None,
    {
        self.delete_selection();
        self.anchor = None;
        self.chars.insert(self.cursor, ch);
        let n = self.chars.len();
        self.cursor = self.cursor + 1;
    }

    /// Pastes `s`: a non-empty selection is deleted first, then `s` goes in
    /// at the cursor, which moves past it.
    pub fn insert_str(&mut self, s: &str)
        requires
            old(self).wf(),
        ensures
            final(self).wf(),
            ({
                let t = old(self).after_delete();
                let c = old(self).cursor_after_delete() as int;
                &&& final(self).text_spec() == t.take(c) + s@ + t.skip(c)
                &&& final(self).cursor_spec() == c + s@.len()
            }),
            final(self).anchor_spec() is None,
    {
        self.delete_selection();
        self.anchor = None;
        let ghost t = self.chars@;
        let ghost c = self.cursor as int;
        let v = str_to_chars(s);
        let mut k: usize = 0;
        proof {
            assert(t =~= t.take(c) + v@.take(0) + t.skip(c));
        }
        while k < v.len()
            invariant
                k <= v@.len(),
                0 <= c <= t.len(),
                self.cursor == c + k,
                self.chars@ == t.take(c) + v@.take(k as int) + t.skip(c),
                self.anchor is None,
            decreases v@.len() - k,
        {
            self.chars.insert(self.cursor, v[k]);
            let n = self.chars.len();
            proof {
                assert(v@.take(k + 1) =~= v@.take(k as int).push(v@[k as int]));
                assert(self.chars@ =~= t.take(c) + v@.take(k + 1) + t.skip(c));
            }
            self.cursor = self.cursor + 1;
            k = k + 1;
        }
        proof {
            assert(v@.take(v@.len() as int) =~= v@);
        }
    }

    /// Backspace: a non-empty selection is deleted; otherwise the selection
    /// is cleared and the character before the cursor, if any, is removed.
    pub fn backspace(&mut self)
        requires
            old(self).wf(),
        ensures
            final(self).wf(),
            old(self).has_span() ==> final(self).text_spec() == old(self).after_delete()
                && final(self).cursor_spec() == old(self).cursor_after_delete(),
            !old(self).has_span() ==> {
                let t = old(self).text_spec();
                let c = old(self).cursor_spec();
                &&& final(self).anchor_spec() is None
                &&& c > 0 ==> final(self).text_spec() == t.remove(c - 1) && final(self).cursor_spec() == c - 1
                &&& c == 0 ==> final(self).text_spec() == t && final(self).cursor_spec() == c
            },
    {
        if self.delete_selection() {
            return ;
        }
        self.anchor = None;
        if self.cursor > 0 {
            self.chars.remove(self.cursor - 1);
            self.cursor = self.cursor - 1;
        }
    }

    /// Forward delete: a non-empty selection is deleted; otherwise the
    /// selection is cleared and the character at the cursor, if any, is
    /// removed.
    pub fn delete(&mut self)
        requires
            old(self).wf(),
        ensures
            final(self).wf(),
            old(self).has_span() ==> final(self).text_spec() == old(self).after_delete()
                && final(self).cursor_spec() == old(self).cursor_after_delete(),
            !old(self).has_span() ==> {
                let t = old(self).text_spec();
                let c = old(self).cursor_spec();
                &&& final(self).anchor_spec() is None
                &&& final(self).cursor_spec() == c
                &&& c < t.len() ==> final(self).text_spec() == t.remove(c as int)
                &&& c == t.len() ==> final(self).text_spec() == t
            },
    {
        if self.delete_selection() {
            return ;
        }
        self.anchor = None;
        if self.cursor < self.chars.len() {
            self.chars.remove(self.cursor);
        }
    }

    /// Starts, keeps or clears the selection before a cursor motion.
    fn anchor_for_motion(&mut self, extend: bool)
        requires
            old(self).wf(),
        ensures
            final(self).wf(),
            final(self).chars@ == old(self).chars@,
            final(self).cursor == old(self).cursor,
            final(self).anchor == if extend {
                if old(self).anchor is None {
                    Some(old(self).cursor)
                } else {
                    old(self).anchor
                }
            } else {
                None
            },
    {
        if extend {
            if self.anchor.is_none() {
                self.anchor = Some(self.cursor);
            }
        } else {
            self.anchor = None;
        }
    }

    /// Moves the cursor one character left; without `extend`, a selection
    /// collapses to its start instead.
    pub fn move_left(&mut self, extend: bool)
        requires
            old(self).wf(),
        ensures
            final(self).wf(),
            final(self).text_spec() == old(self).text_spec(),
            !extend && old(self).anchor_spec() is Some ==> final(self).cursor_spec() == span(
                old(self).cursor_spec(),
                old(self).anchor_spec()->0,
            ).0 && final(self).anchor_spec() is None,
            !(!extend && old(self).anchor_spec() is Some) ==> final(self).cursor_spec() == if old(
                self,
            ).cursor_spec() > 0 {
                (old(self).cursor_spec() - 1) as usize
            } else {
                0
            },
            !(!extend && old(self).anchor_spec() is Some) ==> final(self).anchor_spec() == if extend {
                if old(self).anchor_spec() is None {
                    Some(old(self).cursor_spec())
                } else {
                    old(self).anchor_spec()
                }
            } else {
                None
            },
    {
        if !extend {
            if let Some((lo, _)) = self.selection_range() {
                self.cursor = lo;
                self.anchor = None;
                return ;
            }
        }
        self.anchor_for_motion(extend);
        if self.cursor > 0 {
            self.cursor = self.cursor - 1;
        }
    }

    /// Moves the cursor one character right; without `extend`, a selection
    /// collapses to its end instead.
    pub fn move_right(&mut self, extend: bool)
        requires
            old(self).wf(),
        ensures
            final(self).wf(),
            final(self).text_spec() == old(self).text_spec(),
            !extend && old(self).anchor_spec() is Some ==> final(self).cursor_spec() == span(
                old(self).cursor_spec(),
                old(self).anchor_spec()->0,
            ).1 && final(self).anchor_spec() is None,
            !(!extend && old(self).anchor_spec() is Some) ==> final(self).cursor_spec() == if old(
                self,
            ).cursor_spec() < old(self).text_spec().len() {
                (old(self).cursor_spec() + 1) as usize
            } else {
                old(self).cursor_spec()
            },
            !(!extend && old(self).anchor_spec() is Some) ==> final(self).anchor_spec() == if extend {
                if old(self).anchor_spec() is None {
                    Some(old(self).cursor_spec())
                } else {
                    old(self).anchor_spec()
                }
            } else {
                None
            },
    {
        if !extend {
            if let Some((_, hi)) = self.selection_range() {
                self.cursor = hi;
                self.anchor = None;
                return ;
            }
        }
        self.anchor_for_motion(extend);
        if self.cursor < self.chars.len() {
            self.cursor = self.cursor + 1;
        }
    }

    /// Moves the cursor to the start, extending the selection or clearing it.
    pub fn move_home(&mut self, extend: bool)
        requires
            old(self).wf(),
        ensures
            final(self).wf(),
            final(self).text_spec() == old(self).text_spec(),
            final(self).cursor_spec() == 0,
            !extend ==> final(self).anchor_spec() is None,
            extend ==> final(self).anchor_spec() == if old(self).anchor_spec() is None {
                Some(old(self).cursor_spec())
            } else {
                old(self).anchor_spec()
            },
    {
        self.anchor_for_motion(extend);
        self.cursor = 0;
    }

    /// Moves the cursor to the end, extending the selection or clearing it.
    pub fn move_end(&mut self, extend: bool)
        requires
            old(self).wf(),
        ensures
            final(self).wf(),
            final(self).text_spec() == old(self).text_spec(),
            final(self).cursor_spec() == old(self).text_spec().len(),
            !extend ==> final(self).anchor_spec() is None,
            extend ==> final(self).anchor_spec() == if old(self).anchor_spec() is None {
                Some(old(self).cursor_spec())
            } else {
                old(self).anchor_spec()
            },
    {
        self.anchor_for_motion(extend);
        self.cursor = self.chars.len();
    }

    /// The char index that a click `x` columns into the field stands for:
    /// where a walk over the characters reaches `x` columns.
    fn index_at_column(&self, x: usize) -> (r: usize)
        ensures
            r == walk_to_column(self.chars@, 0, self.chars@.len() as int, 0, x as nat),
            r <= self.chars@.len(),
    {
        let n = self.chars.len();
        let mut i: usize = 0;
        let mut w: usize = 0;
        let ghost mut wn: nat = 0;
        while i < n && w < x
            invariant
                i <= n,
                n == self.chars@.len(),
                w == sat(wn as int),
                walk_to_column(self.chars@, i as int, n as int, wn, x as nat) == walk_to_column(
                    self.chars@,
                    0,
                    n as int,
                    0,
                    x as nat,
                ),
            decreases n - i,
        {
            let cw = char_width(self.chars[i]);
            w = w.saturating_add(cw);
            proof {
                wn = wn + char_columns(self.chars@[i as int]);
            }
            i = i + 1;
        }
        proof {
            lemma_walk_le(self.chars@, i as int, n as int, wn, x as nat);
        }
        i
    }

    /// A click `x` columns into the field: the cursor goes there; with
    /// `shift` the selection extends, otherwise a new one is anchored there.
    pub fn click(&mut self, x: usize, shift: bool)
        requires
            old(self).wf(),
        ensures
            final(self).wf(),
            final(self).text_spec() == old(self).text_spec(),
            final(self).cursor_spec() == walk_to_column(old(self).text_spec(), 0, old(self).text_spec().len() as int, 0, x as nat),
            shift ==> final(self).anchor_spec() == if old(self).anchor_spec() is None {
                Some(old(self).cursor_spec())
            } else {
                old(self).anchor_spec()
            },
            !shift ==> final(self).anchor_spec() == Some(final(self).cursor_spec()),
    {
        let p = self.index_at_column(x);
        if shift {
            if self.anchor.is_none() {
                self.anchor = Some(self.cursor);
            }
            self.cursor = p;
        } else {
            self.cursor = p;
            self.anchor = Some(p);
        }
    }

    /// A drag to `x` columns into the field: the cursor follows.
    pub fn drag(&mut self, x: usize)
        requires
            old(self).wf(),
        ensures
            final(self).wf(),
            final(self).text_spec() == old(self).text_spec(),
            final(self).anchor_spec() == old(self).anchor_spec(),
            final(self).cursor_spec() == walk_to_column(old(self).text_spec(), 0, old(self).text_spec().len() as int, 0, x as nat),
    {
        self.cursor = self.index_at_column(x);
    }

    /// Columns before the cursor (saturating).
    pub fn cursor_columns(&self) -> (r: usize)
        requires
            self.wf(),
        ensures
            r == sat(columns(self.text_spec().take(self.cursor_spec() as int)) as int),
    {
        let mut i: usize = 0;
        let mut acc: usize = 0;
        proof {
            assert(self.chars@.take(0) =~= Seq::<char>::empty());
        }
        while i < self.cursor
            invariant
                i <= self.cursor,
                self.cursor <= self.chars@.len(),
                acc == sat(columns(self.chars@.take(i as int)) as int),
            decreases self.cursor - i,
        {
            let c = self.chars[i];
            let cw = char_width(c);
            proof {
                assert(self.chars@.take(i + 1) =~= self.chars@.take(i as int).push(c));
                crate::layout::lemma_columns_push(self.chars@.take(i as int), c);
            }
            acc = acc.saturating_add(cw);
            i = i + 1;
        }
        acc
    }

    /// Scrolls a field `field_width` columns wide so that the cursor shows.
    pub fn update_scroll_offset(&mut self, field_width: usize)
        requires
            old(self).wf(),
            field_width >= 1,
        ensures
            final(self).wf(),
            final(self).text_spec() == old(self).text_spec(),
            final(self).cursor_spec() == old(self).cursor_spec(),
            final(self).anchor_spec() == old(self).anchor_spec(),
            ({
                let v = sat(columns(old(self).text_spec().take(old(self).cursor_spec() as int)) as int);
                let off = old(self).scroll_spec();
                final(self).scroll_spec() == if v < off {
                    v
                } else if v >= sat(off + field_width) {
                    (v - (field_width - 1)) as usize
                } else {
                    off
                }
            }),
    {
        let v = self.cursor_columns();
        if v < self.scroll_offset {
            self.scroll_offset = v;
        } else if v >= self.scroll_offset.saturating_add(field_width) {
            self.scroll_offset = v - (field_width - 1);
        }
    }
}

} // verus!
