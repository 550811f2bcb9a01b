//! The editor: buffer, caret and selection, history, layout cache and find
//! state, kept consistent across every command.
use vstd::prelude::*;
use vstd::string::*;
use crate::buffer::{Buffer, lemma_newlines_spaces, line_start, newlines};
use crate::history::{
    EditOp, EditRecord, History, apply_op, apply_ops, is_insert, op_pos, op_text, record_applies,
    revert_ops,
};
use crate::layout::{
    VisualLine, build_rows, byte_at_visual, rows_from, byte_offsets, layout_ok, lemma_walk_boundary, row_ok, sat,
    visual_pos_from, vrow, walk_to_column,
};
use crate::find::{
    find_from, lemma_match_starts, match_ranges, match_starts, occurs_at,
    scan_matches, str_to_chars,
};
use crate::text::{
    byte_len, byte_offset, char_columns, char_index, char_width, columns, is_boundary, lemma_char_index,
    utf8_len,
};

verus! {

/// Sentinel rows above and below the content rows.
pub const VIRTUAL_LINES: usize = 2;

/// Rows kept visible between the caret and the viewport's edge.
pub const SCROLLOFF: usize = 3;

/// The range `(min, max)` between the caret and the anchor; `(caret, caret)`
/// without an anchor.
pub open spec fn sel_bounds(caret: usize, anchor: Option<usize>) -> (usize, usize) {
    match anchor {
        Some(a) => if a <= caret {
            (a, caret)
        } else {
            (caret, a)
        },
        None => (caret, caret),
    }
}

/// `t` without the text between the boundaries at bytes `lo` and `hi`.
pub open spec fn without(t: Seq<char>, lo: usize, hi: usize) -> Seq<char> {
    t.take(char_index(t, lo as int)) + t.skip(char_index(t, hi as int))
}

/// The text once the selection, if non-empty, is deleted.
pub open spec fn text_after_sel(t: Seq<char>, caret: usize, anchor: Option<usize>) -> Seq<char> {
    let (lo, hi) = sel_bounds(caret, anchor);
    if anchor is Some && lo < hi {
        without(t, lo, hi)
    } else {
        t
    }
}

/// The anchor once the selection, if non-empty, is deleted.
pub open spec fn anchor_after_sel(caret: usize, anchor: Option<usize>) -> Option<usize> {
    let (lo, hi) = sel_bounds(caret, anchor);
    if anchor is Some && lo < hi {
        None
    } else {
        anchor
    }
}

/// The caret once the selection, if non-empty, is deleted.
pub open spec fn caret_after_sel(caret: usize, anchor: Option<usize>) -> usize {
    let (lo, hi) = sel_bounds(caret, anchor);
    if anchor is Some && lo < hi {
        lo
    } else {
        caret
    }
}

/// Where the text `a` from `pos` on equals `b` from `j` on, an occurrence
/// at `p` in `a` is one at `j + (p - pos)` in `b`.
proof fn lemma_occurs_shift(a: Seq<char>, b: Seq<char>, q: Seq<char>, pos: int, j: int, p: int)
    requires
        0 <= pos <= p,
        pos <= a.len(),
        0 <= j <= b.len(),
        a.skip(pos) == b.skip(j),
    ensures
        occurs_at(a, q, p) == occurs_at(b, q, j + (p - pos)),
        p + q.len() <= a.len() <==> j + (p - pos) + q.len() <= b.len(),
{
    let x = j + (p - pos);
    assert(a.skip(pos).len() == a.len() - pos);
    assert(b.skip(j).len() == b.len() - j);
    assert(a.len() - pos == b.len() - j);
    if p + q.len() <= a.len() {
        assert(a.subrange(p, p + q.len()) =~= b.subrange(x, x + q.len())) by {
            assert forall|d: int| 0 <= d < q.len() implies #[trigger] a.subrange(p, p + q.len())[d]
                == b.subrange(x, x + q.len())[d] by {
                assert(a.skip(pos)[p - pos + d] == a[p + d]);
                assert(b.skip(j)[p - pos + d] == b[x + d]);
            }
        }
    }
}

/// A scan that finds no match in `x..y` copies those characters.
proof fn lemma_replaced_skip(t: Seq<char>, q: Seq<char>, r: Seq<char>, x: int, y: int)
    requires
        0 <= x <= y <= t.len(),
        q.len() > 0,
        forall|d: int| x <= d < y ==> !occurs_at(t, q, d),
    ensures
        replaced_from(t, q, r, x) == t.subrange(x, y) + replaced_from(t, q, r, y),
    decreases y - x,
{
    if x == y {
        assert(t.subrange(x, y) =~= Seq::<char>::empty());
        assert(Seq::<char>::empty() + replaced_from(t, q, r, y) =~= replaced_from(t, q, r, y));
    } else if x + q.len() > t.len() {
        assert(replaced_from(t, q, r, x) == t.skip(x));
        assert(y + q.len() > t.len());
        assert(replaced_from(t, q, r, y) == t.skip(y));
        assert(t.skip(x) =~= t.subrange(x, y) + t.skip(y));
    } else {
        lemma_replaced_skip(t, q, r, x + 1, y);
        assert(replaced_from(t, q, r, x) == seq![t[x]] + replaced_from(t, q, r, x + 1));
        assert(t.subrange(x, y) =~= seq![t[x]] + t.subrange(x + 1, y));
    }
}

proof fn lemma_first_from_bound(ms: Seq<(usize, usize)>, c: usize, strict: bool, k: int)
    requires
        first_from(ms, c, strict, k) is Some,
    ensures
        ({
            let r = first_from(ms, c, strict, k)->0;
            &&& 0 <= r < ms.len()
            &&& ms[r].0 > c || (!strict && ms[r].0 == c)
            &&& forall|j: int| k <= j < r ==> !(ms[j].0 > c || (!strict && ms[j].0 == c))
        }),
    decreases ms.len() - k,
{
    if !(k < 0 || k >= ms.len()) && !(ms[k].0 > c || (!strict && ms[k].0 == c)) {
        lemma_first_from_bound(ms, c, strict, k + 1);
    }
}

/// One axis of `update_viewport` (see `scroll_axis`).
fn scroll_to(off: usize, pos: usize, size: usize) -> (r: usize)
    requires
        size > SCROLLOFF,
    ensures
        r == scroll_axis(off, pos, size),
{
    if pos < off.saturating_add(SCROLLOFF) {
        pos.saturating_sub(SCROLLOFF)
    } else if pos >= off.saturating_add(size) - SCROLLOFF {
        pos - (size - SCROLLOFF - 1)
    } else {
        off
    }
}

/// Relies on `format!`: the string `s` followed by `*`.
#[verifier::external_body]
fn with_star(s: &str) -> (r: String)
    ensures
        r@ == s@.push('*'),
{
    format!("{}*", s)
}

/// The name shown for a document: its file name, or `[No Name]`, followed
/// by `*` when it has unsaved changes.
pub fn display_name(file_name: Option<&str>, modified: bool) -> (r: String)
    ensures
        ({
            let base = match file_name {
                Some(n) => n@,
                None => "[No Name]"@,
            };
            r@ == if modified {
                base.push('*')
            } else {
                base
            }
        }),
{
    let base: &str = match file_name {
        Some(n) => n,
        None => "[No Name]",
    };
    if modified {
        with_star(base)
    } else {
        base.to_owned()
    }
}

/// Relies on `char::to_string`: the one-character string of `c`.
#[verifier::external_body]
fn char_string(c: char) -> (s: String)
    ensures
        s@ == seq![c],
{
    c.to_string()
}

/// `r` records the removal of `s` at byte `pos`, with the caret `c0` before
/// and `c1` after it and the anchor `a0` before it.
pub open spec fn is_delete_record(r: EditRecord, pos: int, s: Seq<char>, c0: usize, c1: usize, a0: Option<usize>) -> bool {
    &&& !is_insert(r.0)
    &&& op_pos(r.0) == pos
    &&& op_text(r.0) == s
    &&& r.1 == c0
    &&& r.2 == c1
    &&& r.3 == a0
}

/// `r` records the insertion of `s` at byte `pos`, likewise.
pub open spec fn is_insert_record(r: EditRecord, pos: int, s: Seq<char>, c0: usize, c1: usize, a0: Option<usize>) -> bool {
    &&& is_insert(r.0)
    &&& op_pos(r.0) == pos
    &&& op_text(r.0) == s
    &&& r.1 == c0
    &&& r.2 == c1
    &&& r.3 == a0
}

/// `t` with `s` inserted at the boundary at byte `b`.
pub open spec fn with_inserted(t: Seq<char>, b: usize, s: Seq<char>) -> Seq<char> {
    t.take(char_index(t, b as int)) + s + t.skip(char_index(t, b as int))
}

/// The first index from `k` on whose match starts at or after `c`
/// (strictly after, if `strict`).
pub open spec fn first_from(ms: Seq<(usize, usize)>, c: usize, strict: bool, k: int) -> Option<int>
    decreases ms.len() - k,
{
    if k < 0 || k >= ms.len() {
        None
    } else if ms[k].0 > c || (!strict && ms[k].0 == c) {
        Some(k)
    } else {
        first_from(ms, c, strict, k + 1)
    }
}

/// The match that becomes current: the first one at or after `c` (strictly
/// after, if `strict`), else the first one; none without matches.
pub open spec fn pick_match(ms: Seq<(usize, usize)>, c: usize, strict: bool) -> Option<usize> {
    match first_from(ms, c, strict, 0) {
        Some(k) => Some(k as usize),
        None => if ms.len() > 0 {
            Some(0usize)
        } else {
            None
        },
    }
}

/// `t` from char index `i` on, with each match of `q` that a scan from `i`
/// finds replaced by `r`; the scan resumes after each match, so text that a
/// replacement brings in is never searched.
pub open spec fn replaced_from(t: Seq<char>, q: Seq<char>, r: Seq<char>, i: int) -> Seq<char>
    decreases t.len() - i,
{
    if i < 0 || i > t.len() {
        seq![]
    } else if q.len() == 0 || i + q.len() > t.len() {
        t.skip(i)
    } else if occurs_at(t, q, i) {
        r + replaced_from(t, q, r, i + q.len())
    } else {
        seq![t[i]] + replaced_from(t, q, r, i + 1)
    }
}

/// Where one axis of the viewport scrolls so that `pos` stays at least
/// `SCROLLOFF` away from its edges: `off` is the first visible index and
/// `size` the number visible.
pub open spec fn scroll_axis(off: usize, pos: usize, size: usize) -> usize {
    if pos < sat(off + SCROLLOFF) {
        if pos >= SCROLLOFF {
            (pos - SCROLLOFF) as usize
        } else {
            0
        }
    } else if pos >= sat(off + size) - SCROLLOFF {
        (pos + SCROLLOFF + 1 - size) as usize
    } else {
        off
    }
}

/// The selection anchor after a motion: extending keeps it, or starts it
/// at the caret; otherwise it is cleared.
pub open spec fn anchor_after_motion(caret: usize, anchor: Option<usize>, extend: bool) -> Option<usize> {
    if extend {
        if anchor is None {
            Some(caret)
        } else {
            anchor
        }
    } else {
        None
    }
}

/// The four spaces that indentation inserts.
pub open spec fn indent_unit() -> Seq<char> {
    seq![' ', ' ', ' ', ' ']
}

/// The char index where logical line `l` of `t` starts.
pub open spec fn start_of_line(t: Seq<char>, l: int) -> int {
    choose|p: int| 0 <= p <= t.len() && newlines(t.take(p)) == l && (p == 0 || t[p - 1] == '\n')
}

/// `t` without the leading spaces (at most four) at char index `p`.
pub open spec fn strip_lead(t: Seq<char>, p: int) -> Seq<char> {
    t.take(p) + t.skip(p + lead_spaces(t, p))
}

/// `t` with up to four leading spaces removed from each of the logical lines
/// `lo..=hi`, the last line first.
pub open spec fn dedent_lines(t: Seq<char>, hi: int, lo: int) -> Seq<char>
    decreases hi - lo + 1,
{
    if hi < lo {
        t
    } else {
        dedent_lines(strip_lead(t, start_of_line(t, hi)), hi - 1, lo)
    }
}

/// Where char index `c` goes when the logical lines `lo..=hi` of `t` get
/// four spaces each, the last line first: past every line start at or
/// before it, four further.
pub open spec fn indent_pos(t: Seq<char>, hi: int, lo: int, c: int) -> int
    decreases hi - lo + 1,
{
    if hi < lo {
        c
    } else {
        let p = start_of_line(t, hi);
        indent_pos(
            t.take(p) + indent_unit() + t.skip(p),
            hi - 1,
            lo,
            if c >= p {
                c + 4
            } else {
                c
            },
        )
    }
}

/// Where char index `c` goes as `dedent_lines` removes leading spaces: back
/// by the spaces removed before it, or to the line start when it stood among
/// them.
pub open spec fn dedent_pos(t: Seq<char>, hi: int, lo: int, c: int) -> int
    decreases hi - lo + 1,
{
    if hi < lo {
        c
    } else {
        let p = start_of_line(t, hi);
        let sp = lead_spaces(t, p);
        dedent_pos(
            strip_lead(t, p),
            hi - 1,
            lo,
            if c >= p + sp {
                c - sp
            } else if c > p {
                p
            } else {
                c
            },
        )
    }
}

/// `s` with four spaces after each of its line feeds.
pub open spec fn pad_after_newlines(s: Seq<char>) -> Seq<char>
    decreases s.len(),
{
    if s.len() == 0 {
        s
    } else {
        pad_after_newlines(s.drop_last()) + if s.last() == '\n' {
            seq!['\n'] + indent_unit()
        } else {
            seq![s.last()]
        }
    }
}

proof fn lemma_pad_concat(a: Seq<char>, b: Seq<char>)
    ensures
        pad_after_newlines(a + b) == pad_after_newlines(a) + pad_after_newlines(b),
    decreases b.len(),
{
    if b.len() == 0 {
        assert(a + b =~= a);
        assert(pad_after_newlines(a) + pad_after_newlines(b) =~= pad_after_newlines(a));
    } else {
        lemma_pad_concat(a, b.drop_last());
        assert((a + b).drop_last() =~= a + b.drop_last());
        assert((a + b).last() == b.last());
        let tail = if b.last() == '\n' {
            seq!['\n'] + indent_unit()
        } else {
            seq![b.last()]
        };
        assert(pad_after_newlines(a) + pad_after_newlines(b.drop_last()) + tail =~= pad_after_newlines(a) + (pad_after_newlines(b.drop_last()) + tail));
    }
}

proof fn lemma_pad_plain(a: Seq<char>)
    requires
        newlines(a) == 0,
    ensures
        pad_after_newlines(a) == a,
    decreases a.len(),
{
    if a.len() > 0 {
        lemma_pad_plain(a.drop_last());
        assert(a.drop_last().push(a.last()) =~= a);
    }
}

/// The start `p` of the line that holds char index `h` lies at or before it,
/// with no line feed in between.
proof fn lemma_last_line_start(t: Seq<char>, p: int, h: int)
    requires
        0 <= p <= t.len(),
        0 <= h <= t.len(),
        p == 0 || t[p - 1] == '\n',
        newlines(t.take(p)) == newlines(t.take(h)),
    ensures
        p <= h,
        forall|k: int| p <= k < h ==> t[k] != '\n',
{
    if p > h {
        crate::buffer::lemma_newlines_mono(t, h, p);
    }
    assert forall|k: int| p <= k < h implies t[k] != '\n' by {
        if t[k] == '\n' {
            crate::buffer::lemma_newlines_mono(t, p, h);
        }
    }
}

/// In `cur`, which equals `t` before `pp`, the start `p` of the line before
/// the one starting at `pp` is that line's start in `t` too, and the only
/// line feed in `t[p..pp]` is its last character.
proof fn lemma_prev_line_start(t: Seq<char>, cur: Seq<char>, p: int, pp: int, h: int, line: int)
    requires
        0 <= pp <= h <= t.len(),
        pp == 0 || t[pp - 1] == '\n',
        newlines(t.take(pp)) == line + 1,
        cur.take(pp) == t.take(pp),
        pp <= cur.len(),
        0 <= p <= cur.len(),
        p == 0 || cur[p - 1] == '\n',
        newlines(cur.take(p)) == line,
    ensures
        p < pp,
        t[pp - 1] == '\n',
        p == 0 || t[p - 1] == '\n',
        newlines(t.take(p)) == line,
        cur.take(p) == t.take(p),
        forall|k: int| p <= k < pp - 1 ==> t[k] != '\n',
{
    if p >= pp {
        crate::buffer::lemma_newlines_mono(cur, pp, p);
        assert(cur.take(pp) == t.take(pp));
    }
    assert(cur.take(p) =~= cur.take(pp).take(p));
    assert(t.take(p) =~= t.take(pp).take(p));
    if p > 0 {
        assert(cur[p - 1] == cur.take(pp)[p - 1]);
        assert(t[p - 1] == t.take(pp)[p - 1]);
    }
    if pp == 0 {
        assert(newlines(t.take(0)) == 0) by {
            assert(t.take(0) =~= Seq::<char>::empty());
        }
    }
    assert forall|k: int| p <= k < pp - 1 implies t[k] != '\n' by {
        if t[k] == '\n' {
            crate::buffer::lemma_newlines_mono(t, p, k + 1);
            crate::buffer::lemma_newlines_mono(t, k + 1, pp);
            assert(t[pp - 1] == '\n');
        }
    }
}

proof fn lemma_indent_first(t: Seq<char>, p: int, h: int)
    requires
        0 <= p <= h <= t.len(),
        forall|k: int| p <= k < h ==> t[k] != '\n',
    ensures
        t.take(p) + indent_unit() + t.skip(p) == t.take(p) + indent_unit() + pad_after_newlines(
            t.subrange(p, h),
        ) + t.skip(h),
{
    lemma_plain_range(t, p, h);
    lemma_pad_plain(t.subrange(p, h));
    assert(t.skip(p) =~= t.subrange(p, h) + t.skip(h));
    assert(t.take(p) + indent_unit() + t.skip(p) =~= t.take(p) + indent_unit() + t.subrange(p, h) + t.skip(h));
}

proof fn lemma_indent_step(t: Seq<char>, cur: Seq<char>, p: int, pp: int, h: int)
    requires
        0 <= p < pp <= h <= t.len(),
        t[pp - 1] == '\n',
        forall|k: int| p <= k < pp - 1 ==> t[k] != '\n',
        cur == t.take(pp) + indent_unit() + pad_after_newlines(t.subrange(pp, h)) + t.skip(h),
    ensures
        cur.take(p) + indent_unit() + cur.skip(p) == t.take(p) + indent_unit() + pad_after_newlines(
            t.subrange(p, h),
        ) + t.skip(h),
{
    let a = t.subrange(p, pp - 1);
    lemma_plain_range(t, p, pp - 1);
    lemma_pad_plain(a);
    assert(t.subrange(p, pp) =~= a.push('\n'));
    assert(a.push('\n').drop_last() =~= a);
    assert(pad_after_newlines(a.push('\n')) == pad_after_newlines(a) + (seq!['\n'] + indent_unit()));
    lemma_pad_concat(t.subrange(p, pp), t.subrange(pp, h));
    assert(t.subrange(p, h) =~= t.subrange(p, pp) + t.subrange(pp, h));
    assert(cur.take(p) =~= t.take(p));
    assert(cur.skip(p) =~= t.subrange(p, pp) + indent_unit() + pad_after_newlines(t.subrange(pp, h)) + t.skip(h));
    assert(cur.take(p) + indent_unit() + cur.skip(p) =~= t.take(p) + indent_unit() + pad_after_newlines(t.subrange(p, h)) + t.skip(h));
}

/// A range with no line feed in it holds no line feed.
proof fn lemma_plain_range(t: Seq<char>, a: int, b: int)
    requires
        0 <= a <= b <= t.len(),
        forall|k: int| a <= k < b ==> t[k] != '\n',
    ensures
        newlines(t.subrange(a, b)) == 0,
    decreases b - a,
{
    if a < b {
        lemma_plain_range(t, a, b - 1);
        assert(t.subrange(a, b).drop_last() =~= t.subrange(a, b - 1));
    }
}

/// Two line starts with as many line feeds before them are one.
proof fn lemma_line_start_unique(t: Seq<char>, p: int, q: int)
    requires
        0 <= p <= t.len(),
        0 <= q <= t.len(),
        p == 0 || t[p - 1] == '\n',
        q == 0 || t[q - 1] == '\n',
        newlines(t.take(p)) == newlines(t.take(q)),
    ensures
        p == q,
{
    if p < q {
        crate::buffer::lemma_newlines_mono(t, p, q);
    } else if q < p {
        crate::buffer::lemma_newlines_mono(t, q, p);
    }
}

/// Number of spaces, at most four, that start at char index `p`.
pub open spec fn lead_spaces(t: Seq<char>, p: int) -> nat
    decreases 4 - 0int,
{
    if p < t.len() && t[p] == ' ' {
        if p + 1 < t.len() && t[p + 1] == ' ' {
            if p + 2 < t.len() && t[p + 2] == ' ' {
                if p + 3 < t.len() && t[p + 3] == ' ' {
                    4
                } else {
                    3
                }
            } else {
                2
            }
        } else {
            1
        }
    } else {
        0
    }
}

pub struct Editor {
    buffer: Buffer,
    caret: usize,
    selection_anchor: Option<usize>,
    preferred_col: usize,
    viewport_offset: (usize, usize),
    word_wrap: bool,
    visual_lines: Vec<VisualLine>,
    visual_lines_valid: bool,
    layout_width: usize,
    modified: bool,
    history: History,
    find_query: String,
    find_matches: Vec<(usize, usize)>,
    current_match_index: Option<usize>,
}

impl Editor {
    pub closed spec fn text(&self) -> Seq<char> {
        self.buffer@
    }

    pub closed spec fn caret_spec(&self) -> usize {
        self.caret
    }

    pub closed spec fn anchor(&self) -> Option<usize> {
        self.selection_anchor
    }

    pub closed spec fn history_spec(&self) -> History {
        self.history
    }

    /// The record of the latest edit.
    pub open spec fn last_record(&self) -> EditRecord {
        self.history_spec().undo_groups().last().last()
    }

    pub closed spec fn is_modified(&self) -> bool {
        self.modified
    }

    pub closed spec fn wrap_spec(&self) -> bool {
        self.word_wrap
    }

    pub closed spec fn matches_spec(&self) -> Seq<(usize, usize)> {
        self.find_matches@
    }

    pub closed spec fn current_match_spec(&self) -> Option<usize> {
        self.current_match_index
    }

    pub closed spec fn rows(&self) -> Seq<VisualLine> {
        self.visual_lines@
    }

    pub closed spec fn layout_valid(&self) -> bool {
        self.visual_lines_valid
    }

    pub closed spec fn layout_width(&self) -> usize {
        self.layout_width
    }

    /// `self` and `o` hold the same document, caret, selection, history and
    /// find state; only the layout cache and the view may differ.
    pub open spec fn same_doc(&self, o: &Editor) -> bool {
        &&& self.text() == o.text()
        &&& self.caret_spec() == o.caret_spec()
        &&& self.anchor() == o.anchor()
        &&& self.history_spec() == o.history_spec()
        &&& self.query_spec() == o.query_spec()
        &&& self.matches_spec() == o.matches_spec()
        &&& self.current_match_spec() == o.current_match_spec()
        &&& self.is_modified() == o.is_modified()
        &&& self.wrap_spec() == o.wrap_spec()
        &&& self.preferred_col_spec() == o.preferred_col_spec()
    }

    pub closed spec fn viewport(&self) -> (usize, usize) {
        self.viewport_offset
    }

    pub closed spec fn query_spec(&self) -> Seq<char> {
        self.find_query@
    }

    pub closed spec fn preferred_col_spec(&self) -> usize {
        self.preferred_col
    }

    /// The editor's invariant: caret and anchor are boundaries of the text,
    /// the history fits the text, a valid layout cache is a layout of the
    /// text, and the current match indexes the match list.
    pub closed spec fn wf(&self) -> bool {
        &&& is_boundary(self.buffer@, self.caret as int)
        &&& (self.selection_anchor matches Some(a) ==> is_boundary(self.buffer@, a as int))
        &&& self.history.fits(self.buffer@)
        &&& self.visual_lines_valid ==> layout_ok(
            self.buffer@,
            self.visual_lines@,
            self.layout_width,
            self.word_wrap,
        )
        &&& self.visual_lines_valid ==> self.visual_lines@ == rows_from(
            self.buffer@,
            0,
            0,
            self.layout_width,
            self.word_wrap,
        )
        &&& (self.current_match_index matches Some(i) ==> i < self.find_matches@.len())
        &&& forall|k: int|
            0 <= k < self.find_matches@.len() ==> is_boundary(
                self.buffer@,
                (#[trigger] self.find_matches@[k]).0 as int,
            ) && is_boundary(self.buffer@, self.find_matches@[k].1 as int)
                && self.find_matches@[k].0 < self.find_matches@[k].1
    }

    /// An empty document.
    pub fn new() -> (e: Editor)
        ensures
            e.wf(),
            e.text() == Seq::<char>::empty(),
            e.caret_spec() == 0,
            e.anchor() is None,
            e.history_spec().origin() == e.text(),
            e.history_spec().undo_groups().len() == 0,
            e.history_spec().redo_groups().len() == 0,
            !e.history_spec().has_open_group(),
            e.history_spec().last_edit() is None,
            !e.is_modified(),
    {
        let buffer = Buffer::new();
        let history = History::new(Ghost(buffer@));
        proof {
            assert(buffer@.take(0) =~= Seq::<char>::empty());
            lemma_char_index(buffer@, 0);
        }
        Editor {
            buffer,
            caret: 0,
            selection_anchor: None,
            preferred_col: 0,
            viewport_offset: (0, 0),
            word_wrap: true,
            visual_lines: Vec::new(),
            visual_lines_valid: false,
            layout_width: 0,
            modified: false,
            history,
            find_query: String::new(),
            find_matches: Vec::new(),
            current_match_index: None,
        }
    }

    /// Replaces the document with `content`: the caret goes to 0, the
    /// selection and the history are dropped.
    pub fn load_text(&mut self, content: &str)
        ensures
            final(self).wf(),
            final(self).text() == content@,
            final(self).caret_spec() == 0,
            final(self).anchor() is None,
            final(self).history_spec().origin() == content@,
            final(self).history_spec().undo_groups().len() == 0,
            final(self).history_spec().redo_groups().len() == 0,
            !final(self).history_spec().has_open_group(),
            final(self).history_spec().last_edit() is None,
            !final(self).is_modified(),
    {
        self.buffer = Buffer::from_str(content);
        self.history = History::new(Ghost(self.buffer@));
        self.caret = 0;
        self.selection_anchor = None;
        self.preferred_col = 0;
        self.modified = false;
        self.visual_lines_valid = false;
        self.find_matches = Vec::new();
        self.current_match_index = None;
        proof {
            assert(self.buffer@.take(0) =~= Seq::<char>::empty());
            lemma_char_index(self.buffer@, 0);
        }
    }

    /// The whole document, as saved.
    pub fn contents(&self) -> (s: String)
        requires
            self.wf(),
        ensures
            s@ == self.text(),
    {
        let n = self.buffer.len_chars();
        let s = self.buffer_slice_chars(0, n);
        proof {
            assert(self.buffer@.subrange(0, n as int) =~= self.buffer@);
        }
        s
    }

    fn buffer_slice_chars(&self, i: usize, j: usize) -> (s: String)
        requires
            i <= j <= self.buffer@.len(),
        ensures
            s@ == self.buffer@.subrange(i as int, j as int),
    {
        let b = self.buffer.char_to_byte(i);
        let e = self.buffer.char_to_byte(j);
        proof {
            lemma_char_index(self.buffer@, i as int);
            lemma_char_index(self.buffer@, j as int);
            crate::text::lemma_offset_mono(self.buffer@, i as int, j as int);
        }
        self.buffer.slice(b, e)
    }

    /// Marks the document as saved.
    pub fn mark_saved(&mut self)
        requires
            old(self).wf(),
        ensures
            final(self).wf(),
            final(self).text() == old(self).text(),
            final(self).caret_spec() == old(self).caret_spec(),
            !final(self).is_modified(),
    {
        self.modified = false;
    }

    pub fn is_modified_flag(&self) -> (r: bool)
        ensures
            r == self.is_modified(),
    {
        self.modified
    }

    pub fn caret(&self) -> (r: usize)
        ensures
            r == self.caret_spec(),
    {
        self.caret
    }

    pub fn selection_anchor(&self) -> (r: Option<usize>)
        ensures
            r == self.anchor(),
    {
        self.selection_anchor
    }

    pub fn has_selection(&self) -> (r: bool)
        ensures
            r == (self.anchor() is Some),
    {
        self.selection_anchor.is_some()
    }

    /// The selected range, ordered by value.
    pub fn get_selection_range(&self) -> (r: Option<(usize, usize)>)
        ensures
            r == match self.anchor() {
                Some(_) => Some(sel_bounds(self.caret_spec(), self.anchor())),
                None => None,
            },
    {
        match self.selection_anchor {
            Some(a) => if a <= self.caret {
                Some((a, self.caret))
            } else {
                Some((self.caret, a))
            },
            None => None,
        }
    }

    pub fn clear_selection(&mut self)
        requires
            old(self).wf(),
        ensures
            final(self).wf(),
            final(self).text() == old(self).text(),
            final(self).caret_spec() == old(self).caret_spec(),
            final(self).anchor() is None,
            final(self).history_spec() == old(self).history_spec(),
    {
        self.selection_anchor = None;
    }

    /// Selects the whole document: anchor at 0, caret at the end.
    pub fn select_all(&mut self)
        requires
            old(self).wf(),
        ensures
            final(self).wf(),
            final(self).text() == old(self).text(),
            final(self).anchor() == Some(0usize),
            final(self).caret_spec() == byte_len(old(self).text()),
    {
        let n = self.buffer.len_chars();
        self.caret = self.buffer.char_to_byte(n);
        proof {
            lemma_char_index(self.buffer@, 0);
            lemma_char_index(self.buffer@, n as int);
            crate::text::lemma_offset_full(self.buffer@);
            assert(self.buffer@.take(0) =~= Seq::<char>::empty());
        }
        self.selection_anchor = Some(0);
    }

    /// Drops the cached layout and the find matches after a change of text.
    fn after_change(&mut self)
        ensures
            final(self).buffer == old(self).buffer,
            final(self).caret == old(self).caret,
            final(self).selection_anchor == old(self).selection_anchor,
            final(self).history == old(self).history,
            final(self).modified == old(self).modified,
            final(self).preferred_col == old(self).preferred_col,
            final(self).word_wrap == old(self).word_wrap,
            final(self).find_query == old(self).find_query,
            !final(self).visual_lines_valid,
            final(self).find_matches@.len() == 0,
            final(self).current_match_index is None,
    {
        self.visual_lines_valid = false;
        self.find_matches.clear();
        self.current_match_index = None;
    }

    /// Inserts `s` at char index `i`, records it, and puts the caret at char
    /// index `c` of the new text.
    fn insert_chars_at(&mut self, i: usize, s: String, c: usize, shift: bool, now: u64)
        requires
            old(self).wf(),
            i <= old(self).buffer@.len(),
            c <= old(self).buffer@.len(),
        ensures
            final(self).wf(),
            final(self).buffer@ == old(self).buffer@.take(i as int) + s@ + old(self).buffer@.skip(
                i as int,
            ),
            final(self).caret == byte_offset(
                final(self).buffer@,
                if shift {
                    c + s@.len()
                } else {
                    c as int
                },
            ),
            final(self).selection_anchor is None,
            final(self).modified,
            final(self).word_wrap == old(self).word_wrap,
            final(self).find_query == old(self).find_query,
            final(self).history.origin() == old(self).history.origin(),
            final(self).history.redo_groups().len() == 0,
            final(self).history.last_edit() == Some(now),
            final(self).history.has_open_group(),
            old(self).history.has_open_group() && old(self).history.last_edit() == Some(now)
                ==> final(self).history.undo_groups().drop_last() == old(self).history.undo_groups().drop_last()
                && final(self).history.undo_groups().len() == old(self).history.undo_groups().len(),
            !old(self).history.has_open_group() ==> final(self).history.undo_groups().drop_last()
                == old(self).history.undo_groups()
                && final(self).history.undo_groups().len() == old(self).history.undo_groups().len() + 1,
            crate::history::extends(old(self).history, final(self).history, old(self).buffer@, final(self).buffer@, old(self).caret, old(self).selection_anchor, now),
            final(self).history.undo_groups().last().last() == (EditOp::Insert { pos: byte_offset(old(self).buffer@, i as int) as usize, text: s }, old(self).caret, final(self).caret, old(self).selection_anchor),
    {
        let ghost t0 = self.buffer@;
        let b = self.buffer.char_to_byte(i);
        proof {
            lemma_char_index(t0, i as int);
        }
        let k = s.as_str().unicode_len();
        self.buffer.insert_at_char(i, s.as_str());
        let len = self.buffer.len_chars();
        let nc = if shift {
            c + k
        } else {
            c
        };
        let after = self.buffer.char_to_byte(nc);
        proof {
            lemma_char_index(self.buffer@, nc as int);
        }
        let before = self.caret;
        let op = EditOp::Insert { pos: b, text: s };
        proof {
            assert(apply_op(t0, op) == self.buffer@);
            assert(record_applies(t0, (op, before, after, self.selection_anchor)));
        }
        self.history.push_op((op, before, after, self.selection_anchor), now, Ghost(t0));
        self.caret = after;
        self.selection_anchor = None;
        self.modified = true;
        self.after_change();
    }

    /// Removes the chars in `i..j`, records it, and puts the caret at char
    /// index `c` of the new text. Returns the removed text.
    fn remove_chars_at(&mut self, i: usize, j: usize, c: usize, now: u64) -> (removed: String)
        requires
            old(self).wf(),
            i <= j <= old(self).buffer@.len(),
            c <= old(self).buffer@.len() - (j - i),
        ensures
            final(self).wf(),
            removed@ == old(self).buffer@.subrange(i as int, j as int),
            final(self).buffer@ == old(self).buffer@.take(i as int) + old(self).buffer@.skip(j as int),
            final(self).caret == byte_offset(final(self).buffer@, c as int),
            final(self).selection_anchor is None,
            final(self).modified,
            final(self).word_wrap == old(self).word_wrap,
            final(self).find_query == old(self).find_query,
            final(self).history.origin() == old(self).history.origin(),
            final(self).history.redo_groups().len() == 0,
            final(self).history.last_edit() == Some(now),
            final(self).history.has_open_group(),
            old(self).history.has_open_group() && old(self).history.last_edit() == Some(now)
                ==> final(self).history.undo_groups().drop_last() == old(self).history.undo_groups().drop_last()
                && final(self).history.undo_groups().len() == old(self).history.undo_groups().len(),
            !old(self).history.has_open_group() ==> final(self).history.undo_groups().drop_last()
                == old(self).history.undo_groups()
                && final(self).history.undo_groups().len() == old(self).history.undo_groups().len() + 1,
            crate::history::extends(old(self).history, final(self).history, old(self).buffer@, final(self).buffer@, old(self).caret, old(self).selection_anchor, now),
            is_delete_record(final(self).history.undo_groups().last().last(), byte_offset(old(self).buffer@, i as int) as int, old(self).buffer@.subrange(i as int, j as int), old(self).caret, final(self).caret, old(self).selection_anchor),
    {
        let ghost t0 = self.buffer@;
        let b = self.buffer.char_to_byte(i);
        proof {
            lemma_char_index(t0, i as int);
        }
        let removed = self.buffer.remove_chars(i, j);
        let after = self.buffer.char_to_byte(c);
        proof {
            lemma_char_index(self.buffer@, c as int);
        }
        let before = self.caret;
        let ghost rs = removed@;
        let op = EditOp::Delete { pos: b, text: removed.clone() };
        proof {
            assert(t0.subrange(i as int, i + rs.len()) == rs);
            assert(apply_op(t0, op) =~= self.buffer@);
            assert(record_applies(t0, (op, before, after, self.selection_anchor)));
        }
        self.history.push_op((op, before, after, self.selection_anchor), now, Ghost(t0));
        self.caret = after;
        self.selection_anchor = None;
        self.modified = true;
        self.after_change();
        removed
    }

    /// Deletes a non-empty selection as one recorded removal; the caret goes
    /// to the start of the range and the selection is cleared. Returns
    /// whether anything was deleted; otherwise nothing changes.
    pub fn delete_selection(&mut self, now: u64) -> (r: bool)
        requires
            old(self).wf(),
        ensures
            final(self).wf(),
            final(self).history_spec().origin() == old(self).history_spec().origin(),
            final(self).text() == text_after_sel(old(self).text(), old(self).caret_spec(), old(self).anchor()),
            final(self).caret_spec() == caret_after_sel(old(self).caret_spec(), old(self).anchor()),
            r == (old(self).anchor() is Some && sel_bounds(old(self).caret_spec(), old(self).anchor()).0
                < sel_bounds(old(self).caret_spec(), old(self).anchor()).1),
            r ==> is_delete_record(
                final(self).last_record(),
                sel_bounds(old(self).caret_spec(), old(self).anchor()).0 as int,
                old(self).text().subrange(
                    char_index(old(self).text(), sel_bounds(old(self).caret_spec(), old(self).anchor()).0 as int),
                    char_index(old(self).text(), sel_bounds(old(self).caret_spec(), old(self).anchor()).1 as int),
                ),
                old(self).caret_spec(),
                sel_bounds(old(self).caret_spec(), old(self).anchor()).0,
                old(self).anchor(),
            ),
            r ==> final(self).anchor() is None && final(self).is_modified() && crate::history::extends(old(self).history_spec(), final(self).history_spec(), old(self).text(), final(self).text(), old(self).caret_spec(), old(self).anchor(), now),
            !r ==> final(self).anchor() == old(self).anchor() && final(self).history_spec() == old(self).history_spec()
                && final(self).is_modified() == old(self).is_modified(),
    {
        match self.get_selection_range() {
            Some((lo, hi)) => {
                if lo < hi {
                    let ghost t0 = self.buffer@;
                    let i = self.buffer.byte_to_char(lo);
                    let j = self.buffer.byte_to_char(hi);
                    proof {
                        if j < i {
                            crate::text::lemma_offset_mono(t0, j as int, i as int);
                        }
                    }
                    self.remove_chars_at(i, j, i, now);
                    proof {
                        assert(self.buffer@.take(i as int) =~= t0.take(i as int));
                        crate::text::lemma_offset_prefix(self.buffer@, t0, i as int);
                    }
                    true
                } else {
                    false
                }
            },
            None => false,
        }
    }

    /// Types `ch`: a non-empty selection is deleted first, then `ch` goes in
    /// at the caret, which moves past it.
    pub fn insert_char(&mut self, ch: char, width: usize, now: u64)
        requires
            old(self).wf(),
        ensures
            final(self).wf(),
            final(self).history_spec().origin() == old(self).history_spec().origin(),
            ({
                let t1 = text_after_sel(old(self).text(), old(self).caret_spec(), old(self).anchor());
                let c1 = caret_after_sel(old(self).caret_spec(), old(self).anchor());
                &&& final(self).text() == with_inserted(t1, c1, seq![ch])
                &&& final(self).caret_spec() == c1 + utf8_len(ch)
            }),
            final(self).anchor() is None,
            final(self).is_modified(),
            crate::history::extends(old(self).history_spec(), final(self).history_spec(), old(self).text(), final(self).text(), old(self).caret_spec(), old(self).anchor(), now),
            final(self).preferred_col_spec() == visual_pos_from(final(self).text(), final(self).rows(), final(self).caret_spec(), 0).1,
            is_insert_record(
                final(self).last_record(),
                caret_after_sel(old(self).caret_spec(), old(self).anchor()) as int,
                seq![ch],
                caret_after_sel(old(self).caret_spec(), old(self).anchor()),
                final(self).caret_spec(),
                anchor_after_sel(old(self).caret_spec(), old(self).anchor()),
            ),
    {
        let s = char_string(ch);
        proof {
            assert(s@.drop_last() =~= Seq::<char>::empty());
            assert(s@.last() == ch);
            assert(byte_len(Seq::<char>::empty()) == 0);
            assert(byte_len(s@) == utf8_len(ch));
        }
        self.insert_str_at_caret(s, now);
        self.refresh_preferred_col(width);
    }

    /// Pastes `text` (taken from a clipboard by the caller): a non-empty
    /// selection is deleted first, then `text` goes in at the caret, which
    /// moves past it.
    pub fn paste(&mut self, text: &str, width: usize, now: u64)
        requires
            old(self).wf(),
        ensures
            final(self).wf(),
            final(self).history_spec().origin() == old(self).history_spec().origin(),
            ({
                let t1 = text_after_sel(old(self).text(), old(self).caret_spec(), old(self).anchor());
                let c1 = caret_after_sel(old(self).caret_spec(), old(self).anchor());
                &&& final(self).text() == with_inserted(t1, c1, text@)
                &&& final(self).caret_spec() == c1 + byte_len(text@)
            }),
            final(self).anchor() is None,
            final(self).is_modified(),
            crate::history::extends(old(self).history_spec(), final(self).history_spec(), old(self).text(), final(self).text(), old(self).caret_spec(), old(self).anchor(), now),
            final(self).preferred_col_spec() == visual_pos_from(final(self).text(), final(self).rows(), final(self).caret_spec(), 0).1,
            is_insert_record(
                final(self).last_record(),
                caret_after_sel(old(self).caret_spec(), old(self).anchor()) as int,
                text@,
                caret_after_sel(old(self).caret_spec(), old(self).anchor()),
                final(self).caret_spec(),
                anchor_after_sel(old(self).caret_spec(), old(self).anchor()),
            ),
    {
        let s = text.to_owned();
        self.insert_str_at_caret(s, now);
        self.refresh_preferred_col(width);
    }

    fn insert_str_at_caret(&mut self, s: String, now: u64)
        requires
            old(self).wf(),
        ensures
            final(self).wf(),
            final(self).history_spec().origin() == old(self).history_spec().origin(),
            ({
                let t1 = text_after_sel(old(self).text(), old(self).caret_spec(), old(self).anchor());
                let c1 = caret_after_sel(old(self).caret_spec(), old(self).anchor());
                &&& final(self).text() == with_inserted(t1, c1, s@)
                &&& final(self).caret_spec() == c1 + byte_len(s@)
            }),
            final(self).anchor() is None,
            final(self).is_modified(),
            crate::history::extends(old(self).history_spec(), final(self).history_spec(), old(self).text(), final(self).text(), old(self).caret_spec(), old(self).anchor(), now),
            is_insert_record(
                final(self).last_record(),
                caret_after_sel(old(self).caret_spec(), old(self).anchor()) as int,
                s@,
                caret_after_sel(old(self).caret_spec(), old(self).anchor()),
                final(self).caret_spec(),
                anchor_after_sel(old(self).caret_spec(), old(self).anchor()),
            ),
    {
        let ghost h0 = self.history;
        let deleted = self.delete_selection(now);
        let ghost h1 = self.history;
        let ghost c1 = self.caret;
        let ghost a1 = self.selection_anchor;
        let ghost t1 = self.buffer@;
        let i = self.buffer.byte_to_char(self.caret);
        let ghost sv = s@;
        let ghost k = sv.len();
        self.insert_chars_at(i, s, i, true, now);
        proof {
            let t2 = self.buffer@;
            assert(t2.take(i as int) =~= t1.take(i as int));
            assert(t2.take(i + k) =~= t1.take(i as int) + sv);
            crate::text::lemma_byte_len_concat(t1.take(i as int), sv);
            if deleted {
                crate::history::lemma_extends_trans(h0, h1, self.history, old(self).buffer@, t1, t2, old(self).caret, old(self).selection_anchor, c1, a1, now);
            }
        }
    }

    /// Sets the preferred column to the caret's visual column in the layout
    /// for `width`.
    fn refresh_preferred_col(&mut self, width: usize)
        requires
            old(self).wf(),
        ensures
            final(self).wf(),
            final(self).text() == old(self).text(),
            final(self).caret_spec() == old(self).caret_spec(),
            final(self).anchor() == old(self).anchor(),
            final(self).history_spec() == old(self).history_spec(),
            final(self).is_modified() == old(self).is_modified(),
            final(self).matches_spec() == old(self).matches_spec(),
            final(self).current_match_spec() == old(self).current_match_spec(),
            final(self).query_spec() == old(self).query_spec(),
            final(self).wrap_spec() == old(self).wrap_spec(),
            final(self).viewport() == old(self).viewport(),
            final(self).preferred_col_spec() == visual_pos_from(final(self).text(), final(self).rows(), final(self).caret_spec(), 0).1,
    {
        let (_, col) = self.get_visual_position(self.caret, width);
        self.preferred_col = col;
    }

    /// Forward delete: a non-empty selection is deleted; otherwise the
    /// character after the caret, if any, is removed.
    pub fn delete(&mut self, width: usize, now: u64)
        requires
            old(self).wf(),
        ensures
            final(self).wf(),
            final(self).history_spec().origin() == old(self).history_spec().origin(),
            ({
                let t = old(self).text();
                let c = old(self).caret_spec();
                let (lo, hi) = sel_bounds(c, old(self).anchor());
                let i = char_index(t, c as int);
                if old(self).anchor() is Some && lo < hi {
                    &&& final(self).text() == without(t, lo, hi)
                    &&& final(self).caret_spec() == lo
                } else if i < t.len() {
                    &&& final(self).text() == t.take(i) + t.skip(i + 1)
                    &&& final(self).caret_spec() == c
                } else {
                    &&& final(self).text() == t
                    &&& final(self).caret_spec() == c
                }
            }),
            ({
                let t = old(self).text();
                let c = old(self).caret_spec();
                let (lo, hi) = sel_bounds(c, old(self).anchor());
                let i = char_index(t, c as int);
                if (old(self).anchor() is Some && lo < hi) || i < t.len() {
                    &&& final(self).anchor() is None
                    &&& final(self).is_modified()
                    &&& crate::history::extends(old(self).history_spec(), final(self).history_spec(), old(self).text(), final(self).text(), old(self).caret_spec(), old(self).anchor(), now)
                } else {
                    &&& final(self).anchor() == old(self).anchor()
                    &&& final(self).history_spec() == old(self).history_spec()
                    &&& final(self).is_modified() == old(self).is_modified()
                }
            }),
            final(self).preferred_col_spec() == visual_pos_from(final(self).text(), final(self).rows(), final(self).caret_spec(), 0).1,
            ({
                let t = old(self).text();
                let c = old(self).caret_spec();
                let (lo, hi) = sel_bounds(c, old(self).anchor());
                let i = char_index(t, c as int);
                if old(self).anchor() is Some && lo < hi {
                    is_delete_record(final(self).last_record(), lo as int, t.subrange(char_index(t, lo as int), char_index(t, hi as int)), c, lo, old(self).anchor())
                } else if i < t.len() {
                    is_delete_record(final(self).last_record(), c as int, seq![t[i]], c, c, old(self).anchor())
                } else {
                    true
                }
            }),
    {
        if self.delete_selection(now) {
            self.refresh_preferred_col(width);
            return ;
        }
        let ghost t0 = self.buffer@;
        let i = self.buffer.byte_to_char(self.caret);
        let len = self.buffer.len_chars();
        if i < len {
            self.remove_chars_at(i, i + 1, i, now);
            proof {
                assert(t0.subrange(i as int, i + 1) =~= seq![t0[i as int]]);
                assert(self.buffer@.take(i as int) =~= t0.take(i as int));
                crate::text::lemma_offset_prefix(self.buffer@, t0, i as int);
            }
        }
        self.refresh_preferred_col(width);
    }

    /// Backspace: a non-empty selection is deleted; otherwise the character
    /// before the caret, if any, is removed and the caret moves back over it.
    pub fn backspace(&mut self, width: usize, now: u64)
        requires
            old(self).wf(),
        ensures
            final(self).wf(),
            final(self).history_spec().origin() == old(self).history_spec().origin(),
            ({
                let t = old(self).text();
                let c = old(self).caret_spec();
                let (lo, hi) = sel_bounds(c, old(self).anchor());
                let i = char_index(t, c as int);
                if old(self).anchor() is Some && lo < hi {
                    &&& final(self).text() == without(t, lo, hi)
                    &&& final(self).caret_spec() == lo
                } else if i > 0 {
                    &&& final(self).text() == t.take(i - 1) + t.skip(i)
                    &&& final(self).caret_spec() == c - utf8_len(t[i - 1])
                } else {
                    &&& final(self).text() == t
                    &&& final(self).caret_spec() == c
                }
            }),
            ({
                let t = old(self).text();
                let c = old(self).caret_spec();
                let (lo, hi) = sel_bounds(c, old(self).anchor());
                let i = char_index(t, c as int);
                if (old(self).anchor() is Some && lo < hi) || i > 0 {
                    &&& final(self).anchor() is None
                    &&& final(self).is_modified()
                    &&& crate::history::extends(old(self).history_spec(), final(self).history_spec(), old(self).text(), final(self).text(), old(self).caret_spec(), old(self).anchor(), now)
                } else {
                    &&& final(self).anchor() == old(self).anchor()
                    &&& final(self).history_spec() == old(self).history_spec()
                    &&& final(self).is_modified() == old(self).is_modified()
                }
            }),
            final(self).preferred_col_spec() == visual_pos_from(final(self).text(), final(self).rows(), final(self).caret_spec(), 0).1,
            ({
                let t = old(self).text();
                let c = old(self).caret_spec();
                let (lo, hi) = sel_bounds(c, old(self).anchor());
                let i = char_index(t, c as int);
                if old(self).anchor() is Some && lo < hi {
                    is_delete_record(final(self).last_record(), lo as int, t.subrange(char_index(t, lo as int), char_index(t, hi as int)), c, lo, old(self).anchor())
                } else if i > 0 {
                    is_delete_record(final(self).last_record(), c - utf8_len(t[i - 1]), seq![t[i - 1]], c, (c - utf8_len(t[i - 1])) as usize, old(self).anchor())
                } else {
                    true
                }
            }),
    {
        if self.delete_selection(now) {
            self.refresh_preferred_col(width);
            return ;
        }
        let ghost t0 = self.buffer@;
        let i = self.buffer.byte_to_char(self.caret);
        if i > 0 {
            self.remove_chars_at(i - 1, i, i - 1, now);
            proof {
                assert(t0.subrange(i - 1, i as int) =~= seq![t0[i - 1]]);
                assert(self.buffer@.take(i - 1) =~= t0.take(i - 1));
                crate::text::lemma_offset_prefix(self.buffer@, t0, i - 1);
                crate::text::lemma_offset_step(t0, i - 1);
            }
        }
        self.refresh_preferred_col(width);
    }

    /// The selected text, for a clipboard; `None` without a non-empty
    /// selection.
    pub fn copy(&self) -> (r: Option<String>)
        requires
            self.wf(),
        ensures
            ({
                let (lo, hi) = sel_bounds(self.caret_spec(), self.anchor());
                if self.anchor() is Some && lo < hi {
                    r matches Some(s) && s@ == self.text().subrange(
                        char_index(self.text(), lo as int),
                        char_index(self.text(), hi as int),
                    )
                } else {
                    r is None
                }
            }),
    {
        match self.get_selection_range() {
            Some((lo, hi)) => {
                if lo < hi {
                    Some(self.buffer.slice(lo, hi))
                } else {
                    None
                }
            },
            None => None,
        }
    }

    /// Removes a non-empty selection and returns its text, for a clipboard;
    /// `None`, and no change, without one.
    pub fn cut(&mut self, now: u64) -> (r: Option<String>)
        requires
            old(self).wf(),
        ensures
            final(self).wf(),
            final(self).history_spec().origin() == old(self).history_spec().origin(),
            ({
                let t = old(self).text();
                let (lo, hi) = sel_bounds(old(self).caret_spec(), old(self).anchor());
                if old(self).anchor() is Some && lo < hi {
                    &&& r matches Some(s) && s@ == t.subrange(
                        char_index(t, lo as int),
                        char_index(t, hi as int),
                    )
                    &&& final(self).text() == without(t, lo, hi)
                    &&& final(self).caret_spec() == lo
                    &&& final(self).anchor() is None
                    &&& final(self).is_modified()
                    &&& crate::history::extends(old(self).history_spec(), final(self).history_spec(), old(self).text(), final(self).text(), old(self).caret_spec(), old(self).anchor(), now)
                } else {
                    &&& r is None
                    &&& final(self).text() == t
                    &&& final(self).caret_spec() == old(self).caret_spec()
                    &&& final(self).anchor() == old(self).anchor()
                    &&& final(self).history_spec() == old(self).history_spec()
                }
            }),
    {
        let r = self.copy();
        if r.is_some() {
            self.delete_selection(now);
        }
        r
    }

    /// Closes the open undo group, so that the next edit starts a new one.
    pub fn finalize_undo_group(&mut self)
        requires
            old(self).wf(),
        ensures
            final(self).wf(),
            final(self).text() == old(self).text(),
            final(self).caret_spec() == old(self).caret_spec(),
            final(self).anchor() == old(self).anchor(),
            final(self).history_spec().undo_groups() == old(self).history_spec().undo_groups(),
            final(self).history_spec().redo_groups() == old(self).history_spec().redo_groups(),
            final(self).history_spec().origin() == old(self).history_spec().origin(),
            !final(self).history_spec().has_open_group(),
    {
        self.history.finalize();
    }

    /// Takes back the latest undo group (closing the open one first): the
    /// text loses the group's operations, and the caret and the selection
    /// anchor go back to where they were before the group's earliest one.
    pub fn undo(&mut self)
        requires
            old(self).wf(),
        ensures
            final(self).wf(),
            final(self).history_spec().origin() == old(self).history_spec().origin(),
            ({
                let gs = old(self).history_spec().undo_groups();
                if gs.len() > 0 {
                    &&& final(self).text() == revert_ops(old(self).text(), gs.last())
                    &&& final(self).caret_spec() == gs.last()[0].1
                    &&& final(self).anchor() == gs.last()[0].3
                    &&& final(self).history_spec().undo_groups() == gs.drop_last()
                    &&& final(self).history_spec().redo_groups()
                        == old(self).history_spec().redo_groups().push(gs.last())
                } else {
                    &&& final(self).text() == old(self).text()
                    &&& final(self).caret_spec() == old(self).caret_spec()
                    &&& final(self).history_spec().undo_groups() == gs
                    &&& final(self).history_spec().redo_groups() == old(self).history_spec().redo_groups()
                }
            }),
            old(self).history_spec().undo_groups().len() == 1 ==> final(self).caret_spec()
                == old(self).history_spec().origin_caret() && final(self).text()
                == old(self).history_spec().origin(),
    {
        match self.history.undo(&mut self.buffer) {
            Some((c, a)) => {
                self.caret = c;
                self.selection_anchor = a;
                self.modified = self.history.can_undo();
                self.after_change();
                proof {
                    if old(self).history.undo_groups().len() == 1 {
                        crate::history::lemma_undone_history_is_origin(&self.history, self.buffer@);
                    }
                }
            },
            None => {},
        }
    }

    /// Applies again the group undone last: the text gets the group's
    /// operations back, the caret goes where it was after the group's latest
    /// one, and the selection is cleared.
    pub fn redo(&mut self)
        requires
            old(self).wf(),
        ensures
            final(self).wf(),
            final(self).history_spec().origin() == old(self).history_spec().origin(),
            ({
                let rs = old(self).history_spec().redo_groups();
                if rs.len() > 0 {
                    &&& final(self).text() == apply_ops(old(self).text(), rs.last())
                    &&& final(self).caret_spec() == rs.last().last().2
                    &&& final(self).anchor() is None
                    &&& final(self).history_spec().undo_groups()
                        == old(self).history_spec().undo_groups().push(rs.last())
                    &&& final(self).history_spec().redo_groups() == rs.drop_last()
                } else {
                    &&& final(self).text() == old(self).text()
                    &&& final(self).caret_spec() == old(self).caret_spec()
                }
            }),
    {
        match self.history.redo(&mut self.buffer) {
            Some(c) => {
                self.caret = c;
                self.selection_anchor = None;
                self.modified = true;
                self.after_change();
            },
            None => {},
        }
    }

    /// Index of the match that `pick_match` chooses.
    fn pick_match_exec(&self, c: usize, strict: bool) -> (r: Option<usize>)
        ensures
            r == pick_match(self.find_matches@, c, strict),
    {
        let n = self.find_matches.len();
        let mut k: usize = 0;
        while k < n
            invariant
                k <= n,
                n == self.find_matches@.len(),
                first_from(self.find_matches@, c, strict, k as int) == first_from(
                    self.find_matches@,
                    c,
                    strict,
                    0,
                ),
            decreases n - k,
        {
            let st = self.find_matches[k].0;
            if st > c || (!strict && st == c) {
                return Some(k);
            }
            k = k + 1;
        }
        if n > 0 {
            Some(0)
        } else {
            None
        }
    }

    /// Finds every non-overlapping occurrence of `query` (left to right;
    /// none for an empty query) and makes current the first match at or
    /// after the caret, else the first one. With `jump`, the caret moves to
    /// the current match's start and the selection is cleared.
    pub fn update_find_matches(&mut self, query: &str, jump: bool)
        requires
            old(self).wf(),
        ensures
            final(self).wf(),
            final(self).text() == old(self).text(),
            final(self).history_spec() == old(self).history_spec(),
            final(self).matches_spec() == match_ranges(old(self).text(), query@),
            final(self).query_spec() == query@,
            query@.len() == 0 ==> final(self).matches_spec().len() == 0
                && final(self).current_match_spec() is None,
            final(self).current_match_spec() == pick_match(
                final(self).matches_spec(),
                old(self).caret_spec(),
                false,
            ),
            jump && final(self).current_match_spec() is Some ==> final(self).caret_spec()
                == final(self).matches_spec()[final(self).current_match_spec()->0 as int].0
                && final(self).anchor() is None,
            !(jump && final(self).current_match_spec() is Some) ==> final(self).caret_spec()
                == old(self).caret_spec() && final(self).anchor() == old(self).anchor(),
    {
        let t = self.buffer.chars();
        let _len = self.buffer.len_bytes();
        let q = str_to_chars(query);
        let offs = byte_offsets(&t);
        let ms = scan_matches(&t, &q, &offs);
        proof {
            let tt = t@;
            let m = q@.len();
            let st = match_starts(tt, q@, 0);
            lemma_match_starts(tt, q@, 0);
            assert forall|k: int| 0 <= k < ms@.len() implies is_boundary(
                tt,
                (#[trigger] ms@[k]).0 as int,
            ) && is_boundary(tt, ms@[k].1 as int) && ms@[k].0 < ms@[k].1 by {
                let a = st[k];
                crate::text::lemma_offset_mono(tt, a, a + m);
                crate::text::lemma_offset_mono(tt, a + m, tt.len() as int);
                crate::text::lemma_offset_full(tt);
                lemma_char_index(tt, a);
                lemma_char_index(tt, a + m);
            }
        }
        self.find_query = query.to_owned();
        proof {
            assert(self.find_query@ == query@);
            if query@.len() == 0 {
                assert(match_starts(t@, q@, 0) =~= Seq::<int>::empty());
            }
        }
        self.find_matches = ms;
        self.current_match_index = self.pick_match_exec(self.caret, false);
        proof {
            let ms2 = self.find_matches@;
            if let Some(k) = self.current_match_index {
                if first_from(ms2, self.caret, false, 0) is Some {
                    lemma_first_from_bound(ms2, self.caret, false, 0);
                }
            }
        }
        if jump {
            self.jump_to_current_match();
        }
    }

    /// Moves the caret to the start of the current match and clears the
    /// selection; nothing happens without a current match.
    pub fn jump_to_current_match(&mut self)
        requires
            old(self).wf(),
        ensures
            final(self).wf(),
            final(self).text() == old(self).text(),
            final(self).history_spec() == old(self).history_spec(),
            final(self).matches_spec() == old(self).matches_spec(),
            final(self).current_match_spec() == old(self).current_match_spec(),
            final(self).query_spec() == old(self).query_spec(),
            old(self).current_match_spec() matches Some(k) ==> final(self).caret_spec()
                == old(self).matches_spec()[k as int].0 && final(self).anchor() is None,
            old(self).current_match_spec() is None ==> final(self).caret_spec()
                == old(self).caret_spec() && final(self).anchor() == old(self).anchor(),
    {
        if let Some(k) = self.current_match_index {
            let (st, _) = self.find_matches[k];
            self.caret = st;
            self.selection_anchor = None;
            self.preferred_col = 0;
        }
    }

    /// Makes the next match current (circularly) and jumps to it.
    pub fn find_next(&mut self)
        requires
            old(self).wf(),
        ensures
            final(self).wf(),
            final(self).text() == old(self).text(),
            final(self).matches_spec() == old(self).matches_spec(),
            old(self).current_match_spec() matches Some(k) ==> {
                let nk = ((k + 1) as int % old(self).matches_spec().len() as int) as usize;
                &&& final(self).current_match_spec() == Some(nk)
                &&& final(self).caret_spec() == old(self).matches_spec()[nk as int].0
                &&& final(self).anchor() is None
            },
            old(self).current_match_spec() is None ==> final(self).current_match_spec() is None
                && final(self).caret_spec() == old(self).caret_spec(),
            old(self).current_match_spec() is None ==> final(self).anchor() == old(self).anchor(),
    {
        if let Some(k) = self.current_match_index {
            let n = self.find_matches.len();
            self.current_match_index = Some((k + 1) % n);
            self.jump_to_current_match();
        }
    }

    /// Makes the previous match current (circularly) and jumps to it.
    pub fn find_previous(&mut self)
        requires
            old(self).wf(),
        ensures
            final(self).wf(),
            final(self).text() == old(self).text(),
            final(self).matches_spec() == old(self).matches_spec(),
            old(self).current_match_spec() matches Some(k) ==> {
                let nk = if k == 0 {
                    (old(self).matches_spec().len() - 1) as usize
                } else {
                    (k - 1) as usize
                };
                &&& final(self).current_match_spec() == Some(nk)
                &&& final(self).caret_spec() == old(self).matches_spec()[nk as int].0
                &&& final(self).anchor() is None
            },
            old(self).current_match_spec() is None ==> final(self).current_match_spec() is None
                && final(self).caret_spec() == old(self).caret_spec(),
            old(self).current_match_spec() is None ==> final(self).anchor() == old(self).anchor(),
    {
        if let Some(k) = self.current_match_index {
            let n = self.find_matches.len();
            self.current_match_index = Some(
                if k == 0 {
                    n - 1
                } else {
                    k - 1
                },
            );
            self.jump_to_current_match();
        }
    }

    /// Drops the matches and the current match.
    pub fn clear_find_matches(&mut self)
        requires
            old(self).wf(),
        ensures
            final(self).wf(),
            final(self).text() == old(self).text(),
            final(self).caret_spec() == old(self).caret_spec(),
            final(self).matches_spec().len() == 0,
            final(self).current_match_spec() is None,
    {
        self.find_matches.clear();
        self.current_match_index = None;
    }

    pub fn find_matches(&self) -> (r: &Vec<(usize, usize)>)
        ensures
            r@ == self.matches_spec(),
    {
        &self.find_matches
    }

    pub fn current_match_index(&self) -> (r: Option<usize>)
        ensures
            r == self.current_match_spec(),
    {
        self.current_match_index
    }

    /// Replaces the current match by `replacement` as one undo unit (a
    /// removal, then one insertion per character), then searches the new
    /// text for the same query and jumps to the first match that starts after
    /// the replacement, else to the first match. Nothing happens without a
    /// current match.
    pub fn replace_current(&mut self, replacement: &str, now: u64)
        requires
            old(self).wf(),
        ensures
            final(self).wf(),
            final(self).history_spec().origin() == old(self).history_spec().origin(),
            old(self).current_match_spec() matches Some(k) ==> {
                let (st, en) = old(self).matches_spec()[k as int];
                let t1 = without(old(self).text(), st, en);
                &&& final(self).text() == with_inserted(t1, st, replacement@)
                &&& final(self).history_spec().undo_groups().len()
                    == old(self).history_spec().undo_groups().len() + 1
                &&& final(self).history_spec().undo_groups().drop_last()
                    == old(self).history_spec().undo_groups()
                &&& final(self).matches_spec() == match_ranges(final(self).text(), old(self).query_spec())
                &&& final(self).current_match_spec() == pick_match(
                    final(self).matches_spec(),
                    (st + byte_len(replacement@)) as usize,
                    true,
                )
                &&& final(self).current_match_spec() matches Some(m) ==> final(self).caret_spec()
                    == final(self).matches_spec()[m as int].0
                &&& final(self).current_match_spec() is None ==> final(self).caret_spec() == st
                    + byte_len(replacement@)
                &&& final(self).anchor() is None
                &&& crate::history::adds_unit(
                    old(self).history_spec(),
                    final(self).history_spec(),
                    old(self).text(),
                    final(self).text(),
                    old(self).caret_spec(),
                    old(self).anchor(),
                )
            },
            old(self).current_match_spec() is None ==> final(self).text() == old(self).text()
                && final(self).caret_spec() == old(self).caret_spec()
                && final(self).anchor() == old(self).anchor()
                && final(self).history_spec() == old(self).history_spec(),
    {
        let k = match self.current_match_index {
            Some(k) => k,
            None => return ,
        };
        let (st, en) = self.find_matches[k];
        self.history.finalize();
        let ghost h0 = self.history;
        let ghost t0 = self.buffer@;
        let i = self.buffer.byte_to_char(st);
        let j = self.buffer.byte_to_char(en);
        proof {
            if j < i {
                crate::text::lemma_offset_mono(t0, j as int, i as int);
            }
        }
        let ghost gs0 = self.history.undo_groups();
        self.replace_chars(i, j, replacement.to_owned(), now);
        proof {
            let t2 = self.buffer@;
            let t1 = without(t0, st, en);
            assert(t1 =~= t0.take(i as int) + t0.skip(j as int));
            assert(t1.take(i as int) =~= t0.take(i as int));
            crate::text::lemma_offset_prefix(t1, t0, i as int);
            lemma_char_index(t1, i as int);
            assert(t2 =~= with_inserted(t1, st, replacement@));
        }
        let ghost t2 = self.buffer@;
        let ghost gs2 = self.history.undo_groups();
        let ghost h1 = self.history;
        self.history.finalize();
        self.history.reset_clock();
        proof {
            crate::history::lemma_unit_from_extends(old(self).history, h0, h1, self.history, t0, t2, old(self).caret, old(self).selection_anchor, now);
        }
        let pos = self.caret;
        let query = self.find_query.clone();
        self.update_find_matches(query.as_str(), false);
        self.current_match_index = self.pick_match_exec(pos, true);
        proof {
            let ms = self.find_matches@;
            if self.current_match_index is Some && first_from(ms, pos, true, 0) is Some {
                lemma_first_from_bound(ms, pos, true, 0);
            }
        }
        self.jump_to_current_match();
        proof {
            assert(self.buffer@ == t2);
            assert(self.history.undo_groups() == gs2);
            assert(gs2.drop_last() == gs0);
        }
    }

    /// Replaces the chars in `i..j` by `r`: a recorded removal, then one
    /// recorded insertion per character of `r`, in the open group when its
    /// last edit was at `now`, else in a new group. The caret ends after `r`.
    fn replace_chars(&mut self, i: usize, j: usize, r: String, now: u64)
        requires
            old(self).wf(),
            i <= j <= old(self).text().len(),
            old(self).history.has_open_group() ==> old(self).history.last_edit() == Some(now),
        ensures
            final(self).wf(),
            final(self).text() == old(self).text().take(i as int) + r@ + old(self).text().skip(j as int),
            final(self).caret_spec() == byte_offset(old(self).text(), i as int) + byte_len(r@),
            final(self).caret_spec() == byte_offset(final(self).text(), i + r@.len()),
            final(self).anchor() is None,
            final(self).find_query == old(self).find_query,
            final(self).history.origin() == old(self).history.origin(),
            final(self).history.has_open_group(),
            final(self).history.last_edit() == Some(now),
            old(self).history.has_open_group() ==> final(self).history.undo_groups().drop_last()
                == old(self).history.undo_groups().drop_last()
                && final(self).history.undo_groups().len() == old(self).history.undo_groups().len(),
            !old(self).history.has_open_group() ==> final(self).history.undo_groups().drop_last()
                == old(self).history.undo_groups()
                && final(self).history.undo_groups().len() == old(self).history.undo_groups().len() + 1,
            crate::history::extends(old(self).history, final(self).history, old(self).buffer@, final(self).buffer@, old(self).caret, old(self).selection_anchor, now),
    {
        let ghost t0 = self.buffer@;
        let ghost gs0 = self.history.undo_groups();
        let ghost h0 = self.history;
        self.remove_chars_at(i, j, i, now);
        let ghost t1 = self.buffer@;
        let ghost gs1 = self.history.undo_groups();
        proof {
            assert(t1.take(i as int) =~= t0.take(i as int));
            crate::text::lemma_offset_prefix(t1, t0, i as int);
        }
        let ghost rv = r@;
        let ghost gs1 = self.history.undo_groups();
        let n = r.as_str().unicode_len();
        let mut k: usize = 0;
        proof {
            assert(t1 =~= t0.take(i as int) + rv.take(0) + t0.skip(j as int));
            assert(t1.take(i as int) =~= t0.take(i as int));
            crate::text::lemma_offset_prefix(t1, t0, i as int);
        }
        while k < n
            invariant
                k <= n,
                n == rv.len(),
                r@ == rv,
                i <= j <= t0.len(),
                self.wf(),
                self.buffer@ == t0.take(i as int) + rv.take(k as int) + t0.skip(j as int),
                self.caret == byte_offset(self.buffer@, i + k),
                self.selection_anchor is None,
                self.find_query == old(self).find_query,
                self.history.origin() == old(self).history.origin(),
                self.history.has_open_group(),
                self.history.last_edit() == Some(now),
                self.history.undo_groups().drop_last() == gs1.drop_last(),
                self.history.undo_groups().len() == gs1.len(),
                crate::history::extends(h0, self.history, t0, self.buffer@, old(self).caret, old(self).selection_anchor, now),
            decreases n - k,
        {
            let ghost cur = self.buffer@;
            let ghost hc = self.history;
            let ghost cc = self.caret;
            let ghost ca = self.selection_anchor;
            let c = r.as_str().get_char(k);
            let cs = char_string(c);
            let len = self.buffer.len_chars();
            self.insert_chars_at(i + k, cs, i + k, true, now);
            proof {
                crate::history::lemma_extends_trans(h0, hc, self.history, t0, cur, self.buffer@, old(self).caret, old(self).selection_anchor, cc, ca, now);
                assert(rv.take(k + 1) =~= rv.take(k as int).push(c));
                assert(self.buffer@ =~= t0.take(i as int) + rv.take(k + 1) + t0.skip(j as int));
            }
            k = k + 1;
        }
        proof {
            let t2 = self.buffer@;
            assert(rv.take(n as int) =~= rv);
            assert(t2 =~= t0.take(i as int) + rv + t0.skip(j as int));
            assert(t2.take(i + rv.len()) =~= t1.take(i as int) + rv);
            crate::text::lemma_byte_len_concat(t1.take(i as int), rv);
        }
    }


    /// Replaces every match of `query` by `replacement`, scanning left to
    /// right and resuming after each replacement, as one undo unit; then
    /// searches the new text for `query`. An empty query changes nothing.
    pub fn replace_all(&mut self, query: &str, replacement: &str, now: u64)
        requires
            old(self).wf(),
        ensures
            final(self).wf(),
            final(self).history_spec().origin() == old(self).history_spec().origin(),
            final(self).text() == replaced_from(old(self).text(), query@, replacement@, 0),
            query@.len() > 0 ==> final(self).matches_spec() == match_ranges(final(self).text(), query@),
            final(self).history_spec().undo_groups().len() >= old(self).history_spec().undo_groups().len(),
            final(self).history_spec().undo_groups().len() <= old(self).history_spec().undo_groups().len() + 1,
            final(self).history_spec().undo_groups().subrange(
                0,
                old(self).history_spec().undo_groups().len() as int,
            ) == old(self).history_spec().undo_groups(),
            query@.len() == 0 ==> final(self).history_spec() == old(self).history_spec()
                && final(self).caret_spec() == old(self).caret_spec()
                && final(self).anchor() == old(self).anchor(),
            query@.len() > 0 && match_starts(old(self).text(), query@, 0).len() > 0
                ==> crate::history::adds_unit(
                old(self).history_spec(),
                final(self).history_spec(),
                old(self).text(),
                final(self).text(),
                old(self).caret_spec(),
                old(self).anchor(),
            ),
            query@.len() > 0 && match_starts(old(self).text(), query@, 0).len() == 0
                ==> final(self).history_spec().undo_groups() == old(self).history_spec().undo_groups()
                && final(self).caret_spec() == old(self).caret_spec()
                && final(self).anchor() == old(self).anchor(),
    {
        let ghost t0 = self.buffer@;
        let q = str_to_chars(query);
        let m = q.len();
        if m == 0 {
            proof {
                assert(t0.skip(0) =~= t0);
                assert(old(self).history.undo_groups().subrange(0, old(self).history.undo_groups().len() as int) =~= old(self).history.undo_groups());
            }
            return ;
        }
        self.history.finalize();
        let ghost gs0 = self.history.undo_groups();
        let ghost h0 = self.history;
        let r = replacement.to_owned();
        let ghost rv = r@;
        let rlen = replacement.unicode_len();
        let mut pos: usize = 0;
        let ghost mut j: int = 0;
        let mut replaced = false;
        proof {
            assert(self.buffer@.take(0) + replaced_from(t0, q@, rv, 0) =~= replaced_from(t0, q@, rv, 0));
            assert(self.buffer@.skip(0) =~= t0.skip(0));
        }
        loop
            invariant_except_break
                self.wf(),
                self.history.origin() == old(self).history.origin(),
                m == q@.len(),
                m > 0,
                rlen == rv.len(),
                r@ == rv,
                rv == replacement@,
                0 <= j <= t0.len(),
                pos <= self.buffer@.len(),
                self.buffer@.skip(pos as int) == t0.skip(j),
                self.buffer@.take(pos as int) + replaced_from(t0, q@, rv, j) == replaced_from(t0, q@, rv, 0),
                replaced ==> self.history.has_open_group() && self.history.last_edit() == Some(now)
                    && self.history.undo_groups().drop_last() == gs0
                    && self.history.undo_groups().len() == gs0.len() + 1,
                !replaced ==> !self.history.has_open_group() && self.history.undo_groups() == gs0,
                gs0 == old(self).history.undo_groups(),
                replaced ==> crate::history::extends(h0, self.history, t0, self.buffer@, old(self).caret, old(self).selection_anchor, now),
                replaced ==> match_starts(t0, q@, 0).len() > 0,
                !replaced ==> self.history == h0 && self.buffer@ == t0 && pos == 0 && j == 0
                    && self.caret == old(self).caret && self.selection_anchor == old(self).selection_anchor,
            ensures
                self.wf(),
                self.history.origin() == old(self).history.origin(),
                self.buffer@ == replaced_from(t0, q@, rv, 0),
                replaced ==> self.history.undo_groups().drop_last() == gs0
                    && self.history.undo_groups().len() == gs0.len() + 1,
                !replaced ==> self.history.undo_groups() == gs0,
                gs0 == old(self).history.undo_groups(),
                replaced ==> crate::history::extends(h0, self.history, t0, self.buffer@, old(self).caret, old(self).selection_anchor, now),
                replaced == (match_starts(t0, q@, 0).len() > 0),
                !replaced ==> self.history == h0 && self.caret == old(self).caret
                    && self.selection_anchor == old(self).selection_anchor,
            decreases self.buffer@.len() - pos,
        {
            let t = self.buffer.chars();
            let ghost bt = self.buffer@;
            let found = find_from(&t, &q, pos);
            let p = match found {
                None => {
                    proof {
                        assert forall|d: int| j <= d < t0.len() implies !occurs_at(t0, q@, d) by {
                            lemma_occurs_shift(bt, t0, q@, pos as int, j, pos + (d - j));
                        }
                        lemma_replaced_skip(t0, q@, rv, j, t0.len() as int);
                        if !replaced {
                            crate::find::lemma_no_match(t0, q@, 0);
                        }
                        assert(replaced_from(t0, q@, rv, t0.len() as int) =~= Seq::<char>::empty());
                        assert(t0.subrange(j, t0.len() as int) =~= t0.skip(j));
                        assert(bt.take(pos as int) + bt.skip(pos as int) =~= bt);
                    }
                    break ;
                },
                Some(p) => p,
            };
            let ghost x = j + (p - pos);
            proof {
                lemma_occurs_shift(bt, t0, q@, pos as int, j, p as int);
                assert forall|d: int| j <= d < x implies !occurs_at(t0, q@, d) by {
                    lemma_occurs_shift(bt, t0, q@, pos as int, j, pos + (d - j));
                }
                lemma_replaced_skip(t0, q@, rv, j, x);
                assert(replaced_from(t0, q@, rv, x) == rv + replaced_from(t0, q@, rv, x + m));
                assert(t0.subrange(j, x) =~= bt.subrange(pos as int, p as int)) by {
                    assert forall|d: int| 0 <= d < x - j implies #[trigger] t0.subrange(j, x)[d] == bt.subrange(pos as int, p as int)[d] by {
                        assert(bt.skip(pos as int)[d] == t0.skip(j)[d]);
                    }
                }
            }
            let i = p;
            proof {
                assert(t@ == bt);
                assert(occurs_at(bt, q@, p as int));
                assert(p + m <= t@.len());
            }
            let tl = t.len();
            proof {
                assert(i + m <= tl);
            }
            proof {
                if !replaced {
                    crate::find::lemma_some_match(t0, q@, 0, p as int);
                }
            }
            let ghost hp = self.history;
            let ghost cp = self.caret;
            let ghost ap = self.selection_anchor;
            self.replace_chars(i, i + m, r.clone(), now);
            proof {
                if replaced {
                    crate::history::lemma_extends_trans(h0, hp, self.history, t0, bt, self.buffer@, old(self).caret, old(self).selection_anchor, cp, ap, now);
                }
            }
            proof {
                let nt = self.buffer@;
                assert(nt == bt.take(i as int) + rv + bt.skip(i + m));
                assert(nt.skip(i + rlen) =~= bt.skip(i + m));
                assert(bt.skip(pos as int).len() == bt.len() - pos);
                assert(t0.skip(j).len() == t0.len() - j);
                assert(bt.skip(i + m) =~= t0.skip(x + m)) by {
                    assert forall|d: int| 0 <= d < bt.skip(i + m).len() implies #[trigger] bt.skip(i + m)[d] == t0.skip(x + m)[d] by {
                        assert(bt.skip(pos as int)[i + m - pos + d] == bt[i + m + d]);
                        assert(t0.skip(j)[i + m - pos + d] == t0[x + m + d]);
                    }
                }
                assert(nt.take(i + rlen) =~= bt.take(pos as int) + bt.subrange(pos as int, i as int) + rv);
                assert(nt.take(i + rlen) + replaced_from(t0, q@, rv, x + m) =~= bt.take(pos as int) + bt.subrange(pos as int, i as int) + replaced_from(t0, q@, rv, x));
            }
            let nlen = self.buffer.len_chars();
            proof {
                assert(i + rlen <= nlen);
            }
            pos = i + rlen;
            proof {
                j = x + m;
            }
            replaced = true;
        }
        let ghost h1 = self.history;
        let ghost t1 = self.buffer@;
        self.history.finalize();
        self.history.reset_clock();
        proof {
            if replaced {
                crate::history::lemma_unit_from_extends(old(self).history, h0, h1, self.history, t0, t1, old(self).caret, old(self).selection_anchor, now);
            }
        }
        self.update_find_matches(query, false);
        proof {
            let gs = self.history.undo_groups();
            if replaced {
                assert(gs.subrange(0, gs0.len() as int) =~= gs.drop_last());
            } else {
                assert(gs.subrange(0, gs0.len() as int) =~= gs0);
            }
        }
    }

    pub fn word_wrap(&self) -> (r: bool)
        ensures
            r == self.wrap_spec(),
    {
        self.word_wrap
    }

    /// Turns word wrap on or off; the layout is rebuilt on its next use.
    pub fn set_word_wrap(&mut self, on: bool)
        requires
            old(self).wf(),
        ensures
            final(self).wf(),
            final(self).wrap_spec() == on,
            final(self).text() == old(self).text(),
            final(self).caret_spec() == old(self).caret_spec(),
            final(self).anchor() == old(self).anchor(),
            !final(self).layout_valid(),
    {
        self.word_wrap = on;
        self.visual_lines_valid = false;
    }

    /// Marks the layout as stale.
    pub fn invalidate_visual_lines(&mut self)
        requires
            old(self).wf(),
        ensures
            final(self).wf(),
            final(self).same_doc(old(self)),
            final(self).viewport() == old(self).viewport(),
            !final(self).layout_valid(),
    {
        self.visual_lines_valid = false;
    }

    /// Lays the text out afresh for a viewport `width` columns wide.
    pub fn rebuild_visual_lines(&mut self, width: usize)
        requires
            old(self).wf(),
        ensures
            final(self).wf(),
            final(self).same_doc(old(self)),
            final(self).viewport() == old(self).viewport(),
            final(self).layout_valid(),
            final(self).layout_width() == width,
            layout_ok(final(self).text(), final(self).rows(), width, final(self).wrap_spec()),
            final(self).rows() == rows_from(final(self).text(), 0, 0, width, final(self).wrap_spec()),
    {
        let t = self.buffer.chars();
        let _n = self.buffer.len_bytes();
        self.visual_lines = build_rows(&t, width, self.word_wrap);
        self.layout_width = width;
        self.visual_lines_valid = true;
    }

    /// Rebuilds the layout unless it is valid for `width` already.
    pub fn ensure_visual_lines(&mut self, width: usize)
        requires
            old(self).wf(),
        ensures
            final(self).wf(),
            final(self).same_doc(old(self)),
            final(self).viewport() == old(self).viewport(),
            final(self).layout_valid(),
            final(self).layout_width() == width,
            layout_ok(final(self).text(), final(self).rows(), width, final(self).wrap_spec()),
            final(self).rows() == rows_from(final(self).text(), 0, 0, width, final(self).wrap_spec()),
            old(self).layout_valid() && old(self).layout_width() == width ==> final(self).rows()
                == old(self).rows(),
    {
        if !self.visual_lines_valid || self.layout_width != width {
            self.rebuild_visual_lines(width);
        }
    }

    /// Number of visual rows, virtual ones included, of the layout for
    /// `width`.
    pub fn visual_line_count(&mut self, width: usize) -> (r: usize)
        requires
            old(self).wf(),
        ensures
            final(self).wf(),
            final(self).same_doc(old(self)),
            final(self).viewport() == old(self).viewport(),
            r == sat(final(self).rows().len() + 4int),
    {
        self.ensure_visual_lines(width);
        self.visual_lines.len().saturating_add(2 * VIRTUAL_LINES)
    }

    /// The content of visual row `row` of the current layout; `None` for a
    /// virtual row, past the end, or without a valid layout.
    pub fn visual_line(&self, row: usize) -> (r: Option<VisualLine>)
        ensures
            self.layout_valid() && row >= 2 && row - 2 < self.rows().len() ==> r == Some(
                self.rows()[row - 2],
            ),
            !(self.layout_valid() && row >= 2 && row - 2 < self.rows().len()) ==> r is None,
    {
        if self.visual_lines_valid && row >= VIRTUAL_LINES && row - VIRTUAL_LINES
            < self.visual_lines.len() {
            Some(self.visual_lines[row - VIRTUAL_LINES])
        } else {
            None
        }
    }

    /// Display columns of the chars in `i..j`, saturating.
    fn columns_between(&self, i: usize, j: usize) -> (r: usize)
        requires
            i <= j <= self.buffer@.len(),
        ensures
            r == sat(columns(self.buffer@.subrange(i as int, j as int)) as int),
    {
        let mut c = i;
        let mut acc: usize = 0;
        proof {
            assert(self.buffer@.subrange(i as int, i as int) =~= Seq::<char>::empty());
        }
        while c < j
            invariant
                i <= c <= j,
                j <= self.buffer@.len(),
                acc == sat(columns(self.buffer@.subrange(i as int, c as int)) as int),
            decreases j - c,
        {
            let ch = self.buffer.char_at(c);
            let cw = char_width(ch);
            proof {
                assert(self.buffer@.subrange(i as int, c + 1) =~= self.buffer@.subrange(i as int, c as int).push(ch));
                crate::layout::lemma_columns_push(self.buffer@.subrange(i as int, c as int), ch);
            }
            acc = acc.saturating_add(cw);
            c = c + 1;
        }
        acc
    }

    /// The visual (row, column) of byte offset `b` in the layout for
    /// `width` (see `visual_pos_from`).
    pub fn get_visual_position(&mut self, b: usize, width: usize) -> (r: (usize, usize))
        requires
            old(self).wf(),
            is_boundary(old(self).text(), b as int),
        ensures
            final(self).wf(),
            final(self).same_doc(old(self)),
            final(self).viewport() == old(self).viewport(),
            final(self).layout_valid(),
            final(self).layout_width() == width,
            old(self).layout_valid() && old(self).layout_width() == width ==> final(self).rows()
                == old(self).rows(),
            r == visual_pos_from(final(self).text(), final(self).rows(), b, 0),
    {
        self.ensure_visual_lines(width);
        let n = self.visual_lines.len();
        let ghost t = self.buffer@;
        let ghost rows = self.visual_lines@;
        proof {
            crate::layout::lemma_layout_rows(t, rows, width, self.word_wrap);
        }
        let mut k: usize = 0;
        while k < n
            invariant
                k <= n,
                n == rows.len(),
                rows == self.visual_lines@,
                t == self.buffer@,
                forall|j: int| 0 <= j < n ==> row_ok(t, #[trigger] rows[j]),
                is_boundary(t, b as int),
                self.wf(),
                self.same_doc(old(self)),
                self.visual_lines_valid,
                self.layout_width == width,
                self.viewport_offset == old(self).viewport_offset,
                old(self).visual_lines_valid && old(self).layout_width == width ==> rows
                    == old(self).visual_lines@,
                visual_pos_from(t, rows, b, k as int) == visual_pos_from(t, rows, b, 0),
            decreases n - k,
        {
            let vl = self.visual_lines[k];
            if b == vl.end_byte && k + 1 < n {
                let nx = self.visual_lines[k + 1];
                if nx.is_continuation && nx.start_byte == vl.end_byte {
                    return ((k + 1).saturating_add(VIRTUAL_LINES), nx.indent);
                }
            }
            if vl.start_byte <= b && b <= vl.end_byte {
                let ci = self.buffer.byte_to_char(b);
                proof {
                    assert(rows[k as int] == vl);
                    if ci < vl.start_char {
                        crate::text::lemma_offset_mono(t, ci as int + 1, vl.start_char as int);
                        crate::text::lemma_offset_step(t, ci as int);
                    }
                }
                let cols = self.columns_between(vl.start_char, ci);
                return (k.saturating_add(VIRTUAL_LINES), vl.indent.saturating_add(cols));
            }
            k = k + 1;
        }
        ((n - 1).saturating_add(VIRTUAL_LINES), 0)
    }

    /// The byte offset that visual row `row`, column `col` stands for in the
    /// layout for `width` (see `byte_at_visual`); always a boundary.
    pub fn visual_to_byte(&mut self, row: usize, col: usize, width: usize) -> (r: usize)
        requires
            old(self).wf(),
        ensures
            final(self).wf(),
            final(self).same_doc(old(self)),
            final(self).viewport() == old(self).viewport(),
            final(self).layout_valid(),
            final(self).layout_width() == width,
            old(self).layout_valid() && old(self).layout_width() == width ==> final(self).rows()
                == old(self).rows(),
            r == byte_at_visual(final(self).text(), final(self).rows(), row, col),
            is_boundary(final(self).text(), r as int),
    {
        self.ensure_visual_lines(width);
        let ghost t = self.buffer@;
        if row >= VIRTUAL_LINES && row - VIRTUAL_LINES < self.visual_lines.len() {
            let vl = self.visual_lines[row - VIRTUAL_LINES];
            proof {
                crate::layout::lemma_layout_rows(t, self.visual_lines@, width, self.word_wrap);
                assert(row_ok(t, self.visual_lines@[row - 2]));
                crate::text::lemma_char_index(t, vl.start_char as int);
            }
            if vl.is_continuation && col < vl.indent {
                return vl.start_byte;
            }
            let adj = if col >= vl.indent {
                col - vl.indent
            } else {
                0
            };
            let mut i = vl.start_char;
            let mut w: usize = 0;
            let ghost mut wn: nat = 0;
            while i < vl.end_char && w < adj
                invariant
                    vl.start_char <= i <= vl.end_char,
                    vl.end_char <= t.len(),
                    t == self.buffer@,
                    w == sat(wn as int),
                    walk_to_column(t, i as int, vl.end_char as int, wn, adj as nat) == walk_to_column(
                        t,
                        vl.start_char as int,
                        vl.end_char as int,
                        0,
                        adj as nat,
                    ),
                decreases vl.end_char - i,
            {
                let ch = self.buffer.char_at(i);
                let cw = char_width(ch);
                w = w.saturating_add(cw);
                proof {
                    wn = wn + char_columns(ch);
                }
                i = i + 1;
            }
            proof {
                lemma_walk_boundary(t, vl, adj as nat);
            }
            self.buffer.char_to_byte(i)
        } else {
            let r = self.buffer.len_bytes();
            proof {
                crate::text::lemma_offset_full(t);
                crate::text::lemma_char_index(t, t.len() as int);
            }
            r
        }
    }

    /// Starts, keeps or clears the selection before a motion.
    fn anchor_for_motion(&mut self, extend: bool)
        requires
            old(self).wf(),
        ensures
            final(self).wf(),
            final(self).buffer == old(self).buffer,
            final(self).caret == old(self).caret,
            final(self).history == old(self).history,
            final(self).visual_lines@ == old(self).visual_lines@,
            final(self).visual_lines_valid == old(self).visual_lines_valid,
            final(self).layout_width == old(self).layout_width,
            final(self).word_wrap == old(self).word_wrap,
            final(self).preferred_col == old(self).preferred_col,
            final(self).selection_anchor == anchor_after_motion(
                old(self).caret,
                old(self).selection_anchor,
                extend,
            ),
    {
        if extend {
            if self.selection_anchor.is_none() {
                self.selection_anchor = Some(self.caret);
            }
        } else {
            self.selection_anchor = None;
        }
    }

    /// Moves the caret one visual row up, to the preferred column; from the
    /// first row it goes to the start of the text.
    pub fn move_up(&mut self, width: usize, extend: bool)
        requires
            old(self).wf(),
        ensures
            final(self).wf(),
            final(self).text() == old(self).text(),
            final(self).history_spec() == old(self).history_spec(),
            final(self).anchor() == anchor_after_motion(old(self).caret_spec(), old(self).anchor(), extend),
            final(self).layout_valid() && final(self).layout_width() == width,
            final(self).preferred_col_spec() == old(self).preferred_col_spec(),
            ({
                let t = old(self).text();
                let rows = final(self).rows();
                let row = visual_pos_from(t, rows, old(self).caret_spec(), 0).0;
                final(self).caret_spec() == if row > 2 {
                    byte_at_visual(t, rows, (row - 1) as usize, old(self).preferred_col_spec())
                } else if row == 2 && byte_len(t) > 0 {
                    0
                } else {
                    old(self).caret_spec()
                }
            }),
    {
        self.anchor_for_motion(extend);
        let (row, _) = self.get_visual_position(self.caret, width);
        if row > VIRTUAL_LINES {
            self.caret = self.visual_to_byte(row - 1, self.preferred_col, width);
        } else if row == VIRTUAL_LINES && self.buffer.len_bytes() > 0 {
            proof {
                assert(self.buffer@.take(0) =~= Seq::<char>::empty());
                lemma_char_index(self.buffer@, 0);
            }
            self.caret = 0;
        }
    }

    /// Moves the caret one visual row down, to the preferred column; from a
    /// virtual row above the text it goes to the start of the text.
    pub fn move_down(&mut self, width: usize, extend: bool)
        requires
            old(self).wf(),
        ensures
            final(self).wf(),
            final(self).text() == old(self).text(),
            final(self).history_spec() == old(self).history_spec(),
            final(self).anchor() == anchor_after_motion(old(self).caret_spec(), old(self).anchor(), extend),
            final(self).layout_valid() && final(self).layout_width() == width,
            !(visual_pos_from(old(self).text(), final(self).rows(), old(self).caret_spec(), 0).0 < 2
                && byte_len(old(self).text()) > 0) ==> final(self).preferred_col_spec()
                == old(self).preferred_col_spec(),
            ({
                let t = old(self).text();
                let rows = final(self).rows();
                let row = visual_pos_from(t, rows, old(self).caret_spec(), 0).0;
                final(self).caret_spec() == if row < 2 && byte_len(t) > 0 {
                    0
                } else if row < vrow(rows.len() - 1) {
                    byte_at_visual(t, rows, (row + 1) as usize, old(self).preferred_col_spec())
                } else {
                    old(self).caret_spec()
                }
            }),
    {
        self.anchor_for_motion(extend);
        let (row, _) = self.get_visual_position(self.caret, width);
        proof {
            crate::layout::lemma_layout_rows(self.buffer@, self.visual_lines@, width, self.word_wrap);
        }
        let last_content_row = (self.visual_lines.len() - 1).saturating_add(VIRTUAL_LINES);
        if row < VIRTUAL_LINES && self.buffer.len_bytes() > 0 {
            proof {
                assert(self.buffer@.take(0) =~= Seq::<char>::empty());
                lemma_char_index(self.buffer@, 0);
            }
            self.caret = 0;
            let (_, col) = self.get_visual_position(self.caret, width);
            self.preferred_col = col;
        } else if row < last_content_row {
            self.caret = self.visual_to_byte(row + 1, self.preferred_col, width);
        }
    }

    /// Moves the caret one character left. Without `extend`, a selection
    /// collapses to its start instead. The preferred column follows the
    /// caret.
    pub fn move_left(&mut self, width: usize, extend: bool)
        requires
            old(self).wf(),
        ensures
            final(self).wf(),
            final(self).text() == old(self).text(),
            final(self).history_spec() == old(self).history_spec(),
            ({
                let t = old(self).text();
                let c = old(self).caret_spec();
                let i = char_index(t, c as int);
                if !extend && old(self).anchor() is Some {
                    &&& final(self).caret_spec() == sel_bounds(c, old(self).anchor()).0
                    &&& final(self).anchor() is None
                } else {
                    &&& final(self).anchor() == anchor_after_motion(c, old(self).anchor(), extend)
                    &&& final(self).caret_spec() == if i > 0 {
                        byte_offset(t, i - 1) as usize
                    } else {
                        c
                    }
                }
            }),
            final(self).caret_spec() != old(self).caret_spec() || (!extend && old(self).anchor() is Some)
                ==> final(self).preferred_col_spec() == visual_pos_from(
                final(self).text(),
                final(self).rows(),
                final(self).caret_spec(),
                0,
            ).1,
    {
        if !extend && self.selection_anchor.is_some() {
            let (lo, _) = self.get_selection_range().unwrap();
            self.caret = lo;
            self.selection_anchor = None;
            let (_, col) = self.get_visual_position(self.caret, width);
            self.preferred_col = col;
            return ;
        }
        self.anchor_for_motion(extend);
        let i = self.buffer.byte_to_char(self.caret);
        if i > 0 {
            self.caret = self.buffer.char_to_byte(i - 1);
            proof {
                lemma_char_index(self.buffer@, i - 1);
            }
            let (_, col) = self.get_visual_position(self.caret, width);
            self.preferred_col = col;
        }
    }

    /// Moves the caret one character right. Without `extend`, a selection
    /// collapses to its end instead. The preferred column follows the caret.
    pub fn move_right(&mut self, width: usize, extend: bool)
        requires
            old(self).wf(),
        ensures
            final(self).wf(),
            final(self).text() == old(self).text(),
            final(self).history_spec() == old(self).history_spec(),
            ({
                let t = old(self).text();
                let c = old(self).caret_spec();
                let i = char_index(t, c as int);
                if !extend && old(self).anchor() is Some {
                    &&& final(self).caret_spec() == sel_bounds(c, old(self).anchor()).1
                    &&& final(self).anchor() is None
                } else {
                    &&& final(self).anchor() == anchor_after_motion(c, old(self).anchor(), extend)
                    &&& final(self).caret_spec() == if i < t.len() {
                        byte_offset(t, i + 1) as usize
                    } else {
                        c
                    }
                }
            }),
            final(self).caret_spec() != old(self).caret_spec() || (!extend && old(self).anchor() is Some)
                ==> final(self).preferred_col_spec() == visual_pos_from(
                final(self).text(),
                final(self).rows(),
                final(self).caret_spec(),
                0,
            ).1,
    {
        if !extend && self.selection_anchor.is_some() {
            let (_, hi) = self.get_selection_range().unwrap();
            self.caret = hi;
            self.selection_anchor = None;
            let (_, col) = self.get_visual_position(self.caret, width);
            self.preferred_col = col;
            return ;
        }
        self.anchor_for_motion(extend);
        let i = self.buffer.byte_to_char(self.caret);
        let n = self.buffer.len_chars();
        if i < n {
            self.caret = self.buffer.char_to_byte(i + 1);
            proof {
                lemma_char_index(self.buffer@, i + 1);
            }
            let (_, col) = self.get_visual_position(self.caret, width);
            self.preferred_col = col;
        }
    }

    /// The caret's logical line and character column, both 1-based
    /// (saturating).
    pub fn get_position(&self) -> (r: (usize, usize))
        requires
            self.wf(),
        ensures
            ({
                let t = self.text();
                let i = char_index(t, self.caret_spec() as int);
                r == (sat(newlines(t.take(i)) + 1int), sat(i - line_start(t, i) + 1))
            }),
    {
        let ghost t = self.buffer@;
        let i = self.buffer.byte_to_char(self.caret);
        let line = self.buffer.char_to_line(i);
        proof {
            crate::buffer::lemma_newlines_mono(t, i as int, t.len() as int);
            assert(t.take(t.len() as int) =~= t);
        }
        let ls = self.buffer.line_to_char(line);
        proof {
            if ls > i {
                assert(t[ls - 1] == '\n');
                crate::buffer::lemma_newlines_mono(t, i as int, ls as int);
            }
            assert forall|k: int| ls <= k < i implies t[k] != '\n' by {
                if t[k] == '\n' {
                    crate::buffer::lemma_newlines_mono(t, ls as int, i as int);
                }
            }
            crate::buffer::lemma_line_start(t, i as int, ls as int);
        }
        (line.saturating_add(1), (i - ls).saturating_add(1))
    }

    pub fn viewport_offset(&self) -> (r: (usize, usize))
        ensures
            r == self.viewport(),
    {
        self.viewport_offset
    }

    /// Scrolls the viewport (`height` rows by `width` columns) so that the
    /// caret stays `SCROLLOFF` rows (and, without word wrap, columns) away
    /// from its edges; with word wrap there is no horizontal scroll.
    pub fn update_viewport(&mut self, height: usize, width: usize)
        requires
            old(self).wf(),
            height > SCROLLOFF,
            !old(self).wrap_spec() ==> width > SCROLLOFF,
        ensures
            final(self).wf(),
            final(self).same_doc(old(self)),
            ({
                let p = visual_pos_from(final(self).text(), final(self).rows(), old(self).caret_spec(), 0);
                &&& final(self).viewport().0 == scroll_axis(old(self).viewport().0, p.0, height)
                &&& final(self).viewport().1 == if old(self).wrap_spec() {
                    0
                } else {
                    scroll_axis(old(self).viewport().1, p.1, width)
                }
            }),
    {
        let (row, col) = self.get_visual_position(self.caret, width);
        self.viewport_offset.0 = scroll_to(self.viewport_offset.0, row, height);
        if !self.word_wrap {
            self.viewport_offset.1 = scroll_to(self.viewport_offset.1, col, width);
        } else {
            self.viewport_offset.1 = 0;
        }
    }

    /// A click at terminal cell (`col`, `row`) of a text area whose top-left
    /// cell is (`area_x`, `area_y`): on a content row the caret goes to the
    /// clicked position (a click in a continuation's indent goes to the
    /// row's start); with `shift` the selection extends, else it is cleared.
    pub fn handle_click(
        &mut self,
        col: u16,
        row: u16,
        area_x: u16,
        area_y: u16,
        width: usize,
        shift: bool,
    )
        requires
            old(self).wf(),
        ensures
            final(self).wf(),
            final(self).text() == old(self).text(),
            final(self).history_spec() == old(self).history_spec(),
            ({
                let rows = final(self).rows();
                let click_row = sat(old(self).viewport().0 + (if row >= area_y { row - area_y } else { 0 }));
                let click_col = sat(old(self).viewport().1 + (if col >= area_x { col - area_x } else { 0 }));
                if click_row >= 2 && click_row - 2 < rows.len() {
                    let vl = rows[click_row - 2];
                    let actual = if vl.is_continuation && click_col < vl.indent { vl.indent } else { click_col };
                    &&& final(self).caret_spec() == byte_at_visual(final(self).text(), rows, click_row, actual)
                    &&& final(self).anchor() == if shift {
                        anchor_after_motion(old(self).caret_spec(), old(self).anchor(), true)
                    } else {
                        None
                    }
                    &&& final(self).preferred_col_spec() == actual
                } else {
                    &&& final(self).caret_spec() == old(self).caret_spec()
                    &&& final(self).anchor() == old(self).anchor()
                }
            }),
    {
        self.ensure_visual_lines(width);
        let dy: usize = if row >= area_y {
            (row - area_y) as usize
        } else {
            0
        };
        let dx: usize = if col >= area_x {
            (col - area_x) as usize
        } else {
            0
        };
        let click_row = self.viewport_offset.0.saturating_add(dy);
        let click_col = self.viewport_offset.1.saturating_add(dx);
        if click_row >= VIRTUAL_LINES && click_row - VIRTUAL_LINES < self.visual_lines.len() {
            let vl = self.visual_lines[click_row - VIRTUAL_LINES];
            let actual = if vl.is_continuation && click_col < vl.indent {
                vl.indent
            } else {
                click_col
            };
            let new_pos = self.visual_to_byte(click_row, actual, width);
            if shift {
                if self.selection_anchor.is_none() {
                    self.selection_anchor = Some(self.caret);
                }
            } else {
                self.selection_anchor = None;
            }
            self.caret = new_pos;
            self.preferred_col = actual;
        }
    }

    /// Four spaces, as a string.
    fn indent_string() -> (s: String)
        ensures
            s@ == indent_unit(),
    {
        let s = "    ".to_owned();
        proof {
            reveal_strlit("    ");
            assert(s@ =~= indent_unit());
        }
        s
    }

    /// Char index where the logical line `line` of the text starts.
    fn line_start_char(&self, line: usize) -> (p: usize)
        requires
            line <= newlines(self.buffer@),
        ensures
            p <= self.buffer@.len(),
            newlines(self.buffer@.take(p as int)) == line,
            p == 0 || self.buffer@[p - 1] == '\n',
    {
        self.buffer.line_to_char(line)
    }

    /// Logical line of the char index `i`, and where that line starts.
    fn line_of_char(&self, i: usize) -> (r: (usize, usize))
        requires
            i <= self.buffer@.len(),
        ensures
            r.0 == newlines(self.buffer@.take(i as int)),
            r.0 <= newlines(self.buffer@),
            r.1 == line_start(self.buffer@, i as int),
            r.1 <= i,
            r.1 == 0 || self.buffer@[r.1 - 1] == '\n',
            newlines(self.buffer@.take(r.1 as int)) == r.0,
    {
        let ghost t = self.buffer@;
        let line = self.buffer.char_to_line(i);
        proof {
            crate::buffer::lemma_newlines_mono(t, i as int, t.len() as int);
            assert(t.take(t.len() as int) =~= t);
        }
        let ls = self.buffer.line_to_char(line);
        proof {
            if ls > i {
                assert(t[ls - 1] == '\n');
                crate::buffer::lemma_newlines_mono(t, i as int, ls as int);
            }
            assert forall|k: int| ls <= k < i implies t[k] != '\n' by {
                if t[k] == '\n' {
                    crate::buffer::lemma_newlines_mono(t, ls as int, i as int);
                }
            }
            crate::buffer::lemma_line_start(t, i as int, ls as int);
        }
        (line, ls)
    }

    /// Inserts four spaces at the start of the caret's line, or of every
    /// line that the selection touches, as one undo unit; the caret and the
    /// anchor move with the text after them.
    #[verifier::rlimit(100)]
    pub fn indent(&mut self, width: usize, now: u64)
        requires
            old(self).wf(),
        ensures
            final(self).wf(),
            final(self).history_spec().origin() == old(self).history_spec().origin(),
            newlines(final(self).text()) == newlines(old(self).text()),
            final(self).history_spec().undo_groups().drop_last() == old(self).history_spec().undo_groups(),
            final(self).history_spec().undo_groups().len() == old(self).history_spec().undo_groups().len() + 1,
            old(self).anchor() is None ==> {
                let t = old(self).text();
                let ls = line_start(t, char_index(t, old(self).caret_spec() as int));
                &&& final(self).text() == t.take(ls) + indent_unit() + t.skip(ls)
                &&& final(self).caret_spec() == old(self).caret_spec() + 4
                &&& final(self).anchor() is None
            },
            old(self).anchor() is Some ==> {
                let t = old(self).text();
                let (lo, hi) = sel_bounds(old(self).caret_spec(), old(self).anchor());
                let ls = line_start(t, char_index(t, lo as int));
                let h = char_index(t, hi as int);
                let sl = newlines(t.take(char_index(t, lo as int)));
                let el = newlines(t.take(h));
                let a = old(self).anchor()->0;
                &&& final(self).text() == t.take(ls) + indent_unit() + pad_after_newlines(t.subrange(ls, h)) + t.skip(h)
                &&& final(self).caret_spec() == byte_offset(final(self).text(), indent_pos(t, el as int, sl as int, char_index(t, old(self).caret_spec() as int)))
                &&& final(self).anchor() == Some(byte_offset(final(self).text(), indent_pos(t, el as int, sl as int, char_index(t, a as int))) as usize)
            },
            crate::history::adds_unit(
                old(self).history_spec(),
                final(self).history_spec(),
                old(self).text(),
                final(self).text(),
                old(self).caret_spec(),
                old(self).anchor(),
            ),
            final(self).preferred_col_spec() == visual_pos_from(final(self).text(), final(self).rows(), final(self).caret_spec(), 0).1,
    {
        self.history.finalize();
        let ghost h0 = self.history;
        let ghost t0 = self.buffer@;
        let ghost gs0 = self.history.undo_groups();
        proof {
            lemma_newlines_spaces(indent_unit());
        }
        match self.selection_anchor {
            None => {
                let ci = self.buffer.byte_to_char(self.caret);
                let (_, ls) = self.line_of_char(ci);
                self.insert_chars_at(ls, Self::indent_string(), ci, true, now);
                proof {
                    let t1 = self.buffer@;
                    assert(ls <= ci);
                    crate::buffer::lemma_newlines_splice(t0, ls as int, ls as int, indent_unit());
                    assert(t0.subrange(ls as int, ls as int) =~= Seq::<char>::empty());
                    assert(t0.take(ls as int) + indent_unit() + t0.skip(ls as int) == t1);
                    assert(t1.take(ci + 4) =~= t0.take(ls as int) + indent_unit() + t0.subrange(ls as int, ci as int));
                    assert(t0.take(ci as int) =~= t0.take(ls as int) + t0.subrange(ls as int, ci as int));
                    crate::text::lemma_byte_len_concat(t0.take(ls as int) + indent_unit(), t0.subrange(ls as int, ci as int));
                    crate::text::lemma_byte_len_concat(t0.take(ls as int), indent_unit());
                    crate::text::lemma_byte_len_concat(t0.take(ls as int), t0.subrange(ls as int, ci as int));
                    assert(byte_len(indent_unit()) == 4) by {
                        reveal_with_fuel(byte_len, 5);
                    }
                }
            },
            Some(a0) => {
                let (lo, hi) = self.get_selection_range().unwrap();
                let lo_ci = self.buffer.byte_to_char(lo);
                let hi_ci = self.buffer.byte_to_char(hi);
                let (sl, ls_lo) = self.line_of_char(lo_ci);
                let (el, _) = self.line_of_char(hi_ci);
                proof {
                    if hi_ci < lo_ci {
                        crate::text::lemma_offset_mono(t0, hi_ci as int + 1, lo_ci as int);
                        crate::text::lemma_offset_step(t0, hi_ci as int);
                    }
                    crate::buffer::lemma_newlines_mono(t0, lo_ci as int, hi_ci as int);
                }
                let ghost h = hi_ci as int;
                let mut line = el;
                let mut first = true;
                let ghost mut pp: int = 0;
                let mut anchor_ci = self.buffer.byte_to_char(a0);
                loop
                    invariant_except_break
                        sl <= line <= el,
                        el <= newlines(t0),
                        el == newlines(t0.take(h)),
                        0 <= h <= t0.len(),
                        ls_lo <= t0.len(),
                        ls_lo == 0 || t0[ls_lo - 1] == '\n',
                        newlines(t0.take(ls_lo as int)) == sl,
                        self.wf(),
                        self.history.origin() == old(self).history.origin(),
                        newlines(self.buffer@) == newlines(t0),
                        self.selection_anchor is Some,
                        anchor_ci <= self.buffer@.len(),
                        self.selection_anchor == Some(byte_offset(self.buffer@, anchor_ci as int) as usize),
                        !first ==> self.history.has_open_group() && self.history.last_edit() == Some(now)
                            && self.history.undo_groups().drop_last() == gs0
                            && self.history.undo_groups().len() == gs0.len() + 1,
                        first ==> !self.history.has_open_group() && self.history.undo_groups() == gs0,
                        first ==> line == el && self.buffer@ == t0,
                        first ==> self.history == h0 && self.caret == old(self).caret
                            && anchor_ci == char_index(t0, a0 as int),
                        !first ==> crate::history::extends(h0, self.history, t0, self.buffer@, old(self).caret, old(self).selection_anchor, now),
                        h0.undo_groups() == gs0,
                        !h0.has_open_group(),
                        old(self).selection_anchor == Some(a0),
                        is_boundary(t0, a0 as int),
                        is_boundary(t0, old(self).caret as int),
                        indent_pos(self.buffer@, line as int, sl as int, char_index(self.buffer@, self.caret as int))
                            == indent_pos(t0, el as int, sl as int, char_index(t0, old(self).caret as int)),
                        indent_pos(self.buffer@, line as int, sl as int, anchor_ci as int)
                            == indent_pos(t0, el as int, sl as int, char_index(t0, a0 as int)),
                        anchor_ci <= self.buffer@.len(),
                        !first ==> {
                            &&& 0 <= pp <= h
                            &&& pp == 0 || t0[pp - 1] == '\n'
                            &&& newlines(t0.take(pp)) == line + 1
                            &&& self.buffer@ == t0.take(pp) + indent_unit() + pad_after_newlines(t0.subrange(pp, h)) + t0.skip(h)
                        },
                    ensures
                        self.wf(),
                        self.history.origin() == old(self).history.origin(),
                        newlines(self.buffer@) == newlines(t0),
                        self.selection_anchor is Some,
                        self.history.undo_groups().drop_last() == gs0,
                        self.history.undo_groups().len() == gs0.len() + 1,
                        self.buffer@ == t0.take(pp) + indent_unit() + pad_after_newlines(t0.subrange(pp, h)) + t0.skip(h),
                        pp == ls_lo,
                        crate::history::extends(h0, self.history, t0, self.buffer@, old(self).caret, old(self).selection_anchor, now),
                        self.caret == byte_offset(self.buffer@, indent_pos(t0, el as int, sl as int, char_index(t0, old(self).caret as int))),
                        self.selection_anchor == Some(byte_offset(self.buffer@, indent_pos(t0, el as int, sl as int, char_index(t0, a0 as int))) as usize),
                    decreases line,
                {
                    let ghost cur = self.buffer@;
                    let p = self.line_start_char(line);
                    proof {
                        if first {
                            lemma_last_line_start(t0, p as int, h);
                        } else {
                            assert(cur.take(pp) =~= t0.take(pp));
                            lemma_prev_line_start(t0, cur, p as int, pp, h, line as int);
                        }
                    }
                    let ci = self.buffer.byte_to_char(self.caret);
                    let shift_anchor = anchor_ci >= p;
                    let ghost hp = self.history;
                    let ghost cp = self.caret;
                    let ghost ap = self.selection_anchor;
                    proof {
                        let q = start_of_line(cur, line as int);
                        lemma_line_start_unique(cur, p as int, q);
                    }
                    self.insert_chars_at(p, Self::indent_string(), ci, ci >= p, now);
                    proof {
                        if !first {
                            crate::history::lemma_extends_trans(h0, hp, self.history, t0, cur, self.buffer@, old(self).caret, old(self).selection_anchor, cp, ap, now);
                        }
                        let nci = if ci >= p { ci + 4 } else { ci as int };
                        lemma_char_index(self.buffer@, nci);
                    }
                    let len = self.buffer.len_chars();
                    proof {
                        lemma_newlines_spaces(indent_unit());
                        crate::buffer::lemma_newlines_splice(cur, p as int, p as int, indent_unit());
                        assert(cur.subrange(p as int, p as int) =~= Seq::<char>::empty());
                        let nt = self.buffer@;
                        assert(nt == cur.take(p as int) + indent_unit() + cur.skip(p as int));
                        if first {
                            lemma_indent_first(t0, p as int, h);
                        } else {
                            lemma_indent_step(t0, cur, p as int, pp, h);
                        }
                        pp = p as int;
                    }
                    if shift_anchor {
                        anchor_ci = anchor_ci + 4;
                    }
                    let ab = self.buffer.char_to_byte(anchor_ci);
                    proof {
                        lemma_char_index(self.buffer@, anchor_ci as int);
                    }
                    self.selection_anchor = Some(ab);
                    first = false;
                    if line == sl {
                        proof {
                            assert(indent_pos(self.buffer@, line - 1, sl as int, anchor_ci as int) == anchor_ci);
                            let nci: int = if ci >= p { ci + 4 } else { ci as int };
                            assert(self.buffer@ == cur.take(p as int) + indent_unit() + cur.skip(p as int));
                            assert(indent_pos(cur, line as int, sl as int, ci as int) == indent_pos(self.buffer@, line - 1, sl as int, nci));
                            assert(indent_pos(self.buffer@, line - 1, sl as int, nci) == nci);
                        }
                        proof {
                            lemma_line_start_unique(t0, pp, ls_lo as int);
                        }
                        break ;
                    }
                    line = line - 1;
                }
                self.invalidate_visual_lines();
            },
        }
        let ghost h1 = self.history;
        let ghost t1 = self.buffer@;
        self.history.finalize();
        proof {
            crate::history::lemma_unit_from_extends(old(self).history, h0, h1, self.history, t0, t1, old(self).caret, old(self).selection_anchor, now);
        }
        self.refresh_preferred_col(width);
    }

    /// Number of spaces, at most four, at char index `p`.
    fn count_lead_spaces(&self, p: usize) -> (r: usize)
        requires
            p <= self.buffer@.len(),
        ensures
            r == lead_spaces(self.buffer@, p as int),
            p + r <= self.buffer@.len(),
            p + r <= usize::MAX,
            forall|k: int| p <= k < p + r ==> self.buffer@[k] == ' ',
    {
        let n = self.buffer.len_chars();
        if p < n && self.buffer.char_at(p) == ' ' {
            if p + 1 < n && self.buffer.char_at(p + 1) == ' ' {
                if p + 2 < n && self.buffer.char_at(p + 2) == ' ' {
                    if p + 3 < n && self.buffer.char_at(p + 3) == ' ' {
                        4
                    } else {
                        3
                    }
                } else {
                    2
                }
            } else {
                1
            }
        } else {
            0
        }
    }

    /// Removes up to four leading spaces from the caret's line, or from
    /// every line that the selection touches, as one undo unit; a caret or
    /// anchor inside removed spaces goes to the line's start, one after them
    /// moves back with the text.
    #[verifier::rlimit(60)]
    pub fn dedent(&mut self, width: usize, now: u64)
        requires
            old(self).wf(),
        ensures
            final(self).wf(),
            final(self).history_spec().origin() == old(self).history_spec().origin(),
            newlines(final(self).text()) == newlines(old(self).text()),
            final(self).history_spec().undo_groups().len() >= old(self).history_spec().undo_groups().len(),
            final(self).history_spec().undo_groups().len() <= old(self).history_spec().undo_groups().len() + 1,
            final(self).history_spec().undo_groups().subrange(
                0,
                old(self).history_spec().undo_groups().len() as int,
            ) == old(self).history_spec().undo_groups(),
            old(self).anchor() is None ==> {
                let t = old(self).text();
                let ci = char_index(t, old(self).caret_spec() as int);
                let ls = line_start(t, ci);
                let sp = lead_spaces(t, ls);
                let nci = if ci >= ls + sp {
                    ci - sp
                } else {
                    ls
                };
                &&& final(self).text() == t.take(ls) + t.skip(ls + sp)
                &&& final(self).caret_spec() == byte_offset(final(self).text(), nci)
                &&& final(self).anchor() is None
            },
            old(self).anchor() is Some ==> {
                let t = old(self).text();
                let (lo, hi) = sel_bounds(old(self).caret_spec(), old(self).anchor());
                let sl = newlines(t.take(char_index(t, lo as int)));
                let el = newlines(t.take(char_index(t, hi as int)));
                let a = old(self).anchor()->0;
                &&& final(self).text() == dedent_lines(t, el as int, sl as int)
                &&& final(self).caret_spec() == byte_offset(final(self).text(), dedent_pos(t, el as int, sl as int, char_index(t, old(self).caret_spec() as int)))
                &&& final(self).anchor() == Some(byte_offset(final(self).text(), dedent_pos(t, el as int, sl as int, char_index(t, a as int))) as usize)
            },
            (final(self).text().len() < old(self).text().len() && crate::history::adds_unit(
                old(self).history_spec(),
                final(self).history_spec(),
                old(self).text(),
                final(self).text(),
                old(self).caret_spec(),
                old(self).anchor(),
            )) || (final(self).text()
                == old(self).text() && final(self).caret_spec() == old(self).caret_spec()
                && final(self).anchor() == old(self).anchor()
                && final(self).history_spec().undo_groups() == old(self).history_spec().undo_groups()),
            final(self).preferred_col_spec() == visual_pos_from(final(self).text(), final(self).rows(), final(self).caret_spec(), 0).1,
    {
        self.history.finalize();
        let ghost h0 = self.history;
        let ghost t0 = self.buffer@;
        let ghost gs0 = self.history.undo_groups();
        match self.selection_anchor {
            None => {
                let ci = self.buffer.byte_to_char(self.caret);
                let (_, ls) = self.line_of_char(ci);
                let sp = self.count_lead_spaces(ls);
                if sp > 0 {
                    let nci = if ci >= ls + sp {
                        ci - sp
                    } else {
                        ls
                    };
                    self.remove_chars_at(ls, ls + sp, nci, now);
                    proof {
                        lemma_newlines_spaces(t0.subrange(ls as int, ls + sp));
                        crate::buffer::lemma_newlines_splice(t0, ls as int, ls + sp, Seq::<char>::empty());
                        assert(t0.take(ls as int) + Seq::<char>::empty() =~= t0.take(ls as int));
                        assert(self.history.undo_groups().subrange(0, gs0.len() as int) =~= self.history.undo_groups().drop_last());
                    }
                } else {
                    proof {
                        assert(t0.take(ls as int) + t0.skip(ls as int) =~= t0);
                        assert(gs0.subrange(0, gs0.len() as int) =~= gs0);
                        assert(ci >= ls);
                        lemma_char_index(t0, ci as int);
                    }
                }
            },
            Some(a0) => {
                let (lo, hi) = self.get_selection_range().unwrap();
                let lo_ci = self.buffer.byte_to_char(lo);
                let hi_ci = self.buffer.byte_to_char(hi);
                let (sl, _) = self.line_of_char(lo_ci);
                let (el, _) = self.line_of_char(hi_ci);
                proof {
                    if hi_ci < lo_ci {
                        crate::text::lemma_offset_mono(t0, hi_ci as int + 1, lo_ci as int);
                        crate::text::lemma_offset_step(t0, hi_ci as int);
                    }
                    crate::buffer::lemma_newlines_mono(t0, lo_ci as int, hi_ci as int);
                }
                let mut line = el;
                let mut first = true;
                let mut anchor_ci = self.buffer.byte_to_char(a0);
                loop
                    invariant_except_break
                        sl <= line <= el,
                        el <= newlines(t0),
                        self.wf(),
                        self.history.origin() == old(self).history.origin(),
                        newlines(self.buffer@) == newlines(t0),
                        self.selection_anchor is Some,
                        anchor_ci <= self.buffer@.len(),
                        self.selection_anchor == Some(byte_offset(self.buffer@, anchor_ci as int) as usize),
                        self.history.has_open_group() ==> self.history.last_edit() == Some(now)
                            && self.history.undo_groups().drop_last() == gs0
                            && self.history.undo_groups().len() == gs0.len() + 1,
                        !self.history.has_open_group() ==> self.history.undo_groups() == gs0,
                        dedent_lines(self.buffer@, line as int, sl as int) == dedent_lines(t0, el as int, sl as int),
                        h0.undo_groups() == gs0,
                        !h0.has_open_group(),
                        old(self).selection_anchor == Some(a0),
                        is_boundary(t0, a0 as int),
                        is_boundary(t0, old(self).caret as int),
                        !self.history.has_open_group() ==> self.history == h0 && self.buffer@ == t0
                            && self.caret == old(self).caret && self.selection_anchor == old(self).selection_anchor,
                        self.history.has_open_group() ==> self.buffer@.len() < t0.len()
                            && crate::history::extends(h0, self.history, t0, self.buffer@, old(self).caret, old(self).selection_anchor, now),
                        dedent_pos(self.buffer@, line as int, sl as int, char_index(self.buffer@, self.caret as int))
                            == dedent_pos(t0, el as int, sl as int, char_index(t0, old(self).caret as int)),
                        dedent_pos(self.buffer@, line as int, sl as int, anchor_ci as int)
                            == dedent_pos(t0, el as int, sl as int, char_index(t0, a0 as int)),
                    ensures
                        self.wf(),
                        self.history.origin() == old(self).history.origin(),
                        newlines(self.buffer@) == newlines(t0),
                        self.selection_anchor is Some,
                        self.history.has_open_group() ==> self.history.undo_groups().drop_last() == gs0
                            && self.history.undo_groups().len() == gs0.len() + 1,
                        !self.history.has_open_group() ==> self.history.undo_groups() == gs0,
                        self.buffer@ == dedent_lines(t0, el as int, sl as int),
                        !self.history.has_open_group() ==> self.history == h0 && self.buffer@ == t0
                            && self.caret == old(self).caret && self.selection_anchor == old(self).selection_anchor,
                        self.history.has_open_group() ==> self.buffer@.len() < t0.len()
                            && crate::history::extends(h0, self.history, t0, self.buffer@, old(self).caret, old(self).selection_anchor, now),
                        self.caret == byte_offset(self.buffer@, dedent_pos(t0, el as int, sl as int, char_index(t0, old(self).caret as int))),
                        self.selection_anchor == Some(byte_offset(self.buffer@, dedent_pos(t0, el as int, sl as int, char_index(t0, a0 as int))) as usize),
                    decreases line,
                {
                    let ghost cur = self.buffer@;
                    let p = self.line_start_char(line);
                    proof {
                        let q = start_of_line(cur, line as int);
                        assert(0 <= p <= cur.len() && newlines(cur.take(p as int)) == line as int && (p == 0 || cur[p - 1] == '\n'));
                        lemma_line_start_unique(cur, p as int, q);
                        assert(dedent_lines(cur, line as int, sl as int) == dedent_lines(strip_lead(cur, p as int), line - 1, sl as int));
                    }
                    let sp = self.count_lead_spaces(p);
                    proof {
                        if sp == 0 {
                            assert(strip_lead(cur, p as int) =~= cur);
                        }
                    }
                    if sp > 0 {
                        let ci = self.buffer.byte_to_char(self.caret);
                        let nci = if ci >= p + sp {
                            ci - sp
                        } else if ci > p {
                            p
                        } else {
                            ci
                        };
                        let nai = if anchor_ci >= p + sp {
                            anchor_ci - sp
                        } else if anchor_ci > p {
                            p
                        } else {
                            anchor_ci
                        };
                        let ghost hp = self.history;
                        let ghost cp = self.caret;
                        let ghost ap = self.selection_anchor;
                        self.remove_chars_at(p, p + sp, nci, now);
                        proof {
                            if hp.has_open_group() {
                                crate::history::lemma_extends_trans(h0, hp, self.history, t0, cur, self.buffer@, old(self).caret, old(self).selection_anchor, cp, ap, now);
                            }
                            lemma_char_index(self.buffer@, nci as int);
                            lemma_newlines_spaces(cur.subrange(p as int, p + sp));
                            crate::buffer::lemma_newlines_splice(cur, p as int, p + sp, Seq::<char>::empty());
                            assert(cur.take(p as int) + Seq::<char>::empty() =~= cur.take(p as int));
                        }
                        anchor_ci = nai;
                        let ab = self.buffer.char_to_byte(anchor_ci);
                        proof {
                            lemma_char_index(self.buffer@, anchor_ci as int);
                        }
                        self.selection_anchor = Some(ab);
                    }
                    proof {
                        assert(self.buffer@ =~= strip_lead(cur, p as int));
                        if line == sl {
                            assert(dedent_lines(self.buffer@, line - 1, sl as int) == self.buffer@);
                            let c = char_index(self.buffer@, self.caret as int);
                            assert(dedent_pos(self.buffer@, line - 1, sl as int, c) == c);
                            assert(dedent_pos(self.buffer@, line - 1, sl as int, anchor_ci as int) == anchor_ci);
                        }
                    }
                    first = false;
                    if line == sl {
                        break ;
                    }
                    line = line - 1;
                }
                self.invalidate_visual_lines();
                proof {
                    let gs = self.history.undo_groups();
                    if self.history.has_open_group() {
                        assert(gs.subrange(0, gs0.len() as int) =~= gs.drop_last());
                    } else {
                        assert(gs.subrange(0, gs0.len() as int) =~= gs0);
                    }
                }
            },
        }
        let ghost h1 = self.history;
        let ghost t1 = self.buffer@;
        self.history.finalize();
        proof {
            if t1.len() < t0.len() {
                crate::history::lemma_unit_from_extends(old(self).history, h0, h1, self.history, t0, t1, old(self).caret, old(self).selection_anchor, now);
            }
        }
        self.refresh_preferred_col(width);
    }

    /// Whether `undo` has a group to take back.
    pub fn can_undo(&self) -> (r: bool)
        ensures
            r == (self.history_spec().undo_groups().len() > 0),
    {
        self.history.can_undo()
    }

    /// Whether `redo` has a group to apply.
    pub fn can_redo(&self) -> (r: bool)
        ensures
            r == (self.history_spec().redo_groups().len() > 0),
    {
        self.history.can_redo()
    }

    /// Anchors a selection at the caret (a drag starts there).
    pub fn start_selection_at_caret(&mut self)
        requires
            old(self).wf(),
        ensures
            final(self).wf(),
            final(self).text() == old(self).text(),
            final(self).caret_spec() == old(self).caret_spec(),
            final(self).anchor() == Some(old(self).caret_spec()),
    {
        self.selection_anchor = Some(self.caret);
    }

    /// Sets the column that vertical motion aims for.
    pub fn set_preferred_col(&mut self, col: usize)
        requires
            old(self).wf(),
        ensures
            final(self).wf(),
            final(self).text() == old(self).text(),
            final(self).caret_spec() == old(self).caret_spec(),
            final(self).preferred_col_spec() == col,
    {
        self.preferred_col = col;
    }

    /// Scrolls the view `n` rows up, stopping at the top.
    pub fn scroll_up(&mut self, n: usize)
        requires
            old(self).wf(),
        ensures
            final(self).wf(),
            final(self).same_doc(old(self)),
            final(self).viewport() == ((if old(self).viewport().0 >= n {
                old(self).viewport().0 - n
            } else {
                0
            }) as usize, old(self).viewport().1),
    {
        self.viewport_offset.0 = self.viewport_offset.0.saturating_sub(n);
    }

    /// Scrolls the view `n` rows down, stopping at row `max`.
    pub fn scroll_down(&mut self, n: usize, max: usize)
        requires
            old(self).wf(),
        ensures
            final(self).wf(),
            final(self).same_doc(old(self)),
            final(self).viewport().0 == if sat(old(self).viewport().0 + n) <= max {
                sat(old(self).viewport().0 + n)
            } else {
                max
            },
            final(self).viewport().1 == old(self).viewport().1,
    {
        let v = self.viewport_offset.0.saturating_add(n);
        self.viewport_offset.0 = if v <= max {
            v
        } else {
            max
        };
    }
    /// The name shown for this document, given its file name (see
    /// `display_name`).
    pub fn get_display_name(&self, file_name: Option<&str>) -> (r: String)
        ensures
            ({
                let base = match file_name {
                    Some(n) => n@,
                    None => "[No Name]"@,
                };
                r@ == if self.is_modified() {
                    base.push('*')
                } else {
                    base
                }
            }),
    {
        display_name(file_name, self.modified)
    }
}

/// Undoing until no group is left gives back the text the history started
/// from: the text when the editor was created or last loaded.
pub proof fn lemma_undone_editor_is_origin(e: &Editor)
    requires
        e.wf(),
        e.history_spec().undo_groups().len() == 0,
    ensures
        e.text() == e.history_spec().origin(),
{
    crate::history::lemma_undone_history_is_origin(&e.history, e.buffer@);
}

} // verus!
