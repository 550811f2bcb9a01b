//! Word-wrapping layout: logical lines cut into rows that fit a viewport.
use vstd::prelude::*;
use crate::text::{
    byte_len, byte_offset, char_byte_len, char_index, is_boundary, char_columns, char_width, columns, lemma_byte_len_concat,
    lemma_offset_full, lemma_offset_mono, lemma_offset_step,
};

verus! {

/// Characters after which a row may be cut.
pub open spec fn is_soft_break(c: char) -> bool {
    c == ' ' || c == '-' || c == '/'
}

/// `s` holds nothing but spaces.
pub open spec fn only_spaces(s: Seq<char>) -> bool {
    forall|i: int| 0 <= i < s.len() ==> s[i] == ' '
}

/// Columns available to a row: the viewport width for the first row of a
/// line, the width less the continuation indent for the others, and never
/// less than one.
pub open spec fn avail_width(w: usize, indent: usize, first: bool) -> nat {
    if first {
        if w >= 1 {
            w as nat
        } else {
            1
        }
    } else if w > indent {
        (w - indent) as nat
    } else {
        1
    }
}

/// Where a row that starts at `start` ends: the greedy scan has passed
/// `start..j`, whose columns are `width`, and the latest soft break seen
/// ends at `last_break`. The row takes characters while they fit, and always
/// its first one; on overflow it ends after the latest soft break past
/// `start`, else just before the character that does not fit.
pub open spec fn scan_end(
    s: Seq<char>,
    start: int,
    j: int,
    hi: int,
    width: nat,
    last_break: int,
    avail: nat,
) -> int
    decreases hi - j,
{
    if j >= hi {
        hi
    } else {
        let cw = char_columns(s[j]);
        if j > start && width + cw > avail {
            if last_break > start {
                last_break
            } else {
                j
            }
        } else {
            scan_end(
                s,
                start,
                j + 1,
                hi,
                width + cw,
                if is_soft_break(s[j]) {
                    j + 1
                } else {
                    last_break
                },
                avail,
            )
        }
    }
}

/// The first index at or after `i` (up to `hi`) that does not hold a space.
pub open spec fn skip_spaces(s: Seq<char>, i: int, hi: int) -> int
    decreases hi - i,
{
    if i < hi && s[i] == ' ' {
        skip_spaces(s, i + 1, hi)
    } else {
        i
    }
}

/// The rows, as char ranges, of the line content `s[start..hi]`: each row
/// ends where the greedy scan ends it, and the spaces that follow a row are
/// skipped. `first` says whether the row at `start` is the first of its line.
pub open spec fn wrap_from(s: Seq<char>, start: int, hi: int, w: usize, indent: usize, first: bool) -> Seq<
    (int, int),
>
    decreases hi - start,
{
    if start >= hi {
        seq![]
    } else {
        let e = scan_end(s, start, start, hi, 0, start, avail_width(w, indent, first));
        let nxt = skip_spaces(s, e, hi);
        if start < e && e <= nxt && nxt <= hi {
            seq![(start, e)] + wrap_from(s, nxt, hi, w, indent, false)
        } else {
            seq![]
        }
    }
}

/// The rows cover `lo..hi` in order: the first starts at `lo`, none is
/// empty, and what lies between two rows, or after the last one, is spaces.
pub open spec fn segs_tile(s: Seq<char>, lo: int, hi: int, segs: Seq<(int, int)>) -> bool {
    &&& segs.len() > 0
    &&& segs[0].0 == lo
    &&& forall|k: int| 0 <= k < segs.len() ==> lo <= #[trigger] segs[k].0 < segs[k].1 <= hi
    &&& forall|k: int|
        0 <= k < segs.len() - 1 ==> #[trigger] segs[k].1 <= segs[k + 1].0 && only_spaces(
            s.subrange(segs[k].1, segs[k + 1].0),
        )
    &&& only_spaces(s.subrange(segs.last().1, hi))
}

/// Each row fits its available width, unless it is a single character.
pub open spec fn segs_fit(s: Seq<char>, segs: Seq<(int, int)>, w: usize, indent: usize, first: bool) -> bool {
    forall|k: int|
        0 <= k < segs.len() ==> #[trigger] segs[k].1 == segs[k].0 + 1 || columns(
            s.subrange(segs[k].0, segs[k].1),
        ) <= avail_width(w, indent, first && k == 0)
}

pub proof fn lemma_columns_push(a: Seq<char>, c: char)
    ensures
        columns(a.push(c)) == columns(a) + char_columns(c),
{
    assert(a.push(c).drop_last() =~= a);
}

proof fn lemma_scan_end(
    s: Seq<char>,
    start: int,
    j: int,
    hi: int,
    width: nat,
    last_break: int,
    avail: nat,
)
    requires
        0 <= start <= j <= hi <= s.len(),
        start < hi,
        avail >= 1,
        width == columns(s.subrange(start, j)),
        j == start || j == start + 1 || width <= avail,
        start <= last_break <= j,
        last_break == start || last_break == start + 1 || columns(s.subrange(start, last_break))
            <= avail,
    ensures
        ({
            let r = scan_end(s, start, j, hi, width, last_break, avail);
            &&& start < r <= hi
            &&& r == start + 1 || columns(s.subrange(start, r)) <= avail
        }),
    decreases hi - j,
{
    if j < hi {
        let cw = char_columns(s[j]);
        if !(j > start && width + cw > avail) {
            assert(s.subrange(start, j + 1) =~= s.subrange(start, j).push(s[j]));
            lemma_columns_push(s.subrange(start, j), s[j]);
            lemma_scan_end(
                s,
                start,
                j + 1,
                hi,
                width + cw,
                if is_soft_break(s[j]) {
                    j + 1
                } else {
                    last_break
                },
                avail,
            );
        }
    }
}

proof fn lemma_skip_spaces(s: Seq<char>, i: int, hi: int)
    requires
        0 <= i <= hi <= s.len(),
    ensures
        i <= skip_spaces(s, i, hi) <= hi,
        only_spaces(s.subrange(i, skip_spaces(s, i, hi))),
        skip_spaces(s, i, hi) < hi ==> s[skip_spaces(s, i, hi)] != ' ',
    decreases hi - i,
{
    if i < hi && s[i] == ' ' {
        lemma_skip_spaces(s, i + 1, hi);
        let r = skip_spaces(s, i, hi);
        assert forall|k: int| 0 <= k < r - i implies s.subrange(i, r)[k] == ' ' by {
            if k > 0 {
                assert(s.subrange(i, r)[k] == s.subrange(i + 1, r)[k - 1]);
            }
        }
    }
}

/// One step of the row scan: where the row that starts at `start` ends.
proof fn lemma_wrap_step(s: Seq<char>, start: int, hi: int, w: usize, indent: usize, first: bool)
    requires
        0 <= start < hi <= s.len(),
    ensures
        ({
            let e = scan_end(s, start, start, hi, 0, start, avail_width(w, indent, first));
            let nxt = skip_spaces(s, e, hi);
            &&& start < e <= nxt <= hi
            &&& e == start + 1 || columns(s.subrange(start, e)) <= avail_width(w, indent, first)
            &&& only_spaces(s.subrange(e, nxt))
            &&& wrap_from(s, start, hi, w, indent, first) == seq![(start, e)] + wrap_from(
                s,
                nxt,
                hi,
                w,
                indent,
                false,
            )
        }),
{
    let avail = avail_width(w, indent, first);
    assert(s.subrange(start, start) =~= Seq::<char>::empty());
    lemma_scan_end(s, start, start, hi, 0, start, avail);
    let e = scan_end(s, start, start, hi, 0, start, avail);
    lemma_skip_spaces(s, e, hi);
}

/// The rows of a non-empty line tile it and fit the viewport (see
/// `segs_tile`, `segs_fit`).
pub proof fn lemma_wrap_from(s: Seq<char>, start: int, hi: int, w: usize, indent: usize, first: bool)
    requires
        0 <= start < hi <= s.len(),
    ensures
        segs_tile(s, start, hi, wrap_from(s, start, hi, w, indent, first)),
        segs_fit(s, wrap_from(s, start, hi, w, indent, first), w, indent, first),
    decreases hi - start,
{
    lemma_wrap_step(s, start, hi, w, indent, first);
    let avail = avail_width(w, indent, first);
    let e = scan_end(s, start, start, hi, 0, start, avail);
    let nxt = skip_spaces(s, e, hi);
    let segs = wrap_from(s, start, hi, w, indent, first);
    let rest = wrap_from(s, nxt, hi, w, indent, false);
    if nxt < hi {
        lemma_wrap_from(s, nxt, hi, w, indent, false);
        assert forall|k: int| 0 <= k < segs.len() implies start <= #[trigger] segs[k].0 < segs[k].1
            <= hi by {
            if k > 0 {
                assert(segs[k] == rest[k - 1]);
            }
        }
        assert forall|k: int| 0 <= k < segs.len() - 1 implies #[trigger] segs[k].1 <= segs[k
            + 1].0 && only_spaces(s.subrange(segs[k].1, segs[k + 1].0)) by {
            assert(segs[k + 1] == rest[k]);
            if k > 0 {
                assert(segs[k] == rest[k - 1]);
            }
        }
        assert(segs.last() == rest.last());
        assert forall|k: int| 0 <= k < segs.len() implies #[trigger] segs[k].1 == segs[k].0 + 1
            || columns(s.subrange(segs[k].0, segs[k].1)) <= avail_width(
            w,
            indent,
            first && k == 0,
        ) by {
            if k > 0 {
                assert(segs[k] == rest[k - 1]);
            }
        }
    } else {
        assert(rest =~= Seq::<(int, int)>::empty());
        assert(segs =~= seq![(start, e)]);
    }
}

pub open spec fn seg_view(v: Seq<(usize, usize)>) -> Seq<(int, int)> {
    v.map_values(|p: (usize, usize)| (p.0 as int, p.1 as int))
}

/// Cuts the line content `s[lo..hi]` into rows for a viewport `w` columns
/// wide; rows after the first are indented by `indent` columns. Returns the
/// rows as char ranges of `s`; empty content gives one empty row.
pub fn wrap_line(s: &Vec<char>, lo: usize, hi: usize, w: usize, indent: usize) -> (segs: Vec<
    (usize, usize),
>)
    requires
        lo <= hi <= s@.len(),
    ensures
        lo == hi ==> segs@ == seq![(lo, hi)],
        lo < hi ==> seg_view(segs@) == wrap_from(s@, lo as int, hi as int, w, indent, true),
        lo < hi ==> segs_tile(s@, lo as int, hi as int, seg_view(segs@)),
        lo < hi ==> segs_fit(s@, seg_view(segs@), w, indent, true),
{
    if lo == hi {
        let mut one: Vec<(usize, usize)> = Vec::new();
        one.push((lo, hi));
        proof {
            assert(one@ =~= seq![(lo, hi)]);
        }
        return one;
    }
    let mut segs: Vec<(usize, usize)> = Vec::new();
    let mut start = lo;
    let mut first = true;
    proof {
        assert(seg_view(segs@) =~= Seq::<(int, int)>::empty());
        assert(seg_view(segs@) + wrap_from(s@, lo as int, hi as int, w, indent, true) =~= wrap_from(
            s@,
            lo as int,
            hi as int,
            w,
            indent,
            true,
        ));
    }
    while start < hi
        invariant
            lo <= start <= hi,
            hi <= s@.len(),
            seg_view(segs@) + wrap_from(s@, start as int, hi as int, w, indent, first) == wrap_from(
                s@,
                lo as int,
                hi as int,
                w,
                indent,
                true,
            ),
        decreases hi - start,
    {
        let avail: usize = if first {
            if w >= 1 {
                w
            } else {
                1
            }
        } else if w > indent {
            w - indent
        } else {
            1
        };
        let ghost av = avail_width(w, indent, first);
        let mut width: usize = 0;
        let mut j = start;
        let mut last_break = start;
        let end;
        loop
            invariant
                start <= last_break <= j <= hi,
                hi <= s@.len(),
                avail as nat == av,
                j == start ==> width == 0,
                scan_end(s@, start as int, j as int, hi as int, width as nat, last_break as int, av)
                    == scan_end(s@, start as int, start as int, hi as int, 0, start as int, av),
            ensures
                end == scan_end(s@, start as int, start as int, hi as int, 0, start as int, av),
            decreases hi - j,
        {
            if j >= hi {
                end = hi;
                break ;
            }
            let c = s[j];
            let cw = char_width(c);
            if j > start && (width > avail || cw > avail - width) {
                end = if last_break > start {
                    last_break
                } else {
                    j
                };
                break ;
            }
            width = width + cw;
            if c == ' ' || c == '-' || c == '/' {
                last_break = j + 1;
            }
            j = j + 1;
        }
        let mut nxt = end;
        proof {
            lemma_wrap_step(s@, start as int, hi as int, w, indent, first);
        }
        while nxt < hi && s[nxt] == ' '
            invariant
                end <= nxt <= hi,
                hi <= s@.len(),
                skip_spaces(s@, nxt as int, hi as int) == skip_spaces(s@, end as int, hi as int),
            decreases hi - nxt,
        {
            nxt = nxt + 1;
        }
        let ghost before = seg_view(segs@);
        segs.push((start, end));
        proof {
            assert(seg_view(segs@) =~= before.push((start as int, end as int)));
            assert(before + wrap_from(s@, start as int, hi as int, w, indent, first) =~= seg_view(
                segs@,
            ) + wrap_from(s@, nxt as int, hi as int, w, indent, false));
        }
        start = nxt;
        first = false;
    }
    proof {
        assert(seg_view(segs@) + Seq::<(int, int)>::empty() =~= seg_view(segs@));
        lemma_wrap_from(s@, lo as int, hi as int, w, indent, true);
    }
    segs
}

/// Whitespace as `char::is_whitespace` defines it (Unicode `White_Space`).
pub open spec fn is_white(c: char) -> bool {
    let v = c as u32;
    (0x09 <= v <= 0x0d) || v == 0x20 || v == 0x85 || v == 0xa0 || v == 0x1680 || (0x2000 <= v
        <= 0x200a) || v == 0x2028 || v == 0x2029 || v == 0x202f || v == 0x205f || v == 0x3000
}

pub fn is_white_char(c: char) -> (r: bool)
    ensures
        r == is_white(c),
{
    let v = c as u32;
    (0x09 <= v && v <= 0x0d) || v == 0x20 || v == 0x85 || v == 0xa0 || v == 0x1680 || (0x2000 <= v
        && v <= 0x200a) || v == 0x2028 || v == 0x2029 || v == 0x202f || v == 0x205f || v == 0x3000
}

/// Whether `char::is_alphanumeric` holds of `c`.
pub uninterp spec fn alphanumeric(c: char) -> bool;

/// Relies on `char::is_alphanumeric`: Unicode's Alphabetic or Numeric
/// property, a function of the character alone.
#[verifier::external_body]
fn is_alnum(c: char) -> (r: bool)
    ensures
        r == alphanumeric(c),
{
    c.is_alphanumeric()
}

/// End of the run of whitespace that starts at `i`.
pub open spec fn white_end(s: Seq<char>, i: int, hi: int) -> int
    decreases hi - i,
{
    if 0 <= i < hi && is_white(s[i]) {
        white_end(s, i + 1, hi)
    } else {
        i
    }
}

/// End of the run of alphanumeric characters that starts at `i`.
pub open spec fn alnum_end(s: Seq<char>, i: int, hi: int) -> int
    decreases hi - i,
{
    if 0 <= i < hi && alphanumeric(s[i]) {
        alnum_end(s, i + 1, hi)
    } else {
        i
    }
}

/// The line `s[lo..hi]`, past its leading whitespace, starts with a list
/// marker: `- `, `* `, `+ `, or an alphanumeric run followed by `.` or `)`
/// and a space.
pub open spec fn has_list_marker(s: Seq<char>, lo: int, hi: int) -> bool {
    let k = white_end(s, lo, hi);
    ||| (k + 1 < hi && (s[k] == '-' || s[k] == '*' || s[k] == '+') && s[k + 1] == ' ')
    ||| ({
        let a = alnum_end(s, k, hi);
        a > k && a + 1 < hi && (s[a] == '.' || s[a] == ')') && s[a + 1] == ' '
    })
}

/// Continuation indent of the line `s[lo..hi]`: the bytes of its leading
/// whitespace, plus 4 after a list marker (saturating).
pub open spec fn list_indent(s: Seq<char>, lo: int, hi: int) -> nat {
    let base = byte_len(s.subrange(lo, white_end(s, lo, hi)));
    if has_list_marker(s, lo, hi) {
        if base + 4 <= usize::MAX {
            base + 4
        } else {
            usize::MAX as nat
        }
    } else {
        base
    }
}

proof fn lemma_subrange_byte_len(s: Seq<char>, lo: int, hi: int)
    requires
        0 <= lo <= hi <= s.len(),
    ensures
        byte_len(s.subrange(lo, hi)) <= byte_len(s),
{
    lemma_byte_len_concat(s.take(lo), s.subrange(lo, hi));
    lemma_byte_len_concat(s.take(lo) + s.subrange(lo, hi), s.skip(hi));
    assert(s.take(lo) + s.subrange(lo, hi) + s.skip(hi) =~= s);
}

/// Continuation indent of the line `s[lo..hi]` (see `list_indent`).
pub fn calculate_indent(s: &Vec<char>, lo: usize, hi: usize) -> (r: usize)
    requires
        lo <= hi <= s@.len(),
        byte_len(s@) <= usize::MAX,
    ensures
        r == list_indent(s@, lo as int, hi as int),
{
    let mut i = lo;
    let mut base: usize = 0;
    proof {
        assert(s@.subrange(lo as int, lo as int) =~= Seq::<char>::empty());
    }
    while i < hi && is_white_char(s[i])
        invariant
            lo <= i <= hi,
            hi <= s@.len(),
            byte_len(s@) <= usize::MAX,
            base == byte_len(s@.subrange(lo as int, i as int)),
            white_end(s@, i as int, hi as int) == white_end(s@, lo as int, hi as int),
        decreases hi - i,
    {
        let cl = char_byte_len(s[i]);
        proof {
            assert(s@.subrange(lo as int, i + 1).drop_last() =~= s@.subrange(lo as int, i as int));
            lemma_subrange_byte_len(s@, lo as int, i + 1);
        }
        base = base + cl;
        i = i + 1;
    }
    let k = i;
    if hi > 0 && k < hi - 1 && (s[k] == '-' || s[k] == '*' || s[k] == '+') && s[k + 1] == ' ' {
        return base.saturating_add(4);
    }
    let mut a = k;
    while a < hi && is_alnum(s[a])
        invariant
            k <= a <= hi,
            hi <= s@.len(),
            alnum_end(s@, a as int, hi as int) == alnum_end(s@, k as int, hi as int),
        decreases hi - a,
    {
        a = a + 1;
    }
    if a > k && hi > 0 && a < hi - 1 && (s[a] == '.' || s[a] == ')') && s[a + 1] == ' ' {
        return base.saturating_add(4);
    }
    base
}

/// The byte offset of every char index of `s`, the end included.
pub fn byte_offsets(s: &Vec<char>) -> (offs: Vec<usize>)
    requires
        byte_len(s@) <= usize::MAX,
    ensures
        offs@.len() == s@.len() + 1,
        forall|i: int| 0 <= i <= s@.len() ==> #[trigger] offs@[i] == byte_offset(s@, i),
{
    let mut offs: Vec<usize> = Vec::new();
    offs.push(0);
    let mut i: usize = 0;
    let mut b: usize = 0;
    proof {
        assert(s@.take(0) =~= Seq::<char>::empty());
    }
    while i < s.len()
        invariant
            i <= s@.len(),
            byte_len(s@) <= usize::MAX,
            offs@.len() == i + 1,
            b == byte_offset(s@, i as int),
            forall|m: int| 0 <= m <= i ==> #[trigger] offs@[m] == byte_offset(s@, m),
        decreases s@.len() - i,
    {
        let cl = char_byte_len(s[i]);
        proof {
            lemma_offset_step(s@, i as int);
            lemma_offset_mono(s@, i + 1, s@.len() as int);
            lemma_offset_full(s@);
        }
        b = b + cl;
        offs.push(b);
        i = i + 1;
    }
    offs
}

/// One screen row: a range of the text, in bytes and in chars.
/// `indent` is the padding, in columns, of a continuation row.
#[derive(Clone, Copy, Debug, PartialEq, Eq)]
pub struct VisualLine {
    pub start_byte: usize,
    pub end_byte: usize,
    pub is_continuation: bool,
    pub indent: usize,
    pub logical_line: usize,
    pub start_char: usize,
    pub end_char: usize,
}

/// The row is a range of `t` within one logical line, and its byte offsets
/// match its char indices.
pub open spec fn row_ok(t: Seq<char>, r: VisualLine) -> bool {
    &&& r.start_char <= r.end_char <= t.len()
    &&& r.start_byte == byte_offset(t, r.start_char as int)
    &&& r.end_byte == byte_offset(t, r.end_char as int)
    &&& forall|i: int| r.start_char <= i < r.end_char ==> t[i] != '\n'
    &&& !r.is_continuation ==> r.indent == 0
}

/// Row `b` follows row `a`: a continuation starts after a run of spaces;
/// the first row of the next logical line after spaces and a line feed.
pub open spec fn gap_ok(t: Seq<char>, a: VisualLine, b: VisualLine) -> bool {
    if b.is_continuation {
        &&& a.end_char <= b.start_char
        &&& only_spaces(t.subrange(a.end_char as int, b.start_char as int))
        &&& b.logical_line == a.logical_line
    } else {
        &&& a.end_char < b.start_char
        &&& t[b.start_char - 1] == '\n'
        &&& only_spaces(t.subrange(a.end_char as int, b.start_char - 1))
        &&& b.logical_line == a.logical_line + 1
    }
}

/// The row fits its available width, or is a single character.
pub open spec fn row_fits(t: Seq<char>, r: VisualLine, w: usize) -> bool {
    ||| r.end_char == r.start_char + 1
    ||| columns(t.subrange(r.start_char as int, r.end_char as int)) <= avail_width(
        w,
        r.indent,
        !r.is_continuation,
    )
}

/// `rows` is a layout of `t` for a viewport `w` columns wide: the rows tile
/// the text in order, each within a logical line; with word wrap each row
/// fits, and without it no row continues another.
#[verifier::opaque]
pub open spec fn layout_ok(t: Seq<char>, rows: Seq<VisualLine>, w: usize, wrap: bool) -> bool {
    &&& rows.len() > 0
    &&& rows[0].start_char == 0
    &&& !rows[0].is_continuation
    &&& rows[0].logical_line == 0
    &&& forall|k: int| 0 <= k < rows.len() ==> row_ok(t, #[trigger] rows[k])
    &&& forall|k: int| 0 <= k < rows.len() - 1 ==> gap_ok(t, #[trigger] rows[k], rows[k + 1])
    &&& only_spaces(t.subrange(rows.last().end_char as int, t.len() as int))
    &&& wrap ==> forall|k: int| 0 <= k < rows.len() ==> row_fits(t, #[trigger] rows[k], w)
    &&& !wrap ==> forall|k: int| 0 <= k < rows.len() ==> !(#[trigger] rows[k]).is_continuation
}

/// Where the logical line that starts at or before `i` ends: the first
/// line feed from `i` on, or the end of the text.
pub open spec fn line_end(t: Seq<char>, i: int) -> int
    decreases t.len() - i,
{
    if i < 0 || i >= t.len() || t[i] == '\n' {
        i
    } else {
        line_end(t, i + 1)
    }
}

/// The row for the char range `s`, the `k`-th of logical line `line`.
pub open spec fn seg_row(t: Seq<char>, s: (int, int), k: int, indent: usize, line: int) -> VisualLine {
    VisualLine {
        start_byte: byte_offset(t, s.0) as usize,
        end_byte: byte_offset(t, s.1) as usize,
        is_continuation: k > 0,
        indent: if k > 0 {
            indent
        } else {
            0
        },
        logical_line: line as usize,
        start_char: s.0 as usize,
        end_char: s.1 as usize,
    }
}

/// The rows of the logical line `t[ls..le]`: one row without word wrap or
/// for an empty line, else one per segment of `wrap_from`, continuations
/// indented by the line's `list_indent`.
pub open spec fn line_rows(t: Seq<char>, ls: int, le: int, line: int, w: usize, wrap: bool) -> Seq<VisualLine> {
    if !wrap || le == ls {
        seq![seg_row(t, (ls, le), 0, 0, line)]
    } else {
        let ind = list_indent(t, ls, if le < t.len() { le + 1 } else { le }) as usize;
        let segs = wrap_from(t, ls, le, w, ind, true);
        Seq::new(segs.len(), |k: int| seg_row(t, segs[k], k, ind, line))
    }
}

/// The rows of the logical lines from the one that starts at `ls`
/// (numbered `line`) to the end of the text.
pub open spec fn rows_from(t: Seq<char>, ls: int, line: int, w: usize, wrap: bool) -> Seq<VisualLine>
    decreases t.len() - ls,
{
    let le = line_end(t, ls);
    if le < ls || le >= t.len() {
        line_rows(t, ls, le, line, w, wrap)
    } else {
        line_rows(t, ls, le, line, w, wrap) + rows_from(t, le + 1, line + 1, w, wrap)
    }
}

/// The rows are well formed and follow each other as in a layout.
#[verifier::opaque]
pub open spec fn rows_ok(t: Seq<char>, rows: Seq<VisualLine>, w: usize, wrap: bool) -> bool {
    &&& rows.len() > 0 ==> rows[0].start_char == 0 && !rows[0].is_continuation
        && rows[0].logical_line == 0
    &&& forall|k: int| 0 <= k < rows.len() ==> row_ok(t, #[trigger] rows[k])
    &&& forall|k: int| 0 <= k < rows.len() - 1 ==> gap_ok(t, #[trigger] rows[k], rows[k + 1])
    &&& wrap ==> forall|k: int| 0 <= k < rows.len() ==> row_fits(t, #[trigger] rows[k], w)
    &&& !wrap ==> forall|k: int| 0 <= k < rows.len() ==> !(#[trigger] rows[k]).is_continuation
}

/// The rows end at or before `ls`, which starts logical line `line`.
pub open spec fn rows_reach(t: Seq<char>, rows: Seq<VisualLine>, ls: int, line: int) -> bool {
    &&& (rows.len() == 0) == (ls == 0)
    &&& rows.len() == 0 ==> line == 0
    &&& forall|k: int| 0 <= k < rows.len() ==> (#[trigger] rows[k]).end_char <= ls
    &&& ls > 0 ==> {
        let last = rows.last();
        &&& last.end_char < ls
        &&& t[ls - 1] == '\n'
        &&& only_spaces(t.subrange(last.end_char as int, ls - 1))
        &&& last.logical_line + 1 == line
    }
}

/// Adds the rows of the logical line `t[ls..le]`, numbered `line`.
fn push_line_rows(
    t: &Vec<char>,
    offs: &Vec<usize>,
    rows: &mut Vec<VisualLine>,
    ls: usize,
    le: usize,
    line: usize,
    w: usize,
    wrap: bool,
)
    requires
        ls <= le <= t@.len(),
        byte_len(t@) <= usize::MAX,
        forall|i: int| ls <= i < le ==> t@[i] != '\n',
        offs@.len() == t@.len() + 1,
        forall|i: int| 0 <= i <= t@.len() ==> #[trigger] offs@[i] == byte_offset(t@, i),
        rows_ok(t@, old(rows)@, w, wrap),
        rows_reach(t@, old(rows)@, ls as int, line as int),
    ensures
        rows_ok(t@, final(rows)@, w, wrap),
        final(rows)@.len() > 0,
        forall|k: int| 0 <= k < final(rows)@.len() ==> (#[trigger] final(rows)@[k]).end_char <= le,
        only_spaces(t@.subrange(final(rows)@.last().end_char as int, le as int)),
        final(rows)@.last().logical_line == line,
        final(rows)@ == old(rows)@ + line_rows(t@, ls as int, le as int, line as int, w, wrap),
{
    if !wrap || le == ls {
        push_plain_row(t, offs, rows, ls, le, line, w, wrap);
    } else {
        push_wrapped_rows(t, offs, rows, ls, le, line, w);
    }
}

/// Adds one row for the whole logical line `t[ls..le]`, numbered `line`.
fn push_plain_row(
    t: &Vec<char>,
    offs: &Vec<usize>,
    rows: &mut Vec<VisualLine>,
    ls: usize,
    le: usize,
    line: usize,
    w: usize,
    wrap: bool,
)
    requires
        ls <= le <= t@.len(),
        wrap ==> ls == le,
        forall|i: int| ls <= i < le ==> t@[i] != '\n',
        offs@.len() == t@.len() + 1,
        forall|i: int| 0 <= i <= t@.len() ==> #[trigger] offs@[i] == byte_offset(t@, i),
        rows_ok(t@, old(rows)@, w, wrap),
        rows_reach(t@, old(rows)@, ls as int, line as int),
    ensures
        rows_ok(t@, final(rows)@, w, wrap),
        final(rows)@.len() > 0,
        forall|k: int| 0 <= k < final(rows)@.len() ==> (#[trigger] final(rows)@[k]).end_char <= le,
        only_spaces(t@.subrange(final(rows)@.last().end_char as int, le as int)),
        final(rows)@.last().logical_line == line,
        final(rows)@ == old(rows)@ + line_rows(t@, ls as int, le as int, line as int, w, wrap),
{
    reveal(rows_ok);
    let ghost before = rows@;
    let ghost nb = before.len() as int;
        let row = VisualLine {
        start_byte: offs[ls],
        end_byte: offs[le],
        is_continuation: false,
        indent: 0,
        logical_line: line,
        start_char: ls,
        end_char: le,
    };
    rows.push(row);
    proof {
        assert(rows@.last() == row);
        assert(t@.subrange(le as int, le as int) =~= Seq::<char>::empty());
        assert forall|k: int| 0 <= k < rows@.len() implies row_ok(t@, #[trigger] rows@[k]) by {
            if k < nb {
                assert(rows@[k] == before[k]);
            }
        }
        assert forall|k: int| 0 <= k < rows@.len() - 1 implies gap_ok(
            t@,
            #[trigger] rows@[k],
            rows@[k + 1],
        ) by {
            assert(rows@[k] == before[k]);
            if k < nb - 1 {
                assert(rows@[k + 1] == before[k + 1]);
            }
        }
        assert forall|k: int| 0 <= k < rows@.len() implies (#[trigger] rows@[k]).end_char
            <= le by {
            if k < nb {
                assert(rows@[k] == before[k]);
            }
        }
        if wrap {
            assert(t@.subrange(ls as int, le as int) =~= Seq::<char>::empty());
            assert forall|k: int| 0 <= k < rows@.len() implies row_fits(
                t@,
                #[trigger] rows@[k],
                w,
            ) by {
                if k < nb {
                    assert(rows@[k] == before[k]);
                }
            }
        } else {
            assert forall|k: int| 0 <= k < rows@.len() implies !(
            #[trigger] rows@[k]).is_continuation by {
                if k < nb {
                    assert(rows@[k] == before[k]);
                }
            }
        }
    }
}

/// Adds the rows of `wrap_line` for the non-empty logical line `t[ls..le]`,
/// numbered `line`.
fn push_wrapped_rows(
    t: &Vec<char>,
    offs: &Vec<usize>,
    rows: &mut Vec<VisualLine>,
    ls: usize,
    le: usize,
    line: usize,
    w: usize,
)
    requires
        ls < le <= t@.len(),
        byte_len(t@) <= usize::MAX,
        forall|i: int| ls <= i < le ==> t@[i] != '\n',
        offs@.len() == t@.len() + 1,
        forall|i: int| 0 <= i <= t@.len() ==> #[trigger] offs@[i] == byte_offset(t@, i),
        rows_ok(t@, old(rows)@, w, true),
        rows_reach(t@, old(rows)@, ls as int, line as int),
    ensures
        rows_ok(t@, final(rows)@, w, true),
        final(rows)@.len() > 0,
        forall|k: int| 0 <= k < final(rows)@.len() ==> (#[trigger] final(rows)@[k]).end_char <= le,
        only_spaces(t@.subrange(final(rows)@.last().end_char as int, le as int)),
        final(rows)@.last().logical_line == line,
        final(rows)@ == old(rows)@ + line_rows(t@, ls as int, le as int, line as int, w, true),
{
    let ghost before = rows@;
    let ghost nb = before.len() as int;
    {
        let n = t.len();
        let hi_ind = if le < n {
            le + 1
        } else {
            le
        };
        let ind = calculate_indent(t, ls, hi_ind);
        let segs = wrap_line(t, ls, le, w, ind);
        let ghost sv = seg_view(segs@);
        let mut m: usize = 0;
        while m < segs.len()
            invariant
                m <= segs@.len(),
                ls < le <= t@.len(),
                n == t@.len(),
                forall|i: int| ls <= i < le ==> t@[i] != '\n',
                offs@.len() == n + 1,
                forall|i: int| 0 <= i <= n ==> #[trigger] offs@[i] == byte_offset(t@, i),
                sv == seg_view(segs@),
                segs_tile(t@, ls as int, le as int, sv),
                rows@.len() == nb + m,
                nb == before.len(),
                rows@ == before + Seq::new(m as nat, |k: int| seg_row(t@, sv[k], k, ind, line as int)),
                forall|k: int| 0 <= k < nb ==> rows@[k] == before[k],
                forall|k: int|
                    0 <= k < m ==> {
                        let r = #[trigger] rows@[nb + k];
                        &&& r.start_char == sv[k].0
                        &&& r.end_char == sv[k].1
                        &&& r.is_continuation == (k > 0)
                        &&& r.indent == if k > 0 {
                            ind
                        } else {
                            0
                        }
                        &&& r.logical_line == line
                        &&& row_ok(t@, r)
                    },
            decreases segs@.len() - m,
        {
            let (a, b) = segs[m];
            proof {
                assert(sv[m as int] == (a as int, b as int));
                assert(ls <= sv[m as int].0 < sv[m as int].1 <= le);
            }
            let row = VisualLine {
                start_byte: offs[a],
                end_byte: offs[b],
                is_continuation: m > 0,
                indent: if m > 0 {
                    ind
                } else {
                    0
                },
                logical_line: line,
                start_char: a,
                end_char: b,
            };
            let ghost prev = rows@;
            rows.push(row);
            proof {
                assert(row == seg_row(t@, sv[m as int], m as int, ind, line as int));
                assert(rows@ =~= before + Seq::new((m + 1) as nat, |k: int| seg_row(t@, sv[k], k, ind, line as int)));
                assert(rows@[nb + m] == row);
                assert forall|k: int| 0 <= k < m + 1 implies {
                    let r = #[trigger] rows@[nb + k];
                    &&& r.start_char == sv[k].0
                    &&& r.end_char == sv[k].1
                    &&& r.is_continuation == (k > 0)
                    &&& r.indent == if k > 0 {
                        ind
                    } else {
                        0
                    }
                    &&& r.logical_line == line
                    &&& row_ok(t@, r)
                } by {
                    if k < m {
                        assert(rows@[nb + k] == prev[nb + k]);
                    }
                }
            }
            m = m + 1;
        }
        proof {
            lemma_rows_after_wrap(t@, before, rows@, sv, ls as int, le as int, line, ind, w);
            assert(rows@ =~= before + line_rows(t@, ls as int, le as int, line as int, w, true));
        }
    }
}

#[verifier::rlimit(50)]
proof fn lemma_wrap_gaps(
    t: Seq<char>,
    before: Seq<VisualLine>,
    rows: Seq<VisualLine>,
    sv: Seq<(int, int)>,
    ls: int,
    le: int,
    line: usize,
    ind: usize,
    w: usize,
)
    requires
        0 <= ls < le <= t.len(),
        rows_ok(t, before, w, true),
        rows_reach(t, before, ls, line as int),
        segs_tile(t, ls, le, sv),
        segs_fit(t, sv, w, ind, true),
        rows.len() == before.len() + sv.len(),
        forall|k: int| 0 <= k < before.len() ==> rows[k] == before[k],
        forall|k: int|
            0 <= k < sv.len() ==> {
                let r = #[trigger] rows[before.len() + k];
                &&& r.start_char == sv[k].0
                &&& r.end_char == sv[k].1
                &&& r.is_continuation == (k > 0)
                &&& r.indent == if k > 0 {
                    ind
                } else {
                    0
                }
                &&& r.logical_line == line
                &&& row_ok(t, r)
            },
    ensures
        forall|k: int| 0 <= k < rows.len() - 1 ==> gap_ok(t, #[trigger] rows[k], rows[k + 1]),
{
    reveal(rows_ok);
    let nb = before.len() as int;
    assert forall|k: int| 0 <= k < rows.len() - 1 implies gap_ok(
        t,
        #[trigger] rows[k],
        rows[k + 1],
    ) by {
        if k < nb - 1 {
            assert(rows[k] == before[k]);
            assert(rows[k + 1] == before[k + 1]);
        } else if k == nb - 1 {
            assert(rows[k] == before[k]);
            assert(rows[nb + 0] == rows[k + 1]);
        } else {
            assert(rows[nb + (k - nb)] == rows[k]);
            assert(rows[nb + (k + 1 - nb)] == rows[k + 1]);
            assert(sv[k - nb].1 <= sv[k - nb + 1].0);
        }
    }
}

#[verifier::rlimit(50)]
proof fn lemma_wrap_fits(
    t: Seq<char>,
    before: Seq<VisualLine>,
    rows: Seq<VisualLine>,
    sv: Seq<(int, int)>,
    ls: int,
    le: int,
    line: usize,
    ind: usize,
    w: usize,
)
    requires
        0 <= ls < le <= t.len(),
        rows_ok(t, before, w, true),
        rows_reach(t, before, ls, line as int),
        segs_tile(t, ls, le, sv),
        segs_fit(t, sv, w, ind, true),
        rows.len() == before.len() + sv.len(),
        forall|k: int| 0 <= k < before.len() ==> rows[k] == before[k],
        forall|k: int|
            0 <= k < sv.len() ==> {
                let r = #[trigger] rows[before.len() + k];
                &&& r.start_char == sv[k].0
                &&& r.end_char == sv[k].1
                &&& r.is_continuation == (k > 0)
                &&& r.indent == if k > 0 {
                    ind
                } else {
                    0
                }
                &&& r.logical_line == line
                &&& row_ok(t, r)
            },
    ensures
        forall|k: int| 0 <= k < rows.len() ==> row_fits(t, #[trigger] rows[k], w),
{
    reveal(rows_ok);
    let nb = before.len() as int;
    assert forall|k: int| 0 <= k < rows.len() implies row_fits(t, #[trigger] rows[k], w) by {
        if k >= nb {
            assert(rows[nb + (k - nb)] == rows[k]);
            assert(sv[k - nb].1 == sv[k - nb].0 + 1 || columns(
                t.subrange(sv[k - nb].0, sv[k - nb].1),
            ) <= avail_width(w, ind, true && k - nb == 0));
        } else {
            assert(rows[k] == before[k]);
        }
    }
}

#[verifier::rlimit(60)]
proof fn lemma_wrap_rows_ok(
    t: Seq<char>,
    before: Seq<VisualLine>,
    rows: Seq<VisualLine>,
    sv: Seq<(int, int)>,
    ls: int,
    le: int,
    line: usize,
    ind: usize,
    w: usize,
)
    requires
        0 <= ls < le <= t.len(),
        rows_ok(t, before, w, true),
        rows_reach(t, before, ls, line as int),
        segs_tile(t, ls, le, sv),
        segs_fit(t, sv, w, ind, true),
        rows.len() == before.len() + sv.len(),
        forall|k: int| 0 <= k < before.len() ==> rows[k] == before[k],
        forall|k: int|
            0 <= k < sv.len() ==> {
                let r = #[trigger] rows[before.len() + k];
                &&& r.start_char == sv[k].0
                &&& r.end_char == sv[k].1
                &&& r.is_continuation == (k > 0)
                &&& r.indent == if k > 0 {
                    ind
                } else {
                    0
                }
                &&& r.logical_line == line
                &&& row_ok(t, r)
            },
    ensures
        forall|k: int| 0 <= k < rows.len() ==> row_ok(t, #[trigger] rows[k]),
        forall|k: int| 0 <= k < rows.len() ==> (#[trigger] rows[k]).end_char <= le,
{
    reveal(rows_ok);
    let nb = before.len() as int;
    assert forall|k: int| 0 <= k < rows.len() implies row_ok(t, #[trigger] rows[k]) by {
        if k >= nb {
            assert(rows[nb + (k - nb)] == rows[k]);
        }
    }
    assert forall|k: int| 0 <= k < rows.len() implies (#[trigger] rows[k]).end_char <= le by {
        if k >= nb {
            assert(rows[nb + (k - nb)] == rows[k]);
        } else {
            assert(rows[k] == before[k]);
        }
    }
}

#[verifier::rlimit(60)]
proof fn lemma_wrap_first(
    t: Seq<char>,
    before: Seq<VisualLine>,
    rows: Seq<VisualLine>,
    sv: Seq<(int, int)>,
    ls: int,
    le: int,
    line: usize,
    ind: usize,
    w: usize,
)
    requires
        0 <= ls < le <= t.len(),
        rows_ok(t, before, w, true),
        rows_reach(t, before, ls, line as int),
        segs_tile(t, ls, le, sv),
        segs_fit(t, sv, w, ind, true),
        rows.len() == before.len() + sv.len(),
        forall|k: int| 0 <= k < before.len() ==> rows[k] == before[k],
        forall|k: int|
            0 <= k < sv.len() ==> {
                let r = #[trigger] rows[before.len() + k];
                &&& r.start_char == sv[k].0
                &&& r.end_char == sv[k].1
                &&& r.is_continuation == (k > 0)
                &&& r.indent == if k > 0 {
                    ind
                } else {
                    0
                }
                &&& r.logical_line == line
                &&& row_ok(t, r)
            },
    ensures
        rows[0].start_char == 0 && !rows[0].is_continuation && rows[0].logical_line == 0,
{
    reveal(rows_ok);
    let nb = before.len() as int;
    if nb == 0 {
        assert(rows[nb + 0] == rows[0]);
    } else {
        assert(rows[0] == before[0]);
    }
}

proof fn lemma_rows_ok_intro(t: Seq<char>, rows: Seq<VisualLine>, w: usize)
    requires
        rows.len() > 0 ==> rows[0].start_char == 0 && !rows[0].is_continuation
            && rows[0].logical_line == 0,
        forall|k: int| 0 <= k < rows.len() ==> row_ok(t, #[trigger] rows[k]),
        forall|k: int| 0 <= k < rows.len() - 1 ==> gap_ok(t, #[trigger] rows[k], rows[k + 1]),
        forall|k: int| 0 <= k < rows.len() ==> row_fits(t, #[trigger] rows[k], w),
    ensures
        rows_ok(t, rows, w, true),
{
    reveal(rows_ok);
}

#[verifier::rlimit(100)]
proof fn lemma_rows_after_wrap(
    t: Seq<char>,
    before: Seq<VisualLine>,
    rows: Seq<VisualLine>,
    sv: Seq<(int, int)>,
    ls: int,
    le: int,
    line: usize,
    ind: usize,
    w: usize,
)
    requires
        0 <= ls < le <= t.len(),
        rows_ok(t, before, w, true),
        rows_reach(t, before, ls, line as int),
        segs_tile(t, ls, le, sv),
        segs_fit(t, sv, w, ind, true),
        rows.len() == before.len() + sv.len(),
        forall|k: int| 0 <= k < before.len() ==> rows[k] == before[k],
        forall|k: int|
            0 <= k < sv.len() ==> {
                let r = #[trigger] rows[before.len() + k];
                &&& r.start_char == sv[k].0
                &&& r.end_char == sv[k].1
                &&& r.is_continuation == (k > 0)
                &&& r.indent == if k > 0 {
                    ind
                } else {
                    0
                }
                &&& r.logical_line == line
                &&& row_ok(t, r)
            },
    ensures
        rows_ok(t, rows, w, true),
        rows.len() > 0,
        forall|k: int| 0 <= k < rows.len() ==> (#[trigger] rows[k]).end_char <= le,
        only_spaces(t.subrange(rows.last().end_char as int, le)),
        rows.last().logical_line == line,
{
    let nb = before.len() as int;
    let ns = sv.len() as int;
    lemma_wrap_gaps(t, before, rows, sv, ls, le, line, ind, w);
    lemma_wrap_fits(t, before, rows, sv, ls, le, line, ind, w);
    lemma_wrap_rows_ok(t, before, rows, sv, ls, le, line, ind, w);
    lemma_wrap_first(t, before, rows, sv, ls, le, line, ind, w);
    lemma_rows_ok_intro(t, rows, w);
    assert(rows.last() == rows[nb + (ns - 1)]);
}

/// Lays out the text `t` for a viewport `w` columns wide. Each logical
/// line gives one row without word wrap; with it, an empty line gives one
/// empty row and any other the rows of `wrap_line`, indented by
/// `list_indent` after the first.
pub fn build_rows(t: &Vec<char>, w: usize, wrap: bool) -> (rows: Vec<VisualLine>)
    requires
        byte_len(t@) <= usize::MAX,
    ensures
        layout_ok(t@, rows@, w, wrap),
        rows@ == rows_from(t@, 0, 0, w, wrap),
{
    let offs = byte_offsets(t);
    let n = t.len();
    let mut rows: Vec<VisualLine> = Vec::new();
    let mut ls: usize = 0;
    let mut line: usize = 0;
    proof {
        reveal(rows_ok);
        assert(rows@ + rows_from(t@, 0, 0, w, wrap) =~= rows_from(t@, 0, 0, w, wrap));
    }
    loop
        invariant_except_break
            ls <= n,
            n == t@.len(),
            byte_len(t@) <= usize::MAX,
            offs@.len() == n + 1,
            forall|i: int| 0 <= i <= n ==> #[trigger] offs@[i] == byte_offset(t@, i),
            line <= ls,
            rows_ok(t@, rows@, w, wrap),
            rows_reach(t@, rows@, ls as int, line as int),
            rows@ + rows_from(t@, ls as int, line as int, w, wrap) == rows_from(t@, 0, 0, w, wrap),
        ensures
            layout_ok(t@, rows@, w, wrap),
            rows@ == rows_from(t@, 0, 0, w, wrap),
        decreases n - ls,
    {
        let mut le = ls;
        while le < n && t[le] != '\n'
            invariant
                ls <= le <= n,
                n == t@.len(),
                forall|i: int| ls <= i < le ==> t@[i] != '\n',
                line_end(t@, le as int) == line_end(t@, ls as int),
            decreases n - le,
        {
            le = le + 1;
        }
        let ghost prev = rows@;
        push_line_rows(t, &offs, &mut rows, ls, le, line, w, wrap);
        proof {
            let rest = rows_from(t@, ls as int, line as int, w, wrap);
            if le < n {
                assert(rest == line_rows(t@, ls as int, le as int, line as int, w, wrap) + rows_from(t@, le + 1, line + 1, w, wrap));
                assert(rows@ + rows_from(t@, le + 1, line + 1, w, wrap) =~= prev + rest);
            } else {
                assert(rest == line_rows(t@, ls as int, le as int, line as int, w, wrap));
                assert(rows@ + Seq::<VisualLine>::empty() =~= prev + rest);
                assert(rows@ =~= prev + rest);
            }
        }
        if le == n {
            proof {
                reveal(rows_ok);
                reveal(layout_ok);
            }
            break ;
        }
        ls = le + 1;
        line = line + 1;
    }
    rows
}

/// `a + b`, saturating at `usize::MAX`.
pub open spec fn sat(a: int) -> usize {
    if a <= usize::MAX {
        a as usize
    } else {
        usize::MAX
    }
}

/// The visual row index of content row `k` (past the virtual rows).
pub open spec fn vrow(k: int) -> usize {
    sat(k + 2)
}

/// Where byte `b` shows, scanning the rows from `k`: a position at the end of
/// a row that a continuation starting there follows shows at that
/// continuation's indent; a position within a row shows at the row's indent
/// plus the columns before it; past every row, the last row at column 0.
pub open spec fn visual_pos_from(t: Seq<char>, rows: Seq<VisualLine>, b: usize, k: int) -> (usize, usize)
    decreases rows.len() - k,
{
    if k < 0 || k >= rows.len() {
        (vrow(rows.len() - 1), 0)
    } else {
        let vl = rows[k];
        if b == vl.end_byte && k + 1 < rows.len() && rows[k + 1].is_continuation
            && rows[k + 1].start_byte == vl.end_byte {
            (vrow(k + 1), rows[k + 1].indent)
        } else if vl.start_byte <= b <= vl.end_byte {
            (
                vrow(k),
                sat(
                    vl.indent + columns(
                        t.subrange(vl.start_char as int, char_index(t, b as int)),
                    ),
                ),
            )
        } else {
            visual_pos_from(t, rows, b, k + 1)
        }
    }
}

/// The char index where a walk from `i` stops: it passes characters while
/// the columns passed (`width`) stay below `target`, never past `end`.
pub open spec fn walk_to_column(t: Seq<char>, i: int, end: int, width: nat, target: nat) -> int
    decreases end - i,
{
    if i >= end || width >= target {
        i
    } else {
        walk_to_column(t, i + 1, end, width + char_columns(t[i]), target)
    }
}

/// The byte offset that visual row `row`, column `col` stands for: within
/// a content row, where a walk over its characters reaches `col` less the
/// row's indent (a column inside a continuation's indent gives the row's
/// start); on a virtual row, the end of the text.
pub open spec fn byte_at_visual(t: Seq<char>, rows: Seq<VisualLine>, row: usize, col: usize) -> usize {
    if row >= 2 && row - 2 < rows.len() {
        let vl = rows[row - 2];
        if vl.is_continuation && col < vl.indent {
            vl.start_byte
        } else {
            let adj = if col >= vl.indent {
                (col - vl.indent) as nat
            } else {
                0
            };
            byte_offset(t, walk_to_column(t, vl.start_char as int, vl.end_char as int, 0, adj)) as usize
        }
    } else {
        byte_len(t) as usize
    }
}

proof fn lemma_walk_bounds(t: Seq<char>, i: int, end: int, width: nat, target: nat)
    requires
        i <= end,
    ensures
        i <= walk_to_column(t, i, end, width, target) <= end,
    decreases end - i,
{
    if !(i >= end || width >= target) {
        lemma_walk_bounds(t, i + 1, end, width + char_columns(t[i]), target);
    }
}

/// A layout has a row, and each of its rows is well formed.
pub proof fn lemma_layout_rows(t: Seq<char>, rows: Seq<VisualLine>, w: usize, wrap: bool)
    requires
        layout_ok(t, rows, w, wrap),
    ensures
        rows.len() > 0,
        forall|k: int| 0 <= k < rows.len() ==> row_ok(t, #[trigger] rows[k]),
{
    reveal(layout_ok);
}

/// The char index of a walk over a row maps to a boundary of the text.
pub proof fn lemma_walk_boundary(t: Seq<char>, vl: VisualLine, adj: nat)
    requires
        row_ok(t, vl),
    ensures
        vl.start_char <= walk_to_column(t, vl.start_char as int, vl.end_char as int, 0, adj) <= vl.end_char,
        is_boundary(t, byte_offset(t, walk_to_column(t, vl.start_char as int, vl.end_char as int, 0, adj)) as int),
{
    lemma_walk_bounds(t, vl.start_char as int, vl.end_char as int, 0, adj);
    crate::text::lemma_char_index(t, walk_to_column(t, vl.start_char as int, vl.end_char as int, 0, adj));
}

/// With word wrap, no row is wider than the columns available to it (the
/// viewport width on a line's first row, the width less the continuation
/// indent after it), unless the row is a single character wider than that.
pub proof fn lemma_rows_fit_viewport(t: Seq<char>, rows: Seq<VisualLine>, w: usize, k: int)
    requires
        layout_ok(t, rows, w, true),
        w >= 1,
        0 <= k < rows.len(),
    ensures
        rows[k].end_char == rows[k].start_char + 1 || columns(
            t.subrange(rows[k].start_char as int, rows[k].end_char as int),
        ) <= if rows[k].is_continuation {
            if w > rows[k].indent {
                (w - rows[k].indent) as nat
            } else {
                1
            }
        } else {
            w as nat
        },
{
    reveal(layout_ok);
    assert(row_fits(t, rows[k], w));
}

/// The rows rebuild the text: taken in order they do not overlap, and a
/// character that lies in no row is a space skipped at a wrap or a line
/// feed between logical lines.
pub proof fn lemma_rows_cover_text(t: Seq<char>, rows: Seq<VisualLine>, w: usize, wrap: bool, i: int)
    requires
        layout_ok(t, rows, w, wrap),
        0 <= i < t.len(),
    ensures
        (exists|j: int| 0 <= j < rows.len() && (#[trigger] rows[j]).start_char <= i < rows[j].end_char) || t[i]
            == ' ' || t[i] == '\n',
        forall|j: int| 0 <= j < rows.len() - 1 ==> (#[trigger] rows[j]).end_char <= rows[j + 1].start_char,
{
    reveal(layout_ok);
    assert forall|j: int| 0 <= j < rows.len() - 1 implies (#[trigger] rows[j]).end_char
        <= rows[j + 1].start_char by {
        assert(gap_ok(t, rows[j], rows[j + 1]));
    }
    lemma_cover_from(t, rows, 0, i);
}

proof fn lemma_cover_from(t: Seq<char>, rows: Seq<VisualLine>, k: int, i: int)
    requires
        rows.len() > 0,
        forall|j: int| 0 <= j < rows.len() ==> row_ok(t, #[trigger] rows[j]),
        forall|j: int| 0 <= j < rows.len() - 1 ==> gap_ok(t, #[trigger] rows[j], rows[j + 1]),
        only_spaces(t.subrange(rows.last().end_char as int, t.len() as int)),
        0 <= k < rows.len(),
        rows[k].start_char <= i < t.len(),
    ensures
        (exists|j: int| 0 <= j < rows.len() && (#[trigger] rows[j]).start_char <= i < rows[j].end_char) || t[i]
            == ' ' || t[i] == '\n',
    decreases rows.len() - k,
{
    let r = rows[k];
    assert(row_ok(t, r));
    if i < r.end_char {
        assert(0 <= k < rows.len() && rows[k].start_char <= i < rows[k].end_char);
    } else if k + 1 < rows.len() {
        let nx = rows[k + 1];
        assert(gap_ok(t, r, nx));
        assert(row_ok(t, nx));
        if i < nx.start_char {
            if nx.is_continuation {
                assert(t.subrange(r.end_char as int, nx.start_char as int)[i - r.end_char] == t[i]);
            } else if i < nx.start_char - 1 {
                assert(t.subrange(r.end_char as int, nx.start_char - 1)[i - r.end_char] == t[i]);
            }
        } else {
            lemma_cover_from(t, rows, k + 1, i);
        }
    } else {
        assert(t.subrange(r.end_char as int, t.len() as int)[i - r.end_char] == t[i]);
    }
}

} // verus!
