//! Reversible edit operations and the time-coalesced undo/redo history.
use vstd::prelude::*;
use vstd::string::*;
use crate::buffer::Buffer;
use crate::text::{byte_offset, char_index, is_boundary, lemma_char_index, lemma_offset_prefix};

verus! {

/// Milliseconds within which consecutive edits join one undo group.
pub const COALESCE_MS: u64 = 1000;

/// A plain-text insertion or removal at a byte offset.
pub enum EditOp {
    Insert { pos: usize, text: String },
    Delete { pos: usize, text: String },
}

/// An operation with the caret before and after it, and the selection
/// anchor before it.
pub type EditRecord = (EditOp, usize, usize, Option<usize>);

/// Operations that undo and redo together.
pub struct UndoGroup {
    pub ops: Vec<EditRecord>,
    pub timestamp: u64,
}

pub open spec fn op_pos(op: EditOp) -> int {
    match op {
        EditOp::Insert { pos, .. } => pos as int,
        EditOp::Delete { pos, .. } => pos as int,
    }
}

pub open spec fn op_text(op: EditOp) -> Seq<char> {
    match op {
        EditOp::Insert { text, .. } => text@,
        EditOp::Delete { text, .. } => text@,
    }
}

pub open spec fn is_insert(op: EditOp) -> bool {
    op is Insert
}

/// `t` holds `s` starting at char index `i`.
pub open spec fn holds_at(t: Seq<char>, i: int, s: Seq<char>) -> bool {
    0 <= i && i + s.len() <= t.len() && t.subrange(i, i + s.len()) == s
}

/// `op` can be applied to `t`: its offset is a boundary, and a removal finds
/// its text there.
pub open spec fn op_applies(t: Seq<char>, op: EditOp) -> bool {
    &&& is_boundary(t, op_pos(op))
    &&& !is_insert(op) ==> holds_at(t, char_index(t, op_pos(op)), op_text(op))
}

pub open spec fn apply_op(t: Seq<char>, op: EditOp) -> Seq<char> {
    let i = char_index(t, op_pos(op));
    if is_insert(op) {
        t.take(i) + op_text(op) + t.skip(i)
    } else {
        t.take(i) + t.skip(i + op_text(op).len())
    }
}

/// `op` can be taken back from `t`: an insertion finds its text there.
pub open spec fn op_reverts(t: Seq<char>, op: EditOp) -> bool {
    &&& is_boundary(t, op_pos(op))
    &&& is_insert(op) ==> holds_at(t, char_index(t, op_pos(op)), op_text(op))
}

pub open spec fn revert_op(t: Seq<char>, op: EditOp) -> Seq<char> {
    let i = char_index(t, op_pos(op));
    if is_insert(op) {
        t.take(i) + t.skip(i + op_text(op).len())
    } else {
        t.take(i) + op_text(op) + t.skip(i)
    }
}

/// A record is applicable: its operation applies and both carets are
/// boundaries of the text they belong to.
pub open spec fn record_applies(t: Seq<char>, r: EditRecord) -> bool {
    &&& op_applies(t, r.0)
    &&& is_boundary(t, r.1 as int)
    &&& is_boundary(apply_op(t, r.0), r.2 as int)
    &&& (r.3 matches Some(a) ==> is_boundary(t, a as int))
}

pub open spec fn record_reverts(t: Seq<char>, r: EditRecord) -> bool {
    &&& op_reverts(t, r.0)
    &&& is_boundary(t, r.2 as int)
    &&& is_boundary(revert_op(t, r.0), r.1 as int)
    &&& (r.3 matches Some(a) ==> is_boundary(revert_op(t, r.0), a as int))
}

/// The text after applying the records of `g` in order.
pub open spec fn apply_ops(t: Seq<char>, g: Seq<EditRecord>) -> Seq<char>
    decreases g.len(),
{
    if g.len() == 0 {
        t
    } else {
        apply_op(apply_ops(t, g.drop_last()), g.last().0)
    }
}

pub open spec fn ops_apply(t: Seq<char>, g: Seq<EditRecord>) -> bool
    decreases g.len(),
{
    g.len() == 0 || (ops_apply(t, g.drop_last()) && record_applies(apply_ops(t, g.drop_last()), g.last()))
}

/// The text after taking back the records of `g`, the latest first.
pub open spec fn revert_ops(t: Seq<char>, g: Seq<EditRecord>) -> Seq<char>
    decreases g.len(),
{
    if g.len() == 0 {
        t
    } else {
        revert_ops(revert_op(t, g.last().0), g.drop_last())
    }
}

pub open spec fn ops_revert(t: Seq<char>, g: Seq<EditRecord>) -> bool
    decreases g.len(),
{
    g.len() == 0 || (record_reverts(t, g.last()) && ops_revert(revert_op(t, g.last().0), g.drop_last()))
}

/// The text after undoing every group of `gs`, the latest first.
pub open spec fn revert_all(t: Seq<char>, gs: Seq<Seq<EditRecord>>) -> Seq<char>
    decreases gs.len(),
{
    if gs.len() == 0 {
        t
    } else {
        revert_all(revert_ops(t, gs.last()), gs.drop_last())
    }
}

/// Every group of `gs`, the latest first, is non-empty and can be undone.
pub open spec fn undo_chain(t: Seq<char>, gs: Seq<Seq<EditRecord>>) -> bool
    decreases gs.len(),
{
    gs.len() == 0 || (gs.last().len() > 0 && ops_revert(t, gs.last()) && undo_chain(
        revert_ops(t, gs.last()),
        gs.drop_last(),
    ))
}

/// Every group of `gs`, the latest first, is non-empty and can be redone.
pub open spec fn redo_chain(t: Seq<char>, gs: Seq<Seq<EditRecord>>) -> bool
    decreases gs.len(),
{
    gs.len() == 0 || (gs.last().len() > 0 && ops_apply(t, gs.last()) && redo_chain(
        apply_ops(t, gs.last()),
        gs.drop_last(),
    ))
}

pub proof fn lemma_op_round_trip(t: Seq<char>, op: EditOp)
    requires
        op_applies(t, op),
    ensures
        op_reverts(apply_op(t, op), op),
        revert_op(apply_op(t, op), op) =~= t,
        char_index(apply_op(t, op), op_pos(op)) == char_index(t, op_pos(op)),
{
    let i = char_index(t, op_pos(op));
    let u = apply_op(t, op);
    assert(u.take(i) =~= t.take(i));
    lemma_offset_prefix(u, t, i);
    lemma_char_index(u, i);
    if is_insert(op) {
        assert(u.subrange(i, i + op_text(op).len()) =~= op_text(op));
        assert(u.skip(i + op_text(op).len()) =~= t.skip(i));
    } else {
        assert(t.subrange(i, i + op_text(op).len()) == op_text(op));
        assert(t =~= t.take(i) + t.subrange(i, i + op_text(op).len()) + t.skip(i + op_text(op).len()));
    }
}

pub proof fn lemma_op_back_trip(t: Seq<char>, op: EditOp)
    requires
        op_reverts(t, op),
    ensures
        op_applies(revert_op(t, op), op),
        apply_op(revert_op(t, op), op) =~= t,
        char_index(revert_op(t, op), op_pos(op)) == char_index(t, op_pos(op)),
{
    let i = char_index(t, op_pos(op));
    let u = revert_op(t, op);
    assert(u.take(i) =~= t.take(i));
    lemma_offset_prefix(u, t, i);
    lemma_char_index(u, i);
    if is_insert(op) {
        assert(t =~= t.take(i) + t.subrange(i, i + op_text(op).len()) + t.skip(i + op_text(op).len()));
    } else {
        assert(u.subrange(i, i + op_text(op).len()) =~= op_text(op));
        assert(u.skip(i + op_text(op).len()) =~= t.skip(i));
    }
}

pub proof fn lemma_record_round_trip(t: Seq<char>, r: EditRecord)
    requires
        record_applies(t, r),
    ensures
        record_reverts(apply_op(t, r.0), r),
        revert_op(apply_op(t, r.0), r.0) == t,
{
    lemma_op_round_trip(t, r.0);
}

pub proof fn lemma_record_back_trip(t: Seq<char>, r: EditRecord)
    requires
        record_reverts(t, r),
    ensures
        record_applies(revert_op(t, r.0), r),
        apply_op(revert_op(t, r.0), r.0) == t,
{
    lemma_op_back_trip(t, r.0);
}

/// Applying a group and then undoing it gives back the text.
pub proof fn lemma_group_round_trip(t: Seq<char>, g: Seq<EditRecord>)
    requires
        ops_apply(t, g),
    ensures
        ops_revert(apply_ops(t, g), g),
        revert_ops(apply_ops(t, g), g) == t,
    decreases g.len(),
{
    if g.len() > 0 {
        let u = apply_ops(t, g.drop_last());
        lemma_record_round_trip(u, g.last());
        lemma_group_round_trip(t, g.drop_last());
    }
}

/// Undoing a group and then redoing it gives back the text.
pub proof fn lemma_group_back_trip(t: Seq<char>, g: Seq<EditRecord>)
    requires
        ops_revert(t, g),
    ensures
        ops_apply(revert_ops(t, g), g),
        apply_ops(revert_ops(t, g), g) == t,
    decreases g.len(),
{
    if g.len() > 0 {
        let v = revert_op(t, g.last().0);
        lemma_group_back_trip(v, g.drop_last());
        lemma_record_back_trip(t, g.last());
    }
}

pub proof fn lemma_ops_apply_prefix(t: Seq<char>, g: Seq<EditRecord>, k: int)
    requires
        ops_apply(t, g),
        0 <= k <= g.len(),
    ensures
        ops_apply(t, g.take(k)),
        k < g.len() ==> record_applies(apply_ops(t, g.take(k)), g[k]),
    decreases g.len() - k,
{
    if k == g.len() {
        assert(g.take(k) =~= g);
    } else {
        lemma_ops_apply_prefix(t, g, k + 1);
        assert(g.take(k + 1).drop_last() =~= g.take(k));
    }
}

/// A new group holding one applicable record keeps the undo chain.
pub proof fn lemma_chain_push_group(t: Seq<char>, r: EditRecord, gs: Seq<Seq<EditRecord>>)
    requires
        undo_chain(t, gs),
        record_applies(t, r),
    ensures
        undo_chain(apply_op(t, r.0), gs.push(seq![r])),
        revert_all(apply_op(t, r.0), gs.push(seq![r])) == revert_all(t, gs),
{
    lemma_record_round_trip(t, r);
    let u = apply_op(t, r.0);
    let one = seq![r];
    let none = Seq::<EditRecord>::empty();
    assert(one.last() == r);
    assert(one.drop_last() =~= none);
    assert(ops_revert(t, none));
    assert(revert_ops(t, none) == t);
    assert(ops_revert(u, one));
    assert(revert_ops(u, one) == t);
    let gs2 = gs.push(one);
    assert(gs2.last() == one);
    assert(gs2.drop_last() =~= gs);
}

/// An applicable record added to the latest group keeps the undo chain.
pub proof fn lemma_chain_join_group(t: Seq<char>, r: EditRecord, gs: Seq<Seq<EditRecord>>)
    requires
        gs.len() > 0,
        undo_chain(t, gs),
        record_applies(t, r),
    ensures
        undo_chain(apply_op(t, r.0), gs.drop_last().push(gs.last().push(r))),
        revert_all(apply_op(t, r.0), gs.drop_last().push(gs.last().push(r))) == revert_all(t, gs),
{
    lemma_record_round_trip(t, r);
    let g = gs.last().push(r);
    assert(g.drop_last() =~= gs.last());
    assert(gs.drop_last().push(g).drop_last() =~= gs.drop_last());
}

/// Undoing a group and then redoing it gives back the text exactly, for
/// every group that can be undone on the text.
pub proof fn lemma_undo_then_redo(t: Seq<char>, g: Seq<EditRecord>)
    requires
        ops_revert(t, g),
    ensures
        ops_apply(revert_ops(t, g), g),
        apply_ops(revert_ops(t, g), g) == t,
{
    lemma_group_back_trip(t, g);
}

/// `new` is `old` after edits made at time `now`, which took the text from
/// `t0` to `t1` while the caret and the anchor before them were `c0` and
/// `a0`: they joined the open group if `old.joins(now)`, else they started
/// one group after the earlier ones; undoing that group gives back what it
/// gave back before, or `t0`; it starts with the caret and anchor it started
/// with before, or `c0` and `a0`. The redo stack is dropped.
pub open spec fn extends(
    old: History,
    new: History,
    t0: Seq<char>,
    t1: Seq<char>,
    c0: usize,
    a0: Option<usize>,
    now: u64,
) -> bool {
    let gs = old.undo_groups();
    let ns = new.undo_groups();
    &&& new.origin() == old.origin()
    &&& new.redo_groups().len() == 0
    &&& new.last_edit() == Some(now)
    &&& new.has_open_group()
    &&& ns.len() > 0
    &&& ns.last().len() > 0
    &&& if old.joins(now) {
        &&& gs.len() > 0
        &&& ns.len() == gs.len()
        &&& ns.drop_last() == gs.drop_last()
        &&& ns.last()[0] == gs.last()[0]
        &&& revert_ops(t1, ns.last()) == revert_ops(t0, gs.last())
    } else {
        &&& ns.len() == gs.len() + 1
        &&& ns.drop_last() == gs
        &&& ns.last()[0].1 == c0
        &&& ns.last()[0].3 == a0
        &&& revert_ops(t1, ns.last()) == t0
    }
}

proof fn lemma_extends_new(old: History, new: History, t: Seq<char>, r: EditRecord, now: u64)
    requires
        !old.joins(now),
        record_applies(t, r),
        new.undo_groups() == old.undo_groups().push(seq![r]),
        new.origin() == old.origin(),
        new.redo_groups().len() == 0,
        new.last_edit() == Some(now),
        new.has_open_group(),
    ensures
        extends(old, new, t, apply_op(t, r.0), r.1, r.3, now),
{
    lemma_record_round_trip(t, r);
    let one = seq![r];
    assert(one.drop_last() =~= Seq::<EditRecord>::empty());
    assert(one.last() == r);
    assert(revert_ops(t, Seq::<EditRecord>::empty()) == t);
    assert(revert_ops(apply_op(t, r.0), one) == revert_ops(revert_op(apply_op(t, r.0), r.0), one.drop_last()));
    assert(revert_ops(apply_op(t, r.0), one) == t);
    assert(old.undo_groups().push(one).drop_last() =~= old.undo_groups());
}

proof fn lemma_extends_join(old: History, new: History, t: Seq<char>, r: EditRecord, now: u64)
    requires
        old.joins(now),
        record_applies(t, r),
        old.undo_groups().len() > 0,
        old.undo_groups().last().len() > 0,
        new.undo_groups() == old.undo_groups().drop_last().push(old.undo_groups().last().push(r)),
        new.origin() == old.origin(),
        new.redo_groups().len() == 0,
        new.last_edit() == Some(now),
        new.has_open_group(),
    ensures
        extends(old, new, t, apply_op(t, r.0), r.1, r.3, now),
{
    lemma_record_round_trip(t, r);
    let gs = old.undo_groups();
    let g = gs.last();
    assert(g.push(r).drop_last() =~= g);
    assert(revert_ops(apply_op(t, r.0), g.push(r)) == revert_ops(t, g));
    assert(gs.drop_last().push(g.push(r)).drop_last() =~= gs.drop_last());
}

/// `new` holds one group more than `old`, after the earlier ones, and no
/// group to redo: undoing that group takes the text `t1` back to `t0` and
/// restores the caret `c0` and the anchor `a0`.
pub open spec fn adds_unit(
    old: History,
    new: History,
    t0: Seq<char>,
    t1: Seq<char>,
    c0: usize,
    a0: Option<usize>,
) -> bool {
    let gs = old.undo_groups();
    let ns = new.undo_groups();
    &&& new.origin() == old.origin()
    &&& ns.len() == gs.len() + 1
    &&& ns.drop_last() == gs
    &&& ns.last().len() > 0
    &&& revert_ops(t1, ns.last()) == t0
    &&& ns.last()[0].1 == c0
    &&& ns.last()[0].3 == a0
    &&& new.redo_groups().len() == 0
}

/// Edits that start after the group was closed, then closing it, add one
/// unit.
pub proof fn lemma_unit_from_extends(
    ha: History,
    h0: History,
    h1: History,
    h2: History,
    t0: Seq<char>,
    t1: Seq<char>,
    c0: usize,
    a0: Option<usize>,
    now: u64,
)
    requires
        h0.undo_groups() == ha.undo_groups(),
        h0.origin() == ha.origin(),
        !h0.has_open_group(),
        extends(h0, h1, t0, t1, c0, a0, now),
        h2.undo_groups() == h1.undo_groups(),
        h2.redo_groups() == h1.redo_groups(),
        h2.origin() == h1.origin(),
    ensures
        adds_unit(ha, h2, t0, t1, c0, a0),
{
}

/// Two runs of edits at the same time make one.
pub proof fn lemma_extends_trans(
    h0: History,
    h1: History,
    h2: History,
    t0: Seq<char>,
    t1: Seq<char>,
    t2: Seq<char>,
    c0: usize,
    a0: Option<usize>,
    c1: usize,
    a1: Option<usize>,
    now: u64,
)
    requires
        extends(h0, h1, t0, t1, c0, a0, now),
        extends(h1, h2, t1, t2, c1, a1, now),
    ensures
        extends(h0, h2, t0, t2, c0, a0, now),
{
    assert(h1.joins(now));
}

/// The undo/redo history, with the time of the last edit.
pub struct History {
    undo_stack: Vec<UndoGroup>,
    redo_stack: Vec<UndoGroup>,
    current_group: Option<UndoGroup>,
    last_edit_time: Option<u64>,
    /// The text before the earliest recorded group.
    origin: Ghost<Seq<char>>,
    /// The caret before the earliest recorded group.
    origin_caret: Ghost<usize>,
}

pub open spec fn group_ops(g: UndoGroup) -> Seq<EditRecord> {
    g.ops@
}

impl History {
    /// The groups that `undo` would take back, the latest last; the open
    /// group, if any, is the latest.
    pub closed spec fn undo_groups(&self) -> Seq<Seq<EditRecord>> {
        let s = self.undo_stack@.map_values(|g: UndoGroup| g.ops@);
        match self.current_group {
            Some(g) => s.push(g.ops@),
            None => s,
        }
    }

    /// The groups that `redo` would apply, the next one last.
    pub closed spec fn redo_groups(&self) -> Seq<Seq<EditRecord>> {
        self.redo_stack@.map_values(|g: UndoGroup| g.ops@)
    }

    pub closed spec fn origin(&self) -> Seq<char> {
        self.origin@
    }

    pub closed spec fn origin_caret(&self) -> usize {
        self.origin_caret@
    }

    pub closed spec fn last_edit(&self) -> Option<u64> {
        self.last_edit_time
    }

    pub closed spec fn has_open_group(&self) -> bool {
        self.current_group is Some
    }

    /// An edit at time `now` joins the open group: there is one, and the
    /// last edit came at most `COALESCE_MS` before.
    pub open spec fn joins(&self, now: u64) -> bool {
        self.has_open_group() && match self.last_edit() {
            Some(last) => !(now >= last && now - last > COALESCE_MS),
            None => false,
        }
    }

    /// The history fits the text `t`: undoing every group is possible and
    /// leads back to the origin, and every group that can be redone applies.
    #[verifier::opaque]
    pub open spec fn fits(&self, t: Seq<char>) -> bool {
        &&& undo_chain(t, self.undo_groups())
        &&& revert_all(t, self.undo_groups()) == self.origin()
        &&& self.undo_groups().len() > 0 ==> self.undo_groups()[0][0].1 == self.origin_caret()
        &&& redo_chain(t, self.redo_groups())
        &&& self.undo_groups().len() == 0 && self.redo_groups().len() > 0
            ==> self.redo_groups().last()[0].1 == self.origin_caret()
    }

    pub fn new(Ghost(t): Ghost<Seq<char>>) -> (h: History)
        ensures
            h.fits(t),
            h.origin() == t,
            h.undo_groups().len() == 0,
            h.redo_groups().len() == 0,
            h.last_edit() is None,
            !h.has_open_group(),
    {
        reveal(History::fits);
        let h = History {
            undo_stack: Vec::new(),
            redo_stack: Vec::new(),
            current_group: None,
            last_edit_time: None,
            origin: Ghost(t),
            origin_caret: Ghost(0),
        };
        proof {
            assert(h.undo_groups() =~= Seq::<Seq<EditRecord>>::empty());
            assert(h.redo_groups() =~= Seq::<Seq<EditRecord>>::empty());
        }
        h
    }

    pub fn can_undo(&self) -> (r: bool)
        ensures
            r == (self.undo_groups().len() > 0),
    {
        proof {
            let s = self.undo_stack@.map_values(|g: UndoGroup| g.ops@);
            assert(s.len() == self.undo_stack@.len());
        }
        self.current_group.is_some() || self.undo_stack.len() > 0
    }

    pub fn can_redo(&self) -> (r: bool)
        ensures
            r == (self.redo_groups().len() > 0),
    {
        self.redo_stack.len() > 0
    }

    /// Closes the open group, if any: it becomes the latest group of the
    /// undo stack. The groups themselves do not change.
    pub fn finalize(&mut self)
        ensures
            final(self).undo_groups() == old(self).undo_groups(),
            final(self).redo_groups() == old(self).redo_groups(),
            final(self).origin() == old(self).origin(),
            final(self).origin_caret() == old(self).origin_caret(),
            final(self).last_edit() == old(self).last_edit(),
            !final(self).has_open_group(),
            forall|t: Seq<char>| #[trigger] final(self).fits(t) == old(self).fits(t),
    {
        reveal(History::fits);
        if let Some(group) = self.current_group.take() {
            self.undo_stack.push(group);
            proof {
                let s0 = old(self).undo_stack@.map_values(|g: UndoGroup| g.ops@);
                let s1 = self.undo_stack@.map_values(|g: UndoGroup| g.ops@);
                assert(s1 =~= s0.push(group.ops@));
            }
        }
    }

    /// Forgets the time of the last edit, so that the next edit opens a group.
    pub fn reset_clock(&mut self)
        ensures
            final(self).undo_groups() == old(self).undo_groups(),
            final(self).redo_groups() == old(self).redo_groups(),
            final(self).origin() == old(self).origin(),
            final(self).origin_caret() == old(self).origin_caret(),
            final(self).has_open_group() == old(self).has_open_group(),
            final(self).last_edit() is None,
            forall|t: Seq<char>| #[trigger] final(self).fits(t) == old(self).fits(t),
    {
        reveal(History::fits);
        self.last_edit_time = None;
    }

    /// Records an edit `r` that took the text from `t` to `apply_op(t, r.0)`
    /// at time `now` (milliseconds). It joins the open group when the last
    /// edit came at most `COALESCE_MS` before; else the open group is closed
    /// and a new one starts with it. The redo stack is dropped.
    #[verifier::rlimit(100)]
    pub fn push_op(&mut self, r: EditRecord, now: u64, Ghost(t): Ghost<Seq<char>>)
        requires
            old(self).fits(t),
            record_applies(t, r),
        ensures
            final(self).fits(apply_op(t, r.0)),
            final(self).origin() == old(self).origin(),
            final(self).redo_groups().len() == 0,
            final(self).last_edit() == Some(now),
            final(self).has_open_group(),
            extends(*old(self), *final(self), t, apply_op(t, r.0), r.1, r.3, now),
            final(self).undo_groups().last().last() == r,
            old(self).has_open_group() && old(self).last_edit() == Some(now)
                ==> final(self).undo_groups().drop_last() == old(self).undo_groups().drop_last()
                && final(self).undo_groups().len() == old(self).undo_groups().len(),
            !old(self).has_open_group() ==> final(self).undo_groups().drop_last()
                == old(self).undo_groups()
                && final(self).undo_groups().len() == old(self).undo_groups().len() + 1,
    {
        reveal(History::fits);
        let ghost old_gs = self.undo_groups();
        let new_group = match self.last_edit_time {
            None => true,
            Some(last) => now >= last && now - last > COALESCE_MS,
        };
        if new_group || self.current_group.is_none() {
            self.finalize();
            proof {
                if old_gs.len() == 0 {
                    self.origin_caret = Ghost(r.1);
                }
            }
            self.current_group = Some(UndoGroup { ops: vec![r], timestamp: now });
            proof {
                let s = self.undo_stack@.map_values(|g: UndoGroup| g.ops@);
                assert(s == old_gs);
                assert(self.current_group.unwrap().ops@ =~= seq![r]);
                assert(self.undo_groups() == old_gs.push(seq![r]));
                lemma_chain_push_group(t, r, old_gs);
                assert(old_gs.push(seq![r]).drop_last() =~= old_gs);

                if old_gs.len() == 0 {
                    assert(self.undo_groups()[0] == seq![r]);
                } else {
                    assert(self.undo_groups()[0] == old_gs[0]);
                }
            }
        } else {
            let mut group = self.current_group.take().unwrap();
            let ghost g_old = group.ops@;
            group.ops.push(r);
            self.current_group = Some(group);
            proof {
                let s = self.undo_stack@.map_values(|g: UndoGroup| g.ops@);
                assert(old_gs == s.push(g_old));
                assert(self.undo_groups() == s.push(g_old.push(r)));
                assert(s.push(g_old.push(r)) =~= old_gs.drop_last().push(old_gs.last().push(r)));
                lemma_chain_join_group(t, r, old_gs);
                assert(old_gs.drop_last().push(old_gs.last().push(r)).drop_last() =~= old_gs.drop_last());
                assert(g_old.len() > 0);
                if old_gs.len() == 1 {
                    assert(self.undo_groups()[0] == g_old.push(r));
                    assert(g_old.push(r)[0] == g_old[0]);
                } else {
                    assert(self.undo_groups()[0] == old_gs[0]);
                }
            }
        }
        self.redo_stack.clear();
        self.last_edit_time = Some(now);
        proof {
            assert(self.redo_groups() =~= Seq::<Seq<EditRecord>>::empty());
            assert(self.undo_groups().last().last() == r);
            if old(self).joins(now) {
                lemma_extends_join(*old(self), *self, t, r, now);
            } else {
                lemma_extends_new(*old(self), *self, t, r, now);
            }
        }
    }

    /// Closes the open group, then takes back the latest group: its
    /// operations are inverted, the latest first. Returns the caret and the
    /// anchor recorded before the group's earliest operation; the group moves
    /// to the redo stack. With no group, nothing changes and `None` comes
    /// back.
    pub fn undo(&mut self, buf: &mut Buffer) -> (r: Option<(usize, Option<usize>)>)
        requires
            old(self).fits(old(buf)@),
        ensures
            final(self).fits(final(buf)@),
            final(self).origin() == old(self).origin(),
            final(self).origin_caret() == old(self).origin_caret(),
            final(self).last_edit() == old(self).last_edit(),
            !final(self).has_open_group(),
            old(self).undo_groups().len() == 0 ==> {
                &&& r is None
                &&& final(buf)@ == old(buf)@
                &&& final(self).undo_groups() == old(self).undo_groups()
                &&& final(self).redo_groups() == old(self).redo_groups()
            },
            old(self).undo_groups().len() > 0 ==> {
                let g = old(self).undo_groups().last();
                &&& final(buf)@ == revert_ops(old(buf)@, g)
                &&& r == Some((g[0].1, g[0].3))
                &&& is_boundary(final(buf)@, g[0].1 as int)
                &&& (g[0].3 matches Some(a) ==> is_boundary(final(buf)@, a as int))
                &&& final(self).undo_groups() == old(self).undo_groups().drop_last()
                &&& final(self).redo_groups() == old(self).redo_groups().push(g)
            },
            old(self).undo_groups().len() == 1 ==> (r matches Some(p) && p.0 == old(self).origin_caret()),
    {
        reveal(History::fits);
        let ghost old_gs = self.undo_groups();
        self.finalize();
        let ghost s0 = self.undo_stack@;
        let popped = self.undo_stack.pop();
        match popped {
            None => {
                proof {
                    assert(s0.map_values(|g: UndoGroup| g.ops@).len() == 0);
                    assert(self.undo_stack@ == s0);
                }
                None
            },
            Some(group) => {
                let ghost g = group.ops@;
                let ghost t0 = buf@;
                proof {
                    assert(s0 =~= self.undo_stack@.push(group));
                    assert(old_gs == s0.map_values(|g: UndoGroup| g.ops@));
                    assert(old_gs.last() == g);
                    assert(self.undo_groups() =~= old_gs.drop_last());
                    assert(g.take(g.len() as int) =~= g);
                }
                let n = group.ops.len();
                let mut k = n;
                while k > 0
                    invariant
                        k <= n,
                        n == g.len(),
                        group.ops@ == g,
                        g.len() > 0,
                        ops_revert(buf@, g.take(k as int)),
                        revert_ops(buf@, g.take(k as int)) == revert_ops(t0, g),
                        k < n ==> is_boundary(buf@, g[k as int].1 as int),
                        k < n ==> (g[k as int].3 matches Some(a) ==> is_boundary(buf@, a as int)),
                    decreases k,
                {
                    k -= 1;
                    let ghost cur = buf@;
                    proof {
                        let gk = g.take(k + 1);
                        assert(gk.last() == g[k as int]);
                        assert(gk.drop_last() =~= g.take(k as int));
                    }
                    match &group.ops[k].0 {
                        EditOp::Insert { pos, text } => {
                            let i = buf.byte_to_char(*pos);
                            let m = text.as_str().unicode_len();
                            let len = buf.len_chars();
                            proof {
                                assert(i + m <= len);
                            }
                            buf.remove_chars(i, i + m);
                        },
                        EditOp::Delete { pos, text } => {
                            buf.insert(*pos, text.as_str());
                        },
                    }
                    proof {
                        assert(buf@ =~= revert_op(cur, g[k as int].0));
                    }
                }
                let caret = group.ops[0].1;
                let anchor = group.ops[0].3;
                let ghost r0 = self.redo_stack@;
                self.redo_stack.push(group);
                proof {
                    assert(g.take(0) =~= Seq::<EditRecord>::empty());
                    assert(self.redo_stack@ =~= r0.push(group));
                    assert(self.redo_groups() =~= old(self).redo_groups().push(g));
                    lemma_group_back_trip(t0, g);
                    let rg = self.redo_groups();
                    assert(rg.drop_last() =~= old(self).redo_groups());
                    if old_gs.len() > 1 {
                        assert(self.undo_groups()[0] == old_gs[0]);
                    }
                }
                Some((caret, anchor))
            },
        }
    }

    /// Closes the open group, then applies again the group that was undone
    /// last: its operations in order. Returns the caret recorded after the
    /// group's latest operation; the group moves back to the undo stack.
    /// With no group to redo, nothing changes and `None` comes back.
    pub fn redo(&mut self, buf: &mut Buffer) -> (r: Option<usize>)
        requires
            old(self).fits(old(buf)@),
        ensures
            final(self).fits(final(buf)@),
            final(self).origin() == old(self).origin(),
            final(self).last_edit() == old(self).last_edit(),
            !final(self).has_open_group(),
            old(self).redo_groups().len() == 0 ==> {
                &&& r is None
                &&& final(buf)@ == old(buf)@
                &&& final(self).undo_groups() == old(self).undo_groups()
                &&& final(self).redo_groups() == old(self).redo_groups()
            },
            old(self).redo_groups().len() > 0 ==> {
                let g = old(self).redo_groups().last();
                &&& final(buf)@ == apply_ops(old(buf)@, g)
                &&& r == Some(g.last().2)
                &&& is_boundary(final(buf)@, g.last().2 as int)
                &&& final(self).undo_groups() == old(self).undo_groups().push(g)
                &&& final(self).redo_groups() == old(self).redo_groups().drop_last()
            },
    {
        reveal(History::fits);
        let ghost old_gs = self.undo_groups();
        self.finalize();
        let ghost r0 = self.redo_stack@;
        let popped = self.redo_stack.pop();
        match popped {
            None => {
                proof {
                    assert(self.redo_stack@ == r0);
                }
                None
            },
            Some(group) => {
                let ghost g = group.ops@;
                let ghost t0 = buf@;
                proof {
                    assert(r0 =~= self.redo_stack@.push(group));
                    assert(old(self).redo_groups() == r0.map_values(|g: UndoGroup| g.ops@));
                    assert(old(self).redo_groups().last() == g);
                    assert(self.redo_groups() =~= old(self).redo_groups().drop_last());
                    assert(g.take(0) =~= Seq::<EditRecord>::empty());
                }
                let n = group.ops.len();
                let mut k: usize = 0;
                while k < n
                    invariant
                        k <= n,
                        n == g.len(),
                        group.ops@ == g,
                        g.len() > 0,
                        ops_apply(t0, g),
                        buf@ == apply_ops(t0, g.take(k as int)),
                        k > 0 ==> is_boundary(buf@, g[k - 1].2 as int),
                    decreases n - k,
                {
                    let ghost cur = buf@;
                    proof {
                        lemma_ops_apply_prefix(t0, g, k as int);
                        let gk = g.take(k + 1);
                        assert(gk.last() == g[k as int]);
                        assert(gk.drop_last() =~= g.take(k as int));
                    }
                    match &group.ops[k].0 {
                        EditOp::Insert { pos, text } => {
                            buf.insert(*pos, text.as_str());
                        },
                        EditOp::Delete { pos, text } => {
                            let i = buf.byte_to_char(*pos);
                            let m = text.as_str().unicode_len();
                            let len = buf.len_chars();
                            proof {
                                assert(i + m <= len);
                            }
                            buf.remove_chars(i, i + m);
                        },
                    }
                    proof {
                        assert(buf@ =~= apply_op(cur, g[k as int].0));
                    }
                    k += 1;
                }
                let caret = group.ops[n - 1].2;
                let ghost u0 = self.undo_stack@;
                self.undo_stack.push(group);
                proof {
                    assert(g.take(n as int) =~= g);
                    assert(self.undo_stack@ =~= u0.push(group));
                    assert(self.undo_groups() =~= old_gs.push(g));
                    lemma_group_round_trip(t0, g);
                    assert(self.undo_groups().drop_last() =~= old_gs);
                    if old_gs.len() > 0 {
                        assert(self.undo_groups()[0] == old_gs[0]);
                    } else {
                        assert(self.undo_groups()[0] == g);
                    }
                    if old(self).redo_groups().len() > 1 {
                        assert(old(self).redo_groups().drop_last().last()
                            == self.redo_groups().last());
                    }
                }
                Some(caret)
            },
        }
    }
}

/// Once every group has been undone, the text is the one that the history
/// started from.
pub proof fn lemma_undone_history_is_origin(h: &History, t: Seq<char>)
    requires
        h.fits(t),
        h.undo_groups().len() == 0,
    ensures
        t == h.origin(),
{
    reveal(History::fits);
}

} // verus!
