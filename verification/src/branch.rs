//! Branch: a versioned, editable sequence of interned lines.
//!
//! A `Branch` holds the ordered ids of its lines in a [`GreenPool`], together
//! with undo and redo stacks of [`BranchEdit`] values.  Forks start from the
//! same pool contents and line sequence with empty stacks, and are fully
//! independent afterwards.
use vstd::prelude::*;

use crate::digest::{crc32_of, md5_of, sha256_of};
use crate::encoding::{accepted_by, rejection_by, run_validator, EncodingError, EncodingValidator};
use crate::green::{group_id_facts, intern_result, lemma_intern_result, utf8_of, GreenLineId, GreenPool};
use crate::line_buffer_view::LineBufferView;
use crate::text::{decimal, push_decimal};

verus! {

broadcast use group_id_facts;

// ── BranchEdit ────────────────────────────────────────────────────────────────

/// A single reversible edit applied to a [`Branch`].
#[derive(Debug, Clone, PartialEq, Eq, Structural)]
pub enum BranchEdit {
    /// A line was inserted at position `at`.
    Insert { at: usize, id: GreenLineId },
    /// The line at position `at` was deleted (its id is stored for undo).
    Delete { at: usize, id: GreenLineId },
    /// The line at position `at` was replaced.
    Replace { at: usize, old_id: GreenLineId, new_id: GreenLineId },
}

/// The line ids after `e` is made (or replayed) on `ids`.
pub open spec fn apply_edit(ids: Seq<GreenLineId>, e: BranchEdit) -> Seq<GreenLineId> {
    match e {
        BranchEdit::Insert { at, id } => ids.insert(at as int, id),
        BranchEdit::Delete { at, .. } => ids.remove(at as int),
        BranchEdit::Replace { at, new_id, .. } => ids.update(at as int, new_id),
    }
}

/// The line ids after `e` is undone on `ids`.
pub open spec fn revert_edit(ids: Seq<GreenLineId>, e: BranchEdit) -> Seq<GreenLineId> {
    match e {
        BranchEdit::Insert { at, .. } => ids.remove(at as int),
        BranchEdit::Delete { at, id } => ids.insert(at as int, id),
        BranchEdit::Replace { at, old_id, .. } => ids.update(at as int, old_id),
    }
}

/// `e` is the last change that produced `ids`: its position is in range and
/// the line it left there is still there.
pub open spec fn undoable(ids: Seq<GreenLineId>, e: BranchEdit) -> bool {
    match e {
        BranchEdit::Insert { at, id } => at < ids.len() && ids[at as int] == id,
        BranchEdit::Delete { at, .. } => at <= ids.len(),
        BranchEdit::Replace { at, new_id, .. } => at < ids.len() && ids[at as int] == new_id,
    }
}

/// `e` can be replayed on `ids`: its position is in range and the line it
/// expects there is there.
pub open spec fn redoable(ids: Seq<GreenLineId>, e: BranchEdit) -> bool {
    match e {
        BranchEdit::Insert { at, .. } => at <= ids.len(),
        BranchEdit::Delete { at, id } => at < ids.len() && ids[at as int] == id,
        BranchEdit::Replace { at, old_id, .. } => at < ids.len() && ids[at as int] == old_id,
    }
}

/// Undoing the stack from its top down, each edit is undoable in turn.
pub open spec fn undo_chain(ids: Seq<GreenLineId>, undo: Seq<BranchEdit>) -> bool
    decreases undo.len(),
{
    undo.len() == 0 || (undoable(ids, undo.last()) && undo_chain(
        revert_edit(ids, undo.last()),
        undo.drop_last(),
    ))
}

/// Redoing the stack from its top down, each edit is redoable in turn.
pub open spec fn redo_chain(ids: Seq<GreenLineId>, redo: Seq<BranchEdit>) -> bool
    decreases redo.len(),
{
    redo.len() == 0 || (redoable(ids, redo.last()) && redo_chain(
        apply_edit(ids, redo.last()),
        redo.drop_last(),
    ))
}

/// Every id that `e` refers to names a position below `n`.
pub open spec fn edit_below(e: BranchEdit, n: nat) -> bool {
    match e {
        BranchEdit::Insert { id, .. } => id.value() < n,
        BranchEdit::Delete { id, .. } => id.value() < n,
        BranchEdit::Replace { old_id, new_id, .. } => old_id.value() < n && new_id.value() < n,
    }
}

pub open spec fn ids_below(ids: Seq<GreenLineId>, n: nat) -> bool {
    forall|i: int| 0 <= i < ids.len() ==> (#[trigger] ids[i]).value() < n
}

pub open spec fn edits_below(es: Seq<BranchEdit>, n: nat) -> bool {
    forall|i: int| 0 <= i < es.len() ==> edit_below(#[trigger] es[i], n)
}

// ── The abstract state of a branch ───────────────────────────────────────────

/// What a branch is: the contents of its pool, the ids of its lines, and its
/// undo and redo stacks (tops last).
pub struct BranchState {
    pub pool: Seq<Seq<char>>,
    pub ids: Seq<GreenLineId>,
    pub undo: Seq<BranchEdit>,
    pub redo: Seq<BranchEdit>,
}

impl BranchState {
    /// The content of each line, in order.
    pub open spec fn text(self) -> Seq<Seq<char>> {
        self.ids.map_values(|id: GreenLineId| self.pool[id.value() as int])
    }

    /// Every id refers into the pool, and the undo and redo stacks can be
    /// undone and replayed from the current lines.
    pub open spec fn consistent(self) -> bool {
        &&& ids_below(self.ids, self.pool.len())
        &&& edits_below(self.undo, self.pool.len())
        &&& edits_below(self.redo, self.pool.len())
        &&& undo_chain(self.ids, self.undo)
        &&& redo_chain(self.ids, self.redo)
    }

    /// A new edit `e` is made with pool contents `pool`: it is applied, pushed
    /// on the undo stack, and the redo stack is cleared.
    pub open spec fn after_edit(self, pool: Seq<Seq<char>>, e: BranchEdit) -> BranchState {
        BranchState {
            pool,
            ids: apply_edit(self.ids, e),
            undo: self.undo.push(e),
            redo: Seq::empty(),
        }
    }

    /// The top of the undo stack is undone and moved to the redo stack.
    pub open spec fn after_undo(self) -> BranchState {
        let e = self.undo.last();
        BranchState {
            pool: self.pool,
            ids: revert_edit(self.ids, e),
            undo: self.undo.drop_last(),
            redo: self.redo.push(e),
        }
    }

    /// The top of the redo stack is replayed and moved to the undo stack.
    pub open spec fn after_redo(self) -> BranchState {
        let e = self.redo.last();
        BranchState {
            pool: self.pool,
            ids: apply_edit(self.ids, e),
            undo: self.undo.push(e),
            redo: self.redo.drop_last(),
        }
    }

    /// The same pool and lines, with no history.
    pub open spec fn forked(self) -> BranchState {
        BranchState { pool: self.pool, ids: self.ids, undo: Seq::empty(), redo: Seq::empty() }
    }
}

/// The description of an out-of-range index: `<op>: index <n> out of range
/// (line_count = <count>)`.
pub open spec fn index_error_text(op: Seq<char>, n: nat, count: nat) -> Seq<char> {
    op + ": index "@ + decimal(n) + " out of range (line_count = "@ + decimal(count) + ")"@
}

/// The state after interning `content` and inserting it at `n`, where the
/// interned id is `id`.
pub open spec fn inserted(old: BranchState, n: int, content: Seq<char>, new: BranchState) -> bool {
    let (pool, pos) = intern_result(old.pool, content);
    &&& 0 <= n < new.ids.len()
    &&& new.ids[n].value() == pos
    &&& new == old.after_edit(pool, BranchEdit::Insert { at: n as usize, id: new.ids[n] })
}

/// The state after interning `content` and replacing line `n` with it.
pub open spec fn replaced(old: BranchState, n: int, content: Seq<char>, new: BranchState) -> bool {
    let (pool, pos) = intern_result(old.pool, content);
    &&& 0 <= n < new.ids.len()
    &&& 0 <= n < old.ids.len()
    &&& new.ids[n].value() == pos
    &&& new == old.after_edit(
        pool,
        BranchEdit::Replace { at: n as usize, old_id: old.ids[n], new_id: new.ids[n] },
    )
}

// ── Lemmas on edits ──────────────────────────────────────────────────────────

/// Replaying an edit and then undoing it gives the ids back, and leaves it
/// undoable.
pub proof fn lemma_apply_then_revert(ids: Seq<GreenLineId>, e: BranchEdit)
    requires
        redoable(ids, e),
    ensures
        undoable(apply_edit(ids, e), e),
        revert_edit(apply_edit(ids, e), e) == ids,
{
    match e {
        BranchEdit::Insert { at, id } => {
            assert(ids.insert(at as int, id).remove(at as int) =~= ids);
        },
        BranchEdit::Delete { at, id } => {
            assert(ids.remove(at as int).insert(at as int, id) =~= ids);
        },
        BranchEdit::Replace { at, old_id, new_id } => {
            assert(ids.update(at as int, new_id).update(at as int, old_id) =~= ids);
        },
    }
}

/// Undoing an edit and then replaying it gives the ids back, and leaves it
/// redoable.
pub proof fn lemma_revert_then_apply(ids: Seq<GreenLineId>, e: BranchEdit)
    requires
        undoable(ids, e),
    ensures
        redoable(revert_edit(ids, e), e),
        apply_edit(revert_edit(ids, e), e) == ids,
{
    match e {
        BranchEdit::Insert { at, id } => {
            assert(ids.remove(at as int).insert(at as int, id) =~= ids);
        },
        BranchEdit::Delete { at, id } => {
            assert(ids.insert(at as int, id).remove(at as int) =~= ids);
        },
        BranchEdit::Replace { at, old_id, new_id } => {
            assert(ids.update(at as int, old_id).update(at as int, new_id) =~= ids);
        },
    }
}

/// Applying or undoing an edit whose ids are below `n` keeps all ids below `n`.
proof fn lemma_edit_keeps_ids_below(ids: Seq<GreenLineId>, e: BranchEdit, n: nat)
    requires
        ids_below(ids, n),
        edit_below(e, n),
    ensures
        redoable(ids, e) ==> ids_below(apply_edit(ids, e), n),
        undoable(ids, e) ==> ids_below(revert_edit(ids, e), n),
{
    if redoable(ids, e) {
        let a = apply_edit(ids, e);
        assert forall|i: int| 0 <= i < a.len() implies (#[trigger] a[i]).value() < n by {
            match e {
                BranchEdit::Insert { at, id } => {
                    if i < at {
                        assert(a[i] == ids[i]);
                    } else if i > at {
                        assert(a[i] == ids[i - 1]);
                    }
                },
                BranchEdit::Delete { at, .. } => {
                    if i < at {
                        assert(a[i] == ids[i]);
                    } else {
                        assert(a[i] == ids[i + 1]);
                    }
                },
                BranchEdit::Replace { .. } => {},
            }
        }
    }
    if undoable(ids, e) {
        let a = revert_edit(ids, e);
        assert forall|i: int| 0 <= i < a.len() implies (#[trigger] a[i]).value() < n by {
            match e {
                BranchEdit::Delete { at, id } => {
                    if i < at {
                        assert(a[i] == ids[i]);
                    } else if i > at {
                        assert(a[i] == ids[i - 1]);
                    }
                },
                BranchEdit::Insert { at, .. } => {
                    if i < at {
                        assert(a[i] == ids[i]);
                    } else {
                        assert(a[i] == ids[i + 1]);
                    }
                },
                BranchEdit::Replace { .. } => {},
            }
        }
    }
}

proof fn lemma_ids_below_mono(ids: Seq<GreenLineId>, es: Seq<BranchEdit>, n: nat, m: nat)
    requires
        n <= m,
        ids_below(ids, n),
        edits_below(es, n),
    ensures
        ids_below(ids, m),
        edits_below(es, m),
{
    assert forall|i: int| 0 <= i < es.len() implies edit_below(#[trigger] es[i], m) by {
        assert(edit_below(es[i], n));
    }
}

// ── Laws ─────────────────────────────────────────────────────────────────────

/// Law: every operation keeps a consistent state consistent: a new edit that
/// can be made on the current lines, with a pool that extends the current one
/// and holds the edit's ids; an undo; a redo.
pub proof fn law_operations_keep_consistency(
    st: BranchState,
    pool: Seq<Seq<char>>,
    e: BranchEdit,
)
    requires
        st.consistent(),
    ensures
        redoable(st.ids, e) && st.pool.len() <= pool.len() && edit_below(e, pool.len())
            ==> st.after_edit(pool, e).consistent(),
        st.undo.len() > 0 ==> st.after_undo().consistent(),
        st.redo.len() > 0 ==> st.after_redo().consistent(),
{
    let n = st.pool.len();
    if redoable(st.ids, e) && n <= pool.len() && edit_below(e, pool.len()) {
        let m = pool.len();
        let a = st.after_edit(pool, e);
        lemma_ids_below_mono(st.ids, st.undo, n, m);
        lemma_edit_keeps_ids_below(st.ids, e, m);
        lemma_apply_then_revert(st.ids, e);
        assert(a.undo.drop_last() =~= st.undo);
        assert(edits_below(a.undo, m)) by {
            assert forall|i: int| 0 <= i < a.undo.len() implies edit_below(#[trigger] a.undo[i], m) by {
                if i < st.undo.len() {
                    assert(a.undo[i] == st.undo[i]);
                }
            }
        }
    }
    if st.undo.len() > 0 {
        let e2 = st.undo.last();
        let a = st.after_undo();
        assert(edit_below(e2, n)) by {
            assert(edit_below(st.undo[st.undo.len() - 1], n));
        }
        lemma_edit_keeps_ids_below(st.ids, e2, n);
        lemma_revert_then_apply(st.ids, e2);
        assert(a.redo.drop_last() =~= st.redo);
        assert(edits_below(a.redo, n)) by {
            assert forall|i: int| 0 <= i < a.redo.len() implies edit_below(#[trigger] a.redo[i], n) by {
                if i < st.redo.len() {
                    assert(a.redo[i] == st.redo[i]);
                }
            }
        }
        assert(edits_below(a.undo, n)) by {
            assert forall|i: int| 0 <= i < a.undo.len() implies edit_below(#[trigger] a.undo[i], n) by {
                assert(a.undo[i] == st.undo[i]);
            }
        }
    }
    if st.redo.len() > 0 {
        let e2 = st.redo.last();
        let a = st.after_redo();
        assert(edit_below(e2, n)) by {
            assert(edit_below(st.redo[st.redo.len() - 1], n));
        }
        lemma_edit_keeps_ids_below(st.ids, e2, n);
        lemma_apply_then_revert(st.ids, e2);
        assert(a.undo.drop_last() =~= st.undo);
        assert(edits_below(a.undo, n)) by {
            assert forall|i: int| 0 <= i < a.undo.len() implies edit_below(#[trigger] a.undo[i], n) by {
                if i < st.undo.len() {
                    assert(a.undo[i] == st.undo[i]);
                }
            }
        }
        assert(edits_below(a.redo, n)) by {
            assert forall|i: int| 0 <= i < a.redo.len() implies edit_below(#[trigger] a.redo[i], n) by {
                assert(a.redo[i] == st.redo[i]);
            }
        }
    }
}

/// Law: a fork of a consistent state is consistent.
pub proof fn law_fork_consistent(st: BranchState)
    requires
        st.consistent(),
    ensures
        st.forked().consistent(),
{
}

/// Law: undoing an edit right after making it restores the lines and the undo
/// stack as they were before the edit, and leaves only that edit to redo.
pub proof fn law_undo_reverts_edit(st: BranchState, pool: Seq<Seq<char>>, e: BranchEdit)
    requires
        redoable(st.ids, e),
    ensures
        st.after_edit(pool, e).after_undo().ids == st.ids,
        st.after_edit(pool, e).after_undo().undo == st.undo,
        st.after_edit(pool, e).after_undo().redo == seq![e],
        st.after_edit(pool, e).after_undo().pool == pool,
{
    lemma_apply_then_revert(st.ids, e);
    assert(st.undo.push(e).drop_last() =~= st.undo);
    assert(Seq::<BranchEdit>::empty().push(e) =~= seq![e]);
}

/// Law: redo right after undo restores the state exactly.
pub proof fn law_redo_after_undo(st: BranchState)
    requires
        st.consistent(),
        st.undo.len() > 0,
    ensures
        st.after_undo().after_redo() == st,
{
    let e = st.undo.last();
    lemma_revert_then_apply(st.ids, e);
    assert(st.undo.drop_last().push(e) =~= st.undo);
    assert(st.redo.push(e).drop_last() =~= st.redo);
}

/// Law: undo right after redo restores the state exactly.
pub proof fn law_undo_after_redo(st: BranchState)
    requires
        st.consistent(),
        st.redo.len() > 0,
    ensures
        st.after_redo().after_undo() == st,
{
    let e = st.redo.last();
    lemma_apply_then_revert(st.ids, e);
    assert(st.redo.drop_last().push(e) =~= st.redo);
    assert(st.undo.push(e).drop_last() =~= st.undo);
}

/// Law: what the recorded edits do to the text.  Inserting places the content
/// at the position and shifts the rest; replacing changes that one line;
/// deleting removes it and shifts the rest up.
pub proof fn law_edit_text(st: BranchState, pool: Seq<Seq<char>>, e: BranchEdit)
    requires
        ids_below(st.ids, st.pool.len()),
        st.pool.len() <= pool.len(),
        pool.subrange(0, st.pool.len() as int) == st.pool,
        redoable(st.ids, e),
        edit_below(e, pool.len()),
    ensures
        ({
            let t = st.after_edit(pool, e).text();
            match e {
                BranchEdit::Insert { at, id } => t == st.text().insert(at as int, pool[id.value() as int]),
                BranchEdit::Delete { at, .. } => t == st.text().remove(at as int),
                BranchEdit::Replace { at, new_id, .. } => t == st.text().update(
                    at as int,
                    pool[new_id.value() as int],
                ),
            }
        }),
{
    let a = st.after_edit(pool, e);
    assert forall|i: int| 0 <= i < st.ids.len() implies pool[(#[trigger] st.ids[i]).value() as int]
        == st.pool[st.ids[i].value() as int] by {
        assert(st.ids[i].value() < st.pool.len());
        assert(pool.subrange(0, st.pool.len() as int)[st.ids[i].value() as int] == pool[st.ids[
            i].value() as int]);
    }
    match e {
        BranchEdit::Insert { at, id } => {
            assert(a.text() =~= st.text().insert(at as int, pool[id.value() as int]));
        },
        BranchEdit::Delete { at, .. } => {
            assert(a.text() =~= st.text().remove(at as int));
        },
        BranchEdit::Replace { at, new_id, .. } => {
            assert(a.text() =~= st.text().update(at as int, pool[new_id.value() as int]));
        },
    }
}

// ── Branch ────────────────────────────────────────────────────────────────────

/// A versioned, editable sequence of interned lines backed by a
/// [`GreenPool`].
///
/// Branches may be forked cheaply: a fork starts from the same pool contents
/// (the interned strings are shared, not copied) and line sequence, and keeps
/// its own independent undo/redo history.
pub struct Branch {
    pool: GreenPool,
    lines: Vec<GreenLineId>,
    undo_stack: Vec<BranchEdit>,
    redo_stack: Vec<BranchEdit>,
}

impl View for Branch {
    type V = BranchState;

    closed spec fn view(&self) -> BranchState {
        BranchState {
            pool: self.pool@,
            ids: self.lines@,
            undo: self.undo_stack@,
            redo: self.redo_stack@,
        }
    }
}

/// Builds the description of an out-of-range index.
pub(crate) fn index_error(op: &str, n: usize, count: usize, content: &str) -> (e: EncodingError)
    ensures
        e.line@ == content@,
        e.description@ == index_error_text(op@, n as nat, count as nat),
{
    let mut d = String::new();
    d.append(op);
    d.append(": index ");
    push_decimal(&mut d, n as u128);
    d.append(" out of range (line_count = ");
    push_decimal(&mut d, count as u128);
    d.append(")");
    proof {
        assert(d@ =~= index_error_text(op@, n as nat, count as nat));
    }
    EncodingError::new(content, d)
}

impl Branch {
    /// The pool is well formed and the state is consistent.
    pub closed spec fn wf(&self) -> bool {
        &&& self.pool.wf()
        &&& self@.consistent()
    }

    /// A well-formed branch is in a consistent state, so the laws on
    /// [`BranchState`] apply to it.
    pub proof fn lemma_wf_consistent(&self)
        requires
            self.wf(),
        ensures
            self@.consistent(),
    {
    }

    /// Creates a new, empty `Branch` backed by the given pool.
    pub fn new(pool: GreenPool) -> (b: Branch)
        requires
            pool.wf(),
        ensures
            b.wf(),
            b@ == (BranchState {
                pool: pool@,
                ids: Seq::empty(),
                undo: Seq::empty(),
                redo: Seq::empty(),
            }),
    {
        Branch { pool, lines: Vec::new(), undo_stack: Vec::new(), redo_stack: Vec::new() }
    }

    /// Returns the number of lines currently in this branch.
    pub fn line_count(&self) -> (r: usize)
        ensures
            r == self@.ids.len(),
            r == self@.text().len(),
    {
        self.lines.len()
    }

    /// Returns the content of line `n` (0-based), or `None` if `n` is out of
    /// range.
    pub fn get_line(&self, n: usize) -> (r: Option<String>)
        requires
            self.wf(),
        ensures
            n < self@.text().len() ==> (r matches Some(s) && s@ == self@.text()[n as int]),
            n >= self@.text().len() ==> r is None,
    {
        if n < self.lines.len() {
            let id = self.lines[n];
            Some(self.pool.get(id).content_string())
        } else {
            None
        }
    }

    /// The ids of the lines, in order.
    pub fn lines(&self) -> (r: &Vec<GreenLineId>)
        ensures
            r@ == self@.ids,
    {
        &self.lines
    }

    /// The undo stack, most recent edit last.
    pub fn undo_stack(&self) -> (r: &Vec<BranchEdit>)
        ensures
            r@ == self@.undo,
    {
        &self.undo_stack
    }

    /// The redo stack, most recently undone edit last.
    pub fn redo_stack(&self) -> (r: &Vec<BranchEdit>)
        ensures
            r@ == self@.redo,
    {
        &self.redo_stack
    }

    /// The pool that holds this branch's line contents.
    pub fn pool(&self) -> (r: &GreenPool)
        requires
            self.wf(),
        ensures
            r@ == self@.pool,
            r.wf(),
    {
        &self.pool
    }

    /// Interns `content` into this branch's pool and returns its id; the lines
    /// and the history are unchanged.
    pub fn intern(&mut self, content: &str) -> (r: GreenLineId)
        requires
            old(self).wf(),
            old(self)@.pool.len() < u32::MAX,
        ensures
            final(self).wf(),
            (final(self)@.pool, r.value() as int) == intern_result(old(self)@.pool, content@),
            final(self)@.ids == old(self)@.ids,
            final(self)@.undo == old(self)@.undo,
            final(self)@.redo == old(self)@.redo,
    {
        let ghost st = self@;
        let id = self.pool.intern(content);
        proof {
            lemma_ids_below_mono(st.ids, st.undo, st.pool.len(), self@.pool.len());
            lemma_ids_below_mono(st.ids, st.redo, st.pool.len(), self@.pool.len());
        }
        id
    }

    /// Appends `content` as a new last line without recording an edit, as
    /// when a branch with no history is loaded.
    pub fn load_line(&mut self, content: &str)
        requires
            old(self).wf(),
            old(self)@.pool.len() < u32::MAX,
            old(self)@.undo.len() == 0,
            old(self)@.redo.len() == 0,
        ensures
            final(self).wf(),
            final(self)@.pool == intern_result(old(self)@.pool, content@).0,
            final(self)@.text() == old(self)@.text().push(content@),
            final(self)@.undo.len() == 0,
            final(self)@.redo.len() == 0,
    {
        let ghost st = self@;
        let id = self.intern(content);
        proof {
            lemma_intern_result(st.pool, content@);
            let pool = self@.pool;
            assert forall|i: int| 0 <= i < st.ids.len() implies pool[(#[trigger] st.ids[i]).value() as int]
                == st.pool[st.ids[i].value() as int] by {
                assert(pool.subrange(0, st.pool.len() as int)[st.ids[i].value() as int] == pool[st.ids[
                    i].value() as int]);
            }
        }
        self.lines.push(id);
        proof {
            assert(self@.text() =~= st.text().push(content@));
        }
    }

    /// Inserts `content` at position `n` when `verdict` (the validator's
    /// answer for `content`) is `Ok`.  Inserting at `n == line_count()`
    /// appends.  An out-of-range `n` or a rejection leaves the branch
    /// unchanged and returns the error.
    pub fn apply_insert(
        &mut self,
        n: usize,
        content: &str,
        verdict: Result<(), EncodingError>,
    ) -> (r: Result<(), EncodingError>)
        requires
            old(self).wf(),
            old(self)@.pool.len() < u32::MAX,
        ensures
            final(self).wf(),
            n > old(self)@.ids.len() ==> {
                &&& final(self)@ == old(self)@
                &&& r matches Err(e)
                &&& e.line@ == content@
                &&& e.description@ == index_error_text(
                    "insert_line"@,
                    n as nat,
                    old(self)@.ids.len(),
                )
            },
            n <= old(self)@.ids.len() && verdict is Err ==> final(self)@ == old(self)@ && r
                == verdict,
            n <= old(self)@.ids.len() && verdict is Ok ==> {
                &&& r is Ok
                &&& inserted(old(self)@, n as int, content@, final(self)@)
                &&& final(self)@.text() == old(self)@.text().insert(n as int, content@)
            },
    {
        if n > self.lines.len() {
            return Err(index_error("insert_line", n, self.lines.len(), content));
        }
        if let Err(e) = verdict {
            return Err(e);
        }
        let ghost st = self@;
        let id = self.intern(content);
        let ghost pool = self@.pool;
        proof {
            lemma_intern_result(st.pool, content@);
        }
        self.lines.insert(n, id);
        let e = BranchEdit::Insert { at: n, id };
        self.undo_stack.push(e);
        self.redo_stack.clear();
        proof {
            let e = BranchEdit::Insert { at: n, id };
            assert(self@ =~= st.after_edit(pool, e));
            law_operations_keep_consistency(
                BranchState { pool, ..st },
                pool,
                e,
            );
            assert(BranchState { pool, ..st }.after_edit(pool, e) == st.after_edit(pool, e));
            self.pool.lemma_no_duplicates();
            law_edit_text(st, pool, e);
            assert(pool[id.value() as int] == content@);
        }
        Ok(())
    }

    /// Inserts `content` as a new line at position `n` (0-based).
    ///
    /// If `validator` is `Some`, validation is performed first.  On rejection
    /// the branch state is unchanged and the error is returned.  Inserting at
    /// `n == line_count()` appends.
    pub fn insert_line(
        &mut self,
        n: usize,
        content: &str,
        validator: Option<&dyn EncodingValidator>,
    ) -> (r: Result<(), EncodingError>)
        requires
            old(self).wf(),
            old(self)@.pool.len() < u32::MAX,
        ensures
            final(self).wf(),
            n > old(self)@.ids.len() ==> {
                &&& final(self)@ == old(self)@
                &&& r matches Err(e)
                &&& e.line@ == content@
                &&& e.description@ == index_error_text(
                    "insert_line"@,
                    n as nat,
                    old(self)@.ids.len(),
                )
            },
            n <= old(self)@.ids.len() ==> (r is Ok <==> accepted_by(validator, content@)),
            r matches Err(e) ==> (n <= old(self)@.ids.len() ==> e.description@ == rejection_by(
                validator,
                content@,
            )),
            n <= old(self)@.ids.len() && r is Err ==> final(self)@ == old(self)@,
            r matches Err(e) ==> e.line@ == content@,
            r is Ok ==> {
                &&& inserted(old(self)@, n as int, content@, final(self)@)
                &&& final(self)@.text() == old(self)@.text().insert(n as int, content@)
            },
    {
        if n > self.lines.len() {
            return Err(index_error("insert_line", n, self.lines.len(), content));
        }
        let verdict = run_validator(validator, content);
        self.apply_insert(n, content, verdict)
    }

    /// Replaces line `n` with `content` when `verdict` (the validator's answer
    /// for `content`) is `Ok`.  An out-of-range `n` or a rejection leaves the
    /// branch unchanged and returns the error.
    pub fn apply_replace(
        &mut self,
        n: usize,
        content: &str,
        verdict: Result<(), EncodingError>,
    ) -> (r: Result<(), EncodingError>)
        requires
            old(self).wf(),
            old(self)@.pool.len() < u32::MAX,
        ensures
            final(self).wf(),
            n >= old(self)@.ids.len() ==> {
                &&& final(self)@ == old(self)@
                &&& r matches Err(e)
                &&& e.line@ == content@
                &&& e.description@ == index_error_text(
                    "replace_line"@,
                    n as nat,
                    old(self)@.ids.len(),
                )
            },
            n < old(self)@.ids.len() && verdict is Err ==> final(self)@ == old(self)@ && r
                == verdict,
            n < old(self)@.ids.len() && verdict is Ok ==> {
                &&& r is Ok
                &&& replaced(old(self)@, n as int, content@, final(self)@)
                &&& final(self)@.text() == old(self)@.text().update(n as int, content@)
            },
    {
        if n >= self.lines.len() {
            return Err(index_error("replace_line", n, self.lines.len(), content));
        }
        if let Err(e) = verdict {
            return Err(e);
        }
        let ghost st = self@;
        let new_id = self.intern(content);
        let ghost pool = self@.pool;
        proof {
            lemma_intern_result(st.pool, content@);
        }
        let old_id = self.lines[n];
        self.lines.set(n, new_id);
        let e = BranchEdit::Replace { at: n, old_id, new_id };
        self.undo_stack.push(e);
        self.redo_stack.clear();
        proof {
            let e = BranchEdit::Replace { at: n, old_id, new_id };
            assert(self@ =~= st.after_edit(pool, e));
            law_operations_keep_consistency(BranchState { pool, ..st }, pool, e);
            assert(BranchState { pool, ..st }.after_edit(pool, e) == st.after_edit(pool, e));
            self.pool.lemma_no_duplicates();
            law_edit_text(st, pool, e);
        }
        Ok(())
    }

    /// Replaces the content of line `n` (0-based) with `content`.
    ///
    /// If `validator` is `Some`, validation is performed first.  On rejection
    /// or if `n >= line_count()` the branch state is unchanged and `Err` is
    /// returned.
    pub fn replace_line(
        &mut self,
        n: usize,
        content: &str,
        validator: Option<&dyn EncodingValidator>,
    ) -> (r: Result<(), EncodingError>)
        requires
            old(self).wf(),
            old(self)@.pool.len() < u32::MAX,
        ensures
            final(self).wf(),
            n >= old(self)@.ids.len() ==> {
                &&& final(self)@ == old(self)@
                &&& r matches Err(e)
                &&& e.line@ == content@
                &&& e.description@ == index_error_text(
                    "replace_line"@,
                    n as nat,
                    old(self)@.ids.len(),
                )
            },
            n < old(self)@.ids.len() ==> (r is Ok <==> accepted_by(validator, content@)),
            r matches Err(e) ==> (n < old(self)@.ids.len() ==> e.description@ == rejection_by(
                validator,
                content@,
            )),
            n < old(self)@.ids.len() && r is Err ==> final(self)@ == old(self)@,
            r matches Err(e) ==> e.line@ == content@,
            r is Ok ==> {
                &&& replaced(old(self)@, n as int, content@, final(self)@)
                &&& final(self)@.text() == old(self)@.text().update(n as int, content@)
            },
    {
        if n >= self.lines.len() {
            return Err(index_error("replace_line", n, self.lines.len(), content));
        }
        let verdict = run_validator(validator, content);
        self.apply_replace(n, content, verdict)
    }

    /// Deletes the line at position `n` (0-based).
    ///
    /// Returns `false` without modifying state if `n >= line_count()`.  On
    /// success records the deletion for undo and clears the redo stack.
    pub fn delete_line(&mut self, n: usize) -> (r: bool)
        requires
            old(self).wf(),
        ensures
            final(self).wf(),
            r == (n < old(self)@.ids.len()),
            !r ==> final(self)@ == old(self)@,
            r ==> final(self)@ == old(self)@.after_edit(
                old(self)@.pool,
                BranchEdit::Delete { at: n, id: old(self)@.ids[n as int] },
            ),
            r ==> final(self)@.text() == old(self)@.text().remove(n as int),
    {
        if n >= self.lines.len() {
            return false;
        }
        let ghost st = self@;
        let id = self.lines.remove(n);
        let e = BranchEdit::Delete { at: n, id };
        self.undo_stack.push(e);
        self.redo_stack.clear();
        proof {
            let e = BranchEdit::Delete { at: n, id };
            assert(self@ =~= st.after_edit(st.pool, e));
            assert(edit_below(e, st.pool.len()));
            law_operations_keep_consistency(st, st.pool, e);
            assert(st.pool.subrange(0, st.pool.len() as int) =~= st.pool);
            law_edit_text(st, st.pool, e);
        }
        true
    }

    /// Undoes the most recent edit, moving it to the redo stack.  Returns
    /// `false`, changing nothing, if the undo stack is empty.
    pub fn undo(&mut self) -> (r: bool)
        requires
            old(self).wf(),
        ensures
            final(self).wf(),
            r == (old(self)@.undo.len() > 0),
            !r ==> final(self)@ == old(self)@,
            r ==> final(self)@ == old(self)@.after_undo(),
    {
        let ghost st = self@;
        let edit = match self.undo_stack.pop() {
            None => return false,
            Some(e) => e,
        };
        proof {
            law_operations_keep_consistency(st, st.pool, edit);
            assert(edit == st.undo.last());
        }
        match &edit {
            BranchEdit::Insert { at, .. } => {
                let _ = self.lines.remove(*at);
            },
            BranchEdit::Delete { at, id } => {
                self.lines.insert(*at, *id);
            },
            BranchEdit::Replace { at, old_id, .. } => {
                self.lines.set(*at, *old_id);
            },
        }
        self.redo_stack.push(edit);
        proof {
            assert(self@ =~= st.after_undo());
        }
        true
    }

    /// Replays the most recently undone edit, moving it back to the undo
    /// stack.  Returns `false`, changing nothing, if the redo stack is empty.
    pub fn redo(&mut self) -> (r: bool)
        requires
            old(self).wf(),
        ensures
            final(self).wf(),
            r == (old(self)@.redo.len() > 0),
            !r ==> final(self)@ == old(self)@,
            r ==> final(self)@ == old(self)@.after_redo(),
    {
        let ghost st = self@;
        let edit = match self.redo_stack.pop() {
            None => return false,
            Some(e) => e,
        };
        proof {
            law_operations_keep_consistency(st, st.pool, edit);
            assert(edit == st.redo.last());
        }
        match &edit {
            BranchEdit::Insert { at, id } => {
                self.lines.insert(*at, *id);
            },
            BranchEdit::Delete { at, .. } => {
                let _ = self.lines.remove(*at);
            },
            BranchEdit::Replace { at, new_id, .. } => {
                self.lines.set(*at, *new_id);
            },
        }
        self.undo_stack.push(edit);
        proof {
            assert(self@ =~= st.after_redo());
        }
        true
    }

    /// Returns a new `Branch` with the same pool contents and line sequence
    /// and empty undo/redo stacks.  The interned strings are shared with this
    /// branch; edits, undos and redos on either branch do not affect the other.
    pub fn fork(&self) -> (r: Branch)
        requires
            self.wf(),
        ensures
            r.wf(),
            r@ == self@.forked(),
    {
        let r = Branch {
            pool: self.pool.snapshot(),
            lines: self.lines.clone(),
            undo_stack: Vec::new(),
            redo_stack: Vec::new(),
        };
        proof {
            law_fork_consistent(self@);
            assert(r@ =~= self@.forked());
        }
        r
    }
}

impl LineBufferView for Branch {
    open spec fn view_wf(&self) -> bool {
        self.wf()
    }

    open spec fn view_lines(&self) -> Seq<Seq<char>> {
        self@.text()
    }

    fn line_count(&self) -> (r: usize) {
        self.lines.len()
    }

    fn get_line(&self, n: usize) -> (r: Option<String>) {
        Branch::get_line(self, n)
    }

    fn line_crc32(&self, n: usize) -> (r: Option<u32>) {
        if n < self.lines.len() {
            let id = self.lines[n];
            Some(self.pool.get(id).crc32())
        } else {
            None
        }
    }

    fn line_md5(&self, n: usize) -> (r: Option<[u8; 16]>) {
        if n < self.lines.len() {
            let id = self.lines[n];
            Some(self.pool.get(id).md5())
        } else {
            None
        }
    }

    fn line_sha256(&self, n: usize) -> (r: Option<[u8; 32]>) {
        if n < self.lines.len() {
            let id = self.lines[n];
            Some(self.pool.get(id).sha256())
        } else {
            None
        }
    }
}

} // verus!
