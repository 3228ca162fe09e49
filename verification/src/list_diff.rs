//! The keyed list diff behind `<For>`: an update is planned by [`diff`], a pure function of
//! the old and the new keys, and carried out by [`reconcile`] through [`ListOps`]. Every
//! index is checked. If keys repeat (the diff matches rows by key, so it cannot update such
//! a list) or a plan does not fit the rows (a state the diff holds impossible), the list is
//! rendered again from scratch: every row unmounted, every item built and mounted in order,
//! so the page is right. A plan is checked in full before any new row is built, so every
//! item is still there.

use crate::keys::{FxIndexSet, set_keys, key_set_len, key_at, index_of_key, contains_key};
use vstd::prelude::*;

verus! {

/// Why a keyed list was rendered again from scratch instead of updated.
#[derive(Debug, Clone, Copy, PartialEq, Eq)]
pub enum ListError {
    /// Keys should be unique: `items` items (or rows) had only `keys` distinct keys.
    RepeatedKeys { items: usize, keys: usize },
    /// The diff's plan does not fit the rendered rows.
    Invariant(&'static str),
    /// A key was serialized without the `islands` feature, which serializing needs: the key
    /// is empty.
    SerializableKeyWithoutIslands,
}

/// Where a row that is built is put on the page.
#[derive(Debug, Clone, Copy, PartialEq, Eq)]
pub enum DiffOpAddMode {
    /// Before the next row in place.
    Normal,
    /// At the end of the list (the old list was empty).
    Append,
}

/// A row that is kept at another index.
#[derive(Debug, Clone, Copy, PartialEq, Eq)]
pub struct DiffOpMove {
    /// Index in the old list.
    pub from: usize,
    /// Index in the new list.
    pub to: usize,
    /// Whether the row moves on the page, or only in the rows (its place on the page is
    /// already right, relative to the rows around it that do not move on the page).
    pub move_in_dom: bool,
}

/// A row that is built.
#[derive(Debug, Clone, Copy, PartialEq, Eq)]
pub struct DiffOpAdd {
    /// Index in the new list.
    pub at: usize,
    pub mode: DiffOpAddMode,
}

/// What to do to the rows of the old keys to get the rows of the new keys.
#[derive(Debug, PartialEq, Eq)]
pub struct Diff {
    /// Old indices of the rows to remove, ascending.
    pub removed: Vec<usize>,
    /// The rows that are kept at another index, ascending by old index.
    pub moved: Vec<DiffOpMove>,
    /// New indices of the rows to build, ascending.
    pub added: Vec<DiffOpAdd>,
    /// Remove every row (the new list is empty).
    pub clear: bool,
}

/// A plan, as sequences.
pub struct DiffPlan {
    pub removed: Seq<usize>,
    pub moved: Seq<DiffOpMove>,
    pub added: Seq<DiffOpAdd>,
    pub clear: bool,
}

impl View for Diff {
    type V = DiffPlan;

    open spec fn view(&self) -> DiffPlan {
        DiffPlan { removed: self.removed@, moved: self.moved@, added: self.added@, clear: self.clear }
    }
}

/// The key at `s` is at `s` in both lists.
pub open spec fn stays_at(f: Seq<u64>, t: Seq<u64>, s: int) -> bool {
    0 <= s < f.len() && s < t.len() && f[s] == t[s]
}

/// The key at `i` of the old list is not in the new one.
pub open spec fn removed_at(f: Seq<u64>, t: Seq<u64>, i: int) -> bool {
    0 <= i < f.len() && !t.contains(f[i])
}

/// The key at `a` of the new list is not in the old one.
pub open spec fn added_at(f: Seq<u64>, t: Seq<u64>, a: int) -> bool {
    0 <= a < t.len() && !f.contains(t[a])
}

/// The key at `i` of the old list is in the new one, at another index.
pub open spec fn moved_at(f: Seq<u64>, t: Seq<u64>, i: int) -> bool {
    0 <= i < f.len() && t.contains(f[i]) && !stays_at(f, t, i)
}

/// Old indices below `k` whose rows are removed, ascending.
pub open spec fn removed_list(f: Seq<u64>, t: Seq<u64>, k: nat) -> Seq<usize>
    decreases k,
{
    if k == 0 {
        seq![]
    } else {
        let rest = removed_list(f, t, (k - 1) as nat);
        if removed_at(f, t, k - 1) { rest.push((k - 1) as usize) } else { rest }
    }
}

/// New indices below `k` whose rows are built, ascending.
pub open spec fn added_list(f: Seq<u64>, t: Seq<u64>, k: nat) -> Seq<DiffOpAdd>
    decreases k,
{
    if k == 0 {
        seq![]
    } else {
        let rest = added_list(f, t, (k - 1) as nat);
        if added_at(f, t, k - 1) {
            rest.push(DiffOpAdd { at: (k - 1) as usize, mode: DiffOpAddMode::Normal })
        } else {
            rest
        }
    }
}

/// How many keys below `k` stay at their index.
pub open spec fn stays_count(f: Seq<u64>, t: Seq<u64>, k: nat) -> nat
    decreases k,
{
    if k == 0 {
        0
    } else {
        stays_count(f, t, (k - 1) as nat) + if stays_at(f, t, k - 1) { 1nat } else { 0nat }
    }
}

/// The move of the row at old index `i`, with the page move it needs by the shift rule
/// alone: it keeps its place on the page if the rows added and removed up to its index shift
/// it by exactly as many places as it moves.
pub open spec fn shift_move(f: Seq<u64>, t: Seq<u64>, i: int) -> DiffOpMove {
    let to = t.index_of(f[i]);
    DiffOpMove {
        from: i as usize,
        to: to as usize,
        move_in_dom: i + added_list(f, t, (i + 1) as nat).len() != to + removed_list(
            f,
            t,
            (i + 1) as nat,
        ).len(),
    }
}

/// The moves of the rows below old index `k`, ascending, by the shift rule alone.
pub open spec fn shift_moves(f: Seq<u64>, t: Seq<u64>, k: nat) -> Seq<DiffOpMove>
    decreases k,
{
    if k == 0 {
        seq![]
    } else {
        let rest = shift_moves(f, t, (k - 1) as nat);
        if moved_at(f, t, k - 1) { rest.push(shift_move(f, t, k - 1)) } else { rest }
    }
}

/// Whether a row that stays at its index lies strictly between `from` and `to`.
pub open spec fn passes_stay(f: Seq<u64>, t: Seq<u64>, from: int, to: int) -> bool {
    let low = if from < to { from } else { to };
    let high = if from < to { to } else { from };
    stays_count(f, t, high as nat) > stays_count(f, t, (low + 1) as nat)
}

/// Whether `op` continues the run of `prev`: the same rows, next to each other, in both lists.
pub open spec fn continues_run(prev: DiffOpMove, op: DiffOpMove) -> bool {
    prev.from + 1 == op.from && prev.to + 1 == op.to
}

/// The first `k` moves of `raw` with their page moves settled: a run of adjacent moves moves
/// on the page or stays as its first row does, and a row that starts a run moves on the page
/// if the shift rule says so or if it would move past a row that stays at its index.
pub open spec fn settled_moves(f: Seq<u64>, t: Seq<u64>, raw: Seq<DiffOpMove>, k: nat) -> Seq<
    DiffOpMove,
>
    decreases k,
{
    if k == 0 {
        seq![]
    } else {
        let prev = settled_moves(f, t, raw, (k - 1) as nat);
        let op = raw[k - 1];
        let in_dom = if k >= 2 && continues_run(raw[k - 2], op) {
            prev[k - 2].move_in_dom
        } else {
            op.move_in_dom || passes_stay(f, t, op.from as int, op.to as int)
        };
        prev.push(DiffOpMove { from: op.from, to: op.to, move_in_dom: in_dom })
    }
}

/// The plan for updating the rows of `f` to the rows of `t`.
pub open spec fn spec_diff(f: Seq<u64>, t: Seq<u64>) -> DiffPlan {
    if t.len() == 0 {
        DiffPlan { removed: seq![], moved: seq![], added: seq![], clear: f.len() != 0 }
    } else if f.len() == 0 {
        DiffPlan {
            removed: seq![],
            moved: seq![],
            added: Seq::new(
                t.len(),
                |a: int| DiffOpAdd { at: a as usize, mode: DiffOpAddMode::Append },
            ),
            clear: false,
        }
    } else {
        let len = if f.len() < t.len() { t.len() } else { f.len() };
        let raw = shift_moves(f, t, len);
        DiffPlan {
            removed: removed_list(f, t, len),
            moved: settled_moves(f, t, raw, raw.len()),
            added: added_list(f, t, len),
            clear: false,
        }
    }
}

pub(crate) proof fn lemma_lists_bounded(f: Seq<u64>, t: Seq<u64>, k: nat)
    ensures
        removed_list(f, t, k).len() <= k,
        added_list(f, t, k).len() <= k,
        removed_list(f, t, k).len() <= f.len(),
        added_list(f, t, k).len() <= t.len(),
        shift_moves(f, t, k).len() <= k,
        stays_count(f, t, k) <= k,
        forall|x: int|
            0 <= x < shift_moves(f, t, k).len() ==> #[trigger] shift_moves(f, t, k)[x].from < k,
        forall|x: int|
            0 <= x < shift_moves(f, t, k).len() ==> #[trigger] shift_moves(f, t, k)[x].to
                < t.len(),
    decreases k,
{
    if k > 0 {
        lemma_lists_bounded(f, t, (k - 1) as nat);
        if removed_at(f, t, k - 1) {
            lemma_removed_list_bound(f, t, (k - 1) as nat);
        }
        if added_at(f, t, k - 1) {
            lemma_added_list_bound(f, t, (k - 1) as nat);
        }
        if moved_at(f, t, k - 1) {
            let j = t.index_of(f[k - 1]);
            assert(t.contains(f[k - 1]));
            assert(0 <= j < t.len());
        }
    }
}

proof fn lemma_removed_list_bound(f: Seq<u64>, t: Seq<u64>, k: nat)
    requires
        k < f.len(),
    ensures
        removed_list(f, t, k).len() <= k,
        removed_list(f, t, k).len() < f.len(),
    decreases k,
{
    if k > 0 {
        lemma_removed_list_bound(f, t, (k - 1) as nat);
    }
}

proof fn lemma_added_list_bound(f: Seq<u64>, t: Seq<u64>, k: nat)
    requires
        k < t.len(),
    ensures
        added_list(f, t, k).len() <= k,
        added_list(f, t, k).len() < t.len(),
    decreases k,
{
    if k > 0 {
        lemma_added_list_bound(f, t, (k - 1) as nat);
    }
}

proof fn lemma_settled(f: Seq<u64>, t: Seq<u64>, raw: Seq<DiffOpMove>, k: nat)
    requires
        k <= raw.len(),
    ensures
        settled_moves(f, t, raw, k).len() == k,
        forall|x: int|
            0 <= x < k ==> (#[trigger] settled_moves(f, t, raw, k)[x]).from == raw[x].from
                && settled_moves(f, t, raw, k)[x].to == raw[x].to,
    decreases k,
{
    if k > 0 {
        lemma_settled(f, t, raw, (k - 1) as nat);
        assert forall|x: int| 0 <= x < k - 1 implies settled_moves(f, t, raw, k)[x]
            == settled_moves(f, t, raw, (k - 1) as nat)[x] by {}
    }
}

/// The page after `id` is taken off it.
pub open spec fn unmounted(page: Seq<nat>, id: nat) -> Seq<nat> {
    if page.contains(id) {
        page.remove(page.index_of(id))
    } else {
        page
    }
}

/// The page after `id` is put (or moved) before `before`, or at the end if `before` is
/// `None` or not on the page.
pub open spec fn mounted(page: Seq<nat>, id: nat, before: Option<nat>) -> Seq<nat> {
    let rest = unmounted(page, id);
    match before {
        Some(b) => if rest.contains(b) {
            rest.insert(rest.index_of(b), id)
        } else {
            rest.push(id)
        },
        None => rest.push(id),
    }
}

/// An operation on the page of a list, as its log records it: the row it is about, by
/// identity, and the index a row is built for or told.
pub enum PageOp {
    /// A row built for the item at `index`.
    Build { index: usize, id: nat },
    /// A row taken off the page.
    Unmount { id: nat },
    /// A row put on the page, or moved on it.
    Mount { id: nat },
    /// A row told its new index.
    SetIndex { id: nat, index: usize },
}

/// The rendered list that the diff updates: a page of rows, each with an identity.
pub trait ListOps: Sized {
    /// An item of the new list, from which a row is built.
    type Item;
    /// A rendered row.
    type Row;

    /// The identity of a row. Each page of this crate states the identities, the rows shown,
    /// the origins, what it keeps and which rows it built; the defaults know nothing of a
    /// page.
    closed spec fn row_id(row: Self::Row) -> nat {
        0
    }

    /// The rows on the page, in order, by identity.
    closed spec fn shown(&self) -> Seq<nat> {
        Seq::empty()
    }

    /// The index and the item that `row` was built from.
    closed spec fn origin(row: Self::Row) -> (usize, Self::Item) {
        vstd::pervasive::arbitrary()
    }

    /// What the page keeps between operations.
    closed spec fn inv(&self) -> bool {
        true
    }

    /// Whether a row with the identity `id` was built here.
    closed spec fn issued(&self, id: nat) -> bool {
        false
    }

    /// The operations made on the page so far, in order.
    closed spec fn log(&self) -> Seq<PageOp> {
        Seq::empty()
    }

    /// Builds the row for `item`, the item at `index` of the new list, without mounting it.
    fn build(&mut self, index: usize, item: Self::Item) -> (row: Self::Row)
        requires
            old(self).inv(),
        ensures
            final(self).inv(),
            final(self).shown() == old(self).shown(),
            !old(self).shown().contains(Self::row_id(row)),
            !old(self).issued(Self::row_id(row)),
            final(self).issued(Self::row_id(row)),
            forall|id: nat| old(self).issued(id) ==> final(self).issued(id),
            Self::origin(row) == (index, item),
            final(self).log() == old(self).log().push(PageOp::Build { index, id: Self::row_id(row) }),
    ;

    /// Takes `row` off the page.
    fn unmount(&mut self, row: &mut Self::Row)
        requires
            old(self).inv(),
        ensures
            final(self).inv(),
            forall|id: nat| old(self).issued(id) ==> final(self).issued(id),
            final(self).shown() == unmounted(old(self).shown(), Self::row_id(*old(row))),
            Self::row_id(*final(row)) == Self::row_id(*old(row)),
            Self::origin(*final(row)) == Self::origin(*old(row)),
            final(self).log() == old(self).log().push(PageOp::Unmount { id: Self::row_id(*old(row)) }),
    ;

    /// Puts `row` on the page (moving it if it is there) before `before`, or at the end of
    /// the list if `before` is `None`.
    fn mount(&mut self, row: &mut Self::Row, before: Option<&Self::Row>)
        requires
            old(self).inv(),
            old(self).issued(Self::row_id(*old(row))),
        ensures
            final(self).inv(),
            forall|id: nat| old(self).issued(id) ==> final(self).issued(id),
            final(self).shown() == mounted(
                old(self).shown(),
                Self::row_id(*old(row)),
                match before {
                    Some(b) => Some(Self::row_id(*b)),
                    None => None,
                },
            ),
            Self::row_id(*final(row)) == Self::row_id(*old(row)),
            Self::origin(*final(row)) == Self::origin(*old(row)),
            final(self).log() == old(self).log().push(PageOp::Mount { id: Self::row_id(*old(row)) }),
    ;

    /// Tells `row` its new index.
    fn set_index(&mut self, row: &Self::Row, index: usize)
        requires
            old(self).inv(),
        ensures
            final(self).inv(),
            forall|id: nat| old(self).issued(id) ==> final(self).issued(id),
            final(self).shown() == old(self).shown(),
            final(self).log() == old(self).log().push(PageOp::SetIndex { id: Self::row_id(*row), index }),
    ;
}

/// The log of taking the rows of `rows` off the page, in order.
#[verifier::opaque]
pub open spec fn clear_log<O: ListOps>(rows: Seq<Option<O::Row>>) -> Seq<PageOp>
    decreases rows.len(),
{
    if rows.len() == 0 {
        Seq::empty()
    } else {
        let rest = clear_log::<O>(rows.drop_last());
        match rows.last() {
            Some(row) => rest.push(PageOp::Unmount { id: O::row_id(row) }),
            None => rest,
        }
    }
}

/// The identities of the rows in `slots`, in order; a free slot has none.
pub open spec fn slot_ids<O: ListOps>(slots: Seq<Option<O::Row>>) -> Seq<nat>
    decreases slots.len(),
{
    if slots.len() == 0 {
        seq![]
    } else {
        let rest = slot_ids::<O>(slots.drop_last());
        match slots.last() {
            Some(row) => rest.push(O::row_id(row)),
            None => rest,
        }
    }
}

/// Whether a row of `slots` has the identity `id`.
pub open spec fn holds<O: ListOps>(slots: Seq<Option<O::Row>>, id: nat) -> bool {
    exists|k: int| 0 <= k < slots.len() && #[trigger] slots[k] is Some && O::row_id(slots[k]->0) == id
}

/// Whether no two rows of `slots` have one identity.
pub open spec fn distinct_rows<O: ListOps>(slots: Seq<Option<O::Row>>) -> bool {
    forall|k1: int, k2: int|
        0 <= k1 < slots.len() && 0 <= k2 < slots.len() && k1 != k2 && #[trigger] slots[k1] is Some
            && #[trigger] slots[k2] is Some ==> O::row_id(slots[k1]->0) != O::row_id(
            slots[k2]->0,
        )
}

/// Whether every slot holds a row.
pub open spec fn all_rows<R>(slots: Seq<Option<R>>) -> bool {
    forall|k: int| 0 <= k < slots.len() ==> #[trigger] slots[k] is Some
}

/// Whether the page shows exactly the rows of `slots`, each once.
pub open spec fn shows_exactly<O: ListOps>(page: Seq<nat>, slots: Seq<Option<O::Row>>) -> bool {
    &&& page.no_duplicates()
    &&& distinct_rows::<O>(slots)
    &&& forall|x: nat| page.contains(x) <==> holds::<O>(slots, x)
}

pub(crate) proof fn lemma_slot_ids_all<O: ListOps>(slots: Seq<Option<O::Row>>)
    requires
        all_rows(slots),
    ensures
        slot_ids::<O>(slots).len() == slots.len(),
        forall|k: int| 0 <= k < slots.len() ==> #[trigger] slot_ids::<O>(slots)[k] == O::row_id(slots[k]->0),
    decreases slots.len(),
{
    if slots.len() > 0 {
        lemma_slot_ids_all::<O>(slots.drop_last());
    }
}

proof fn lemma_unmounted(page: Seq<nat>, id: nat)
    requires
        page.no_duplicates(),
    ensures
        unmounted(page, id).no_duplicates(),
        forall|x: nat| unmounted(page, id).contains(x) <==> (page.contains(x) && x != id),
{
    if page.contains(id) {
        let i = page.index_of(id);
        let r = page.remove(i);
        assert forall|x: nat| r.contains(x) <==> (page.contains(x) && x != id) by {
            if r.contains(x) {
                let j = choose|j: int| 0 <= j < r.len() && r[j] == x;
                if j < i {
                    assert(page[j] == x);
                } else {
                    assert(page[j + 1] == x);
                }
            }
            if page.contains(x) && x != id {
                let j = choose|j: int| 0 <= j < page.len() && page[j] == x;
                if j < i {
                    assert(r[j] == x);
                } else {
                    assert(j != i);
                    assert(r[j - 1] == x);
                }
            }
        }
    }
}

proof fn lemma_mounted_end(page: Seq<nat>, id: nat)
    requires
        page.no_duplicates(),
        !page.contains(id),
    ensures
        mounted(page, id, None) == page.push(id),
        page.push(id).no_duplicates(),
{
    lemma_unmounted(page, id);
    assert(unmounted(page, id) == page);
}

/// Unmounts every row and empties `rows`.
pub(crate) fn clear_rows<O: ListOps>(rows: &mut Vec<Option<O::Row>>, ops: &mut O)
    requires
        old(ops).inv(),
        shows_exactly::<O>(old(ops).shown(), old(rows)@),
    ensures
        final(ops).inv(),
        final(rows)@.len() == 0,
        final(ops).shown() == Seq::<nat>::empty(),
        forall|id: nat| old(ops).issued(id) ==> final(ops).issued(id),
        final(ops).log() == old(ops).log() + clear_log::<O>(old(rows)@),
{
    reveal(clear_log);
    let ghost old_rows = rows@;
    let ghost old_ops = *ops;
    let mut i: usize = 0;
    while i < rows.len()
        invariant
            i <= rows@.len(),
            rows@.len() == old_rows.len(),
            ops.inv(),
            distinct_rows::<O>(old_rows),
            ops.shown().no_duplicates(),
            forall|id: nat| old_ops.issued(id) ==> ops.issued(id),
            forall|k: int| 0 <= k < i ==> rows@[k] is None,
            forall|k: int| i <= k < rows@.len() ==> rows@[k] == old_rows[k],
            forall|x: nat| ops.shown().contains(x) <==> (exists|k: int| i <= k < old_rows.len() && #[trigger] old_rows[k] is Some && O::row_id(old_rows[k]->0) == x),
            ops.log() == old_ops.log() + clear_log::<O>(old_rows.take(i as int)),
        decreases rows.len() - i,
    {
        proof {
            reveal(clear_log);
        }
        let ghost log0 = ops.log();
        proof {
            assert(old_rows.take(i + 1).drop_last() =~= old_rows.take(i as int));
            assert(old_rows.take(i + 1).last() == old_rows[i as int]);
        }
        let slot = rows[i].take();
        match slot {
            Some(mut row) => {
                let ghost before = ops.shown();
                let ghost id = O::row_id(row);
                proof { lemma_unmounted(before, id); }
                ops.unmount(&mut row);
                proof {
                    assert(ops.log() =~= old_ops.log() + clear_log::<O>(old_rows.take(i + 1)));
                    assert(ops.shown() == unmounted(before, id));
                    assert(id == O::row_id(old_rows[i as int]->0));
                    assert forall|x: nat| ops.shown().contains(x) <==> (exists|k: int| i + 1 <= k < old_rows.len() && #[trigger] old_rows[k] is Some && O::row_id(old_rows[k]->0) == x) by {
                        if ops.shown().contains(x) {
                            assert(unmounted(before, id).contains(x));
                            assert(before.contains(x));
                            let k = choose|k: int| i <= k < old_rows.len() && #[trigger] old_rows[k] is Some && O::row_id(old_rows[k]->0) == x;
                            assert(k != i);
                        }
                        if exists|k: int| i + 1 <= k < old_rows.len() && #[trigger] old_rows[k] is Some && O::row_id(old_rows[k]->0) == x {
                            let k = choose|k: int| i + 1 <= k < old_rows.len() && #[trigger] old_rows[k] is Some && O::row_id(old_rows[k]->0) == x;
                            assert(old_rows[i as int] is Some);
                            assert(O::row_id(old_rows[k]->0) != O::row_id(old_rows[i as int]->0));
                            assert(before.contains(x));
                            assert(unmounted(before, id).contains(x));
                        }
                    }
                }
            },
            None => {
                proof {
                    assert(ops.log() =~= old_ops.log() + clear_log::<O>(old_rows.take(i + 1)));
                }
            },
        }
        i += 1;
    }
    assert(old_rows.take(old_rows.len() as int) =~= old_rows);
    assert(ops.shown() =~= Seq::<nat>::empty()) by {
        if ops.shown().len() > 0 {
            assert(ops.shown().contains(ops.shown()[0]));
        }
    }
    *rows = Vec::new();
}

/// Unmounts every row, then builds and mounts every item, in order.
pub(crate) fn rebuild_from_scratch<O: ListOps>(rows: &mut Vec<Option<O::Row>>, items: Vec<Option<O::Item>>, ops: &mut O)
    requires
        old(ops).inv(),
        shows_exactly::<O>(old(ops).shown(), old(rows)@),
    ensures
        final(ops).inv(),
        all_rows(final(rows)@),
        final(ops).shown() == slot_ids::<O>(final(rows)@),
        all_rows(items@) ==> final(rows)@.len() == items@.len(),
        all_rows(items@) ==> forall|k: int|
            0 <= k < items@.len() ==> O::origin(#[trigger] final(rows)@[k]->0) == (k as usize, items@[k]->0),
        forall|k: int| 0 <= k < final(rows)@.len() ==> final(ops).issued(O::row_id(#[trigger] final(rows)@[k]->0)),
        forall|k: int| 0 <= k < final(rows)@.len() ==> !old(ops).issued(O::row_id(#[trigger] final(rows)@[k]->0)),
        forall|v: nat| old(ops).issued(v) ==> #[trigger] final(ops).issued(v),
        final(ops).shown().no_duplicates(),
{
    clear_rows(rows, ops);
    let mut index: usize = 0;
    let ghost old_items = items@;
    let mut items = items;
    while index < items.len()
        invariant
            index <= items@.len(),
            items@.len() == old_items.len(),
            forall|k: int| index <= k < items@.len() ==> items@[k] == old_items[k],
            ops.inv(),
            all_rows(rows@),
            ops.shown() == slot_ids::<O>(rows@),
            ops.shown().no_duplicates(),
            all_rows(old_items) ==> rows@.len() == index,
            forall|k: int| 0 <= k < rows@.len() ==> ops.issued(O::row_id(#[trigger] rows@[k]->0)),
            forall|k: int| 0 <= k < rows@.len() ==> !old(ops).issued(O::row_id(#[trigger] rows@[k]->0)),
            forall|v: nat| old(ops).issued(v) ==> #[trigger] ops.issued(v),
            all_rows(old_items) ==> forall|k: int|
                0 <= k < index ==> O::origin(#[trigger] rows@[k]->0) == (k as usize, old_items[k]->0),
        decreases items.len() - index,
    {
        let item = items[index].take();
        assert(item == old_items[index as int]);
        match item {
            Some(item) => {
                proof { lemma_slot_ids_all::<O>(rows@); }
                let ghost pre = *ops;
                let mut row = ops.build(index, item);
                assert(!old(ops).issued(O::row_id(row)));
                let ghost page = ops.shown();
                proof {
                    lemma_mounted_end(page, O::row_id(row));
                }
                ops.mount(&mut row, None);
                let ghost prev = rows@;
                rows.push(Some(row));
                proof {
                    assert(rows@.drop_last() == prev);
                    assert(slot_ids::<O>(rows@) == slot_ids::<O>(rows@.drop_last()).push(O::row_id(row)));
                }
            },
            None => {},
        }
        index += 1;
    }
}

/// Whether a row that stays at its index lies strictly between `from` and `to`; `Err` if
/// either index is past the end of `stays_before`.
fn passes_a_row_that_stays(stays_before: &Vec<usize>, from: usize, to: usize) -> (res: Result<
    bool,
    ListError,
>)
    ensures
        res matches Err(e) ==> e is Invariant,
        ({
            let low = if from < to { from } else { to };
            let high = if from < to { to } else { from };
            match res {
                Ok(b) => low + 1 < stays_before@.len() && high < stays_before@.len() && b == (
                stays_before@[high as int] > stays_before@[low + 1]),
                Err(_) => !(low + 1 < stays_before@.len() && high < stays_before@.len()),
            }
        }),
{
    let low = if from < to { from } else { to };
    let high = if from < to { to } else { from };
    let len = stays_before.len();
    if len > 0 && low < len - 1 && high < len {
        Ok(stays_before[high] > stays_before[low + 1])
    } else {
        Err(ListError::Invariant("an index is past the end of the list"))
    }
}

/// Plans the update from the rows of `from` to the rows of `to`.
///
/// A kept row moves on the page unless the rows added and removed up to its index shift it
/// by exactly as many places as it moves and it does not move past a row that stays at its
/// index. A run of adjacent moves moves on the page or stays as its first row does. `Err`
/// only if an index overflows.
pub fn diff(from: &FxIndexSet, to: &FxIndexSet) -> (res: Result<Diff, ListError>)
    requires
        set_keys(*from).no_duplicates(),
        set_keys(*to).no_duplicates(),
    ensures
        res matches Ok(d) ==> d@ == spec_diff(set_keys(*from), set_keys(*to)),
        res matches Err(e) ==> e is Invariant,
        set_keys(*from).len() + set_keys(*to).len() <= usize::MAX ==> res is Ok,
{
    let ghost f = set_keys(*from);
    let ghost t = set_keys(*to);
    let m = key_set_len(from);
    let n = key_set_len(to);
    if n == 0 {
        return Ok(Diff { removed: Vec::new(), moved: Vec::new(), added: Vec::new(), clear: m != 0 });
    }
    if m == 0 {
        let mut added: Vec<DiffOpAdd> = Vec::new();
        let mut at: usize = 0;
        while at < n
            invariant
                at <= n,
                added@ == Seq::new(
                    at as nat,
                    |a: int| DiffOpAdd { at: a as usize, mode: DiffOpAddMode::Append },
                ),
            decreases n - at,
        {
            added.push(DiffOpAdd { at, mode: DiffOpAddMode::Append });
            at += 1;
        }
        return Ok(Diff { removed: Vec::new(), moved: Vec::new(), added, clear: false });
    }
    let len = if m < n { n } else { m };
    let mut removed: Vec<usize> = Vec::new();
    let mut raw: Vec<DiffOpMove> = Vec::new();
    let mut added: Vec<DiffOpAdd> = Vec::new();
    // `stays_before[i]`: how many rows before index `i` stay at their index
    let mut stays_before: Vec<usize> = Vec::new();
    let mut stays: usize = 0;
    let mut index: usize = 0;
    while index < len
        invariant
            m == f.len(),
            n == t.len(),
            f.no_duplicates(),
            t.no_duplicates(),
            f == set_keys(*from),
            t == set_keys(*to),
            len == if m < n { n } else { m },
            index <= len,
            removed@ == removed_list(f, t, index as nat),
            added@ == added_list(f, t, index as nat),
            raw@ == shift_moves(f, t, index as nat),
            stays == stays_count(f, t, index as nat),
            stays_before@.len() == index,
            forall|x: int| 0 <= x < index ==> stays_before@[x] == stays_count(f, t, x as nat),
        decreases len - index,
    {
        proof {
            lemma_lists_bounded(f, t, index as nat);
        }
        stays_before.push(stays);
        let from_key = key_at(from, index);
        let to_key = key_at(to, index);
        let same = match (from_key, to_key) {
            (Some(a), Some(b)) => a == b,
            (None, None) => true,
            _ => false,
        };
        if same {
            stays = stays + 1;
            index += 1;
            continue;
        }
        let new_index = match from_key {
            Some(key) => index_of_key(to, key),
            None => None,
        };
        if from_key.is_some() && new_index.is_none() {
            removed.push(index);
        }
        match to_key {
            Some(key) => {
                if !contains_key(from, key) {
                    added.push(DiffOpAdd { at: index, mode: DiffOpAddMode::Normal });
                }
            },
            None => {},
        }
        match new_index {
            Some(to_index) => {
                proof {
                    assert(t.index_of(f[index as int]) == to_index) by {
                        let j = t.index_of(f[index as int]);
                        assert(t.contains(f[index as int]));
                        assert(t[j] == t[to_index as int]);
                    }
                }
                let shifted = index.checked_add(added.len());
                let target = to_index.checked_add(removed.len());
                match (shifted, target) {
                    (Some(shifted), Some(target)) => {
                        raw.push(
                            DiffOpMove { from: index, to: to_index, move_in_dom: shifted != target },
                        );
                    },
                    _ => {
                        return Err(ListError::Invariant("an index overflows"));
                    },
                }
            },
            None => {},
        }
        index += 1;
    }
    stays_before.push(stays);
    proof {
        lemma_lists_bounded(f, t, len as nat);
    }

    let mut moved: Vec<DiffOpMove> = Vec::new();
    let mut previous: Option<DiffOpMove> = None;
    let mut k: usize = 0;
    while k < raw.len()
        invariant
            k <= raw@.len(),
            raw@ == shift_moves(f, t, len as nat),
            moved@ == settled_moves(f, t, raw@, k as nat),
            previous == if k == 0 { None } else { Some(moved@[k - 1]) },
            stays_before@.len() == len + 1,
            forall|x: int| 0 <= x <= len ==> stays_before@[x] == stays_count(f, t, x as nat),
            forall|x: int| 0 <= x < raw@.len() ==> #[trigger] raw@[x].from < len,
            forall|x: int| 0 <= x < raw@.len() ==> #[trigger] raw@[x].to < len,
        decreases raw.len() - k,
    {
        proof {
            lemma_settled(f, t, raw@, k as nat);
            lemma_settled(f, t, raw@, (k + 1) as nat);
        }
        let op = raw[k];
        let in_dom = match previous {
            Some(run) if run.from < usize::MAX && run.to < usize::MAX && run.from + 1 == op.from
                && run.to + 1 == op.to => run.move_in_dom,
            _ => {
                if op.move_in_dom {
                    true
                } else {
                    match passes_a_row_that_stays(&stays_before, op.from, op.to) {
                        Ok(b) => b,
                        Err(e) => {
                            return Err(e);
                        },
                    }
                }
            },
        };
        let settled = DiffOpMove { from: op.from, to: op.to, move_in_dom: in_dom };
        moved.push(settled);
        previous = Some(settled);
        k += 1;
    }

    Ok(Diff { removed, moved, added, clear: false })
}

} // verus!
