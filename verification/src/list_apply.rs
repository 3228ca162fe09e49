//! Carrying out a plan of the keyed list diff on the rows of a list, and the reconciliation
//! of a list with its new items.

use crate::keys::{key_set_len, set_keys, FxIndexSet};
use crate::diff_order::{
    lemma_added_list, lemma_plan_moves, lemma_removed_list, plan_keys, plan_moves,
};
use crate::list_diff::{
    diff, rebuild_from_scratch, added_at, all_rows, clear_log, PageOp, clear_rows, distinct_rows, holds, slot_ids, spec_diff, moved_at, removed_at, removed_list, shows_exactly, stays_at, unmounted, Diff, DiffOpAdd, DiffOpAddMode, DiffOpMove, DiffPlan, ListError,
    ListOps,
};
use crate::page_order::{
    in_slot_order, lemma_drop_free, lemma_in_order_is_slots, lemma_mount_in_order, lemma_slot_of,
    lemma_slots_in_order, lemma_slots_show_exactly, next_in_place, slot_of,
};
use crate::plan_fill::{
    anchored, free_count, kept_move, lemma_anchored_order, lemma_empty_plan, lemma_every_index_filled,
    lemma_free_count, lemma_free_places_covered, lemma_free_count_all, lemma_plan_parts,
};
use crate::slots::{all_issued, lemma_add_fresh, lemma_insert_free, lemma_mounted_set, lemma_move_on_page, lemma_relocate, lemma_take_unmount, lemma_unmounted_set};
use vstd::prelude::*;

verus! {

/// Whether the page of `ops` shows exactly the rows of `rows` and `moving`, all built by it.
pub open spec fn page_fits<O: ListOps>(ops: O, rows: Seq<Option<O::Row>>, moving: Seq<Option<O::Row>>) -> bool {
    &&& ops.inv()
    &&& shows_exactly::<O>(ops.shown(), rows + moving)
    &&& all_issued::<O>(ops, rows + moving)
}

/// Taking a row off the page keeps the order of the others.
proof fn lemma_unmounted_in_order<O: ListOps>(page: Seq<nat>, s: Seq<Option<O::Row>>, id: nat)
    requires
        page.no_duplicates(),
        in_slot_order::<O>(page, s),
    ensures
        in_slot_order::<O>(unmounted(page, id), s),
{
    if page.contains(id) {
        let i = page.index_of(id);
        let r = page.remove(i);
        assert forall|p: int, q: int|
            #![trigger r[p], r[q]]
            0 <= p < q < r.len() && holds::<O>(s, r[p]) && holds::<O>(s, r[q]) implies slot_of::<O>(s, r[p])
            < slot_of::<O>(s, r[q]) by {
            let p0 = if p < i { p } else { p + 1 };
            let q0 = if q < i { q } else { q + 1 };
            assert(r[p] == page[p0] && r[q] == page[q0]);
        }
    }
}

/// Whether `list` names the index `i`.
pub open spec fn in_list(list: Seq<usize>, i: int) -> bool {
    exists|k: int| 0 <= k < list.len() && list[k] == i
}

/// An index named in a prefix of a list is named in the list; one named in the prefix of
/// length `n + 1` is named in the prefix of length `n` or is the one at `n`.
proof fn lemma_in_prefix(list: Seq<usize>, n: int)
    requires
        0 <= n < list.len(),
    ensures
        forall|i: int| #[trigger] in_list(list.take(n), i) ==> in_list(list, i),
        forall|i: int| #[trigger] in_list(list.take(n + 1), i) ==> in_list(list.take(n), i) || list[n] == i,
        forall|i: int| in_list(list.take(n), i) ==> #[trigger] in_list(list.take(n + 1), i),
        in_list(list.take(n + 1), list[n] as int),
{
    assert forall|i: int| #[trigger] in_list(list.take(n), i) implies in_list(list, i) by {
        let k = choose|k: int| 0 <= k < list.take(n).len() && #[trigger] list.take(n)[k] == i;
        assert(list[k] == i);
    }
    assert forall|i: int| #[trigger] in_list(list.take(n + 1), i) implies in_list(list.take(n), i) || list[n] == i by {
        let k = choose|k: int| 0 <= k < list.take(n + 1).len() && #[trigger] list.take(n + 1)[k] == i;
        if k < n {
            assert(list.take(n)[k] == i);
        }
    }
    assert forall|i: int| in_list(list.take(n), i) implies #[trigger] in_list(list.take(n + 1), i) by {
        let k = choose|k: int| 0 <= k < list.take(n).len() && #[trigger] list.take(n)[k] == i;
        assert(list.take(n + 1)[k] == i);
    }
    assert(list.take(n + 1)[n] == list[n]);
}

/// Whether the log `after` is the log `before` followed by `ops`.
#[verifier::opaque]
pub open spec fn logged(before: Seq<PageOp>, after: Seq<PageOp>, ops: Seq<PageOp>) -> bool {
    after == before + ops
}

/// The log of taking the rows at `removed` of `rows` off the page, in order.
#[verifier::opaque]
pub open spec fn removal_log<O: ListOps>(removed: Seq<usize>, rows: Seq<Option<O::Row>>) -> Seq<PageOp>
    decreases removed.len(),
{
    if removed.len() == 0 {
        Seq::empty()
    } else {
        removal_log::<O>(removed.drop_last(), rows).push(
            PageOp::Unmount { id: O::row_id(rows[removed.last() as int]->0) },
        )
    }
}

/// The log of telling each row that `moved` moves only in the list (not on the page) its new
/// index, in order; `waiting` holds the moves' rows.
#[verifier::opaque]
pub open spec fn kept_log<O: ListOps>(moved: Seq<DiffOpMove>, waiting: Seq<Option<O::Row>>) -> Seq<PageOp>
    decreases moved.len(),
{
    if moved.len() == 0 {
        Seq::empty()
    } else {
        let rest = kept_log::<O>(moved.drop_last(), waiting);
        let y = moved.len() - 1;
        if moved[y].move_in_dom {
            rest
        } else {
            rest.push(PageOp::SetIndex { id: O::row_id(waiting[y]->0), index: moved[y].to })
        }
    }
}

/// The log of moving on the page each row that `moved` moves there, then telling it its new
/// index, in order; `waiting` holds the moves' rows.
#[verifier::opaque]
pub open spec fn moving_log<O: ListOps>(moved: Seq<DiffOpMove>, waiting: Seq<Option<O::Row>>) -> Seq<PageOp>
    decreases moved.len(),
{
    if moved.len() == 0 {
        Seq::empty()
    } else {
        let rest = moving_log::<O>(moved.drop_last(), waiting);
        let y = moved.len() - 1;
        if moved[y].move_in_dom {
            rest.push(PageOp::Mount { id: O::row_id(waiting[y]->0) }).push(
                PageOp::SetIndex { id: O::row_id(waiting[y]->0), index: moved[y].to },
            )
        } else {
            rest
        }
    }
}

/// The log of building, then putting on the page, the new row at the place of each addition
/// of `added`, in order; `rows` holds the new rows at their places.
#[verifier::opaque]
pub open spec fn adding_log<O: ListOps>(added: Seq<DiffOpAdd>, rows: Seq<Option<O::Row>>) -> Seq<PageOp>
    decreases added.len(),
{
    if added.len() == 0 {
        Seq::empty()
    } else {
        let at = added.last().at;
        let id = O::row_id(rows[at as int]->0);
        adding_log::<O>(added.drop_last(), rows).push(PageOp::Build { index: at, id }).push(PageOp::Mount { id })
    }
}

/// The rows that the moves of `moved` take from `rows`, in order.
pub open spec fn moved_rows<R>(moved: Seq<DiffOpMove>, rows: Seq<Option<R>>) -> Seq<Option<R>> {
    Seq::new(moved.len(), |y: int| rows[moved[y].from as int])
}

/// The log of carrying out `plan` on `rows`, which leaves `new_rows`: the rows it removes are
/// taken off the page (every row, where it clears the list), the rows it moves only in the
/// list are told their new index, the rows it moves on the page are moved there and told
/// their index, and each new row is built and put on the page, each in the plan's order.
#[verifier::opaque]
pub open spec fn apply_log<O: ListOps>(plan: DiffPlan, rows: Seq<Option<O::Row>>, new_rows: Seq<Option<O::Row>>) -> Seq<PageOp> {
    if plan.clear {
        clear_log::<O>(rows) + adding_log::<O>(plan.added, new_rows)
    } else {
        removal_log::<O>(plan.removed, rows) + kept_log::<O>(plan.moved, moved_rows(plan.moved, rows)) + moving_log::<O>(
            plan.moved,
            moved_rows(plan.moved, rows),
        ) + adding_log::<O>(plan.added, new_rows)
    }
}

/// The log of the first `k + 1` removals is that of the first `k`, then removal `k`.
proof fn lemma_removal_log_step<O: ListOps>(removed: Seq<usize>, rows: Seq<Option<O::Row>>, k: int)
    requires
        0 <= k < removed.len(),
    ensures
        removal_log::<O>(removed.take(k + 1), rows) == removal_log::<O>(removed.take(k), rows).push(
            PageOp::Unmount { id: O::row_id(rows[removed[k] as int]->0) },
        ),
{
    reveal(removal_log);
    assert(removed.take(k + 1).drop_last() =~= removed.take(k));
}

/// The logs of the first `x + 1` moves are those of the first `x`, then move `x`.
proof fn lemma_move_logs_step<O: ListOps>(moved: Seq<DiffOpMove>, waiting: Seq<Option<O::Row>>, x: int)
    requires
        0 <= x < moved.len(),
    ensures
        kept_log::<O>(moved.take(x + 1), waiting) == if moved[x].move_in_dom {
            kept_log::<O>(moved.take(x), waiting)
        } else {
            kept_log::<O>(moved.take(x), waiting).push(PageOp::SetIndex { id: O::row_id(waiting[x]->0), index: moved[x].to })
        },
        moving_log::<O>(moved.take(x + 1), waiting) == if moved[x].move_in_dom {
            moving_log::<O>(moved.take(x), waiting).push(PageOp::Mount { id: O::row_id(waiting[x]->0) }).push(
                PageOp::SetIndex { id: O::row_id(waiting[x]->0), index: moved[x].to },
            )
        } else {
            moving_log::<O>(moved.take(x), waiting)
        },
{
    reveal(kept_log);
    reveal(moving_log);
    assert(moved.take(x + 1).drop_last() =~= moved.take(x));
}

/// The log of the first `x + 1` additions is that of the first `x`, then addition `x`.
proof fn lemma_adding_log_step<O: ListOps>(added: Seq<DiffOpAdd>, rows: Seq<Option<O::Row>>, x: int)
    requires
        0 <= x < added.len(),
    ensures
        adding_log::<O>(added.take(x + 1), rows) == adding_log::<O>(added.take(x), rows).push(
            PageOp::Build { index: added[x].at, id: O::row_id(rows[added[x].at as int]->0) },
        ).push(PageOp::Mount { id: O::row_id(rows[added[x].at as int]->0) }),
{
    reveal(adding_log);
    assert(added.take(x + 1).drop_last() =~= added.take(x));
}

/// The logs of moves depend only on the rows of the moves they are about.
proof fn lemma_move_logs_agree<O: ListOps>(moved: Seq<DiffOpMove>, w1: Seq<Option<O::Row>>, w2: Seq<Option<O::Row>>)
    ensures
        (forall|y: int| 0 <= y < moved.len() && !(#[trigger] moved[y]).move_in_dom ==> w1[y] == w2[y]) ==> kept_log::<O>(moved, w1)
            == kept_log::<O>(moved, w2),
        (forall|y: int| 0 <= y < moved.len() && (#[trigger] moved[y]).move_in_dom ==> w1[y] == w2[y]) ==> moving_log::<O>(moved, w1)
            == moving_log::<O>(moved, w2),
    decreases moved.len(),
{
    reveal(kept_log);
    reveal(moving_log);
    if moved.len() > 0 {
        let rest = moved.drop_last();
        assert forall|y: int| 0 <= y < rest.len() implies #[trigger] rest[y] == moved[y] by {}
        lemma_move_logs_agree::<O>(rest, w1, w2);
    }
}

/// The log of additions depends only on the rows at their places.
proof fn lemma_adding_log_agrees<O: ListOps>(added: Seq<DiffOpAdd>, r1: Seq<Option<O::Row>>, r2: Seq<Option<O::Row>>)
    requires
        forall|x: int| 0 <= x < added.len() ==> r1[(#[trigger] added[x]).at as int] == r2[added[x].at as int],
    ensures
        adding_log::<O>(added, r1) == adding_log::<O>(added, r2),
    decreases added.len(),
{
    reveal(adding_log);
    if added.len() > 0 {
        let rest = added.drop_last();
        assert forall|x: int| 0 <= x < rest.len() implies r1[(#[trigger] rest[x]).at as int] == r2[rest[x].at as int] by {
            assert(rest[x] == added[x]);
        }
        lemma_adding_log_agrees::<O>(rest, r1, r2);
        assert(r1[added.last().at as int] == r2[added.last().at as int]);
    }
}

/// Whether the rows at `removed` are all there in `rows`, each named once.
pub open spec fn removes_rows_there<R>(removed: Seq<usize>, rows: Seq<Option<R>>) -> bool {
    &&& forall|k: int| 0 <= k < removed.len() ==> (#[trigger] removed[k]) < rows.len() && rows[removed[k] as int] is Some
    &&& forall|k1: int, k2: int| 0 <= k1 < k2 < removed.len() ==> #[trigger] removed[k1] != #[trigger] removed[k2]
}

/// Whether the rows that `moved` takes are all there in `rows`, each taken once.
pub open spec fn takes_rows_there<R>(moved: Seq<DiffOpMove>, rows: Seq<Option<R>>) -> bool {
    &&& forall|y: int|
        0 <= y < moved.len() ==> (#[trigger] moved[y]).from < rows.len() && rows[moved[y].from as int] is Some
    &&& forall|y1: int, y2: int| 0 <= y1 < y2 < moved.len() ==> (#[trigger] moved[y1]).from != (#[trigger] moved[y2]).from
}

/// Whether each move of `moved` that moves on the page as `dom` says has its row waiting
/// and goes to a free place of `rows` in the new list of `new_len` rows, one row to a place.
pub open spec fn places_free<R>(moved: Seq<DiffOpMove>, dom: bool, rows: Seq<Option<R>>, waiting: Seq<Option<R>>, new_len: nat) -> bool {
    &&& forall|y: int|
        0 <= y < moved.len() && (#[trigger] moved[y]).move_in_dom == dom ==> {
            &&& moved[y].to < new_len
            &&& moved[y].to < rows.len()
            &&& rows[moved[y].to as int] is None
            &&& y < waiting.len()
            &&& waiting[y] is Some
        }
    &&& forall|y1: int, y2: int|
        0 <= y1 < y2 < moved.len() && (#[trigger] moved[y1]).move_in_dom == dom && (#[trigger] moved[y2]).move_in_dom
            == dom ==> moved[y1].to != moved[y2].to
}

/// What removing the rows at `removed` from `rows` leaves, in `after`: only those rows are
/// taken; and, where it succeeded (`done`), each of them was there, once.
#[verifier::opaque]
pub open spec fn removal_facts<R>(removed: Seq<usize>, rows: Seq<Option<R>>, after: Seq<Option<R>>, done: bool) -> bool {
    &&& forall|i: int| 0 <= i < rows.len() ==> #[trigger] after[i] == rows[i] || after[i] is None
    &&& forall|i: int| 0 <= i < rows.len() && !in_list(removed, i) ==> #[trigger] after[i] == rows[i]
    &&& done ==> forall|k: int|
        0 <= k < removed.len() ==> {
            &&& (#[trigger] removed[k]) < rows.len()
            &&& rows[removed[k] as int] is Some
            &&& after[removed[k] as int] is None
        }
    &&& done ==> forall|k1: int, k2: int| 0 <= k1 < k2 < removed.len() ==> #[trigger] removed[k1] != #[trigger] removed[k2]
}

/// What taking the rows of `moved` out of `rows` leaves, in `after` and `taken` (the rows
/// taken, in order): only those rows are taken; and, where it succeeded (`done`), each was
/// there, once.
#[verifier::opaque]
pub open spec fn take_facts<R>(moved: Seq<DiffOpMove>, rows: Seq<Option<R>>, after: Seq<Option<R>>, taken: Seq<Option<R>>, done: bool) -> bool {
    &&& forall|i: int| 0 <= i < rows.len() ==> #[trigger] after[i] == rows[i] || after[i] is None
    &&& forall|i: int|
        0 <= i < rows.len() && !moved_from(moved, moved.len() as int, i) ==> #[trigger] after[i] == rows[i]
    &&& done ==> forall|y: int|
        0 <= y < moved.len() ==> {
            &&& (#[trigger] moved[y]).from < rows.len()
            &&& rows[moved[y].from as int] is Some
            &&& taken[y] == rows[moved[y].from as int]
            &&& after[moved[y].from as int] is None
        }
    &&& done ==> forall|y1: int, y2: int|
        0 <= y1 < y2 < moved.len() ==> (#[trigger] moved[y1]).from != (#[trigger] moved[y2]).from
}

/// What placing the rows of the moves of `moved` that move on the page as `dom` says, from
/// `waiting`, leaves in `after`: only their places change, each from free; and, where it
/// succeeded (`done`), each row is at its place.
#[verifier::opaque]
pub open spec fn place_facts<O: ListOps>(
    moved: Seq<DiffOpMove>,
    dom: bool,
    rows: Seq<Option<O::Row>>,
    waiting: Seq<Option<O::Row>>,
    after: Seq<Option<O::Row>>,
    done: bool,
) -> bool {
    &&& forall|i: int|
        0 <= i < rows.len() ==> #[trigger] after[i] == rows[i] || (rows[i] is None && placed_by(
            moved,
            dom,
            moved.len() as int,
            i,
        ))
    &&& done ==> forall|y: int|
        0 <= y < moved.len() && (#[trigger] moved[y]).move_in_dom == dom ==> {
            &&& moved[y].to < rows.len()
            &&& waiting[y] is Some
            &&& same_row::<O>(after[moved[y].to as int], waiting[y])
            &&& !dom ==> after[moved[y].to as int] == waiting[y]
        }
}

/// Removes the rows at the old indices `removed`, in order. `Err` if one is missing.
fn remove_rows<O: ListOps>(
    removed: &Vec<usize>,
    rows: &mut Vec<Option<O::Row>>,
    moving: &Vec<Option<O::Row>>,
    ops: &mut O,
    Ghost(good): Ghost<bool>,
    Ghost(f): Ghost<Seq<u64>>,
    Ghost(t): Ghost<Seq<u64>>,
    Ghost(old_rows): Ghost<Seq<Option<O::Row>>>,
) -> (res: Result<(), ListError>)
    requires
        page_fits::<O>(*old(ops), old(rows)@, moving@),
        good ==> {
            &&& plan_keys(f, t)
            &&& old(rows)@ == old_rows
            &&& old_rows.len() == f.len()
            &&& crate::list_diff::all_rows(old_rows)
            &&& removed@ == removed_list(f, t, f.len())
            &&& moving@.len() == 0
            &&& in_slot_order::<O>(old(ops).shown(), old_rows)
        },
    ensures
        res matches Err(e) ==> e is Invariant,
        page_fits::<O>(*final(ops), final(rows)@, moving@),
        final(rows)@.len() == old(rows)@.len(),
        forall|v: nat| #[trigger] final(ops).shown().contains(v) ==> old(ops).shown().contains(v),
        removal_facts(removed@, old(rows)@, final(rows)@, res is Ok),
        removes_rows_there(removed@, old(rows)@) ==> res is Ok,
        res is Ok ==> logged(old(ops).log(), final(ops).log(), removal_log::<O>(removed@, old(rows)@)),
        forall|v: nat| old(ops).issued(v) ==> #[trigger] final(ops).issued(v),
        good ==> {
            &&& res is Ok
            &&& forall|i: int|
                0 <= i < f.len() ==> #[trigger] final(rows)@[i] == if removed_at(f, t, i) {
                    None
                } else {
                    old_rows[i]
                }
            &&& in_slot_order::<O>(final(ops).shown(), old_rows)
        },
{
    reveal(logged);
    reveal(removal_facts);
    proof {
        if good {
            lemma_removed_list(f, t, f.len());
        }
    }
    assert(removal_log::<O>(removed@.take(0), old(rows)@) == Seq::<PageOp>::empty()) by {
        reveal(removal_log);
    }
    assert(old(ops).log() + Seq::<PageOp>::empty() =~= old(ops).log());
    let mut k: usize = 0;
    while k < removed.len()
        invariant
            k <= removed@.len(),
            page_fits::<O>(*ops, rows@, moving@),
            rows@.len() == old(rows)@.len(),
            forall|v: nat| #[trigger] ops.shown().contains(v) ==> old(ops).shown().contains(v),
            forall|i: int| 0 <= i < old(rows)@.len() ==> #[trigger] rows@[i] == old(rows)@[i] || rows@[i] is None,
            forall|i: int| 0 <= i < old(rows)@.len() && !in_list(removed@.take(k as int), i) ==> #[trigger] rows@[i] == old(rows)@[i],
            forall|v: nat| old(ops).issued(v) ==> #[trigger] ops.issued(v),
            forall|k1: int|
                0 <= k1 < k ==> {
                    &&& (#[trigger] removed@[k1]) < old(rows)@.len()
                    &&& old(rows)@[removed@[k1] as int] is Some
                    &&& rows@[removed@[k1] as int] is None
                },
            forall|k1: int, k2: int| 0 <= k1 < k2 < k ==> #[trigger] removed@[k1] != #[trigger] removed@[k2],
            ops.log() == old(ops).log() + removal_log::<O>(removed@.take(k as int), old(rows)@),
            good ==> {
                &&& plan_keys(f, t)
                &&& old_rows.len() == f.len()
                &&& crate::list_diff::all_rows(old_rows)
                &&& removed@ == removed_list(f, t, f.len())
                &&& moving@.len() == 0
                &&& rows@.len() == f.len()
                &&& in_slot_order::<O>(ops.shown(), old_rows)
                &&& forall|i: int|
                    0 <= i < f.len() ==> #[trigger] rows@[i] == if exists|x: int|
                        0 <= x < k && removed@[x] == i {
                        None
                    } else {
                        old_rows[i]
                    }
            },
        decreases removed.len() - k,
    {
        proof {
            reveal(removal_facts);
        }
        let at = removed[k];
        proof {
            lemma_in_prefix(removed@, k as int);
            if good {
                lemma_removed_list(f, t, f.len());
                assert(removed_list(f, t, f.len())[k as int] < f.len());
            }
        }
        if at >= rows.len() {
            return Err(ListError::Invariant("a row to remove is missing"));
        }
        proof {
            if removes_rows_there(removed@, old(rows)@) && in_list(removed@.take(k as int), at as int) {
                let k1 = choose|k1: int| 0 <= k1 < removed@.take(k as int).len() && #[trigger] removed@.take(k as int)[k1] == at;
                assert(removed@[k1] == removed@[k as int]);
            }
        }
        let ghost before_rows = rows@;
        let ghost page = ops.shown();
        let slot = rows[at].take();
        match slot {
            Some(mut row) => {
                proof {
                    assert forall|k1: int| 0 <= k1 < k implies #[trigger] removed@[k1] != at by {
                        assert(before_rows[removed@[k1] as int] is None);
                    }
                    if in_list(removed@.take(k as int), at as int) {
                        let k1 = choose|k1: int| 0 <= k1 < removed@.take(k as int).len() && #[trigger] removed@.take(k as int)[k1] == at;
                        assert(removed@[k1] == at);
                    }
                    assert(before_rows[at as int] == old(rows)@[at as int]);
                    assert forall|i: int| 0 <= i < old(rows)@.len() && !in_list(removed@.take(k + 1), i) implies #[trigger] rows@[i]
                        == old(rows)@[i] by {
                        if i != at {
                            assert(rows@[i] == before_rows[i]);
                        }
                    }
                    assert forall|k1: int| 0 <= k1 < k + 1 implies {
                        &&& (#[trigger] removed@[k1]) < old(rows)@.len()
                        &&& old(rows)@[removed@[k1] as int] is Some
                        &&& rows@[removed@[k1] as int] is None
                    } by {
                        if k1 < k {
                            assert(rows@[removed@[k1] as int] == before_rows[removed@[k1] as int]);
                        }
                    }
                    lemma_take_unmount::<O>(page, before_rows + moving@, at as int);
                    assert((before_rows + moving@).update(at as int, None) == rows@ + moving@);
                    assert(O::row_id(row) == O::row_id((before_rows + moving@)[at as int]->0));
                    if good {
                        lemma_unmounted_in_order::<O>(page, old_rows, O::row_id(row));
                    }
                }
                let ghost id = O::row_id(row);
                let ghost log0 = ops.log();
                ops.unmount(&mut row);
                proof {
                    lemma_removal_log_step::<O>(removed@, old(rows)@, k as int);
                    assert(ops.log() =~= old(ops).log() + removal_log::<O>(removed@.take(k + 1), old(rows)@));
                    lemma_unmounted_set(page, id);
                    assert forall|k2: int| 0 <= k2 < (rows@ + moving@).len() && #[trigger] (rows@ + moving@)[k2] is Some
                        implies ops.issued(O::row_id((rows@ + moving@)[k2]->0)) by {
                        assert((rows@ + moving@)[k2] == (before_rows + moving@)[k2]);
                    }
                    if good {
                        assert forall|i: int| 0 <= i < f.len() implies #[trigger] rows@[i] == if exists|x: int|
                            0 <= x < k + 1 && removed@[x] == i {
                            None
                        } else {
                            old_rows[i]
                        } by {
                            if i == at {
                                assert(removed@[k as int] == i);
                            } else {
                                if exists|x: int| 0 <= x < k + 1 && removed@[x] == i {
                                    let x = choose|x: int| 0 <= x < k + 1 && removed@[x] == i;
                                    assert(x != k);
                                }
                            }
                        }
                    }
                }
            },
            None => {
                proof {
                    assert(rows@ =~= before_rows);
                    if good {
                        if exists|x: int| 0 <= x < k && removed@[x] == at {
                            let x = choose|x: int| 0 <= x < k && removed@[x] == at;
                            assert(removed@[x] < removed@[k as int]);
                        }
                        assert(before_rows[at as int] == old_rows[at as int]);
                    }
                }
                return Err(ListError::Invariant("a row to remove is missing"));
            },
        }
        k += 1;
    }
    proof {
        assert(removed@.take(removed@.len() as int) =~= removed@);
        if good {
            lemma_removed_list(f, t, f.len());
            assert forall|i: int| 0 <= i < f.len() implies #[trigger] rows@[i] == if removed_at(f, t, i) {
                None
            } else {
                old_rows[i]
            } by {
                if removed_at(f, t, i) {
                    let x = choose|x: int|
                        0 <= x < removed_list(f, t, f.len()).len() && (#[trigger] removed_list(f, t, f.len())[x]) == i;
                    assert(removed@[x] == i);
                } else {
                    if exists|x: int| 0 <= x < k && removed@[x] == i {
                        let x = choose|x: int| 0 <= x < k && removed@[x] == i;
                        assert(removed_at(f, t, removed@[x] as int));
                    }
                }
            }
        }
    }
    Ok(())
}

/// Whether one of the first `n` moves of `moved` takes the row at `i`.
pub open spec fn moved_from(moved: Seq<DiffOpMove>, n: int, i: int) -> bool {
    exists|y: int| 0 <= y < n && moved[y].from == i
}

/// The rows that the first `n + 1` moves take are those that the first `n` take and the row
/// that move `n` takes.
proof fn lemma_moved_from_grows(moved: Seq<DiffOpMove>, n: int)
    requires
        0 <= n < moved.len(),
    ensures
        forall|i: int| moved_from(moved, n, i) ==> #[trigger] moved_from(moved, n + 1, i),
        forall|i: int| #[trigger] moved_from(moved, n + 1, i) ==> moved_from(moved, n, i) || moved[n].from == i,
        moved_from(moved, n + 1, moved[n].from as int),
{
    assert forall|i: int| moved_from(moved, n, i) implies #[trigger] moved_from(moved, n + 1, i) by {
        let y = choose|y: int| 0 <= y < n && moved[y].from == i;
        assert(0 <= y < n + 1);
    }
    assert forall|i: int| #[trigger] moved_from(moved, n + 1, i) implies moved_from(moved, n, i) || moved[n].from == i by {
        let y = choose|y: int| 0 <= y < n + 1 && moved[y].from == i;
        if y < n {
            assert(0 <= y < n && moved[y].from == i);
        }
    }
    assert(0 <= n < n + 1 && moved[n].from == moved[n].from);
}

/// Takes the rows of `moved` out of `rows`, in order, into `moving` (they stay on the page).
/// `Err` if one is missing.
fn take_moves<O: ListOps>(
    moved: &Vec<DiffOpMove>,
    rows: &mut Vec<Option<O::Row>>,
    moving: &mut Vec<Option<O::Row>>,
    ops: &O,
    Ghost(good): Ghost<bool>,
    Ghost(f): Ghost<Seq<u64>>,
    Ghost(t): Ghost<Seq<u64>>,
    Ghost(old_rows): Ghost<Seq<Option<O::Row>>>,
) -> (res: Result<(), ListError>)
    requires
        page_fits::<O>(*ops, old(rows)@, old(moving)@),
        good ==> {
            &&& plan_keys(f, t)
            &&& old_rows.len() == f.len()
            &&& old(rows)@.len() == f.len()
            &&& crate::list_diff::all_rows(old_rows)
            &&& moved@ == plan_moves(f, t)
            &&& old(moving)@.len() == 0
            &&& forall|i: int|
                0 <= i < f.len() ==> #[trigger] old(rows)@[i] == if removed_at(f, t, i) {
                    None
                } else {
                    old_rows[i]
                }
        },
    ensures
        res matches Err(e) ==> e is Invariant,
        page_fits::<O>(*ops, final(rows)@, final(moving)@),
        final(rows)@.len() == old(rows)@.len(),
        res is Ok ==> final(moving)@.len() == old(moving)@.len() + moved@.len(),
        take_facts(moved@, old(rows)@, final(rows)@, final(moving)@.skip(old(moving)@.len() as int), res is Ok),
        takes_rows_there(moved@, old(rows)@) ==> res is Ok,
        good ==> {
            &&& res is Ok
            &&& final(moving)@.len() == moved@.len()
            &&& forall|i: int|
                0 <= i < f.len() ==> #[trigger] final(rows)@[i] == if stays_at(f, t, i) {
                    old_rows[i]
                } else {
                    None
                }
            &&& forall|x: int|
                0 <= x < moved@.len() ==> #[trigger] final(moving)@[x] == old_rows[moved@[x].from as int]
        },
{
    reveal(take_facts);
    let mut x: usize = 0;
    while x < moved.len()
        invariant
            x <= moved@.len(),
            page_fits::<O>(*ops, rows@, moving@),
            rows@.len() == old(rows)@.len(),
            moving@.len() == old(moving)@.len() + x,
            forall|i: int| 0 <= i < old(rows)@.len() ==> #[trigger] rows@[i] == old(rows)@[i] || rows@[i] is None,
            forall|y: int|
                0 <= y < x ==> {
                    &&& (#[trigger] moved@[y]).from < old(rows)@.len()
                    &&& old(rows)@[moved@[y].from as int] is Some
                    &&& moving@[old(moving)@.len() + y] == old(rows)@[moved@[y].from as int]
                    &&& rows@[moved@[y].from as int] is None
                },
            forall|y1: int, y2: int| 0 <= y1 < y2 < x ==> (#[trigger] moved@[y1]).from != (#[trigger] moved@[y2]).from,
            forall|i: int| 0 <= i < old(rows)@.len() && !moved_from(moved@, x as int, i) ==> #[trigger] rows@[i] == old(rows)@[i],
            good ==> {
                &&& plan_keys(f, t)
                &&& old_rows.len() == f.len()
                &&& rows@.len() == f.len()
                &&& crate::list_diff::all_rows(old_rows)
                &&& moved@ == plan_moves(f, t)
                &&& moving@.len() == x
                &&& forall|i: int|
                    0 <= i < f.len() ==> #[trigger] rows@[i] == if removed_at(f, t, i) || exists|y: int|
                        0 <= y < x && moved@[y].from == i {
                        None
                    } else {
                        old_rows[i]
                    }
                &&& forall|y: int| 0 <= y < x ==> #[trigger] moving@[y] == old_rows[moved@[y].from as int]
            },
        decreases moved.len() - x,
    {
        proof {
            reveal(take_facts);
        }
        proof {
            if good {
                lemma_plan_moves(f, t);
            }
        }
        let from = moved[x].from;
        proof {
            lemma_moved_from_grows(moved@, x as int);
        }
        if from >= rows.len() {
            return Err(ListError::Invariant("a row to move is missing"));
        }
        proof {
            if takes_rows_there(moved@, old(rows)@) && moved_from(moved@, x as int, from as int) {
                let y = choose|y: int| 0 <= y < x && moved@[y].from == from;
                assert(moved@[y].from != moved@[x as int].from);
            }
        }
        let ghost before_rows = rows@;
        let ghost before_moving = moving@;
        let slot = rows[from].take();
        match slot {
            Some(row) => {
                moving.push(Some(row));
                proof {
                    assert(before_rows[from as int] == old(rows)@[from as int]);
                    assert forall|y: int| 0 <= y < x implies #[trigger] moved@[y].from != from by {
                        assert(before_rows[moved@[y].from as int] is None);
                    }
                    assert forall|y: int| 0 <= y < x + 1 implies {
                        &&& (#[trigger] moved@[y]).from < old(rows)@.len()
                        &&& old(rows)@[moved@[y].from as int] is Some
                        &&& moving@[old(moving)@.len() + y] == old(rows)@[moved@[y].from as int]
                        &&& rows@[moved@[y].from as int] is None
                    } by {
                        if y < x {
                            assert(moving@[old(moving)@.len() + y] == before_moving[old(moving)@.len() + y]);
                        }
                    }
                    assert forall|i: int| 0 <= i < old(rows)@.len() && !moved_from(moved@, x + 1, i) implies #[trigger] rows@[i]
                        == old(rows)@[i] by {
                        if i != from {
                            assert(rows@[i] == before_rows[i]);
                        }
                    }
                    let c = before_rows + before_moving;
                    lemma_insert_free::<O>(ops.shown(), c, c.len() as int);
                    let c1 = c.insert(c.len() as int, None);
                    lemma_relocate::<O>(ops.shown(), c1, from as int, c.len() as int, row);
                    assert(c1.update(from as int, None).update(c.len() as int, Some(row)) =~= rows@ + moving@);
                    assert forall|k: int| 0 <= k < (rows@ + moving@).len() && #[trigger] (rows@ + moving@)[k] is Some
                        implies ops.issued(O::row_id((rows@ + moving@)[k]->0)) by {
                        if k == c.len() {
                            assert(c[from as int] is Some);
                        } else {
                            assert((rows@ + moving@)[k] == c[k]);
                        }
                    }
                    if good {
                        assert(moving@[x as int] == old_rows[moved@[x as int].from as int]);
                        assert forall|i: int| 0 <= i < f.len() implies #[trigger] rows@[i] == if removed_at(f, t, i)
                            || exists|y: int| 0 <= y < x + 1 && moved@[y].from == i {
                            None
                        } else {
                            old_rows[i]
                        } by {
                            if i == from {
                                assert(moved@[x as int].from == i);
                            } else if exists|y: int| 0 <= y < x + 1 && moved@[y].from == i {
                                let y = choose|y: int| 0 <= y < x + 1 && moved@[y].from == i;
                                assert(y != x);
                            }
                        }
                    }
                }
            },
            None => {
                proof {
                    assert(rows@ =~= before_rows);
                    if good {
                        assert(moved_at(f, t, from as int));
                        assert(!removed_at(f, t, from as int));
                        if exists|y: int| 0 <= y < x && moved@[y].from == from {
                            let y = choose|y: int| 0 <= y < x && moved@[y].from == from;
                            assert(moved@[y].from < moved@[x as int].from);
                        }
                    }
                }
                return Err(ListError::Invariant("a row to move is missing"));
            },
        }
        x += 1;
    }
    proof {
        if good {
            lemma_plan_moves(f, t);
            assert forall|i: int| 0 <= i < f.len() implies #[trigger] rows@[i] == if stays_at(f, t, i) {
                old_rows[i]
            } else {
                None
            } by {
                if moved_at(f, t, i) {
                    let y = choose|y: int| 0 <= y < plan_moves(f, t).len() && (#[trigger] plan_moves(f, t)[y]).from == i;
                    assert(moved@[y].from == i);
                } else if stays_at(f, t, i) {
                    assert(!removed_at(f, t, i)) by {
                        assert(t[i] == f[i]);
                    }
                    if exists|y: int| 0 <= y < x && moved@[y].from == i {
                        let y = choose|y: int| 0 <= y < x && moved@[y].from == i;
                        assert(moved_at(f, t, moved@[y].from as int));
                    }
                }
            }
        }
    }
    Ok(())
}

/// Adds `extra` free slots at the end of `rows`. `Err` if the length overflows.
fn grow_rows<O: ListOps>(
    rows: &mut Vec<Option<O::Row>>,
    extra: usize,
    moving: &Vec<Option<O::Row>>,
    ops: &O,
) -> (res: Result<(), ListError>)
    requires
        page_fits::<O>(*ops, old(rows)@, moving@),
    ensures
        res matches Err(e) ==> e is Invariant,
        page_fits::<O>(*ops, final(rows)@, moving@),
        res is Ok <==> old(rows)@.len() + extra <= usize::MAX,
        res is Ok ==> final(rows)@.len() == old(rows)@.len() + extra,
        res is Err ==> final(rows)@ == old(rows)@,
        forall|i: int| 0 <= i < old(rows)@.len() ==> #[trigger] final(rows)@[i] == old(rows)@[i],
        forall|i: int| old(rows)@.len() <= i < final(rows)@.len() ==> #[trigger] final(rows)@[i] is None,
{
    if rows.len() > usize::MAX - extra {
        return Err(ListError::Invariant("an index overflows"));
    }
    let ghost start = rows@;
    let target = rows.len() + extra;
    while rows.len() < target
        invariant
            start.len() <= rows@.len() <= target,
            target == start.len() + extra,
            page_fits::<O>(*ops, rows@, moving@),
            forall|i: int| 0 <= i < start.len() ==> #[trigger] rows@[i] == start[i],
            forall|i: int| start.len() <= i < rows@.len() ==> #[trigger] rows@[i] is None,
        decreases target - rows.len(),
    {
        let ghost before = rows@;
        proof {
            lemma_insert_free::<O>(ops.shown(), before + moving@, before.len() as int);
            assert((before + moving@).insert(before.len() as int, None) =~= before.push(None) + moving@);
        }
        rows.push(None);
        proof {
            assert forall|k: int| 0 <= k < (rows@ + moving@).len() && #[trigger] (rows@ + moving@)[k] is Some
                implies ops.issued(O::row_id((rows@ + moving@)[k]->0)) by {
                if k < before.len() {
                    assert((rows@ + moving@)[k] == (before + moving@)[k]);
                } else if k > before.len() {
                    assert((rows@ + moving@)[k] == (before + moving@)[k - 1]);
                }
            }
        }
    }
    Ok(())
}

/// Whether one of the first `n` moves of `moved` that move on the page as `dom` says goes to
/// the place `i`.
pub open spec fn placed_by(moved: Seq<DiffOpMove>, dom: bool, n: int, i: int) -> bool {
    exists|y: int| 0 <= y < n && moved[y].move_in_dom == dom && moved[y].to == i
}

/// A place that one of the first `n` moves goes to is one that one of the first `n + 1` moves
/// goes to.
proof fn lemma_placed_by_grows(moved: Seq<DiffOpMove>, dom: bool, n: int)
    requires
        0 <= n < moved.len(),
    ensures
        forall|i: int| placed_by(moved, dom, n, i) ==> #[trigger] placed_by(moved, dom, n + 1, i),
        moved[n].move_in_dom == dom ==> placed_by(moved, dom, n + 1, moved[n].to as int),
{
    assert forall|i: int| placed_by(moved, dom, n, i) implies #[trigger] placed_by(moved, dom, n + 1, i) by {
        let y = choose|y: int| 0 <= y < n && moved[y].move_in_dom == dom && moved[y].to == i;
        assert(0 <= y < n + 1);
    }
    if moved[n].move_in_dom == dom {
        assert(0 <= n < n + 1 && moved[n].move_in_dom == dom && moved[n].to == moved[n].to);
    }
}

/// Puts the rows that keep their place on the page into their new slots, in the order of
/// `moved`. `Err` if a new index is past `new_len` or taken, or the row was taken already.
fn place_kept<O: ListOps>(
    moved: &Vec<DiffOpMove>,
    rows: &mut Vec<Option<O::Row>>,
    moving: &mut Vec<Option<O::Row>>,
    new_len: usize,
    ops: &mut O,
    Ghost(good): Ghost<bool>,
    Ghost(f): Ghost<Seq<u64>>,
    Ghost(t): Ghost<Seq<u64>>,
    Ghost(old_rows): Ghost<Seq<Option<O::Row>>>,
) -> (res: Result<(), ListError>)
    requires
        page_fits::<O>(*old(ops), old(rows)@, old(moving)@),
        old(moving)@.len() == moved@.len(),
        good ==> {
            &&& plan_keys(f, t)
            &&& old_rows.len() == f.len()
            &&& all_rows(old_rows)
            &&& distinct_rows::<O>(old_rows)
            &&& moved@ == plan_moves(f, t)
            &&& new_len == t.len()
            &&& old(rows)@.len() >= t.len()
            &&& forall|i: int|
                0 <= i < old(rows)@.len() ==> #[trigger] old(rows)@[i] == if stays_at(f, t, i) {
                    old_rows[i]
                } else {
                    None
                }
            &&& forall|x: int|
                0 <= x < moved@.len() ==> #[trigger] old(moving)@[x] == old_rows[moved@[x].from as int]
            &&& in_slot_order::<O>(old(ops).shown(), old_rows)
        },
    ensures
        res matches Err(e) ==> e is Invariant,
        page_fits::<O>(*final(ops), final(rows)@, final(moving)@),
        final(rows)@.len() == old(rows)@.len(),
        final(moving)@.len() == old(moving)@.len(),
        final(ops).shown() == old(ops).shown(),
        place_facts::<O>(moved@, false, old(rows)@, old(moving)@, final(rows)@, res is Ok),
        places_free(moved@, false, old(rows)@, old(moving)@, new_len as nat) ==> res is Ok,
        res is Ok ==> logged(old(ops).log(), final(ops).log(), kept_log::<O>(moved@, old(moving)@)),
        forall|v: nat| old(ops).issued(v) ==> #[trigger] final(ops).issued(v),
        res is Ok ==> forall|x: int|
            0 <= x < moved@.len() && !(#[trigger] moved@[x]).move_in_dom ==> final(moving)@[x] is None,
        forall|x: int|
            0 <= x < moved@.len() && (#[trigger] moved@[x]).move_in_dom ==> final(moving)@[x] == old(moving)@[x],
        good ==> {
            &&& res is Ok
            &&& anchored::<O>(f, t, old_rows, final(rows)@)
            &&& forall|x: int|
                0 <= x < moved@.len() ==> #[trigger] final(moving)@[x] == if kept_move(f, t, x) {
                    None
                } else {
                    old_rows[moved@[x].from as int]
                }
            &&& in_slot_order::<O>(final(ops).shown(), final(rows)@)
        },
{
    reveal(logged);
    reveal(place_facts);
    let ghost page = ops.shown();
    let ghost start_moving = moving@;
    proof {
        if good {
            lemma_plan_moves(f, t);
        }
    }
    assert(kept_log::<O>(moved@.take(0), start_moving) == Seq::<PageOp>::empty()) by {
        reveal(kept_log);
    }
    assert(old(ops).log() + Seq::<PageOp>::empty() =~= old(ops).log());
    let mut x: usize = 0;
    while x < moved.len()
        invariant
            x <= moved@.len(),
            ops.log() == old(ops).log() + kept_log::<O>(moved@.take(x as int), start_moving),
            page_fits::<O>(*ops, rows@, moving@),
            rows@.len() == old(rows)@.len(),
            moving@.len() == moved@.len(),
            old(moving)@.len() == moved@.len(),
            start_moving == old(moving)@,
            ops.shown() == page,
            page == old(ops).shown(),
            forall|v: nat| old(ops).issued(v) ==> #[trigger] ops.issued(v),
            forall|i: int|
                0 <= i < old(rows)@.len() ==> #[trigger] rows@[i] == old(rows)@[i] || (old(rows)@[i] is None
                    && placed_by(moved@, false, x as int, i)),
            forall|y: int|
                0 <= y < x && !(#[trigger] moved@[y]).move_in_dom ==> {
                    &&& moved@[y].to < old(rows)@.len()
                    &&& start_moving[y] is Some
                    &&& rows@[moved@[y].to as int] == start_moving[y]
                },
            forall|y: int| 0 <= y < x && !(#[trigger] moved@[y]).move_in_dom ==> moving@[y] is None,
            forall|y: int| 0 <= y < moved@.len() && (#[trigger] moved@[y]).move_in_dom ==> moving@[y] == start_moving[y],
            forall|y: int| x <= y < moved@.len() ==> #[trigger] moving@[y] == start_moving[y],
            good ==> {
                &&& plan_keys(f, t)
                &&& old_rows.len() == f.len()
                &&& all_rows(old_rows)
                &&& moved@ == plan_moves(f, t)
                &&& new_len == t.len()
                &&& rows@.len() >= t.len()
                &&& forall|s: int| #[trigger] stays_at(f, t, s) ==> s < rows@.len() && rows@[s] == old_rows[s]
                &&& forall|y: int|
                    0 <= y < x && #[trigger] kept_move(f, t, y) ==> rows@[moved@[y].to as int]
                        == old_rows[moved@[y].from as int]
                &&& forall|i: int|
                    0 <= i < rows@.len() && #[trigger] rows@[i] is Some ==> stays_at(f, t, i) || exists|y: int|
                        0 <= y < x && kept_move(f, t, y) && moved@[y].to == i
                &&& forall|y: int|
                    0 <= y < moved@.len() ==> #[trigger] moving@[y] == if y < x && kept_move(f, t, y) {
                        None
                    } else {
                        old_rows[moved@[y].from as int]
                    }
            },
        decreases moved.len() - x,
    {
        proof {
            reveal(place_facts);
        }
        proof {
            if good {
                lemma_plan_moves(f, t);
            }
        }
        let op = moved[x];
        if !op.move_in_dom {
            if op.to >= new_len {
                return Err(ListError::Invariant("a row's new index is past the end of the list"));
            }
            if op.to >= rows.len() {
                return Err(ListError::Invariant("two rows are given the same index"));
            }
            if rows[op.to].is_some() {
                proof {
                    if places_free(moved@, false, old(rows)@, old(moving)@, new_len as nat) {
                        assert(old(rows)@[op.to as int] is None);
                        let y = choose|y: int| 0 <= y < x && moved@[y].move_in_dom == false && moved@[y].to == op.to;
                        assert(moved@[y].to != moved@[x as int].to);
                    }
                    if good {
                        let i = op.to as int;
                        if !stays_at(f, t, i) {
                            let y = choose|y: int| 0 <= y < x && kept_move(f, t, y) && moved@[y].to == i;
                            assert(moved@[y].to != moved@[x as int].to);
                        }
                    }
                }
                return Err(ListError::Invariant("two rows are given the same index"));
            }
            let ghost rows0 = rows@;
            let ghost moving0 = moving@;
            let slot = moving[x].take();
            match slot {
                Some(row) => {
                    proof {
                        let c = rows0 + moving0;
                        lemma_relocate::<O>(page, c, rows0.len() + x, op.to as int, row);
                        assert(moving@ == moving0.update(x as int, None));
                    }
                    let ghost log0 = ops.log();
                    ops.set_index(&row, op.to);
                    proof {
                        assert(moving0[x as int] == start_moving[x as int]);
                        lemma_move_logs_step::<O>(moved@, start_moving, x as int);
                        assert(ops.log() =~= old(ops).log() + kept_log::<O>(moved@.take(x + 1), start_moving));
                    }
                    rows.set(op.to, Some(row));
                    proof {
                        lemma_placed_by_grows(moved@, false, x as int);
                        assert(moving0[x as int] == start_moving[x as int]);
                        assert forall|i: int| 0 <= i < old(rows)@.len() implies #[trigger] rows@[i] == old(rows)@[i] || (
                        old(rows)@[i] is None && placed_by(moved@, false, x + 1, i)) by {
                            if i != op.to {
                                assert(rows@[i] == rows0[i]);
                            }
                        }
                        assert forall|y: int| 0 <= y < x + 1 && !(#[trigger] moved@[y]).move_in_dom implies {
                            &&& moved@[y].to < old(rows)@.len()
                            &&& start_moving[y] is Some
                            &&& rows@[moved@[y].to as int] == start_moving[y]
                        } by {
                            if y < x {
                                assert(rows0[moved@[y].to as int] is Some);
                            }
                        }
                    }
                    proof {
                        let c = rows0 + moving0;
                        assert(c.update(rows0.len() + x, None).update(op.to as int, Some(row)) =~= rows@ + moving@);
                        assert forall|y: int| 0 <= y < moved@.len() && (#[trigger] moved@[y]).move_in_dom implies moving@[y]
                            == start_moving[y] by {
                            assert(moving@[y] == moving0[y]);
                        }
                        assert forall|y: int| x + 1 <= y < moved@.len() implies #[trigger] moving@[y] == start_moving[y] by {
                            assert(moving@[y] == moving0[y]);
                        }
                        assert forall|y: int| 0 <= y < x + 1 && !(#[trigger] moved@[y]).move_in_dom implies moving@[y] is None by {
                            if y != x {
                                assert(moving@[y] == moving0[y]);
                            }
                        }
                        assert forall|k: int| 0 <= k < (rows@ + moving@).len() && #[trigger] (rows@ + moving@)[k] is Some
                            implies ops.issued(O::row_id((rows@ + moving@)[k]->0)) by {
                            if k == op.to {
                                assert(c[rows0.len() + x] is Some);
                            } else {
                                assert((rows@ + moving@)[k] == c[k]);
                            }
                        }
                        if good {
                            assert forall|y: int| 0 <= y < x + 1 && #[trigger] kept_move(f, t, y) implies rows@[moved@[y].to as int]
                                == old_rows[moved@[y].from as int] by {
                                if y != x {
                                    assert(moved@[y].to != moved@[x as int].to);
                                }
                            }
                            assert forall|i: int| 0 <= i < rows@.len() && #[trigger] rows@[i] is Some implies stays_at(f, t, i)
                                || exists|y: int| 0 <= y < x + 1 && kept_move(f, t, y) && moved@[y].to == i by {
                                if i != op.to {
                                    assert(rows@[i] == rows0[i]);
                                    if !stays_at(f, t, i) {
                                        let y = choose|y: int| 0 <= y < x && kept_move(f, t, y) && moved@[y].to == i;
                                        assert(0 <= y < x + 1);
                                    }
                                } else {
                                    assert(kept_move(f, t, x as int));
                                }
                            }
                        }
                    }
                },
                None => {
                    proof {
                        assert(moving@ =~= moving0);
                        if good {
                            assert(moving0[x as int] == old_rows[moved@[x as int].from as int]);
                        }
                    }
                    return Err(ListError::Invariant("a row moves twice"));
                },
            }
        } else {
            proof {
                lemma_placed_by_grows(moved@, false, x as int);
                lemma_move_logs_step::<O>(moved@, start_moving, x as int);
            }
        }
        x += 1;
    }
    proof {
        if good {
            lemma_plan_moves(f, t);
            assert(distinct_rows::<O>(rows@)) by {
                assert forall|k1: int, k2: int|
                    0 <= k1 < rows@.len() && 0 <= k2 < rows@.len() && k1 != k2 && #[trigger] rows@[k1] is Some
                        && #[trigger] rows@[k2] is Some implies O::row_id(rows@[k1]->0) != O::row_id(rows@[k2]->0) by {
                    assert((rows@ + moving@)[k1] == rows@[k1]);
                    assert((rows@ + moving@)[k2] == rows@[k2]);
                }
            }
            assert forall|y: int| #[trigger] kept_move(f, t, y) implies plan_moves(f, t)[y].to < rows@.len()
                && rows@[plan_moves(f, t)[y].to as int] == old_rows[plan_moves(f, t)[y].from as int] by {
                assert(0 <= y < x);
            }
            assert forall|i: int| 0 <= i < rows@.len() && #[trigger] rows@[i] is Some implies stays_at(f, t, i)
                || exists|y: int| kept_move(f, t, y) && plan_moves(f, t)[y].to == i by {
                if !stays_at(f, t, i) {
                    let y = choose|y: int| 0 <= y < x && kept_move(f, t, y) && moved@[y].to == i;
                    assert(kept_move(f, t, y) && plan_moves(f, t)[y].to == i);
                }
            }
            lemma_anchored_order::<O>(page, f, t, old_rows, rows@);
        }
    }
    assert(moved@.take(moved@.len() as int) =~= moved@);
    Ok(())
}

/// A move placed before `x` is placed before `x + 1`.
#[verifier::spinoff_prover]
proof fn lemma_placed_grows(moved: Seq<DiffOpMove>, f: Seq<u64>, t: Seq<u64>, x: int, i: int)
    requires
        exists|y: int| 0 <= y < moved.len() && (kept_move(f, t, y) || y < x) && moved[y].to == i,
    ensures
        exists|y: int| 0 <= y < moved.len() && (kept_move(f, t, y) || y < x + 1) && moved[y].to == i,
{
    let y = choose|y: int| 0 <= y < moved.len() && (kept_move(f, t, y) || y < x) && moved[y].to == i;
    assert(0 <= y < moved.len() && (kept_move(f, t, y) || y < x + 1) && moved[y].to == i);
}

/// The first row after `index` in `rows`, if there is one.
fn first_after<R>(rows: &Vec<Option<R>>, index: usize) -> (r: Option<&R>)
    ensures
        match r {
            Some(b) => exists|k: int|
                #![trigger rows@[k]]
                index < k < rows@.len() && rows@[k] == Some(*b) && forall|j: int|
                    index < j < k ==> (#[trigger] rows@[j]) is None,
            None => forall|k: int| index < k < rows@.len() ==> (#[trigger] rows@[k]) is None,
        },
{
    if index >= rows.len() {
        return None;
    }
    let mut k: usize = index + 1;
    while k < rows.len()
        invariant
            index < k <= rows@.len(),
            forall|j: int| index < j < k ==> (#[trigger] rows@[j]) is None,
        decreases rows.len() - k,
    {
        match &rows[k] {
            Some(r) => {
                return Some(r);
            },
            None => {},
        }
        k += 1;
    }
    None
}

/// The identity of the row a slot holds, as the page names it.
pub open spec fn id_of<O: ListOps>(slot: Option<&O::Row>) -> Option<nat> {
    match slot {
        Some(b) => Some(O::row_id(*b)),
        None => None,
    }
}

/// Whether the row of `old` has the identity of the row in `slot`.
pub open spec fn same_row<O: ListOps>(slot: Option<O::Row>, old: Option<O::Row>) -> bool {
    slot is Some && old is Some && O::row_id(slot->0) == O::row_id(old->0)
}

/// Moves the rows that move on the page into their new slots, in the order of `moved`, each
/// before the next row that is in place. `Err` if a new index is past `new_len` or taken,
/// or the row was taken already.
#[verifier::spinoff_prover]
#[verifier::rlimit(60)]
fn place_moving<O: ListOps>(
    moved: &Vec<DiffOpMove>,
    rows: &mut Vec<Option<O::Row>>,
    moving: &mut Vec<Option<O::Row>>,
    new_len: usize,
    ops: &mut O,
    Ghost(good): Ghost<bool>,
    Ghost(f): Ghost<Seq<u64>>,
    Ghost(t): Ghost<Seq<u64>>,
    Ghost(old_rows): Ghost<Seq<Option<O::Row>>>,
) -> (res: Result<(), ListError>)
    requires
        page_fits::<O>(*old(ops), old(rows)@, old(moving)@),
        old(moving)@.len() == moved@.len(),
        good ==> {
            &&& plan_keys(f, t)
            &&& old_rows.len() == f.len()
            &&& all_rows(old_rows)
            &&& moved@ == plan_moves(f, t)
            &&& new_len == t.len()
            &&& old(rows)@.len() >= t.len()
            &&& anchored::<O>(f, t, old_rows, old(rows)@)
            &&& forall|x: int|
                0 <= x < moved@.len() ==> #[trigger] old(moving)@[x] == if kept_move(f, t, x) {
                    None
                } else {
                    old_rows[moved@[x].from as int]
                }
            &&& in_slot_order::<O>(old(ops).shown(), old(rows)@)
        },
    ensures
        res matches Err(e) ==> e is Invariant,
        page_fits::<O>(*final(ops), final(rows)@, final(moving)@),
        final(rows)@.len() == old(rows)@.len(),
        final(moving)@.len() == old(moving)@.len(),
        res is Ok ==> forall|x: int|
            0 <= x < moved@.len() && (#[trigger] moved@[x]).move_in_dom ==> final(moving)@[x] is None,
        forall|x: int|
            0 <= x < moved@.len() && !(#[trigger] moved@[x]).move_in_dom ==> final(moving)@[x] == old(moving)@[x],
        forall|v: nat| #[trigger] final(ops).shown().contains(v) ==> old(ops).shown().contains(v),
        place_facts::<O>(moved@, true, old(rows)@, old(moving)@, final(rows)@, res is Ok),
        places_free(moved@, true, old(rows)@, old(moving)@, new_len as nat) ==> res is Ok,
        res is Ok ==> logged(old(ops).log(), final(ops).log(), moving_log::<O>(moved@, old(moving)@)),
        forall|v: nat| old(ops).issued(v) ==> #[trigger] final(ops).issued(v),
        good ==> {
            &&& res is Ok
            &&& in_slot_order::<O>(final(ops).shown(), final(rows)@)
            &&& forall|x: int| 0 <= x < moved@.len() ==> #[trigger] final(moving)@[x] is None
            &&& forall|s: int| #[trigger] stays_at(f, t, s) ==> same_row::<O>(final(rows)@[s], old_rows[s])
            &&& forall|y: int|
                0 <= y < moved@.len() ==> same_row::<O>(
                    final(rows)@[(#[trigger] moved@[y]).to as int],
                    old_rows[moved@[y].from as int],
                )
            &&& forall|i: int|
                0 <= i < final(rows)@.len() && #[trigger] final(rows)@[i] is Some ==> stays_at(f, t, i)
                    || exists|y: int| 0 <= y < moved@.len() && moved@[y].to == i
        },
{
    reveal(logged);
    reveal(place_facts);
    let ghost start_moving = moving@;
    proof {
        if good {
            lemma_plan_moves(f, t);
        }
    }
    assert(moving_log::<O>(moved@.take(0), start_moving) == Seq::<PageOp>::empty()) by {
        reveal(moving_log);
    }
    assert(old(ops).log() + Seq::<PageOp>::empty() =~= old(ops).log());
    let mut x: usize = 0;
    while x < moved.len()
        invariant
            x <= moved@.len(),
            ops.log() == old(ops).log() + moving_log::<O>(moved@.take(x as int), start_moving),
            page_fits::<O>(*ops, rows@, moving@),
            rows@.len() == old(rows)@.len(),
            moving@.len() == moved@.len(),
            old(moving)@.len() == moved@.len(),
            start_moving == old(moving)@,
            forall|v: nat| #[trigger] ops.shown().contains(v) ==> old(ops).shown().contains(v),
            forall|i: int|
                0 <= i < old(rows)@.len() ==> #[trigger] rows@[i] == old(rows)@[i] || (old(rows)@[i] is None
                    && placed_by(moved@, true, x as int, i)),
            forall|v: nat| old(ops).issued(v) ==> #[trigger] ops.issued(v),
            forall|y: int|
                0 <= y < x && (#[trigger] moved@[y]).move_in_dom ==> {
                    &&& moved@[y].to < old(rows)@.len()
                    &&& start_moving[y] is Some
                    &&& same_row::<O>(rows@[moved@[y].to as int], start_moving[y])
                },
            forall|y: int| 0 <= y < x && (#[trigger] moved@[y]).move_in_dom ==> moving@[y] is None,
            forall|y: int| 0 <= y < moved@.len() && !(#[trigger] moved@[y]).move_in_dom ==> moving@[y] == start_moving[y],
            forall|y: int| x <= y < moved@.len() ==> #[trigger] moving@[y] == start_moving[y],
            good ==> {
                &&& plan_keys(f, t)
                &&& old_rows.len() == f.len()
                &&& all_rows(old_rows)
                &&& moved@ == plan_moves(f, t)
                &&& new_len == t.len()
                &&& rows@.len() >= t.len()
                &&& in_slot_order::<O>(ops.shown(), rows@)
                &&& forall|s: int| #[trigger] stays_at(f, t, s) ==> s < rows@.len() && same_row::<O>(rows@[s], old_rows[s])
                &&& forall|y: int|
                    0 <= y < moved@.len() && (kept_move(f, t, y) || y < x) ==> same_row::<O>(
                        rows@[(#[trigger] moved@[y]).to as int],
                        old_rows[moved@[y].from as int],
                    )
                &&& forall|i: int|
                    0 <= i < rows@.len() && #[trigger] rows@[i] is Some ==> stays_at(f, t, i) || exists|y: int|
                        0 <= y < moved@.len() && (kept_move(f, t, y) || y < x) && moved@[y].to == i
                &&& forall|y: int|
                    0 <= y < moved@.len() ==> #[trigger] moving@[y] == if kept_move(f, t, y) || y < x {
                        None
                    } else {
                        old_rows[moved@[y].from as int]
                    }
            },
        decreases moved.len() - x,
    {
        proof {
            reveal(place_facts);
        }
        proof {
            if good {
                lemma_plan_moves(f, t);
            }
        }
        let op = moved[x];
        if op.move_in_dom {
            if op.to >= new_len {
                return Err(ListError::Invariant("a row's new index is past the end of the list"));
            }
            if op.to >= rows.len() {
                return Err(ListError::Invariant("two rows are given the same index"));
            }
            if rows[op.to].is_some() {
                proof {
                    if places_free(moved@, true, old(rows)@, old(moving)@, new_len as nat) {
                        assert(old(rows)@[op.to as int] is None);
                        let y = choose|y: int| 0 <= y < x && moved@[y].move_in_dom == true && moved@[y].to == op.to;
                        assert(moved@[y].to != moved@[x as int].to);
                    }
                    if good {
                        let i = op.to as int;
                        if !stays_at(f, t, i) {
                            let y = choose|y: int|
                                0 <= y < moved@.len() && (kept_move(f, t, y) || y < x) && moved@[y].to == i;
                            assert(y != x);
                        }
                    }
                }
                return Err(ListError::Invariant("two rows are given the same index"));
            }
            let ghost rows0 = rows@;
            let ghost moving0 = moving@;
            let ghost page = ops.shown();
            proof {
                if good {
                    assert(forall|i: int|
                        0 <= i < rows0.len() && #[trigger] rows0[i] is Some ==> stays_at(f, t, i) || exists|y: int|
                            0 <= y < moved@.len() && (kept_move(f, t, y) || y < x) && moved@[y].to == i);
                }
            }
            let slot = moving[x].take();
            match slot {
                Some(mut row) => {
                    let ghost id = O::row_id(row);
                    let ghost c = rows0 + moving0;
                    assert(moving@ == moving0.update(x as int, None));
                    let before = first_after(&rows, op.to);
                    let ghost before_id = id_of::<O>(before);
                    proof {
                        assert(c[rows0.len() + x] == Some(row));
                        assert(!holds::<O>(rows0, id)) by {
                            if holds::<O>(rows0, id) {
                                let k = choose|k: int| 0 <= k < rows0.len() && #[trigger] rows0[k] is Some && O::row_id(rows0[k]->0) == id;
                                assert(c[k] == rows0[k]);
                            }
                        }
                        assert(distinct_rows::<O>(rows0)) by {
                            assert forall|k1: int, k2: int|
                                0 <= k1 < rows0.len() && 0 <= k2 < rows0.len() && k1 != k2 && #[trigger] rows0[k1] is Some
                                    && #[trigger] rows0[k2] is Some implies O::row_id(rows0[k1]->0) != O::row_id(rows0[k2]->0) by {
                                assert(c[k1] == rows0[k1] && c[k2] == rows0[k2]);
                            }
                        }
                        assert forall|v: nat| holds::<O>(rows0, v) implies page.contains(v) by {
                            let k = choose|k: int| 0 <= k < rows0.len() && #[trigger] rows0[k] is Some && O::row_id(rows0[k]->0) == v;
                            assert(c[k] == rows0[k]);
                        }
                        assert(next_in_place::<O>(rows0, op.to as int, before_id));
                    }
                    let ghost log0 = ops.log();
                    ops.mount(&mut row, before);
                    proof {
                        lemma_mounted_set(page, id, before_id);
                        assert(holds::<O>(c, id));
                        lemma_move_on_page::<O>(page, c, rows0.len() + x, op.to as int, row, before_id);
                        if good {
                            lemma_mount_in_order::<O>(page, rows0, op.to as int, row, before_id);
                        }
                    }
                    ops.set_index(&row, op.to);
                    proof {
                        assert(moving0[x as int] == start_moving[x as int]);
                        lemma_move_logs_step::<O>(moved@, start_moving, x as int);
                        assert(ops.log() =~= old(ops).log() + moving_log::<O>(moved@.take(x + 1), start_moving));
                    }
                    rows.set(op.to, Some(row));
                    proof {
                        lemma_placed_by_grows(moved@, true, x as int);
                        assert(moving0[x as int] == start_moving[x as int]);
                        assert forall|i: int| 0 <= i < old(rows)@.len() implies #[trigger] rows@[i] == old(rows)@[i] || (
                        old(rows)@[i] is None && placed_by(moved@, true, x + 1, i)) by {
                            if i != op.to {
                                assert(rows@[i] == rows0[i]);
                            }
                        }
                        assert forall|y: int| 0 <= y < x + 1 && (#[trigger] moved@[y]).move_in_dom implies {
                            &&& moved@[y].to < old(rows)@.len()
                            &&& start_moving[y] is Some
                            &&& same_row::<O>(rows@[moved@[y].to as int], start_moving[y])
                        } by {
                            if y < x {
                                assert(rows0[moved@[y].to as int] is Some);
                            }
                        }
                    }
                    proof {
                        assert(c.update(rows0.len() + x, None).update(op.to as int, Some(row)) =~= rows@ + moving@);
                        assert forall|y: int| 0 <= y < moved@.len() && !(#[trigger] moved@[y]).move_in_dom implies moving@[y]
                            == start_moving[y] by {
                            assert(moving@[y] == moving0[y]);
                        }
                        assert forall|y: int| x + 1 <= y < moved@.len() implies #[trigger] moving@[y] == start_moving[y] by {
                            assert(moving@[y] == moving0[y]);
                        }
                        assert forall|y: int| 0 <= y < x + 1 && (#[trigger] moved@[y]).move_in_dom implies moving@[y] is None by {
                            if y != x {
                                assert(moving@[y] == moving0[y]);
                            }
                        }
                        assert forall|k: int| 0 <= k < (rows@ + moving@).len() && #[trigger] (rows@ + moving@)[k] is Some
                            implies ops.issued(O::row_id((rows@ + moving@)[k]->0)) by {
                            if k == op.to {
                                assert(c[rows0.len() + x] is Some);
                            } else {
                                assert((rows@ + moving@)[k] == c[k]);
                            }
                        }
                        if good {
                            assert(rows@ == rows0.update(op.to as int, Some(row)));
                            assert forall|s: int| #[trigger] stays_at(f, t, s) implies s < rows@.len() && same_row::<O>(rows@[s], old_rows[s]) by {
                                assert(s != op.to);
                            }
                            assert forall|y: int|
                                0 <= y < moved@.len() && (kept_move(f, t, y) || y < x + 1) implies same_row::<O>(
                                    rows@[(#[trigger] moved@[y]).to as int],
                                    old_rows[moved@[y].from as int],
                                ) by {
                                if y != x {
                                    assert(moved@[y].to != moved@[x as int].to);
                                } else {
                                    assert(moving0[x as int] == old_rows[moved@[x as int].from as int]);
                                }
                            }
                            assert forall|i: int| 0 <= i < rows@.len() && #[trigger] rows@[i] is Some implies stays_at(f, t, i)
                                || exists|y: int| 0 <= y < moved@.len() && (kept_move(f, t, y) || y < x + 1) && moved@[y].to == i by {
                                if i != op.to {
                                    assert(rows@[i] == rows0[i]);
                                    assert(rows0[i] is Some);
                                    if !stays_at(f, t, i) {
                                        assert(exists|y: int|
                                            0 <= y < moved@.len() && (kept_move(f, t, y) || y < x) && moved@[y].to == i);
                                        lemma_placed_grows(moved@, f, t, x as int, i);
                                    }
                                } else {
                                    assert(moved@[x as int].to == i);
                                }
                            }
                            assert(in_slot_order::<O>(ops.shown(), rows@));
                            assert forall|y: int| 0 <= y < moved@.len() implies #[trigger] moving@[y] == if kept_move(f, t, y) || y < x + 1 {
                                None
                            } else {
                                old_rows[moved@[y].from as int]
                            } by {
                                assert(moving@[y] == moving0.update(x as int, None)[y]);
                            }
                        }
                    }
                },
                None => {
                    proof {
                        assert(moving@ =~= moving0);
                        if good {
                            assert(!kept_move(f, t, x as int));
                            assert(moving0[x as int] == old_rows[moved@[x as int].from as int]);
                        }
                    }
                    return Err(ListError::Invariant("a row moves twice"));
                },
            }
        } else {
            proof {
                lemma_placed_by_grows(moved@, true, x as int);
                lemma_move_logs_step::<O>(moved@, start_moving, x as int);
                if good {
                    assert(kept_move(f, t, x as int));
                    assert(in_slot_order::<O>(ops.shown(), rows@));
                    assert forall|y: int|
                        0 <= y < moved@.len() && (kept_move(f, t, y) || y < x + 1) implies same_row::<O>(
                            rows@[(#[trigger] moved@[y]).to as int],
                            old_rows[moved@[y].from as int],
                        ) by {
                        assert(kept_move(f, t, y) || y < x);
                    }
                    assert forall|i: int| 0 <= i < rows@.len() && #[trigger] rows@[i] is Some implies stays_at(f, t, i)
                        || exists|y: int| 0 <= y < moved@.len() && (kept_move(f, t, y) || y < x + 1) && moved@[y].to == i by {
                        if !stays_at(f, t, i) {
                            lemma_placed_grows(moved@, f, t, x as int, i);
                        }
                    }
                    assert forall|y: int| 0 <= y < moved@.len() implies #[trigger] moving@[y] == if kept_move(f, t, y) || y < x + 1 {
                        None
                    } else {
                        old_rows[moved@[y].from as int]
                    } by {
                        if y == x {
                            assert(kept_move(f, t, y));
                        }
                    }
                }
            }
        }
        x += 1;
    }
    assert(moved@.take(moved@.len() as int) =~= moved@);
    Ok(())
}

/// Whether the new rows of `added` fill exactly the free places of the new list of `new_len`
/// rows, each from an item that is there: no row past the end, as many free places as new
/// rows, and the new indices ascending, each at a free place whose item is there.
pub open spec fn new_rows_fit<R, I>(added: Seq<DiffOpAdd>, rows: Seq<Option<R>>, items: Seq<Option<I>>, new_len: nat) -> bool {
    &&& new_len <= rows.len()
    &&& forall|i: int| new_len <= i < rows.len() ==> (#[trigger] rows[i]) is None
    &&& free_count(rows, new_len) == added.len()
    &&& forall|x: int|
        0 <= x < added.len() ==> {
            let at = (#[trigger] added[x]).at as int;
            &&& at < new_len
            &&& rows[at] is None
            &&& at < items.len()
            &&& items[at] is Some
        }
    &&& forall|x: int, y: int| 0 <= x < y < added.len() ==> (#[trigger] added[x]).at < (#[trigger] added[y]).at
}

/// Checks that the new rows of `added` fill exactly the free places of the new list.
fn check_new_rows<R, I>(
    added: &Vec<DiffOpAdd>,
    rows: &Vec<Option<R>>,
    items: &Vec<Option<I>>,
    new_len: usize,
) -> (res: Result<(), ListError>)
    ensures
        res matches Err(e) ==> e is Invariant,
        res is Ok <==> new_rows_fit(added@, rows@, items@, new_len as nat),
{
    if new_len > rows.len() {
        return Err(ListError::Invariant("the new list has too few places"));
    }
    let mut i: usize = new_len;
    while i < rows.len()
        invariant
            new_len <= i <= rows@.len(),
            forall|k: int| new_len <= k < i ==> (#[trigger] rows@[k]) is None,
        decreases rows.len() - i,
    {
        if rows[i].is_some() {
            return Err(ListError::Invariant("a row is left past the end of the list"));
        }
        i += 1;
    }
    let mut free: usize = 0;
    let mut k: usize = 0;
    while k < new_len
        invariant
            k <= new_len <= rows@.len(),
            free == free_count(rows@, k as nat),
            free <= k,
        decreases new_len - k,
    {
        if rows[k].is_none() {
            free += 1;
        }
        k += 1;
    }
    if free != added.len() {
        return Err(ListError::Invariant("the new rows do not fill the free places"));
    }
    let mut x: usize = 0;
    while x < added.len()
        invariant
            x <= added@.len(),
            new_len <= rows@.len(),
            forall|y: int|
                0 <= y < x ==> {
                    let at = (#[trigger] added@[y]).at as int;
                    &&& at < new_len
                    &&& rows@[at] is None
                    &&& at < items@.len()
                    &&& items@[at] is Some
                },
            forall|y: int, z: int| 0 <= y < z < x ==> (#[trigger] added@[y]).at < (#[trigger] added@[z]).at,
        decreases added.len() - x,
    {
        let at = added[x].at;
        let fits = (x == 0 || at > added[x - 1].at) && at < new_len && rows[at].is_none()
            && at < items.len() && items[at].is_some();
        if !fits {
            return Err(ListError::Invariant("a new row does not fit a free place"));
        }
        x += 1;
    }
    Ok(())
}

/// Builds the rows of `added`, in order, each from its item, and mounts each before the next
/// row in place (at the end of the list in `Append` mode). `Err` if a new index is past
/// `new_len` or taken, or its item is missing.
#[verifier::spinoff_prover]
#[verifier::rlimit(30)]
fn add_rows<O: ListOps>(
    added: &Vec<DiffOpAdd>,
    rows: &mut Vec<Option<O::Row>>,
    items: &mut Vec<Option<O::Item>>,
    new_len: usize,
    moving: &Vec<Option<O::Row>>,
    ops: &mut O,
    Ghost(good): Ghost<bool>,
    Ghost(f): Ghost<Seq<u64>>,
    Ghost(t): Ghost<Seq<u64>>,
) -> (res: Result<(), ListError>)
    requires
        page_fits::<O>(*old(ops), old(rows)@, moving@),
        good ==> {
            &&& new_len == t.len()
            &&& old(items)@.len() == t.len()
            &&& all_rows(old(items)@)
            &&& in_slot_order::<O>(old(ops).shown(), old(rows)@)
            &&& old(rows)@.len() >= t.len()
            &&& forall|i: int|
                0 <= i < old(rows)@.len() ==> (#[trigger] old(rows)@[i] is Some <==> (i < t.len() && !added_at(f, t, i)))
            &&& forall|x: int, y: int|
                0 <= x < y < added@.len() ==> (#[trigger] added@[x]).at < (#[trigger] added@[y]).at
            &&& forall|x: int| 0 <= x < added@.len() ==> added_at(f, t, (#[trigger] added@[x]).at as int)
            &&& forall|i: int| #[trigger] added_at(f, t, i) ==> exists|x: int| 0 <= x < added@.len() && added@[x].at == i
            &&& forall|x: int|
                0 <= x < added@.len() && (#[trigger] added@[x]).mode == DiffOpAddMode::Append ==> f.len() == 0
        },
    ensures
        res matches Err(e) ==> e is Invariant,
        page_fits::<O>(*final(ops), final(rows)@, moving@),
        final(rows)@.len() == old(rows)@.len(),
        final(items)@.len() == old(items)@.len(),
        forall|i: int| new_len <= i < final(rows)@.len() ==> #[trigger] final(rows)@[i] == old(rows)@[i],
        new_rows_fit(added@, old(rows)@, old(items)@, new_len as nat) ==> res is Ok,
        new_rows_fit(added@, old(rows)@, old(items)@, new_len as nat) ==> logged(
            old(ops).log(),
            final(ops).log(),
            adding_log::<O>(added@, final(rows)@),
        ),
        forall|v: nat| old(ops).issued(v) ==> #[trigger] final(ops).issued(v),
        new_rows_fit(added@, old(rows)@, old(items)@, new_len as nat) ==> {
            &&& forall|x: int|
                0 <= x < added@.len() ==> {
                    &&& final(rows)@[(#[trigger] added@[x]).at as int] is Some
                    &&& O::origin(final(rows)@[added@[x].at as int]->0) == (added@[x].at, old(items)@[added@[x].at as int]->0)
                    &&& !old(ops).issued(O::row_id(final(rows)@[added@[x].at as int]->0))
                }
            &&& forall|i: int|
                0 <= i < final(rows)@.len() && !(exists|y: int| 0 <= y < added@.len() && added@[y].at == i)
                    ==> #[trigger] final(rows)@[i] == old(rows)@[i]
        },
        good ==> {
            &&& res is Ok
            &&& in_slot_order::<O>(final(ops).shown(), final(rows)@)
            &&& forall|i: int| 0 <= i < final(rows)@.len() ==> (#[trigger] final(rows)@[i] is Some <==> i < t.len())
            &&& forall|i: int| 0 <= i < t.len() && !added_at(f, t, i) ==> #[trigger] final(rows)@[i] == old(rows)@[i]
            &&& forall|i: int|
                #[trigger] added_at(f, t, i) ==> O::origin(final(rows)@[i]->0) == (i as usize, old(items)@[i]->0)
        },
{
    reveal(logged);
    let ghost start = rows@;
    let ghost start_items = items@;
    assert(adding_log::<O>(added@.take(0), rows@) == Seq::<PageOp>::empty()) by {
        reveal(adding_log);
    }
    assert(old(ops).log() + Seq::<PageOp>::empty() =~= old(ops).log());
    let mut x: usize = 0;
    while x < added.len()
        invariant
            x <= added@.len(),
            new_rows_fit(added@, start, start_items, new_len as nat) ==> ops.log() == old(ops).log() + adding_log::<O>(
                added@.take(x as int),
                rows@,
            ),
            page_fits::<O>(*ops, rows@, moving@),
            rows@.len() == start.len(),
            start == old(rows)@,
            start_items == old(items)@,
            items@.len() == start_items.len(),
            forall|i: int| new_len <= i < rows@.len() ==> #[trigger] rows@[i] == start[i],
            forall|v: nat| old(ops).issued(v) ==> #[trigger] ops.issued(v),
            new_rows_fit(added@, start, start_items, new_len as nat) ==> forall|y: int|
                0 <= y < x ==> !old(ops).issued(O::row_id(rows@[(#[trigger] added@[y]).at as int]->0)),
            new_rows_fit(added@, start, start_items, new_len as nat) ==> {
                &&& forall|i: int|
                    0 <= i < rows@.len() && !(exists|y: int| 0 <= y < x && added@[y].at == i) ==> #[trigger] rows@[i] == start[i]
                &&& forall|i: int|
                    0 <= i < items@.len() && !(exists|y: int| 0 <= y < x && added@[y].at == i) ==> #[trigger] items@[i] == start_items[i]
                &&& forall|y: int|
                    0 <= y < x ==> {
                        &&& rows@[(#[trigger] added@[y]).at as int] is Some
                        &&& O::origin(rows@[added@[y].at as int]->0) == (added@[y].at, start_items[added@[y].at as int]->0)
                    }
            },
            good ==> {
                &&& new_len == t.len()
                &&& start_items.len() == t.len()
                &&& all_rows(start_items)
                &&& start.len() >= t.len()
                &&& in_slot_order::<O>(ops.shown(), rows@)
                &&& forall|x: int, y: int|
                    0 <= x < y < added@.len() ==> (#[trigger] added@[x]).at < (#[trigger] added@[y]).at
                &&& forall|x: int| 0 <= x < added@.len() ==> added_at(f, t, (#[trigger] added@[x]).at as int)
                &&& forall|i: int| #[trigger] added_at(f, t, i) ==> exists|x: int| 0 <= x < added@.len() && added@[x].at == i
                &&& forall|x: int|
                    0 <= x < added@.len() && (#[trigger] added@[x]).mode == DiffOpAddMode::Append ==> f.len() == 0
                &&& forall|i: int|
                    0 <= i < rows@.len() ==> (#[trigger] rows@[i] is Some <==> (i < t.len() && (!added_at(f, t, i)
                        || exists|y: int| 0 <= y < x && added@[y].at == i)))
                &&& forall|i: int| 0 <= i < t.len() && !added_at(f, t, i) ==> #[trigger] rows@[i] == start[i]
                &&& forall|y: int|
                    0 <= y < x ==> O::origin(rows@[(#[trigger] added@[y]).at as int]->0) == (
                        added@[y].at,
                        start_items[added@[y].at as int]->0,
                    )
                &&& forall|i: int|
                    0 <= i < t.len() ==> #[trigger] items@[i] == if exists|y: int| 0 <= y < x && added@[y].at == i {
                        None
                    } else {
                        start_items[i]
                    }
            },
        decreases added.len() - x,
    {
        let add = added[x];
        let at = add.at;
        if at >= new_len {
            return Err(ListError::Invariant("a row's new index is past the end of the list"));
        }
        proof {
            if good {
                assert(added_at(f, t, at as int));
                if exists|y: int| 0 <= y < x && added@[y].at == at {
                    let y = choose|y: int| 0 <= y < x && added@[y].at == at;
                    assert(added@[y].at < added@[x as int].at);
                }
            }
        }
        if at >= rows.len() || rows[at].is_some() {
            return Err(ListError::Invariant("two rows are given the same index"));
        }
        if at >= items.len() {
            return Err(ListError::Invariant("an item to add is missing"));
        }
        let ghost items0 = items@;
        let taken = items[at].take();
        let item = match taken {
            Some(item) => item,
            None => {
                proof {
                    assert(items@ =~= items0);
                }
                return Err(ListError::Invariant("an item to add is missing"));
            },
        };
        let ghost rows0 = rows@;
        let ghost page = ops.shown();
        let ghost pre = *ops;
        let ghost log0 = ops.log();
        let mut row = ops.build(at, item);
        let ghost id = O::row_id(row);
        assert(!old(ops).issued(id));
        let before = match add.mode {
            DiffOpAddMode::Normal => first_after(&rows, at),
            DiffOpAddMode::Append => None,
        };
        let ghost before_id = id_of::<O>(before);
        proof {
            let c = rows0 + moving@;
            assert(!holds::<O>(rows0, id)) by {
                if holds::<O>(rows0, id) {
                    let k = choose|k: int| 0 <= k < rows0.len() && #[trigger] rows0[k] is Some && O::row_id(rows0[k]->0) == id;
                    assert(c[k] == rows0[k]);
                }
            }
            assert(distinct_rows::<O>(rows0)) by {
                assert forall|k1: int, k2: int|
                    0 <= k1 < rows0.len() && 0 <= k2 < rows0.len() && k1 != k2 && #[trigger] rows0[k1] is Some
                        && #[trigger] rows0[k2] is Some implies O::row_id(rows0[k1]->0) != O::row_id(rows0[k2]->0) by {
                    assert(c[k1] == rows0[k1] && c[k2] == rows0[k2]);
                }
            }
            assert forall|v: nat| holds::<O>(rows0, v) implies page.contains(v) by {
                let k = choose|k: int| 0 <= k < rows0.len() && #[trigger] rows0[k] is Some && O::row_id(rows0[k]->0) == v;
                assert(c[k] == rows0[k]);
            }
            if good && add.mode == DiffOpAddMode::Append {
                assert forall|k: int| at < k < rows0.len() implies (#[trigger] rows0[k]) is None by {
                    if rows0[k] is Some {
                        assert(added_at(f, t, k));
                        let y = choose|y: int| 0 <= y < x && added@[y].at == k;
                        assert(added@[y].at < added@[x as int].at);
                    }
                }
            }
            if good {
                assert(next_in_place::<O>(rows0, at as int, before_id));
            }
        }
        ops.mount(&mut row, before);
        proof {
            let c = rows0 + moving@;
            lemma_mounted_set(page, id, before_id);
            lemma_add_fresh::<O>(page, ops.shown(), c, at as int, row);
            if good {
                lemma_mount_in_order::<O>(page, rows0, at as int, row, before_id);
            }
        }
        rows.set(at, Some(row));
        proof {
            if new_rows_fit(added@, start, start_items, new_len as nat) {
                assert forall|y: int| 0 <= y < added@.take(x as int).len() implies rows0[(#[trigger] added@.take(x as int)[y]).at as int]
                    == rows@[added@.take(x as int)[y].at as int] by {
                    assert(added@.take(x as int)[y] == added@[y]);
                    assert(rows0[added@[y].at as int] is Some);
                }
                lemma_adding_log_agrees::<O>(added@.take(x as int), rows0, rows@);
                lemma_adding_log_step::<O>(added@, rows@, x as int);
                assert(ops.log() =~= old(ops).log() + adding_log::<O>(added@.take(x + 1), rows@));
            }
        }
        proof {
            let c = rows0 + moving@;
            assert(c.update(at as int, Some(row)) =~= rows@ + moving@);
            assert forall|k: int| 0 <= k < (rows@ + moving@).len() && #[trigger] (rows@ + moving@)[k] is Some
                implies ops.issued(O::row_id((rows@ + moving@)[k]->0)) by {
                if k != at {
                    assert((rows@ + moving@)[k] == c[k]);
                }
            }
            if good {
                assert(rows@ == rows0.update(at as int, Some(row)));
                assert forall|i: int| 0 <= i < rows@.len() implies (#[trigger] rows@[i] is Some <==> (i < t.len() && (
                    !added_at(f, t, i) || exists|y: int| 0 <= y < x + 1 && added@[y].at == i))) by {
                    if i != at {
                        assert(rows@[i] == rows0[i]);
                        if exists|y: int| 0 <= y < x + 1 && added@[y].at == i {
                            let y = choose|y: int| 0 <= y < x + 1 && added@[y].at == i;
                            assert(y != x);
                            assert(0 <= y < x && added@[y].at == i);
                        }
                    } else {
                        assert(added@[x as int].at == i);
                    }
                }
                assert forall|i: int| 0 <= i < t.len() && !added_at(f, t, i) implies #[trigger] rows@[i] == start[i] by {
                    assert(i != at);
                }
                assert forall|y: int| 0 <= y < x + 1 implies O::origin(rows@[(#[trigger] added@[y]).at as int]->0) == (
                    added@[y].at,
                    start_items[added@[y].at as int]->0,
                ) by {
                    if y != x {
                        assert(added@[y].at < added@[x as int].at);
                    } else {
                        assert(items0[at as int] == start_items[at as int]) by {
                            if exists|z: int| 0 <= z < x && added@[z].at == at {
                                let z = choose|z: int| 0 <= z < x && added@[z].at == at;
                                assert(added@[z].at < added@[x as int].at);
                            }
                        }
                    }
                }
                assert forall|i: int| 0 <= i < t.len() implies #[trigger] items@[i] == if exists|y: int| 0 <= y < x + 1
                    && added@[y].at == i {
                    None
                } else {
                    start_items[i]
                } by {
                    if i != at {
                        assert(items@[i] == items0[i]);
                        if exists|y: int| 0 <= y < x + 1 && added@[y].at == i {
                            let y = choose|y: int| 0 <= y < x + 1 && added@[y].at == i;
                            assert(y != x);
                            assert(0 <= y < x && added@[y].at == i);
                        }
                    } else {
                        assert(added@[x as int].at == i);
                    }
                }
            }
        }
        x += 1;
    }
    proof {
        if good {
            assert forall|i: int| 0 <= i < rows@.len() implies (#[trigger] rows@[i] is Some <==> i < t.len()) by {
                if i < t.len() && added_at(f, t, i) {
                    let y = choose|y: int| 0 <= y < added@.len() && added@[y].at == i;
                    assert(0 <= y < x && added@[y].at == i);
                }
            }
            assert forall|i: int| #[trigger] added_at(f, t, i) implies O::origin(rows@[i]->0) == (
                i as usize,
                start_items[i]->0,
            ) by {
                let y = choose|y: int| 0 <= y < added@.len() && added@[y].at == i;
                assert(O::origin(rows@[added@[y].at as int]->0) == (added@[y].at, start_items[added@[y].at as int]->0));
            }
        }
    }
    assert(added@.take(added@.len() as int) =~= added@);
    Ok(())
}

/// Whether the row at `i` of `rows` is there and `plan` neither removes nor moves it.
pub open spec fn untouched<R>(plan: DiffPlan, rows: Seq<Option<R>>, i: int) -> bool {
    &&& 0 <= i < rows.len()
    &&& rows[i] is Some
    &&& !in_list(plan.removed, i)
    &&& !moved_from(plan.moved, plan.moved.len() as int, i)
}

/// Whether a move of `moved` goes to the place `i`.
pub open spec fn moved_to(moved: Seq<DiffOpMove>, i: int) -> bool {
    exists|y: int| 0 <= y < moved.len() && moved[y].to == i
}

/// Whether an addition of `added` is at the place `i`.
pub open spec fn added_to(added: Seq<DiffOpAdd>, i: int) -> bool {
    exists|x: int| 0 <= x < added.len() && added[x].at == i
}

/// Whether `plan` fits `rows`, for a new list of `new_len` rows: it adds rows at places of
/// the new list, in ascending order; and either it clears the list and adds a row at every
/// place (removing and moving nothing, unless it adds nothing), or it removes and moves
/// rows that are there, each once, to places of the new list, one row to a place, every
/// row that it neither removes nor moves keeps its place in the new list, and every place
/// of the new list gets one row: a row that stays, a row moved there, or a new one.
#[verifier::opaque]
pub open spec fn plan_fits_rows<R>(plan: DiffPlan, rows: Seq<Option<R>>, new_len: nat) -> bool {
    &&& forall|x: int| 0 <= x < plan.added.len() ==> (#[trigger] plan.added[x]).at < new_len
    &&& forall|x1: int, x2: int|
        0 <= x1 < x2 < plan.added.len() ==> (#[trigger] plan.added[x1]).at < (#[trigger] plan.added[x2]).at
    &&& plan.clear ==> {
        &&& plan.added.len() == new_len
        &&& plan.added.len() > 0 ==> plan.removed.len() == 0 && plan.moved.len() == 0
    }
    &&& !plan.clear ==> {
        &&& plan.removed.len() <= rows.len()
        &&& rows.len() - plan.removed.len() + plan.added.len() == new_len
        &&& rows.len() + plan.added.len() <= usize::MAX
        &&& forall|k: int|
            0 <= k < plan.removed.len() ==> (#[trigger] plan.removed[k]) < rows.len() && rows[plan.removed[k] as int] is Some
        &&& forall|k1: int, k2: int|
            0 <= k1 < k2 < plan.removed.len() ==> #[trigger] plan.removed[k1] != #[trigger] plan.removed[k2]
        &&& forall|y: int|
            0 <= y < plan.moved.len() ==> {
                &&& (#[trigger] plan.moved[y]).from < rows.len()
                &&& rows[plan.moved[y].from as int] is Some
                &&& !in_list(plan.removed, plan.moved[y].from as int)
                &&& plan.moved[y].to < new_len
            }
        &&& forall|y1: int, y2: int|
            0 <= y1 < y2 < plan.moved.len() ==> (#[trigger] plan.moved[y1]).from != (#[trigger] plan.moved[y2]).from
                && plan.moved[y1].to != plan.moved[y2].to
        &&& forall|x: int, y: int|
            0 <= x < plan.added.len() && 0 <= y < plan.moved.len() ==> (#[trigger] plan.added[x]).at != (
            #[trigger] plan.moved[y]).to
        &&& forall|i: int|
            #[trigger] untouched(plan, rows, i) ==> i < new_len && !moved_to(plan.moved, i) && !added_to(plan.added, i)
        &&& forall|i: int|
            0 <= i < new_len ==> #[trigger] untouched(plan, rows, i) || moved_to(plan.moved, i) || added_to(plan.added, i)
    }
}

/// Whether `plan` is the plan for `f` to `t`, `rows` are the rows of `f`, shown in order,
/// and `items` the items of `t`.
pub open spec fn fits_plan<O: ListOps>(
    f: Seq<u64>,
    t: Seq<u64>,
    plan: DiffPlan,
    rows: Seq<Option<O::Row>>,
    items: Seq<Option<O::Item>>,
    page: Seq<nat>,
) -> bool {
    &&& plan_keys(f, t)
    &&& f.len() + t.len() <= usize::MAX
    &&& plan == spec_diff(f, t)
    &&& rows.len() == f.len()
    &&& all_rows(rows)
    &&& items.len() == t.len()
    &&& all_rows(items)
    &&& page == slot_ids::<O>(rows)
}

/// Whether `rows` are the rows of `t` after an update from `old_rows`, the rows of `f`: the
/// row of each key that both lists hold is kept, and every other row is built from the item
/// at its index.
pub open spec fn updated<O: ListOps>(
    f: Seq<u64>,
    t: Seq<u64>,
    old_rows: Seq<Option<O::Row>>,
    old_items: Seq<Option<O::Item>>,
    rows: Seq<Option<O::Row>>,
) -> bool {
    &&& rows.len() == t.len()
    &&& all_rows(rows)
    &&& forall|j: int|
        0 <= j < t.len() && f.contains(#[trigger] t[j]) ==> same_row::<O>(rows[j], old_rows[f.index_of(t[j])])
    &&& forall|j: int|
        0 <= j < t.len() && !f.contains(#[trigger] t[j]) ==> O::origin(rows[j]->0) == (j as usize, old_items[j]->0)
}

/// Once the new rows that fit the free places are built, every place of the new list has a
/// row, and each new row was built from the item at its place.
proof fn lemma_new_rows_fill<O: ListOps>(
    checked: Seq<Option<O::Row>>,
    full: Seq<Option<O::Row>>,
    added: Seq<DiffOpAdd>,
    items: Seq<Option<O::Item>>,
    new_len: nat,
)
    requires
        new_rows_fit(added, checked, items, new_len),
        full.len() == checked.len(),
        forall|x: int|
            0 <= x < added.len() ==> {
                &&& full[(#[trigger] added[x]).at as int] is Some
                &&& O::origin(full[added[x].at as int]->0) == (added[x].at, items[added[x].at as int]->0)
            },
        forall|i: int|
            0 <= i < full.len() && !(exists|y: int| 0 <= y < added.len() && added[y].at == i) ==> #[trigger] full[i]
                == checked[i],
    ensures
        forall|i: int| 0 <= i < new_len ==> (#[trigger] full[i]) is Some,
        forall|j: int|
            0 <= j < new_len && (exists|x: int| 0 <= x < added.len() && added[x].at == j) ==> O::origin(
                #[trigger] full[j]->0,
            ) == (j as usize, items[j]->0),
{
    let ats = added.map_values(|a: DiffOpAdd| a.at);
    assert forall|x: int| 0 <= x < ats.len() implies (#[trigger] ats[x]) < new_len && checked[ats[x] as int] is None by {
        assert(ats[x] == added[x].at);
    }
    assert forall|x: int, y: int| 0 <= x < y < ats.len() implies (#[trigger] ats[x]) < (#[trigger] ats[y]) by {
        assert(ats[x] == added[x].at && ats[y] == added[y].at);
    }
    lemma_free_places_covered(checked, ats, new_len);
    assert forall|i: int| 0 <= i < new_len implies (#[trigger] full[i]) is Some by {
        if exists|y: int| 0 <= y < added.len() && added[y].at == i {
            let y = choose|y: int| 0 <= y < added.len() && added[y].at == i;
            assert(full[added[y].at as int] is Some);
        } else if checked[i] is None {
            let x = choose|x: int| 0 <= x < ats.len() && ats[x] == i;
            assert(added[x].at == i);
        }
    }
    assert forall|j: int|
        0 <= j < new_len && (exists|x: int| 0 <= x < added.len() && added[x].at == j) implies O::origin(
        #[trigger] full[j]->0,
    ) == (j as usize, items[j]->0) by {
        let x = choose|x: int| 0 <= x < added.len() && added[x].at == j;
        assert(O::origin(full[added[x].at as int]->0) == (added[x].at, items[added[x].at as int]->0));
    }
}

/// Free places that are exactly the places of `ats`, ascending below `k`, are as many as
/// `ats`.
proof fn lemma_free_count_exact<R>(slots: Seq<Option<R>>, ats: Seq<usize>, k: nat)
    requires
        k <= slots.len(),
        forall|x: int| 0 <= x < ats.len() ==> (#[trigger] ats[x]) < k,
        forall|x: int, y: int| 0 <= x < y < ats.len() ==> (#[trigger] ats[x]) < (#[trigger] ats[y]),
        forall|i: int|
            0 <= i < k ==> ((#[trigger] slots[i]) is None <==> exists|x: int| 0 <= x < ats.len() && ats[x] == i),
    ensures
        free_count(slots, k) == ats.len(),
    decreases k,
{
    if k == 0 {
        if ats.len() > 0 {
            assert(ats[0] < 0);
        }
    } else {
        let last = k - 1;
        if slots[last] is None {
            let x = choose|x: int| 0 <= x < ats.len() && ats[x] == last;
            if x < ats.len() - 1 {
                assert(ats[x] < ats[ats.len() - 1]);
            }
            let rest = ats.drop_last();
            assert forall|i: int| 0 <= i < k - 1 implies ((#[trigger] slots[i]) is None <==> exists|y: int|
                0 <= y < rest.len() && rest[y] == i) by {
                if slots[i] is None {
                    let y = choose|y: int| 0 <= y < ats.len() && ats[y] == i;
                    assert(y != ats.len() - 1);
                    assert(rest[y] == i);
                }
                if exists|y: int| 0 <= y < rest.len() && rest[y] == i {
                    let y = choose|y: int| 0 <= y < rest.len() && rest[y] == i;
                    assert(ats[y] == i);
                }
            }
            assert forall|y: int| 0 <= y < rest.len() implies (#[trigger] rest[y]) < k - 1 by {
                assert(ats[y] < ats[ats.len() - 1]);
            }
            lemma_free_count_exact(slots, rest, (k - 1) as nat);
        } else {
            assert forall|y: int| 0 <= y < ats.len() implies (#[trigger] ats[y]) < k - 1 by {
                if ats[y] == last {
                    assert(exists|z: int| 0 <= z < ats.len() && ats[z] == last);
                }
            }
            lemma_free_count_exact(slots, ats, (k - 1) as nat);
        }
    }
}

/// A plan that fits rows that are all there removes rows that are there, each once.
proof fn lemma_fits_removes<R>(plan: DiffPlan, old_rows: Seq<Option<R>>, start_rows: Seq<Option<R>>, new_len: nat)
    requires
        all_rows(old_rows),
        plan_fits_rows(plan, old_rows, new_len),
        plan.clear ==> plan.added.len() > 0 && start_rows.len() == 0,
        !plan.clear ==> start_rows == old_rows,
    ensures
        removes_rows_there(plan.removed, start_rows),
{
    reveal(plan_fits_rows);
}

/// A plan that fits rows that are all there takes, once removals are done, rows that are
/// there, each once.
proof fn lemma_fits_takes<R>(
    plan: DiffPlan,
    old_rows: Seq<Option<R>>,
    start_rows: Seq<Option<R>>,
    left_rows: Seq<Option<R>>,
    new_len: nat,
)
    requires
        all_rows(old_rows),
        plan_fits_rows(plan, old_rows, new_len),
        plan.clear ==> plan.added.len() > 0 && start_rows.len() == 0,
        !plan.clear ==> start_rows == old_rows,
        removal_facts(plan.removed, start_rows, left_rows, true),
        left_rows.len() == start_rows.len(),
    ensures
        takes_rows_there(plan.moved, left_rows),
{
    reveal(plan_fits_rows);
    reveal(removal_facts);
    if !plan.clear {
        assert forall|y: int| 0 <= y < plan.moved.len() implies (#[trigger] plan.moved[y]).from < left_rows.len()
            && left_rows[plan.moved[y].from as int] is Some by {
            assert(left_rows[plan.moved[y].from as int] == start_rows[plan.moved[y].from as int]);
        }
    }
}

/// Where a plan that fits rows that are all there has taken its rows out, the place `i`
/// is free exactly where no row stays there.
proof fn lemma_fits_free<R>(
    plan: DiffPlan,
    old_rows: Seq<Option<R>>,
    left_rows: Seq<Option<R>>,
    taken_rows: Seq<Option<R>>,
    taken_moving: Seq<Option<R>>,
    grown_rows: Seq<Option<R>>,
    new_len: nat,
    i: int,
)
    requires
        all_rows(old_rows),
        plan_fits_rows(plan, old_rows, new_len),
        !plan.clear,
        removal_facts(plan.removed, old_rows, left_rows, true),
        left_rows.len() == old_rows.len(),
        take_facts(plan.moved, left_rows, taken_rows, taken_moving, true),
        taken_rows.len() == left_rows.len(),
        forall|j: int| 0 <= j < taken_rows.len() ==> #[trigger] grown_rows[j] == taken_rows[j],
        forall|j: int| taken_rows.len() <= j < grown_rows.len() ==> (#[trigger] grown_rows[j]) is None,
        0 <= i < grown_rows.len(),
    ensures
        grown_rows[i] is Some <==> untouched(plan, old_rows, i),
        grown_rows[i] is Some ==> grown_rows[i] == old_rows[i],
{
    reveal(removal_facts);
    reveal(take_facts);
    if i < taken_rows.len() {
        assert(grown_rows[i] == taken_rows[i]);
        if moved_from(plan.moved, plan.moved.len() as int, i) {
            let y = choose|y: int| 0 <= y < plan.moved.len() && plan.moved[y].from == i;
            assert(taken_rows[plan.moved[y].from as int] is None);
        } else {
            assert(taken_rows[i] == left_rows[i]);
            if in_list(plan.removed, i) {
                let k = choose|k: int| 0 <= k < plan.removed.len() && plan.removed[k] == i;
                assert(left_rows[plan.removed[k] as int] is None);
            } else {
                assert(left_rows[i] == old_rows[i]);
            }
        }
    }
}

/// A plan that fits rows that are all there, once its rows are taken out, sends the moves
/// that keep their place on the page to free places.
proof fn lemma_fits_places_kept<R>(
    plan: DiffPlan,
    old_rows: Seq<Option<R>>,
    start_rows: Seq<Option<R>>,
    left_rows: Seq<Option<R>>,
    taken_rows: Seq<Option<R>>,
    taken_moving: Seq<Option<R>>,
    grown_rows: Seq<Option<R>>,
    new_len: nat,
)
    requires
        all_rows(old_rows),
        plan_fits_rows(plan, old_rows, new_len),
        plan.clear ==> plan.added.len() > 0 && start_rows.len() == 0,
        !plan.clear ==> start_rows == old_rows,
        removal_facts(plan.removed, start_rows, left_rows, true),
        left_rows.len() == start_rows.len(),
        take_facts(plan.moved, left_rows, taken_rows, taken_moving, true),
        taken_moving.len() == plan.moved.len(),
        taken_rows.len() == left_rows.len(),
        grown_rows.len() == taken_rows.len() + plan.added.len(),
        forall|j: int| 0 <= j < taken_rows.len() ==> #[trigger] grown_rows[j] == taken_rows[j],
        forall|j: int| taken_rows.len() <= j < grown_rows.len() ==> (#[trigger] grown_rows[j]) is None,
    ensures
        places_free(plan.moved, false, grown_rows, taken_moving, new_len),
        places_free(plan.moved, true, grown_rows, taken_moving, new_len),
{
    reveal(plan_fits_rows);
    reveal(take_facts);
    if !plan.clear {
        assert forall|y: int| 0 <= y < plan.moved.len() implies {
            &&& (#[trigger] plan.moved[y]).to < new_len
            &&& plan.moved[y].to < grown_rows.len()
            &&& grown_rows[plan.moved[y].to as int] is None
            &&& y < taken_moving.len()
            &&& taken_moving[y] is Some
        } by {
            let to = plan.moved[y].to as int;
            lemma_fits_free(plan, old_rows, left_rows, taken_rows, taken_moving, grown_rows, new_len, to);
            if untouched(plan, old_rows, to) {
                assert(moved_to(plan.moved, to));
            }
        }
    }
}

/// A plan that fits rows that are all there, once the rows that keep their place on the
/// page are placed, sends the moves on the page to free places.
proof fn lemma_fits_places_moving<O: ListOps>(
    plan: DiffPlan,
    grown_rows: Seq<Option<O::Row>>,
    taken_moving: Seq<Option<O::Row>>,
    kept_rows: Seq<Option<O::Row>>,
    kept_moving: Seq<Option<O::Row>>,
    new_len: nat,
)
    requires
        places_free(plan.moved, false, grown_rows, taken_moving, new_len),
        places_free(plan.moved, true, grown_rows, taken_moving, new_len),
        forall|y1: int, y2: int|
            0 <= y1 < y2 < plan.moved.len() ==> (#[trigger] plan.moved[y1]).to != (#[trigger] plan.moved[y2]).to,
        place_facts::<O>(plan.moved, false, grown_rows, taken_moving, kept_rows, true),
        kept_rows.len() == grown_rows.len(),
        kept_moving.len() == taken_moving.len(),
        forall|y: int|
            0 <= y < plan.moved.len() && (#[trigger] plan.moved[y]).move_in_dom ==> kept_moving[y] == taken_moving[y],
    ensures
        places_free(plan.moved, true, kept_rows, kept_moving, new_len),
{
    reveal(place_facts);
    let moved = plan.moved;
    assert forall|y: int| 0 <= y < moved.len() && (#[trigger] moved[y]).move_in_dom == true implies {
        &&& moved[y].to < new_len
        &&& moved[y].to < kept_rows.len()
        &&& kept_rows[moved[y].to as int] is None
        &&& y < kept_moving.len()
        &&& kept_moving[y] is Some
    } by {
        let to = moved[y].to as int;
        if placed_by(moved, false, moved.len() as int, to) {
            let z = choose|z: int| 0 <= z < moved.len() && moved[z].move_in_dom == false && moved[z].to == to;
            if z < y {
                assert(moved[z].to != moved[y].to);
            } else {
                assert(moved[y].to != moved[z].to);
            }
        }
    }
}

/// A plan that clears the list and fits it leaves, once the list is cleared, free places
/// for its additions, and exactly those.
proof fn lemma_fits_cleared<O: ListOps>(
    plan: DiffPlan,
    rows: Seq<Option<O::Row>>,
    grown_rows: Seq<Option<O::Row>>,
    taken_moving: Seq<Option<O::Row>>,
    kept_rows: Seq<Option<O::Row>>,
    kept_moving: Seq<Option<O::Row>>,
    checked_rows: Seq<Option<O::Row>>,
    items: Seq<Option<O::Item>>,
    new_len: nat,
)
    requires
        plan_fits_rows(plan, rows, new_len),
        plan.clear,
        plan.added.len() > 0,
        all_rows(items),
        items.len() == new_len,
        grown_rows.len() == plan.added.len(),
        forall|i: int| 0 <= i < grown_rows.len() ==> (#[trigger] grown_rows[i]) is None,
        place_facts::<O>(plan.moved, false, grown_rows, taken_moving, kept_rows, true),
        place_facts::<O>(plan.moved, true, kept_rows, kept_moving, checked_rows, true),
        kept_rows.len() == grown_rows.len(),
        checked_rows.len() == kept_rows.len(),
    ensures
        new_rows_fit(plan.added, checked_rows, items, new_len),
{
    reveal(plan_fits_rows);
    reveal(place_facts);
    assert forall|i: int| 0 <= i < checked_rows.len() implies (#[trigger] checked_rows[i]) is None by {
        assert(kept_rows[i] == grown_rows[i]);
        assert(checked_rows[i] == kept_rows[i]);
    }
    lemma_free_count_all(checked_rows, new_len);
}

/// Where a plan that fits rows that are all there has put its moved rows in place, the
/// places that are left free are exactly those of its additions.
proof fn lemma_fits_new_rows<O: ListOps>(
    plan: DiffPlan,
    old_rows: Seq<Option<O::Row>>,
    left_rows: Seq<Option<O::Row>>,
    taken_rows: Seq<Option<O::Row>>,
    taken_moving: Seq<Option<O::Row>>,
    grown_rows: Seq<Option<O::Row>>,
    kept_rows: Seq<Option<O::Row>>,
    kept_moving: Seq<Option<O::Row>>,
    checked_rows: Seq<Option<O::Row>>,
    items: Seq<Option<O::Item>>,
    new_len: nat,
)
    requires
        all_rows(old_rows),
        all_rows(items),
        items.len() == new_len,
        plan_fits_rows(plan, old_rows, new_len),
        !plan.clear,
        removal_facts(plan.removed, old_rows, left_rows, true),
        left_rows.len() == old_rows.len(),
        take_facts(plan.moved, left_rows, taken_rows, taken_moving, true),
        taken_rows.len() == left_rows.len(),
        grown_rows.len() == taken_rows.len() + plan.added.len(),
        forall|j: int| 0 <= j < taken_rows.len() ==> #[trigger] grown_rows[j] == taken_rows[j],
        forall|j: int| taken_rows.len() <= j < grown_rows.len() ==> (#[trigger] grown_rows[j]) is None,
        place_facts::<O>(plan.moved, false, grown_rows, taken_moving, kept_rows, true),
        place_facts::<O>(plan.moved, true, kept_rows, kept_moving, checked_rows, true),
        kept_rows.len() == grown_rows.len(),
        checked_rows.len() == kept_rows.len(),
    ensures
        new_rows_fit(plan.added, checked_rows, items, new_len),
{
    reveal(plan_fits_rows);
    reveal(place_facts);
    let moved = plan.moved;
    let n = moved.len() as int;
    assert forall|i: int| 0 <= i < checked_rows.len() implies ((#[trigger] checked_rows[i]) is Some <==> (untouched(
        plan,
        old_rows,
        i,
    ) || moved_to(moved, i))) by {
        lemma_fits_free(plan, old_rows, left_rows, taken_rows, taken_moving, grown_rows, new_len, i);
        if placed_by(moved, false, n, i) || placed_by(moved, true, n, i) {
            let y = choose|y: int| 0 <= y < n && moved[y].to == i;
            assert(moved_to(moved, i));
            if moved[y].move_in_dom {
                assert(same_row::<O>(checked_rows[moved[y].to as int], kept_moving[y]));
            } else {
                assert(kept_rows[moved[y].to as int] == taken_moving[y]);
                assert(kept_rows[i] is Some);
            }
        }
        if moved_to(moved, i) {
            let y = choose|y: int| 0 <= y < moved.len() && moved[y].to == i;
            if moved[y].move_in_dom {
                assert(same_row::<O>(checked_rows[moved[y].to as int], kept_moving[y]));
            } else {
                assert(kept_rows[moved[y].to as int] == taken_moving[y]);
            }
        }
    }
    assert(new_len <= checked_rows.len());
    assert forall|i: int| new_len <= i < checked_rows.len() implies (#[trigger] checked_rows[i]) is None by {
        if untouched(plan, old_rows, i) {
        }
        if moved_to(moved, i) {
            let y = choose|y: int| 0 <= y < moved.len() && moved[y].to == i;
        }
    }
    assert forall|i: int| 0 <= i < new_len implies ((#[trigger] checked_rows[i]) is None <==> exists|x: int|
        0 <= x < plan.added.len() && plan.added[x].at == i) by {
        assert(untouched(plan, old_rows, i) || moved_to(moved, i) || added_to(plan.added, i));
        if added_to(plan.added, i) && moved_to(moved, i) {
            let x = choose|x: int| 0 <= x < plan.added.len() && plan.added[x].at == i;
            let y = choose|y: int| 0 <= y < moved.len() && moved[y].to == i;
            assert(plan.added[x].at != moved[y].to);
        }
    }
    let ats = plan.added.map_values(|a: DiffOpAdd| a.at);
    assert forall|i: int| 0 <= i < new_len implies ((#[trigger] checked_rows[i]) is None <==> exists|x: int|
        0 <= x < ats.len() && ats[x] == i) by {
        if exists|x: int| 0 <= x < plan.added.len() && plan.added[x].at == i {
            let x = choose|x: int| 0 <= x < plan.added.len() && plan.added[x].at == i;
            assert(ats[x] == i);
        }
        if exists|x: int| 0 <= x < ats.len() && ats[x] == i {
            let x = choose|x: int| 0 <= x < ats.len() && ats[x] == i;
            assert(plan.added[x].at == i);
        }
    }
    assert forall|x: int| 0 <= x < ats.len() implies (#[trigger] ats[x]) < new_len by {
        assert(ats[x] == plan.added[x].at);
    }
    assert forall|x: int, y: int| 0 <= x < y < ats.len() implies (#[trigger] ats[x]) < (#[trigger] ats[y]) by {
        assert(ats[x] == plan.added[x].at && ats[y] == plan.added[y].at);
    }
    lemma_free_count_exact(checked_rows, ats, new_len);
    assert forall|x: int| 0 <= x < plan.added.len() implies {
        let at = (#[trigger] plan.added[x]).at as int;
        &&& at < new_len
        &&& checked_rows[at] is None
        &&& at < items.len()
        &&& items[at] is Some
    } by {
        let at = plan.added[x].at as int;
        assert(exists|z: int| 0 <= z < plan.added.len() && plan.added[z].at == at);
    }
}

/// The logs that the steps of carrying out a plan leave make up the log of the plan.
proof fn lemma_plan_log<O: ListOps>(
    plan: DiffPlan,
    old_rows: Seq<Option<O::Row>>,
    start_rows: Seq<Option<O::Row>>,
    left_rows: Seq<Option<O::Row>>,
    taken_rows: Seq<Option<O::Row>>,
    taken_moving: Seq<Option<O::Row>>,
    kept_moving: Seq<Option<O::Row>>,
    full: Seq<Option<O::Row>>,
    rows: Seq<Option<O::Row>>,
    new_len: nat,
    log0: Seq<PageOp>,
    log1: Seq<PageOp>,
    log2: Seq<PageOp>,
    log3: Seq<PageOp>,
    log4: Seq<PageOp>,
    log5: Seq<PageOp>,
)
    requires
        plan.clear ==> log1 == log0 + clear_log::<O>(old_rows) && start_rows.len() == 0,
        !plan.clear ==> log1 == log0 && start_rows == old_rows,
        logged(log1, log2, removal_log::<O>(plan.removed, start_rows)),
        logged(log2, log3, kept_log::<O>(plan.moved, taken_moving)),
        logged(log3, log4, moving_log::<O>(plan.moved, kept_moving)),
        logged(log4, log5, adding_log::<O>(plan.added, full)),
        removal_facts(plan.removed, start_rows, left_rows, true),
        take_facts(plan.moved, left_rows, taken_rows, taken_moving, true),
        left_rows.len() == start_rows.len(),
        forall|y: int|
            0 <= y < plan.moved.len() && (#[trigger] plan.moved[y]).move_in_dom ==> kept_moving[y] == taken_moving[y],
        forall|x: int| 0 <= x < plan.added.len() ==> (#[trigger] plan.added[x]).at < new_len,
        new_len <= full.len(),
        rows == full.take(new_len as int),
    ensures
        log5 == log0 + apply_log::<O>(plan, old_rows, rows),
{
    reveal(logged);
    reveal(apply_log);
    reveal(removal_facts);
    reveal(take_facts);
    assert forall|x: int| 0 <= x < plan.added.len() implies full[(#[trigger] plan.added[x]).at as int] == rows[plan.added[x].at as int] by {}
    lemma_adding_log_agrees::<O>(plan.added, full, rows);
    let mr = moved_rows(plan.moved, old_rows);
    if plan.clear {
        if plan.removed.len() > 0 {
            assert(plan.removed[0] < start_rows.len());
        }
        if plan.moved.len() > 0 {
            assert(plan.moved[0].from < left_rows.len());
        }
        assert(removal_log::<O>(plan.removed, start_rows) == Seq::<PageOp>::empty()) by {
            reveal(removal_log);
        }
        assert(kept_log::<O>(plan.moved, taken_moving) == Seq::<PageOp>::empty()) by {
            reveal(kept_log);
        }
        assert(moving_log::<O>(plan.moved, kept_moving) == Seq::<PageOp>::empty()) by {
            reveal(moving_log);
        }
        assert(log5 =~= log0 + apply_log::<O>(plan, old_rows, rows));
    } else {
        assert forall|y: int| 0 <= y < plan.moved.len() implies taken_moving[y] == mr[y] by {
            let from = plan.moved[y].from as int;
            assert(left_rows[from] == start_rows[from] || left_rows[from] is None);
        }
        lemma_move_logs_agree::<O>(plan.moved, taken_moving, mr);
        lemma_move_logs_agree::<O>(plan.moved, kept_moving, mr);
        assert(log5 =~= log0 + apply_log::<O>(plan, old_rows, rows));
    }
}

/// The facts that the steps of carrying out a plan leave behind show what the plan did.
proof fn lemma_plan_done<O: ListOps>(
    plan: DiffPlan,
    old_rows: Seq<Option<O::Row>>,
    start_rows: Seq<Option<O::Row>>,
    left_rows: Seq<Option<O::Row>>,
    taken_rows: Seq<Option<O::Row>>,
    grown_rows: Seq<Option<O::Row>>,
    kept_rows: Seq<Option<O::Row>>,
    checked_rows: Seq<Option<O::Row>>,
    taken_moving: Seq<Option<O::Row>>,
    kept_moving: Seq<Option<O::Row>>,
    checked_moving: Seq<Option<O::Row>>,
    items: Seq<Option<O::Item>>,
    full: Seq<Option<O::Row>>,
    rows: Seq<Option<O::Row>>,
    moving: Seq<Option<O::Row>>,
    new_len: nat,
    page_start: Seq<nat>,
    checked_page: Seq<nat>,
    log0: Seq<PageOp>,
    log1: Seq<PageOp>,
    log2: Seq<PageOp>,
    log3: Seq<PageOp>,
    log4: Seq<PageOp>,
    log5: Seq<PageOp>,
)
    requires
        shows_exactly::<O>(page_start, old_rows),
        shows_exactly::<O>(checked_page, checked_rows + checked_moving),
        forall|v: nat| #[trigger] checked_page.contains(v) ==> page_start.contains(v),
        checked_moving.len() == moving.len(),
        forall|y: int| 0 <= y < moving.len() ==> (#[trigger] moving[y]) is None,
        items.len() == new_len,
        forall|j: int|
            0 <= j < new_len && (exists|x: int| 0 <= x < plan.added.len() && plan.added[x].at == j) ==> O::origin(
                #[trigger] full[j]->0,
            ) == (j as usize, items[j]->0),
        forall|x: int|
            0 <= x < plan.added.len() ==> !holds::<O>(old_rows, O::row_id(full[(#[trigger] plan.added[x]).at as int]->0)),
        plan.clear ==> log1 == log0 + clear_log::<O>(old_rows),
        !plan.clear ==> log1 == log0,
        logged(log1, log2, removal_log::<O>(plan.removed, start_rows)),
        logged(log2, log3, kept_log::<O>(plan.moved, taken_moving)),
        logged(log3, log4, moving_log::<O>(plan.moved, kept_moving)),
        logged(log4, log5, adding_log::<O>(plan.added, full)),
        removal_facts(plan.removed, start_rows, left_rows, true),
        take_facts(plan.moved, left_rows, taken_rows, taken_moving, true),
        place_facts::<O>(plan.moved, false, grown_rows, taken_moving, kept_rows, true),
        place_facts::<O>(plan.moved, true, kept_rows, kept_moving, checked_rows, true),
        forall|y: int|
            0 <= y < plan.moved.len() && (#[trigger] plan.moved[y]).move_in_dom ==> kept_moving[y] == taken_moving[y],
        new_rows_fit(plan.added, checked_rows, items, new_len),
        full.len() == checked_rows.len(),
        rows == full.take(new_len as int),
        all_rows(rows),
        forall|i: int|
            0 <= i < full.len() && !(exists|y: int| 0 <= y < plan.added.len() && plan.added[y].at == i) ==> #[trigger] full[i]
                == checked_rows[i],
        plan.clear ==> plan.added.len() == new_len && start_rows.len() == 0,
        !plan.clear ==> {
            &&& start_rows == old_rows
            &&& plan.removed.len() <= old_rows.len()
            &&& old_rows.len() - plan.removed.len() + plan.added.len() == new_len
            &&& taken_rows.len() + plan.added.len() <= usize::MAX
        },
        left_rows.len() == start_rows.len(),
        taken_rows.len() == left_rows.len(),
        grown_rows.len() == taken_rows.len() + plan.added.len(),
        kept_rows.len() == grown_rows.len(),
        checked_rows.len() == kept_rows.len(),
        forall|i: int| 0 <= i < taken_rows.len() ==> #[trigger] grown_rows[i] == taken_rows[i],
        forall|i: int| taken_rows.len() <= i < grown_rows.len() ==> (#[trigger] grown_rows[i]) is None,
    ensures
        carried_out::<O>(plan, old_rows, items, rows, moving, log0, log5),
{
    reveal(carried_out);
    assert forall|j: int|
        0 <= j < rows.len() && !(exists|x: int| 0 <= x < plan.added.len() && plan.added[x].at == j) implies holds::<O>(
        old_rows,
        O::row_id(#[trigger] rows[j]->0),
    ) by {
        assert(rows[j] == full[j]);
        assert(full[j] == checked_rows[j]);
        assert((checked_rows + checked_moving)[j] == checked_rows[j]);
        lemma_shown_before::<O>(checked_page, page_start, checked_rows + checked_moving, old_rows, j);
    }
    assert forall|j: int|
        0 <= j < rows.len() && (exists|x: int| 0 <= x < plan.added.len() && plan.added[x].at == j) implies !holds::<O>(
        old_rows,
        O::row_id(#[trigger] rows[j]->0),
    ) by {
        let x = choose|x: int| 0 <= x < plan.added.len() && plan.added[x].at == j;
        assert(rows[j] == full[plan.added[x].at as int]);
    }
    assert forall|j: int|
        0 <= j < rows.len() && (exists|x: int| 0 <= x < plan.added.len() && plan.added[x].at == j) implies O::origin(
        #[trigger] rows[j]->0,
    ) == (j as usize, items[j]->0) by {
        assert(rows[j] == full[j]);
    }
    assert(distinct_rows::<O>(old_rows));
    assert(forall|x: int| 0 <= x < plan.added.len() ==> (#[trigger] plan.added[x]).at < new_len);
    lemma_plan_log::<O>(
        plan,
        old_rows,
        start_rows,
        left_rows,
        taken_rows,
        taken_moving,
        kept_moving,
        full,
        rows,
        new_len,
        log0,
        log1,
        log2,
        log3,
        log4,
        log5,
    );
    lemma_plan_fits_rows::<O>(
        plan,
        old_rows,
        start_rows,
        left_rows,
        taken_rows,
        grown_rows,
        kept_rows,
        checked_rows,
        taken_moving,
        kept_moving,
        items,
        full,
        rows,
        new_len,
    );
}

/// The facts that carrying out a plan leaves behind show that the plan fits the rows.
proof fn lemma_plan_fits_rows<O: ListOps>(
    plan: DiffPlan,
    old_rows: Seq<Option<O::Row>>,
    start_rows: Seq<Option<O::Row>>,
    left_rows: Seq<Option<O::Row>>,
    taken_rows: Seq<Option<O::Row>>,
    grown_rows: Seq<Option<O::Row>>,
    kept_rows: Seq<Option<O::Row>>,
    checked_rows: Seq<Option<O::Row>>,
    taken_moving: Seq<Option<O::Row>>,
    kept_moving: Seq<Option<O::Row>>,
    items: Seq<Option<O::Item>>,
    full: Seq<Option<O::Row>>,
    rows: Seq<Option<O::Row>>,
    new_len: nat,
)
    requires
        distinct_rows::<O>(old_rows),
        removal_facts(plan.removed, start_rows, left_rows, true),
        take_facts(plan.moved, left_rows, taken_rows, taken_moving, true),
        place_facts::<O>(plan.moved, false, grown_rows, taken_moving, kept_rows, true),
        place_facts::<O>(plan.moved, true, kept_rows, kept_moving, checked_rows, true),
        forall|y: int|
            0 <= y < plan.moved.len() && (#[trigger] plan.moved[y]).move_in_dom ==> kept_moving[y] == taken_moving[y],
        new_rows_fit(plan.added, checked_rows, items, new_len),
        full.len() == checked_rows.len(),
        rows == full.take(new_len as int),
        all_rows(rows),
        forall|i: int|
            0 <= i < full.len() && !(exists|y: int| 0 <= y < plan.added.len() && plan.added[y].at == i) ==> #[trigger] full[i]
                == checked_rows[i],
        forall|j: int|
            0 <= j < rows.len() && (exists|x: int| 0 <= x < plan.added.len() && plan.added[x].at == j) ==> !holds::<O>(
                old_rows,
                O::row_id(#[trigger] rows[j]->0),
            ),
        plan.clear ==> plan.added.len() == new_len && start_rows.len() == 0,
        !plan.clear ==> {
            &&& start_rows == old_rows
            &&& plan.removed.len() <= old_rows.len()
            &&& old_rows.len() - plan.removed.len() + plan.added.len() == new_len
            &&& taken_rows.len() + plan.added.len() <= usize::MAX
        },
        left_rows.len() == start_rows.len(),
        taken_rows.len() == left_rows.len(),
        grown_rows.len() == taken_rows.len() + plan.added.len(),
        kept_rows.len() == grown_rows.len(),
        checked_rows.len() == kept_rows.len(),
        forall|i: int| 0 <= i < taken_rows.len() ==> #[trigger] grown_rows[i] == taken_rows[i],
        forall|i: int| taken_rows.len() <= i < grown_rows.len() ==> (#[trigger] grown_rows[i]) is None,
    ensures
        plan_fits_rows(plan, old_rows, new_len),
        forall|y: int|
            0 <= y < plan.moved.len() ==> {
                &&& (#[trigger] plan.moved[y]).to < rows.len()
                &&& same_row::<O>(rows[plan.moved[y].to as int], old_rows[plan.moved[y].from as int])
            },
        forall|j: int|
            0 <= j < rows.len() && !(exists|x: int| 0 <= x < plan.added.len() && plan.added[x].at == j) && !(exists|y: int|
                0 <= y < plan.moved.len() && plan.moved[y].to == j) ==> #[trigger] rows[j] == old_rows[j],
{
    reveal(removal_facts);
    reveal(take_facts);
    reveal(place_facts);
    reveal(plan_fits_rows);
    let moved = plan.moved;
    let n = moved.len() as int;
    if plan.clear && moved.len() > 0 {
        assert(moved[0].from < left_rows.len());
    }
    assert forall|y: int| 0 <= y < moved.len() implies {
        &&& (#[trigger] moved[y]).to < rows.len()
        &&& same_row::<O>(rows[moved[y].to as int], old_rows[moved[y].from as int])
    } by {
        let from = moved[y].from as int;
        let to = moved[y].to as int;
        assert(left_rows[from] == start_rows[from] || left_rows[from] is None);
        assert(taken_moving[y] == left_rows[from]);
        assert(taken_moving[y] == old_rows[from]);
        if moved[y].move_in_dom {
            assert(same_row::<O>(checked_rows[to], old_rows[from]));
        } else {
            assert(checked_rows[to] == kept_rows[to]);
        }
        assert(checked_rows[to] is Some);
        assert(to < new_len);
        if exists|x: int| 0 <= x < plan.added.len() && plan.added[x].at == to {
            let x = choose|x: int| 0 <= x < plan.added.len() && plan.added[x].at == to;
            assert(checked_rows[plan.added[x].at as int] is None);
        }
        assert(full[to] == checked_rows[to]);
        assert(rows[to] == full[to]);
    }
    assert forall|j: int|
        0 <= j < rows.len() && !(exists|x: int| 0 <= x < plan.added.len() && plan.added[x].at == j) && !(exists|y: int|
            0 <= y < plan.moved.len() && plan.moved[y].to == j) implies #[trigger] rows[j] == old_rows[j] by {
        assert(rows[j] == full[j]);
        assert(full[j] == checked_rows[j]);
        assert(!placed_by(moved, true, n, j));
        assert(!placed_by(moved, false, n, j));
        assert(checked_rows[j] == kept_rows[j]);
        assert(kept_rows[j] == grown_rows[j]);
        assert(j < taken_rows.len());
        assert(grown_rows[j] == taken_rows[j]);
        assert(left_rows[j] == start_rows[j] || left_rows[j] is None);
        if plan.clear {
            assert(false);
        }
    }
    if plan.clear {
        if plan.added.len() > 0 {
            if plan.removed.len() > 0 {
                assert(plan.removed[0] < start_rows.len());
            }
            if moved.len() > 0 {
                assert(moved[0].from < left_rows.len());
            }
        }
    } else {
        assert forall|y: int| 0 <= y < moved.len() implies {
            &&& (#[trigger] moved[y]).from < old_rows.len()
            &&& old_rows[moved[y].from as int] is Some
            &&& !in_list(plan.removed, moved[y].from as int)
            &&& moved[y].to < new_len
        } by {
            let from = moved[y].from as int;
            assert(left_rows[from] is Some);
            if in_list(plan.removed, from) {
                let k = choose|k: int| 0 <= k < plan.removed.len() && plan.removed[k] == from;
                assert(left_rows[plan.removed[k] as int] is None);
            }
            assert(left_rows[from] == old_rows[from] || left_rows[from] is None);
        }
        assert forall|y1: int, y2: int| 0 <= y1 < y2 < moved.len() implies (#[trigger] moved[y1]).from != (
        #[trigger] moved[y2]).from && moved[y1].to != moved[y2].to by {
            if moved[y1].to == moved[y2].to {
                let a = moved[y1].from as int;
                let b = moved[y2].from as int;
                assert(same_row::<O>(rows[moved[y1].to as int], old_rows[a]));
                assert(same_row::<O>(rows[moved[y2].to as int], old_rows[b]));
                assert(left_rows[a] == old_rows[a] || left_rows[a] is None);
                assert(left_rows[b] == old_rows[b] || left_rows[b] is None);
            }
        }
        assert forall|x: int, y: int|
            0 <= x < plan.added.len() && 0 <= y < moved.len() implies (#[trigger] plan.added[x]).at != (
            #[trigger] moved[y]).to by {
            let from = moved[y].from as int;
            let to = moved[y].to as int;
            assert(same_row::<O>(rows[to], old_rows[from]));
            assert(left_rows[from] == old_rows[from] || left_rows[from] is None);
            if plan.added[x].at == to {
                assert(old_rows[from] is Some && O::row_id(old_rows[from]->0) == O::row_id(rows[to]->0));
                assert(holds::<O>(old_rows, O::row_id(rows[to]->0)));
            }
        }
        assert forall|i: int| #[trigger] untouched(plan, old_rows, i) implies i < new_len && !moved_to(moved, i) && !added_to(
            plan.added,
            i,
        ) by {
            assert(left_rows[i] == old_rows[i]);
            assert(taken_rows[i] == left_rows[i]);
            assert(grown_rows[i] == taken_rows[i]);
            assert(kept_rows[i] == grown_rows[i]);
            assert(checked_rows[i] == kept_rows[i]);
            assert(i < new_len);
            if exists|x: int| 0 <= x < plan.added.len() && plan.added[x].at == i {
                let x = choose|x: int| 0 <= x < plan.added.len() && plan.added[x].at == i;
                assert(checked_rows[plan.added[x].at as int] is None);
            }
            assert(full[i] == checked_rows[i]);
            assert(rows[i] == old_rows[i]);
            if moved_to(moved, i) {
                let y = choose|y: int| 0 <= y < moved.len() && moved[y].to == i;
                assert(same_row::<O>(rows[moved[y].to as int], old_rows[moved[y].from as int]));
                assert(moved[y].from != i) by {
                    if moved[y].from == i {
                        assert(moved_from(moved, n, i));
                    }
                }
                assert(left_rows[moved[y].from as int] == old_rows[moved[y].from as int] || left_rows[moved[y].from as int] is None);
            }
        }
        assert forall|i: int| 0 <= i < new_len implies #[trigger] untouched(plan, old_rows, i) || moved_to(moved, i) || added_to(
            plan.added,
            i,
        ) by {
            if !added_to(plan.added, i) && !moved_to(moved, i) {
                assert(rows[i] == full[i]);
                assert(full[i] == checked_rows[i]);
                assert(rows[i] is Some);
                if placed_by(moved, true, n, i) || placed_by(moved, false, n, i) {
                    let y = choose|y: int| 0 <= y < n && moved[y].to == i;
                    assert(moved_to(moved, i));
                }
                assert(checked_rows[i] == kept_rows[i]);
                assert(kept_rows[i] == grown_rows[i]);
                assert(i < taken_rows.len());
                assert(grown_rows[i] == taken_rows[i]);
                if moved_from(moved, n, i) {
                    let y = choose|y: int| 0 <= y < n && moved[y].from == i;
                    assert(taken_rows[moved[y].from as int] is None);
                }
                assert(taken_rows[i] == left_rows[i]);
                if in_list(plan.removed, i) {
                    let k = choose|k: int| 0 <= k < plan.removed.len() && plan.removed[k] == i;
                    assert(left_rows[plan.removed[k] as int] is None);
                }
                assert(left_rows[i] == old_rows[i]);
            }
        }
    }
}

/// A row on a page whose rows were all on an earlier page has the identity of a row shown
/// there.
proof fn lemma_shown_before<O: ListOps>(
    page: Seq<nat>,
    old_page: Seq<nat>,
    slots: Seq<Option<O::Row>>,
    old_slots: Seq<Option<O::Row>>,
    k: int,
)
    requires
        shows_exactly::<O>(page, slots),
        shows_exactly::<O>(old_page, old_slots),
        forall|v: nat| #[trigger] page.contains(v) ==> old_page.contains(v),
        0 <= k < slots.len(),
        slots[k] is Some,
    ensures
        holds::<O>(old_slots, O::row_id(slots[k]->0)),
{
    assert(holds::<O>(slots, O::row_id(slots[k]->0)));
    assert(page.contains(O::row_id(slots[k]->0)));
}

/// What carrying out `plan` on `rows` (one per old key) with `items` (one per new key)
/// leaves: `new_rows`, one per item, all there; no row left waiting in `moving`; the row of
/// each addition new, built from the item at its place; the row of each move the old row it
/// moves; every other row the old row at its place; the plan fits the rows; and the log
/// `log1` is `log0` followed by the plan's operations.
#[verifier::opaque]
pub open spec fn carried_out<O: ListOps>(
    plan: DiffPlan,
    rows: Seq<Option<O::Row>>,
    items: Seq<Option<O::Item>>,
    new_rows: Seq<Option<O::Row>>,
    moving: Seq<Option<O::Row>>,
    log0: Seq<PageOp>,
    log1: Seq<PageOp>,
) -> bool {
    &&& forall|y: int| 0 <= y < moving.len() ==> (#[trigger] moving[y]) is None
    &&& new_rows.len() == items.len() && all_rows(new_rows)
    &&& forall|j: int|
        0 <= j < new_rows.len() && (exists|x: int| 0 <= x < plan.added.len() && plan.added[x].at == j) ==> O::origin(
            #[trigger] new_rows[j]->0,
        ) == (j as usize, items[j]->0)
    &&& forall|j: int|
        0 <= j < new_rows.len() && !(exists|x: int| 0 <= x < plan.added.len() && plan.added[x].at == j) ==> holds::<O>(
            rows,
            O::row_id(#[trigger] new_rows[j]->0),
        )
    &&& !plan.clear ==> forall|y: int|
        0 <= y < plan.moved.len() ==> {
            &&& (#[trigger] plan.moved[y]).to < new_rows.len()
            &&& same_row::<O>(new_rows[plan.moved[y].to as int], rows[plan.moved[y].from as int])
        }
    &&& forall|j: int|
        0 <= j < new_rows.len() && !(exists|x: int| 0 <= x < plan.added.len() && plan.added[x].at == j) && !(exists|y: int|
            0 <= y < plan.moved.len() && plan.moved[y].to == j) ==> #[trigger] new_rows[j] == rows[j]
    &&& plan_fits_rows(plan, rows, items.len())
    &&& log1 == log0 + apply_log::<O>(plan, rows, new_rows)
    &&& forall|j: int|
        0 <= j < new_rows.len() && (exists|x: int| 0 <= x < plan.added.len() && plan.added[x].at == j) ==> !holds::<O>(
            rows,
            O::row_id(#[trigger] new_rows[j]->0),
        )
}

/// Carries out `diff` on `rows` (one per old key), building rows from `items` (one per new
/// key); the rows taken out to be moved wait in `moving`. `Err` if the plan does not fit
/// the rows, before any item is taken. Carried out, whatever the plan, it leaves a row at
/// every place of the new list: the old row that a move names at the place it moves to,
/// the old row at a place that no move or addition names, and a new row built from the item
/// at each place that an addition names.
#[verifier::spinoff_prover]
#[verifier::rlimit(100)]
fn apply_plan<O: ListOps>(
    diff: &Diff,
    rows: &mut Vec<Option<O::Row>>,
    items: &mut Vec<Option<O::Item>>,
    moving: &mut Vec<Option<O::Row>>,
    ops: &mut O,
    Ghost(good): Ghost<bool>,
    Ghost(f): Ghost<Seq<u64>>,
    Ghost(t): Ghost<Seq<u64>>,
) -> (res: Result<(), ListError>)
    requires
        page_fits::<O>(*old(ops), old(rows)@, old(moving)@),
        old(moving)@.len() == 0,
        good ==> fits_plan::<O>(f, t, diff@, old(rows)@, old(items)@, old(ops).shown()),
    ensures
        res matches Err(e) ==> e is Invariant,
        res is Err ==> final(items)@ == old(items)@,
        page_fits::<O>(*final(ops), final(rows)@, final(moving)@),
        forall|v: nat| old(ops).issued(v) ==> #[trigger] final(ops).issued(v),
        res is Ok ==> carried_out::<O>(diff@, old(rows)@, old(items)@, final(rows)@, final(moving)@, old(ops).log(), final(ops).log()),
        all_rows(old(rows)@) && all_rows(old(items)@) && plan_fits_rows(diff@, old(rows)@, old(items)@.len()) ==> res is Ok,
        good ==> {
            &&& res is Ok
            &&& updated::<O>(f, t, old(rows)@, old(items)@, final(rows)@)
            &&& final(ops).shown() == slot_ids::<O>(final(rows)@)
        },
{
    let ghost old_rows = rows@;
    let ghost old_items = items@;
    let ghost page_start = ops.shown();
    proof {
        assert(old_rows + moving@ =~= old_rows);
        if good {
            lemma_slots_in_order::<O>(old(ops).shown(), old_rows);
            if f.len() > 0 && t.len() > 0 {
                lemma_plan_parts(f, t);
            }
            if f.len() == 0 {
                lemma_empty_plan(f, t);
            }
        }
    }
    let new_len = items.len();
    let kept = if diff.clear {
        Some(0usize)
    } else {
        rows.len().checked_sub(diff.removed.len())
    };
    let accounted = match kept {
        Some(k) => k.checked_add(diff.added.len()),
        None => None,
    };
    let fits = match accounted {
        Some(total) => total == new_len,
        None => false,
    };
    let ghost fits_in = all_rows(old_rows) && all_rows(old_items) && plan_fits_rows(diff@, old_rows, new_len as nat);
    assert(fits_in ==> fits) by {
        reveal(plan_fits_rows);
    }
    if !fits {
        return Err(ListError::Invariant("the plan does not account for every row"));
    }
    proof {
        if diff.clear {
            assert(diff@.added.len() == new_len);
        } else {
            assert(diff@.removed.len() <= old_rows.len() && old_rows.len() - diff@.removed.len() + diff@.added.len() == new_len);
        }
    }
    if diff.clear {
        clear_rows(rows, ops);
        proof {
            assert(rows@ + moving@ =~= Seq::<Option<O::Row>>::empty());
            assert(shows_exactly::<O>(ops.shown(), rows@ + moving@)) by {
                assert forall|x: nat| ops.shown().contains(x) <==> holds::<O>(rows@ + moving@, x) by {}
            }
        }
        if diff.added.len() == 0 {
            proof {
                reveal(plan_fits_rows);
            }
            assert(ops.log() == old(ops).log() + apply_log::<O>(diff@, old_rows, rows@)) by {
                reveal(apply_log);
                reveal(adding_log);
                assert(clear_log::<O>(old_rows) + Seq::<PageOp>::empty() =~= clear_log::<O>(old_rows));
            }
            assert(carried_out::<O>(diff@, old_rows, old_items, rows@, moving@, old(ops).log(), ops.log())) by {
                reveal(carried_out);
            }
            return Ok(());
        }
    }
    proof {
        if good {
            assert(!diff@.clear);
            assert(rows@ == old_rows);
        }
    }
    let ghost page0 = ops.shown();
    let ghost start_rows = rows@;
    let ghost log1 = ops.log();
    assert(forall|i: int| 0 <= i < start_rows.len() ==> #[trigger] start_rows[i] == old_rows[i]);
    proof {
        if fits_in {
            lemma_fits_removes(diff@, old_rows, start_rows, new_len as nat);
        }
    }
    let removed = remove_rows(&diff.removed, rows, moving, ops, Ghost(good), Ghost(f), Ghost(t), Ghost(old_rows));
    if removed.is_err() {
        return removed;
    }
    let ghost left_rows = rows@;
    let ghost log2 = ops.log();
    proof {
        if fits_in {
            lemma_fits_takes(diff@, old_rows, start_rows, left_rows, new_len as nat);
        }
    }
    let taken = take_moves(&diff.moved, rows, moving, ops, Ghost(good), Ghost(f), Ghost(t), Ghost(old_rows));
    if taken.is_err() {
        return taken;
    }
    let ghost taken_rows = rows@;
    let ghost taken_moving = moving@;
    assert(taken_moving.skip(0) =~= taken_moving);
    assert(fits_in ==> taken_rows.len() + diff.added@.len() <= usize::MAX) by {
        reveal(plan_fits_rows);
    }
    let grown = grow_rows(rows, diff.added.len(), moving, ops);
    if grown.is_err() {
        return grown;
    }
    let ghost grown_rows = rows@;
    assert(taken_rows.len() + diff@.added.len() <= usize::MAX);
    proof {
        if good {
            assert forall|i: int| 0 <= i < rows@.len() implies #[trigger] rows@[i] == if stays_at(f, t, i) {
                old_rows[i]
            } else {
                None
            } by {
                if i < f.len() {
                    assert(rows@[i] == taken_rows[i]);
                }
            }
        }
    }
    proof {
        if fits_in {
            lemma_fits_places_kept(diff@, old_rows, start_rows, left_rows, taken_rows, taken_moving, grown_rows, new_len as nat);
        }
    }
    let kept_placed = place_kept(&diff.moved, rows, moving, new_len, ops, Ghost(good), Ghost(f), Ghost(t), Ghost(old_rows));
    if kept_placed.is_err() {
        return kept_placed;
    }
    let ghost kept_rows = rows@;
    let ghost log3 = ops.log();
    let ghost kept_moving = moving@;
    proof {
        if fits_in {
            assert(forall|y1: int, y2: int|
                0 <= y1 < y2 < diff@.moved.len() ==> (#[trigger] diff@.moved[y1]).to != (#[trigger] diff@.moved[y2]).to) by {
                reveal(plan_fits_rows);
            }
            lemma_fits_places_moving::<O>(diff@, grown_rows, taken_moving, kept_rows, kept_moving, new_len as nat);
        }
    }
    let moved_placed = place_moving(&diff.moved, rows, moving, new_len, ops, Ghost(good), Ghost(f), Ghost(t), Ghost(old_rows));
    if moved_placed.is_err() {
        return moved_placed;
    }
    let ghost placed_rows = rows@;
    let ghost log4 = ops.log();
    proof {
        if good {
            lemma_plan_moves(f, t);
            assert forall|i: int| 0 <= i < rows@.len() implies (#[trigger] rows@[i] is Some <==> (i < t.len() && !added_at(f, t, i))) by {
                if rows@[i] is Some {
                    if !stays_at(f, t, i) {
                        let y = choose|y: int| 0 <= y < diff.moved@.len() && diff.moved@[y].to == i;
                        assert(f.contains(f[diff.moved@[y].from as int]));
                    } else {
                        assert(f.contains(f[i]));
                    }
                }
                if i < t.len() && !added_at(f, t, i) {
                    lemma_every_index_filled(f, t, i);
                    if !stays_at(f, t, i) {
                        let y = choose|y: int| 0 <= y < plan_moves(f, t).len() && #[trigger] plan_moves(f, t)[y].to == i;
                        assert(same_row::<O>(rows@[diff.moved@[y].to as int], old_rows[diff.moved@[y].from as int]));
                    }
                }
            }
            if f.len() > 0 {
                lemma_added_list(f, t, t.len());
            }
            assert forall|x: int, y: int|
                0 <= x < y < diff.added@.len() implies (#[trigger] diff.added@[x]).at < (#[trigger] diff.added@[y]).at by {}
            assert forall|x: int| 0 <= x < diff.added@.len() implies added_at(f, t, (#[trigger] diff.added@[x]).at as int) by {}
            assert forall|i: int| #[trigger] added_at(f, t, i) implies exists|x: int|
                0 <= x < diff.added@.len() && diff.added@[x].at == i by {
                if f.len() == 0 {
                    assert(diff.added@[i].at == i);
                }
            }
            if f.len() > 0 {
                lemma_free_count(f, t, rows@, t.len());
            } else {
                lemma_free_count_all(rows@, t.len());
            }
        }
    }
    proof {
        if fits_in {
            if diff.clear {
                lemma_fits_cleared::<O>(diff@, old_rows, grown_rows, taken_moving, kept_rows, kept_moving, rows@, old_items, new_len as nat);
            } else {
                lemma_fits_new_rows::<O>(
                    diff@,
                    old_rows,
                    left_rows,
                    taken_rows,
                    taken_moving,
                    grown_rows,
                    kept_rows,
                    kept_moving,
                    rows@,
                    old_items,
                    new_len as nat,
                );
            }
        }
    }
    let checked = check_new_rows(&diff.added, rows, items, new_len);
    if checked.is_err() {
        return checked;
    }
    let ghost checked_items = items@;
    let ghost checked_rows = rows@;
    let ghost checked_moving = moving@;
    let ghost checked_page = ops.shown();
    let ghost checked_ops = *ops;
    assert(forall|v: nat| old(ops).issued(v) ==> #[trigger] checked_ops.issued(v));
    assert(forall|v: nat| #[trigger] checked_page.contains(v) ==> page_start.contains(v));
    assert(checked_items == old_items);
    let added = add_rows(&diff.added, rows, items, new_len, moving, ops, Ghost(good), Ghost(f), Ghost(t));
    if added.is_err() {
        return added;
    }
    let ghost full = rows@;
    proof {
        lemma_new_rows_fill::<O>(checked_rows, full, diff.added@, checked_items, new_len as nat);
    }
    proof {
        assert forall|i: int| new_len <= i < full.len() implies (#[trigger] full[i]) is None by {
            assert(full[i] == placed_rows[i]);
        }
        assert forall|y: int| 0 <= y < moving@.len() implies (#[trigger] moving@[y]) is None by {
            if diff.moved@[y].move_in_dom {
            } else {
            }
        }
        lemma_drop_free::<O>(ops.shown(), full, moving@, new_len as int);
    }
    rows.truncate(new_len);
    proof {
        assert(rows@ == full.take(new_len as int));
        assert(all_rows(rows@)) by {
            assert forall|i: int| 0 <= i < rows@.len() implies (#[trigger] rows@[i]) is Some by {
                assert(rows@[i] == full[i]);
            }
        }
        assert forall|k: int| 0 <= k < (rows@ + moving@).len() && #[trigger] (rows@ + moving@)[k] is Some
            implies ops.issued(O::row_id((rows@ + moving@)[k]->0)) by {
            assert((rows@ + moving@)[k] == (full + moving@)[k]);
        }
        assert(old_rows + Seq::<Option<O::Row>>::empty() =~= old_rows);
        assert forall|x: int| 0 <= x < diff.added@.len() implies !holds::<O>(
            old_rows,
            O::row_id(full[(#[trigger] diff.added@[x]).at as int]->0),
        ) by {
            if holds::<O>(old_rows, O::row_id(full[diff.added@[x].at as int]->0)) {
                let k = choose|k: int| 0 <= k < old_rows.len() && #[trigger] old_rows[k] is Some && O::row_id(old_rows[k]->0)
                    == O::row_id(full[diff.added@[x].at as int]->0);
                assert((old_rows + Seq::<Option<O::Row>>::empty())[k] == old_rows[k]);
            }
        }
        lemma_plan_done::<O>(
            diff@,
            old_rows,
            start_rows,
            left_rows,
            taken_rows,
            grown_rows,
            kept_rows,
            checked_rows,
            taken_moving,
            kept_moving,
            checked_moving,
            checked_items,
            full,
            rows@,
            moving@,
            new_len as nat,
            page_start,
            checked_page,
            old(ops).log(),
            log1,
            log2,
            log3,
            log4,
            ops.log(),
        );
        if good {
            assert(all_rows(rows@));
            lemma_in_order_is_slots::<O>(ops.shown(), rows@);
            assert forall|j: int| 0 <= j < t.len() && f.contains(#[trigger] t[j]) implies same_row::<O>(
                rows@[j],
                old_rows[f.index_of(t[j])],
            ) by {
                assert(!added_at(f, t, j));
                assert(rows@[j] == placed_rows[j]);
                lemma_every_index_filled(f, t, j);
                if stays_at(f, t, j) {
                    assert(f.index_of(t[j]) == j);
                } else {
                    let y = choose|y: int| 0 <= y < plan_moves(f, t).len() && #[trigger] plan_moves(f, t)[y].to == j;
                    assert(f.index_of(t[j]) == plan_moves(f, t)[y].from);
                }
            }
            assert forall|j: int| 0 <= j < t.len() && !f.contains(#[trigger] t[j]) implies O::origin(rows@[j]->0) == (
                j as usize,
                old_items[j]->0,
            ) by {
                assert(added_at(f, t, j));
            }
        }
    }
    Ok(())
}

/// Carries out `diff` on `rows` (one per old key), building rows from `items` (one per new
/// key). `Err` if the plan does not fit the rows: the rows taken out to be moved are then
/// unmounted, the rest are left for a rebuild. Either way the page shows exactly the rows.
fn apply<O: ListOps>(
    diff: &Diff,
    rows: &mut Vec<Option<O::Row>>,
    items: &mut Vec<Option<O::Item>>,
    ops: &mut O,
    Ghost(good): Ghost<bool>,
    Ghost(f): Ghost<Seq<u64>>,
    Ghost(t): Ghost<Seq<u64>>,
) -> (res: Result<(), ListError>)
    requires
        old(ops).inv(),
        shows_exactly::<O>(old(ops).shown(), old(rows)@),
        all_issued::<O>(*old(ops), old(rows)@),
        good ==> fits_plan::<O>(f, t, diff@, old(rows)@, old(items)@, old(ops).shown()),
    ensures
        res matches Err(e) ==> e is Invariant,
        res is Err ==> final(items)@ == old(items)@,
        final(ops).inv(),
        shows_exactly::<O>(final(ops).shown(), final(rows)@),
        all_issued::<O>(*final(ops), final(rows)@),
        forall|v: nat| old(ops).issued(v) ==> #[trigger] final(ops).issued(v),
        res is Ok ==> final(rows)@.len() == old(items)@.len() && all_rows(final(rows)@),
        res is Ok ==> forall|j: int|
            0 <= j < final(rows)@.len() && (exists|x: int| 0 <= x < diff.added@.len() && diff.added@[x].at == j)
                ==> O::origin(#[trigger] final(rows)@[j]->0) == (j as usize, old(items)@[j]->0),
        res is Ok ==> forall|j: int|
            0 <= j < final(rows)@.len() && !(exists|x: int| 0 <= x < diff.added@.len() && diff.added@[x].at == j)
                ==> holds::<O>(old(rows)@, O::row_id(#[trigger] final(rows)@[j]->0)),
        res is Ok && !diff@.clear ==> forall|y: int|
            0 <= y < diff.moved@.len() ==> {
                &&& (#[trigger] diff.moved@[y]).to < final(rows)@.len()
                &&& same_row::<O>(final(rows)@[diff.moved@[y].to as int], old(rows)@[diff.moved@[y].from as int])
            },
        res is Ok ==> forall|j: int|
            0 <= j < final(rows)@.len() && !(exists|x: int| 0 <= x < diff.added@.len() && diff.added@[x].at == j)
                && !(exists|y: int| 0 <= y < diff.moved@.len() && diff.moved@[y].to == j) ==> #[trigger] final(rows)@[j]
                == old(rows)@[j],
        res is Ok ==> plan_fits_rows(diff@, old(rows)@, old(items)@.len()),
        all_rows(old(rows)@) && all_rows(old(items)@) && plan_fits_rows(diff@, old(rows)@, old(items)@.len()) ==> res is Ok,
        res is Ok ==> final(ops).log() == old(ops).log() + apply_log::<O>(diff@, old(rows)@, final(rows)@),
        res is Ok ==> forall|j: int|
            0 <= j < final(rows)@.len() && (exists|x: int| 0 <= x < diff.added@.len() && diff.added@[x].at == j)
                ==> !holds::<O>(old(rows)@, O::row_id(#[trigger] final(rows)@[j]->0)),
        good ==> {
            &&& res is Ok
            &&& updated::<O>(f, t, old(rows)@, old(items)@, final(rows)@)
            &&& final(ops).shown() == slot_ids::<O>(final(rows)@)
        },
{
    reveal(carried_out);
    let mut moving: Vec<Option<O::Row>> = Vec::with_capacity(diff.moved.len());
    proof {
        assert(old(rows)@ + moving@ =~= old(rows)@);
    }
    let result = apply_plan(diff, rows, items, &mut moving, ops, Ghost(good), Ghost(f), Ghost(t));
    proof {
        if result is Ok && !diff@.clear {
            assert forall|y: int| 0 <= y < diff.moved@.len() implies {
                &&& (#[trigger] diff.moved@[y]).to < rows@.len()
                &&& same_row::<O>(rows@[diff.moved@[y].to as int], old(rows)@[diff.moved@[y].from as int])
            } by {
                assert(diff@.moved[y] == diff.moved@[y]);
            }
        }
    }
    if result.is_err() {
        // taken out of the rows but still on the page
        let mut k: usize = 0;
        while k < moving.len()
            invariant
                k <= moving@.len(),
                page_fits::<O>(*ops, rows@, moving@),
                forall|v: nat| old(ops).issued(v) ==> #[trigger] ops.issued(v),
                forall|y: int| 0 <= y < k ==> (#[trigger] moving@[y]) is None,
            decreases moving.len() - k,
        {
            let ghost c = rows@ + moving@;
            let ghost page = ops.shown();
            let slot = moving[k].take();
            match slot {
                Some(mut row) => {
                    proof {
                        assert(c[rows@.len() + k] == Some(row));
                        lemma_take_unmount::<O>(page, c, rows@.len() + k);
                        assert(c.update(rows@.len() + k, None) =~= rows@ + moving@);
                    }
                    ops.unmount(&mut row);
                    proof {
                        assert(ops.shown() == unmounted(page, O::row_id(c[rows@.len() + k]->0)));
                        assert(shows_exactly::<O>(ops.shown(), rows@ + moving@));
                        assert forall|j: int| 0 <= j < (rows@ + moving@).len() && #[trigger] (rows@ + moving@)[j] is Some
                            implies ops.issued(O::row_id((rows@ + moving@)[j]->0)) by {
                            assert((rows@ + moving@)[j] == c[j]);
                        }
                    }
                },
                None => {
                    proof {
                        assert(rows@ + moving@ =~= c);
                    }
                },
            }
            k += 1;
        }
    }
    proof {
        lemma_drop_free::<O>(ops.shown(), rows@, moving@, rows@.len() as int);
        assert(rows@.take(rows@.len() as int) == rows@);
        assert forall|j: int| 0 <= j < rows@.len() && #[trigger] rows@[j] is Some implies ops.issued(O::row_id(rows@[j]->0)) by {
            assert((rows@ + moving@)[j] == rows@[j]);
        }
    }
    result
}

/// Carries out `diff`; if it does not fit the rows, renders the list again from scratch and
/// returns the error it recovered from. A plan that is the diff of two lists of keys, for
/// rows rendered for the first and shown in order and items of the second, is carried out:
/// the row of each key both lists hold is kept, every other row is built from its item,
/// and the page shows the rows in order. Whatever the plan, it is carried out exactly when it
/// fits the rows (see [`plan_fits_rows`]), for rows and items that are all there: one that
/// removes or moves a row that is not there or twice, moves or adds a row past the end,
/// gives two rows one place, or leaves a row or a place without the other is refused, and
/// the list is rendered again. A plan that is carried out is carried out as it is written:
/// every place holds the old row that a
/// move names, the old row that no move or addition names, or a new row built from its item;
/// the page shows exactly these rows, in the order that the plan's moves on the page give;
/// and the page's log records exactly the plan's operations, in order ([`apply_log`]): each
/// removed row taken off once, each row moved only in the list told its index, each row
/// moved on the page moved once and told its index, each new row built once and put on the
/// page.
pub fn apply_or_rebuild<O: ListOps>(
    diff: Diff,
    rows: &mut Vec<Option<O::Row>>,
    items: Vec<Option<O::Item>>,
    ops: &mut O,
) -> (recovered: Option<ListError>)
    requires
        old(ops).inv(),
        shows_exactly::<O>(old(ops).shown(), old(rows)@),
        all_issued::<O>(*old(ops), old(rows)@),
    ensures
        final(ops).inv(),
        shows_exactly::<O>(final(ops).shown(), final(rows)@),
        all_issued::<O>(*final(ops), final(rows)@),
        recovered is Some ==> rebuilt::<O>(final(ops).shown(), final(rows)@, items@),
        recovered is Some ==> forall|k: int|
            0 <= k < final(rows)@.len() ==> !holds::<O>(old(rows)@, O::row_id(#[trigger] final(rows)@[k]->0)),
        recovered matches Some(e) ==> e is Invariant,
        recovered is None ==> final(rows)@.len() == items@.len() && all_rows(final(rows)@),
        recovered is None ==> forall|j: int|
            0 <= j < final(rows)@.len() && (exists|x: int| 0 <= x < diff@.added.len() && diff@.added[x].at == j)
                ==> O::origin(#[trigger] final(rows)@[j]->0) == (j as usize, items@[j]->0),
        recovered is None ==> forall|j: int|
            0 <= j < final(rows)@.len() && !(exists|x: int| 0 <= x < diff@.added.len() && diff@.added[x].at == j)
                ==> holds::<O>(old(rows)@, O::row_id(#[trigger] final(rows)@[j]->0)),
        recovered is None && !diff@.clear ==> forall|y: int|
            0 <= y < diff@.moved.len() ==> {
                &&& (#[trigger] diff@.moved[y]).to < final(rows)@.len()
                &&& same_row::<O>(final(rows)@[diff@.moved[y].to as int], old(rows)@[diff@.moved[y].from as int])
            },
        recovered is None ==> forall|j: int|
            0 <= j < final(rows)@.len() && !(exists|x: int| 0 <= x < diff@.added.len() && diff@.added[x].at == j)
                && !(exists|y: int| 0 <= y < diff@.moved.len() && diff@.moved[y].to == j) ==> #[trigger] final(rows)@[j]
                == old(rows)@[j],
        recovered is None ==> plan_fits_rows(diff@, old(rows)@, items@.len()),
        all_rows(old(rows)@) && all_rows(items@) && plan_fits_rows(diff@, old(rows)@, items@.len()) ==> recovered is None,
        recovered is None ==> final(ops).log() == old(ops).log() + apply_log::<O>(diff@, old(rows)@, final(rows)@),
        recovered is None ==> forall|j: int|
            0 <= j < final(rows)@.len() && (exists|x: int| 0 <= x < diff@.added.len() && diff@.added[x].at == j)
                ==> !holds::<O>(old(rows)@, O::row_id(#[trigger] final(rows)@[j]->0)),
        (exists|f: Seq<u64>, t: Seq<u64>| fits_plan::<O>(f, t, diff@, old(rows)@, items@, old(ops).shown())) ==> {
            &&& recovered is None
            &&& final(ops).shown() == slot_ids::<O>(final(rows)@)
            &&& exists|f: Seq<u64>, t: Seq<u64>|
                {
                    &&& fits_plan::<O>(f, t, diff@, old(rows)@, items@, old(ops).shown())
                    &&& updated::<O>(f, t, old(rows)@, items@, final(rows)@)
                }
        },
{
    let ghost good = exists|f: Seq<u64>, t: Seq<u64>| fits_plan::<O>(f, t, diff@, rows@, items@, ops.shown());
    let ghost (f, t) = choose|f: Seq<u64>, t: Seq<u64>| fits_plan::<O>(f, t, diff@, rows@, items@, ops.shown());
    let ghost old_rows = rows@;
    let ghost old_items = items@;
    let ghost old_page = ops.shown();
    let recovered = apply_or_rebuild_for(diff, rows, items, ops, Ghost(good), Ghost(f), Ghost(t));
    proof {
        if good {
            assert(fits_plan::<O>(f, t, diff@, old_rows, old_items, old_page));
            assert(updated::<O>(f, t, old_rows, old_items, rows@));
        }
    }
    recovered
}

/// Whether the page shows `rows` in order, built from `items` in order.
pub open spec fn rebuilt<O: ListOps>(page: Seq<nat>, rows: Seq<Option<O::Row>>, items: Seq<Option<O::Item>>) -> bool {
    &&& all_rows(rows)
    &&& page == slot_ids::<O>(rows)
    &&& all_rows(items) ==> rows.len() == items.len()
    &&& all_rows(items) ==> forall|k: int|
        0 <= k < items.len() ==> O::origin(#[trigger] rows[k]->0) == (k as usize, items[k]->0)
}

fn apply_or_rebuild_for<O: ListOps>(
    diff: Diff,
    rows: &mut Vec<Option<O::Row>>,
    items: Vec<Option<O::Item>>,
    ops: &mut O,
    Ghost(good): Ghost<bool>,
    Ghost(f): Ghost<Seq<u64>>,
    Ghost(t): Ghost<Seq<u64>>,
) -> (recovered: Option<ListError>)
    requires
        old(ops).inv(),
        shows_exactly::<O>(old(ops).shown(), old(rows)@),
        all_issued::<O>(*old(ops), old(rows)@),
        good ==> fits_plan::<O>(f, t, diff@, old(rows)@, items@, old(ops).shown()),
    ensures
        final(ops).inv(),
        shows_exactly::<O>(final(ops).shown(), final(rows)@),
        all_issued::<O>(*final(ops), final(rows)@),
        recovered is Some ==> rebuilt::<O>(final(ops).shown(), final(rows)@, items@),
        recovered is Some ==> forall|k: int|
            0 <= k < final(rows)@.len() ==> !holds::<O>(old(rows)@, O::row_id(#[trigger] final(rows)@[k]->0)),
        recovered matches Some(e) ==> e is Invariant,
        recovered is None ==> final(rows)@.len() == items@.len() && all_rows(final(rows)@),
        recovered is None ==> forall|j: int|
            0 <= j < final(rows)@.len() && (exists|x: int| 0 <= x < diff@.added.len() && diff@.added[x].at == j)
                ==> O::origin(#[trigger] final(rows)@[j]->0) == (j as usize, items@[j]->0),
        recovered is None ==> forall|j: int|
            0 <= j < final(rows)@.len() && !(exists|x: int| 0 <= x < diff@.added.len() && diff@.added[x].at == j)
                ==> holds::<O>(old(rows)@, O::row_id(#[trigger] final(rows)@[j]->0)),
        recovered is None && !diff@.clear ==> forall|y: int|
            0 <= y < diff@.moved.len() ==> {
                &&& (#[trigger] diff@.moved[y]).to < final(rows)@.len()
                &&& same_row::<O>(final(rows)@[diff@.moved[y].to as int], old(rows)@[diff@.moved[y].from as int])
            },
        recovered is None ==> forall|j: int|
            0 <= j < final(rows)@.len() && !(exists|x: int| 0 <= x < diff@.added.len() && diff@.added[x].at == j)
                && !(exists|y: int| 0 <= y < diff@.moved.len() && diff@.moved[y].to == j) ==> #[trigger] final(rows)@[j]
                == old(rows)@[j],
        recovered is None ==> plan_fits_rows(diff@, old(rows)@, items@.len()),
        all_rows(old(rows)@) && all_rows(items@) && plan_fits_rows(diff@, old(rows)@, items@.len()) ==> recovered is None,
        recovered is None ==> final(ops).log() == old(ops).log() + apply_log::<O>(diff@, old(rows)@, final(rows)@),
        recovered is None ==> forall|j: int|
            0 <= j < final(rows)@.len() && (exists|x: int| 0 <= x < diff@.added.len() && diff@.added[x].at == j)
                ==> !holds::<O>(old(rows)@, O::row_id(#[trigger] final(rows)@[j]->0)),
        good ==> {
            &&& recovered is None
            &&& updated::<O>(f, t, old(rows)@, items@, final(rows)@)
            &&& final(ops).shown() == slot_ids::<O>(final(rows)@)
        },
{
    let ghost old_items = items@;
    let mut items = items;
    let ghost start_rows = rows@;
    match apply(&diff, rows, &mut items, ops, Ghost(good), Ghost(f), Ghost(t)) {
        Ok(()) => {
            proof {
                assert forall|j: int|
                    0 <= j < rows@.len() && !(exists|x: int| 0 <= x < diff@.added.len() && diff@.added[x].at == j)
                        && !(exists|y: int| 0 <= y < diff@.moved.len() && diff@.moved[y].to == j) implies #[trigger] rows@[j]
                        == start_rows[j] by {
                    if exists|x: int| 0 <= x < diff.added@.len() && diff.added@[x].at == j {
                        let x = choose|x: int| 0 <= x < diff.added@.len() && diff.added@[x].at == j;
                        assert(diff@.added[x] == diff.added@[x]);
                    }
                    if exists|y: int| 0 <= y < diff.moved@.len() && diff.moved@[y].to == j {
                        let y = choose|y: int| 0 <= y < diff.moved@.len() && diff.moved@[y].to == j;
                        assert(diff@.moved[y] == diff.moved@[y]);
                    }
                }
                assert forall|j: int|
                    0 <= j < rows@.len() && (exists|x: int| 0 <= x < diff@.added.len() && diff@.added[x].at == j) implies !holds::<O>(
                    start_rows,
                    O::row_id(#[trigger] rows@[j]->0),
                ) by {
                    let x = choose|x: int| 0 <= x < diff@.added.len() && diff@.added[x].at == j;
                    assert(diff@.added[x] == diff.added@[x]);
                }
            }
            None
        },
        Err(error) => {
            rebuild_from_scratch(rows, items, ops);
            proof {
                crate::list_diff::lemma_slot_ids_all::<O>(rows@);
                lemma_slots_show_exactly::<O>(ops.shown(), rows@);
            }
            Some(error)
        },
    }
}

/// Updates `rows`, rendered for `old_keys` (one row per key, in order), to show `items`,
/// whose keys are `new_keys`, by the diff of the two lists of keys, whose operations the
/// page's log records when it is carried out. If keys repeat (there are fewer keys than items or rows), or the
/// plan does not fit the rows, renders the list again from scratch and returns the error it
/// recovered from.
pub fn reconcile<O: ListOps>(
    old_keys: &FxIndexSet,
    new_keys: &FxIndexSet,
    rows: &mut Vec<Option<O::Row>>,
    items: Vec<Option<O::Item>>,
    ops: &mut O,
) -> (recovered: Option<ListError>)
    requires
        set_keys(*old_keys).no_duplicates(),
        set_keys(*new_keys).no_duplicates(),
        old(ops).inv(),
        shows_exactly::<O>(old(ops).shown(), old(rows)@),
        all_issued::<O>(*old(ops), old(rows)@),
    ensures
        final(ops).inv(),
        shows_exactly::<O>(final(ops).shown(), final(rows)@),
        all_issued::<O>(*final(ops), final(rows)@),
        recovered is Some ==> rebuilt::<O>(final(ops).shown(), final(rows)@, items@),
        recovered is Some ==> forall|k: int|
            0 <= k < final(rows)@.len() ==> !holds::<O>(old(rows)@, O::row_id(#[trigger] final(rows)@[k]->0)),
        recovered is None ==> final(rows)@.len() == items@.len() && all_rows(final(rows)@),
        recovered is None ==> final(ops).log() == old(ops).log() + apply_log::<O>(
            spec_diff(set_keys(*old_keys), set_keys(*new_keys)),
            old(rows)@,
            final(rows)@,
        ),
        recovered is None ==> forall|j: int|
            0 <= j < final(rows)@.len() ==> holds::<O>(old(rows)@, O::row_id(#[trigger] final(rows)@[j]->0)) || (
            O::origin(final(rows)@[j]->0) == (j as usize, items@[j]->0) && !holds::<O>(
                old(rows)@,
                O::row_id(final(rows)@[j]->0),
            )),
        (items@.len() != set_keys(*new_keys).len() || old(rows)@.len() != set_keys(*old_keys).len()) <==> (
        recovered is Some && recovered->0 is RepeatedKeys),
        recovered is Some && recovered->0 is RepeatedKeys ==> recovered->0 == if items@.len() != set_keys(
            *new_keys,
        ).len() {
            ListError::RepeatedKeys { items: items@.len() as usize, keys: set_keys(*new_keys).len() as usize }
        } else {
            ListError::RepeatedKeys { items: old(rows)@.len() as usize, keys: set_keys(*old_keys).len() as usize }
        },
        ({
            let f = set_keys(*old_keys);
            let t = set_keys(*new_keys);
            items@.len() == t.len() && old(rows)@.len() == f.len() && all_rows(old(rows)@) && all_rows(items@)
                && old(ops).shown() == slot_ids::<O>(old(rows)@) && f.len() + t.len() <= usize::MAX ==> {
                &&& recovered is None
                &&& updated::<O>(f, t, old(rows)@, items@, final(rows)@)
                &&& final(ops).shown() == slot_ids::<O>(final(rows)@)
            }
        }),
{
    let ghost f = set_keys(*old_keys);
    let ghost t = set_keys(*new_keys);
    let new_count = key_set_len(new_keys);
    let old_count = key_set_len(old_keys);
    // a key set holds each key once: fewer keys than items or rows means repeated keys
    if items.len() != new_count || rows.len() != old_count {
        let error = if items.len() != new_count {
            ListError::RepeatedKeys { items: items.len(), keys: new_count }
        } else {
            ListError::RepeatedKeys { items: rows.len(), keys: old_count }
        };
        rebuild_from_scratch(rows, items, ops);
        proof {
            crate::list_diff::lemma_slot_ids_all::<O>(rows@);
            lemma_slots_show_exactly::<O>(ops.shown(), rows@);
        }
        return Some(error);
    }
    let ghost good = all_rows(rows@) && all_rows(items@) && ops.shown() == slot_ids::<O>(rows@) && f.len() + t.len()
        <= usize::MAX;
    match diff(old_keys, new_keys) {
        Ok(plan) => apply_or_rebuild_for(plan, rows, items, ops, Ghost(good), Ghost(f), Ghost(t)),
        Err(error) => {
            rebuild_from_scratch(rows, items, ops);
            proof {
                crate::list_diff::lemma_slot_ids_all::<O>(rows@);
                lemma_slots_show_exactly::<O>(ops.shown(), rows@);
            }
            Some(error)
        },
    }
}

} // verus!
