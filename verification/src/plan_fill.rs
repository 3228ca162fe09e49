//! How the rows that a correct plan keeps fill the new list: the rows that stay and the
//! rows that move only in the rows keep the order the page shows them in, and with the rows
//! that move on the page and the rows that are built they fill every index of the new list.

use crate::diff_order::{
    all_shift_moves, lemma_kept_counts_agree, lemma_kept_moves_in_order, lemma_lists_saturate,
    lemma_plan_moves, lemma_stay_beside_kept_move, plan_keys, plan_moves,
};
use crate::list_diff::{
    added_at, added_list, all_rows, distinct_rows, holds, lemma_lists_bounded, moved_at,
    removed_list, shift_moves, spec_diff, stays_at, DiffOpMove, ListOps,
};
use crate::page_order::{in_slot_order, lemma_slot_of, slot_of};
use vstd::prelude::*;

verus! {

/// Whether the move `x` of the plan for `f` to `t` keeps its place on the page.
pub open spec fn kept_move(f: Seq<u64>, t: Seq<u64>, x: int) -> bool {
    0 <= x < plan_moves(f, t).len() && !plan_moves(f, t)[x].move_in_dom
}

/// Whether `rows` holds the rows of `old_rows` that a plan anchors: each row that stays at
/// its index, and each row that moves only in the rows at its new index, and nothing else.
pub open spec fn anchored<O: ListOps>(
    f: Seq<u64>,
    t: Seq<u64>,
    old_rows: Seq<Option<O::Row>>,
    rows: Seq<Option<O::Row>>,
) -> bool {
    &&& forall|s: int| #[trigger] stays_at(f, t, s) ==> s < rows.len() && rows[s] == old_rows[s]
    &&& forall|y: int|
        #[trigger] kept_move(f, t, y) ==> plan_moves(f, t)[y].to < rows.len() && rows[plan_moves(
            f,
            t,
        )[y].to as int] == old_rows[plan_moves(f, t)[y].from as int]
    &&& forall|i: int|
        0 <= i < rows.len() && #[trigger] rows[i] is Some ==> stays_at(f, t, i) || exists|y: int|
            kept_move(f, t, y) && plan_moves(f, t)[y].to == i
}

/// The old index of the row that an anchored slot holds.
spec fn source_of(f: Seq<u64>, t: Seq<u64>, i: int) -> int {
    if stays_at(f, t, i) {
        i
    } else {
        plan_moves(f, t)[choose|y: int| kept_move(f, t, y) && plan_moves(f, t)[y].to == i].from as int
    }
}

/// Anchored slots keep the order of their old indices.
proof fn lemma_source_grows(f: Seq<u64>, t: Seq<u64>, a: int, b: int)
    requires
        plan_keys(f, t),
        a < b,
        stays_at(f, t, a) || exists|y: int| kept_move(f, t, y) && plan_moves(f, t)[y].to == a,
        stays_at(f, t, b) || exists|y: int| kept_move(f, t, y) && plan_moves(f, t)[y].to == b,
    ensures
        source_of(f, t, a) < source_of(f, t, b),
{
    lemma_plan_moves(f, t);
    let moves = plan_moves(f, t);
    let raw = all_shift_moves(f, t);
    if stays_at(f, t, a) && stays_at(f, t, b) {
    } else if stays_at(f, t, a) {
        let y = choose|y: int| kept_move(f, t, y) && plan_moves(f, t)[y].to == b;
        lemma_stay_beside_kept_move(f, t, y, a);
        assert(!stays_at(f, t, moves[y].from as int));
    } else if stays_at(f, t, b) {
        let y = choose|y: int| kept_move(f, t, y) && plan_moves(f, t)[y].to == a;
        lemma_stay_beside_kept_move(f, t, y, b);
        assert(!stays_at(f, t, moves[y].from as int));
    } else {
        let ya = choose|y: int| kept_move(f, t, y) && plan_moves(f, t)[y].to == a;
        let yb = choose|y: int| kept_move(f, t, y) && plan_moves(f, t)[y].to == b;
        if yb < ya {
            lemma_kept_moves_in_order(f, t, yb, ya);
        }
        assert(ya != yb);
    }
}

/// The rows that a correct plan anchors are shown in the order of their new slots.
pub(crate) proof fn lemma_anchored_order<O: ListOps>(
    page: Seq<nat>,
    f: Seq<u64>,
    t: Seq<u64>,
    old_rows: Seq<Option<O::Row>>,
    rows: Seq<Option<O::Row>>,
)
    requires
        plan_keys(f, t),
        page.no_duplicates(),
        old_rows.len() == f.len(),
        all_rows(old_rows),
        distinct_rows::<O>(old_rows),
        distinct_rows::<O>(rows),
        in_slot_order::<O>(page, old_rows),
        anchored::<O>(f, t, old_rows, rows),
    ensures
        in_slot_order::<O>(page, rows),
{
    lemma_plan_moves(f, t);
    assert forall|p: int, q: int|
        #![trigger page[p], page[q]]
        0 <= p < q < page.len() && holds::<O>(rows, page[p]) && holds::<O>(rows, page[q]) implies slot_of::<O>(rows, page[p])
        < slot_of::<O>(rows, page[q]) by {
        let ip = slot_of::<O>(rows, page[p]);
        let iq = slot_of::<O>(rows, page[q]);
        let op = source_of(f, t, ip);
        let oq = source_of(f, t, iq);
        assert(rows[ip] == old_rows[op]) by {
            if !stays_at(f, t, ip) {
                let y = choose|y: int| kept_move(f, t, y) && plan_moves(f, t)[y].to == ip;
            }
        }
        assert(rows[iq] == old_rows[oq]) by {
            if !stays_at(f, t, iq) {
                let y = choose|y: int| kept_move(f, t, y) && plan_moves(f, t)[y].to == iq;
            }
        }
        lemma_slot_of::<O>(old_rows, op);
        lemma_slot_of::<O>(old_rows, oq);
        assert(page[p] != page[q]);
        if iq < ip {
            lemma_source_grows(f, t, iq, ip);
        }
    }
}

/// Every index of the new list is one that stays, the new index of a move, or one that is
/// built.
pub(crate) proof fn lemma_every_index_filled(f: Seq<u64>, t: Seq<u64>, i: int)
    requires
        plan_keys(f, t),
        0 <= i < t.len(),
    ensures
        stays_at(f, t, i) || added_at(f, t, i) || exists|y: int|
            0 <= y < plan_moves(f, t).len() && #[trigger] plan_moves(f, t)[y].to == i,
{
    lemma_plan_moves(f, t);
    if !stays_at(f, t, i) && !added_at(f, t, i) {
        let j = f.index_of(t[i]);
        assert(f.contains(t[i]));
        assert(t.contains(f[j]));
        assert(moved_at(f, t, j));
        let y = choose|y: int| 0 <= y < plan_moves(f, t).len() && (#[trigger] plan_moves(f, t)[y]).from == j;
        let to = plan_moves(f, t)[y].to as int;
        assert(t[to] == t[i]);
    }
}

/// How many of the first `k` slots are free.
pub open spec fn free_count<R>(slots: Seq<Option<R>>, k: nat) -> nat
    decreases k,
{
    if k == 0 {
        0
    } else {
        free_count(slots, (k - 1) as nat) + if slots[k - 1] is None { 1nat } else { 0nat }
    }
}

/// Distinct free places among the first `k` slots are at most as many as the free slots,
/// and where they are as many, they are all of them.
pub(crate) proof fn lemma_free_places_covered<R>(slots: Seq<Option<R>>, ats: Seq<usize>, k: nat)
    requires
        k <= slots.len(),
        forall|x: int| 0 <= x < ats.len() ==> (#[trigger] ats[x]) < k && slots[ats[x] as int] is None,
        forall|x: int, y: int| 0 <= x < y < ats.len() ==> (#[trigger] ats[x]) < (#[trigger] ats[y]),
    ensures
        ats.len() <= free_count(slots, k),
        ats.len() == free_count(slots, k) ==> forall|i: int|
            0 <= i < k && (#[trigger] slots[i]) is None ==> exists|x: int| 0 <= x < ats.len() && ats[x] == i,
    decreases k,
{
    if k == 0 {
        if ats.len() > 0 {
            assert(ats[0] < k);
        }
    } else {
        let last_here = ats.len() > 0 && ats.last() == k - 1;
        if last_here {
            let rest = ats.drop_last();
            assert forall|x: int| 0 <= x < rest.len() implies (#[trigger] rest[x]) < k - 1 && slots[rest[x] as int] is None by {
                assert(rest[x] == ats[x]);
                assert(ats[x] < ats[ats.len() - 1]);
            }
            assert forall|x: int, y: int| 0 <= x < y < rest.len() implies (#[trigger] rest[x]) < (#[trigger] rest[y]) by {
                assert(rest[x] == ats[x] && rest[y] == ats[y]);
            }
            lemma_free_places_covered(slots, rest, (k - 1) as nat);
            assert(slots[k - 1] is None);
            if ats.len() == free_count(slots, k) {
                assert forall|i: int| 0 <= i < k && (#[trigger] slots[i]) is None implies exists|x: int|
                    0 <= x < ats.len() && ats[x] == i by {
                    if i < k - 1 {
                        let x = choose|x: int| 0 <= x < rest.len() && rest[x] == i;
                        assert(ats[x] == i);
                    } else {
                        assert(ats[ats.len() - 1] == i);
                    }
                }
            }
        } else {
            assert forall|x: int| 0 <= x < ats.len() implies (#[trigger] ats[x]) < k - 1 && slots[ats[x] as int] is None by {
                if ats[x] == k - 1 {
                    assert(x != ats.len() - 1);
                    assert(ats[x] < ats[ats.len() - 1]);
                }
            }
            lemma_free_places_covered(slots, ats, (k - 1) as nat);
            if ats.len() == free_count(slots, k) {
                if slots[k - 1] is None {
                    assert(false);
                }
                assert forall|i: int| 0 <= i < k && (#[trigger] slots[i]) is None implies exists|x: int|
                    0 <= x < ats.len() && ats[x] == i by {
                    assert(i != k - 1);
                }
            }
        }
    }
}

/// Where exactly the indices that are built are free, there are as many free slots as rows
/// to build.
pub(crate) proof fn lemma_free_count<R>(f: Seq<u64>, t: Seq<u64>, slots: Seq<Option<R>>, k: nat)
    requires
        k <= slots.len(),
        forall|i: int| 0 <= i < k ==> (#[trigger] slots[i] is None <==> added_at(f, t, i)),
    ensures
        free_count(slots, k) == added_list(f, t, k).len(),
    decreases k,
{
    if k > 0 {
        lemma_free_count(f, t, slots, (k - 1) as nat);
        assert(slots[k - 1] is None <==> added_at(f, t, k - 1));
    }
}

/// What the plan for two lists that both have rows is made of.
pub(crate) proof fn lemma_plan_parts(f: Seq<u64>, t: Seq<u64>)
    requires
        plan_keys(f, t),
        f.len() > 0,
        t.len() > 0,
    ensures
        spec_diff(f, t).removed == removed_list(f, t, f.len()),
        spec_diff(f, t).moved == plan_moves(f, t),
        spec_diff(f, t).added == added_list(f, t, t.len()),
        !spec_diff(f, t).clear,
        removed_list(f, t, f.len()).len() <= f.len(),
        added_list(f, t, t.len()).len() <= t.len(),
        f.len() - removed_list(f, t, f.len()).len() + added_list(f, t, t.len()).len() == t.len(),
{
    let len = if f.len() < t.len() { t.len() } else { f.len() };
    lemma_lists_saturate(f, t, len);
    lemma_lists_bounded(f, t, f.len());
    lemma_lists_bounded(f, t, t.len());
    lemma_kept_counts_agree(f, t);
}

/// A plan from a list with no rows moves nothing and builds every row.
pub(crate) proof fn lemma_empty_plan(f: Seq<u64>, t: Seq<u64>)
    requires
        f.len() == 0,
    ensures
        plan_moves(f, t) == Seq::<DiffOpMove>::empty(),
        forall|i: int| 0 <= i < t.len() ==> #[trigger] added_at(f, t, i),
{
    lemma_no_moves(f, t, if f.len() < t.len() { t.len() } else { f.len() });
}

proof fn lemma_no_moves(f: Seq<u64>, t: Seq<u64>, k: nat)
    requires
        f.len() == 0,
    ensures
        shift_moves(f, t, k) == Seq::<DiffOpMove>::empty(),
    decreases k,
{
    if k > 0 {
        lemma_no_moves(f, t, (k - 1) as nat);
    }
}

/// Where every slot is free, every slot counts.
pub(crate) proof fn lemma_free_count_all<R>(slots: Seq<Option<R>>, k: nat)
    requires
        k <= slots.len(),
        forall|i: int| 0 <= i < k ==> (#[trigger] slots[i]) is None,
    ensures
        free_count(slots, k) == k,
    decreases k,
{
    if k > 0 {
        lemma_free_count_all(slots, (k - 1) as nat);
    }
}

} // verus!
