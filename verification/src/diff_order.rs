//! The order that the diff's plan keeps: the rows that keep their place on the page (the
//! rows that stay at their index and the moves that do not move on the page) are in the same
//! order in the old list as in the new one, so moving the others around them puts every row
//! in its place.

use crate::list_diff::{
    added_at, added_list, continues_run, moved_at, passes_stay, removed_at, removed_list, settled_moves,
    shift_move, shift_moves, stays_at, stays_count, DiffOpAddMode, DiffOpMove,
};
use vstd::prelude::*;

verus! {

/// Where the shift rule puts the row at old index `i`: its index, plus the rows added up to
/// it, minus the rows removed before it.
pub open spec fn shifted_index(f: Seq<u64>, t: Seq<u64>, i: int) -> int {
    i + added_list(f, t, (i + 1) as nat).len() - removed_list(f, t, (i + 1) as nat).len()
}

/// Whether the moves `moves[lo..=hi]` are one run: adjacent rows, adjacent in both lists.
pub open spec fn is_run(moves: Seq<DiffOpMove>, lo: int, hi: int) -> bool {
    forall|x: int|
        lo <= x <= hi ==> (#[trigger] moves[x]).from == moves[lo].from + (x - lo) && moves[x].to
            == moves[lo].to + (x - lo)
}

proof fn lemma_added_list_monotone(f: Seq<u64>, t: Seq<u64>, a: nat, b: nat)
    requires
        a <= b,
    ensures
        added_list(f, t, a).len() <= added_list(f, t, b).len(),
    decreases b,
{
    if a < b {
        lemma_added_list_monotone(f, t, a, (b - 1) as nat);
    }
}

/// Between `a` and `b`, no more rows are removed than there are indices that are not `b`.
proof fn lemma_removed_between(f: Seq<u64>, t: Seq<u64>, a: nat, b: nat)
    requires
        a <= b,
    ensures
        removed_list(f, t, b).len() - removed_list(f, t, a).len() <= b - a,
        removed_list(f, t, a).len() <= removed_list(f, t, b).len(),
    decreases b,
{
    if a < b {
        lemma_removed_between(f, t, a, (b - 1) as nat);
    }
}

/// The shift rule's index grows with the old index, over rows that are not removed.
pub(crate) proof fn lemma_shifted_index_grows(f: Seq<u64>, t: Seq<u64>, i: int, j: int)
    requires
        0 <= i < j,
        !removed_at(f, t, j),
    ensures
        shifted_index(f, t, i) < shifted_index(f, t, j),
{
    lemma_added_list_monotone(f, t, (i + 1) as nat, (j + 1) as nat);
    lemma_removed_between(f, t, (i + 1) as nat, j as nat);
    assert(removed_list(f, t, (j + 1) as nat) == removed_list(f, t, j as nat));
}

/// The moves of the shift rule: each is the move of a kept row that does not stay, the new
/// index is the key's, and the moves come in ascending old order, one for each such row.
pub(crate) proof fn lemma_shift_moves(f: Seq<u64>, t: Seq<u64>, k: nat)
    requires
        f.len() <= usize::MAX,
    ensures
        forall|x: int|
            0 <= x < shift_moves(f, t, k).len() ==> {
                let op = #[trigger] shift_moves(f, t, k)[x];
                &&& op.from < k
                &&& moved_at(f, t, op.from as int)
                &&& op == shift_move(f, t, op.from as int)
            },
        forall|x: int, y: int|
            0 <= x < y < shift_moves(f, t, k).len() ==> (#[trigger] shift_moves(f, t, k)[x]).from
                < (#[trigger] shift_moves(f, t, k)[y]).from,
        forall|i: int|
            0 <= i < k && moved_at(f, t, i) ==> exists|x: int|
                0 <= x < shift_moves(f, t, k).len() && (#[trigger] shift_moves(f, t, k)[x]).from
                    == i,
    decreases k,
{
    if k > 0 {
        lemma_shift_moves(f, t, (k - 1) as nat);
        let prev = shift_moves(f, t, (k - 1) as nat);
        let cur = shift_moves(f, t, k);
        if moved_at(f, t, k - 1) {
            assert(cur == prev.push(shift_move(f, t, k - 1)));
            assert forall|i: int| 0 <= i < k && moved_at(f, t, i) implies exists|x: int|
                0 <= x < cur.len() && (#[trigger] cur[x]).from == i by {
                if i == k - 1 {
                    assert(cur[prev.len() as int].from == i);
                } else {
                    let x = choose|x: int| 0 <= x < prev.len() && (#[trigger] prev[x]).from == i;
                    assert(cur[x] == prev[x]);
                }
            }
        } else {
            assert(cur == prev);
        }
    }
}

/// The settled moves keep the rows and indices of the moves they settle, and say whether
/// each moves on the page as the rule does.
pub(crate) proof fn lemma_settled_moves(f: Seq<u64>, t: Seq<u64>, raw: Seq<DiffOpMove>, k: nat)
    requires
        k <= raw.len(),
    ensures
        settled_moves(f, t, raw, k).len() == k,
        forall|x: int|
            0 <= x < k ==> {
                let op = #[trigger] settled_moves(f, t, raw, k)[x];
                &&& op.from == raw[x].from
                &&& op.to == raw[x].to
                &&& op.move_in_dom == if x >= 1 && continues_run(raw[x - 1], raw[x]) {
                    settled_moves(f, t, raw, k)[x - 1].move_in_dom
                } else {
                    raw[x].move_in_dom || passes_stay(f, t, raw[x].from as int, raw[x].to as int)
                }
            },
    decreases k,
{
    if k > 0 {
        lemma_settled_moves(f, t, raw, (k - 1) as nat);
        let prev = settled_moves(f, t, raw, (k - 1) as nat);
        let cur = settled_moves(f, t, raw, k);
        assert forall|x: int| 0 <= x < k - 1 implies cur[x] == prev[x] by {}
    }
}

/// A move that keeps its place on the page, in a list of moves settled from `raw`, belongs
/// to a run that starts with a move that keeps its place by the shift rule and passes no row
/// that stays.
pub(crate) proof fn lemma_kept_run(f: Seq<u64>, t: Seq<u64>, raw: Seq<DiffOpMove>, x: int)
    requires
        0 <= x < raw.len(),
        !settled_moves(f, t, raw, raw.len())[x].move_in_dom,
    ensures
        exists|r: int|
            #![trigger raw[r]]
            0 <= r <= x && !raw[r].move_in_dom && !passes_stay(f, t, raw[r].from as int, raw[r].to as int)
                && is_run(raw, r, x) && forall|y: int|
                r <= y <= x ==> !(#[trigger] settled_moves(f, t, raw, raw.len())[y]).move_in_dom,
    decreases x,
{
    lemma_settled_moves(f, t, raw, raw.len());
    let s = settled_moves(f, t, raw, raw.len());
    if x >= 1 && continues_run(raw[x - 1], raw[x]) {
        lemma_kept_run(f, t, raw, x - 1);
        let r = choose|r: int|
            #![trigger raw[r]]
            0 <= r <= x - 1 && !raw[r].move_in_dom && !passes_stay(f, t, raw[r].from as int, raw[r].to as int)
                && is_run(raw, r, x - 1) && forall|y: int|
                r <= y <= x - 1 ==> !(#[trigger] settled_moves(f, t, raw, raw.len())[y]).move_in_dom;
        assert(is_run(raw, r, x)) by {
            assert forall|y: int| r <= y <= x implies (#[trigger] raw[y]).from == raw[r].from + (y - r)
                && raw[y].to == raw[r].to + (y - r) by {
                if y == x {
                    assert(raw[x - 1].from == raw[r].from + (x - 1 - r));
                }
            }
        }
        assert forall|y: int| r <= y <= x implies !(#[trigger] s[y]).move_in_dom by {}
    } else {
        assert(is_run(raw, x, x));
        assert forall|y: int| x <= y <= x implies !(#[trigger] s[y]).move_in_dom by {}
    }
}


/// A row that stays at `s`, with `a <= s < b`, is counted between `a` and `b`.
proof fn lemma_stay_counted(f: Seq<u64>, t: Seq<u64>, a: nat, b: nat, s: int)
    requires
        a <= s < b,
        stays_at(f, t, s),
    ensures
        stays_count(f, t, b) > stays_count(f, t, a),
    decreases b,
{
    lemma_stays_count_monotone(f, t, a, (b - 1) as nat);
    if s < b - 1 {
        lemma_stay_counted(f, t, a, (b - 1) as nat, s);
    }
}

proof fn lemma_stays_count_monotone(f: Seq<u64>, t: Seq<u64>, a: nat, b: nat)
    ensures
        a <= b ==> stays_count(f, t, a) <= stays_count(f, t, b),
    decreases b,
{
    if a < b {
        lemma_stays_count_monotone(f, t, a, (b - 1) as nat);
    }
}

/// The facts about the moves of `f` to `t` that the order of the plan rests on.
pub open spec fn plan_keys(f: Seq<u64>, t: Seq<u64>) -> bool {
    &&& f.no_duplicates()
    &&& t.no_duplicates()
    &&& f.len() <= usize::MAX
    &&& t.len() <= usize::MAX
}

/// The moves of the shift rule for every row of `f`.
pub open spec fn all_shift_moves(f: Seq<u64>, t: Seq<u64>) -> Seq<DiffOpMove> {
    shift_moves(f, t, if f.len() < t.len() { t.len() } else { f.len() })
}

proof fn lemma_move_target(f: Seq<u64>, t: Seq<u64>, op: DiffOpMove)
    requires
        plan_keys(f, t),
        moved_at(f, t, op.from as int),
        op == shift_move(f, t, op.from as int),
    ensures
        0 <= op.to < t.len(),
        t[op.to as int] == f[op.from as int],
        op.to != op.from,
        forall|s: int| stays_at(f, t, s) ==> s != op.to && s != op.from,
{
    let i = op.from as int;
    assert(t.contains(f[i]));
    let j = t.index_of(f[i]);
    assert(0 <= j < t.len() && t[j] == f[i]);
    assert forall|s: int| stays_at(f, t, s) implies s != op.to && s != op.from by {
        if s == op.to {
            assert(f[s] == f[i]);
        }
    }
}

/// A row that stays is on the same side of a move that keeps its place on the page, in the
/// old list and in the new one.
pub(crate) proof fn lemma_stay_beside_kept_move(f: Seq<u64>, t: Seq<u64>, x: int, s: int)
    requires
        plan_keys(f, t),
        0 <= x < all_shift_moves(f, t).len(),
        !settled_moves(f, t, all_shift_moves(f, t), all_shift_moves(f, t).len())[x].move_in_dom,
        stays_at(f, t, s),
    ensures
        ({
            let op = all_shift_moves(f, t)[x];
            &&& s < op.from ==> s < op.to
            &&& s > op.from ==> s > op.to
        }),
{
    let raw = all_shift_moves(f, t);
    let len = if f.len() < t.len() { t.len() } else { f.len() };
    lemma_shift_moves(f, t, len);
    lemma_kept_run(f, t, raw, x);
    let r = choose|r: int|
        #![trigger raw[r]]
        0 <= r <= x && !raw[r].move_in_dom && !passes_stay(f, t, raw[r].from as int, raw[r].to as int)
            && is_run(raw, r, x) && forall|y: int|
            r <= y <= x ==> !(#[trigger] settled_moves(f, t, raw, raw.len())[y]).move_in_dom;
    lemma_stay_beside_run(f, t, raw, r, x, s);
}

proof fn lemma_stay_beside_run(f: Seq<u64>, t: Seq<u64>, raw: Seq<DiffOpMove>, r: int, y: int, s: int)
    requires
        plan_keys(f, t),
        raw == all_shift_moves(f, t),
        0 <= r <= y < raw.len(),
        !passes_stay(f, t, raw[r].from as int, raw[r].to as int),
        is_run(raw, r, y),
        stays_at(f, t, s),
    ensures
        s < raw[y].from ==> s < raw[y].to,
        s > raw[y].from ==> s > raw[y].to,
    decreases y - r,
{
    let len = if f.len() < t.len() { t.len() } else { f.len() };
    lemma_shift_moves(f, t, len);
    let op = raw[y];
    lemma_move_target(f, t, op);
    if y == r {
        let from = op.from as int;
        let to = op.to as int;
        let low = if from < to { from } else { to };
        let high = if from < to { to } else { from };
        if low < s < high {
            lemma_stay_counted(f, t, (low + 1) as nat, high as nat, s);
        }
    } else {
        assert(is_run(raw, r, y - 1));
        lemma_stay_beside_run(f, t, raw, r, y - 1, s);
        let prev = raw[y - 1];
        lemma_move_target(f, t, prev);
        assert(op.from == prev.from + 1 && op.to == prev.to + 1) by {
            assert(prev.from == raw[r].from + (y - 1 - r));
        }
    }
}

/// A move that keeps its place on the page goes no further than the shift rule puts it.
proof fn lemma_kept_within_shift(f: Seq<u64>, t: Seq<u64>, raw: Seq<DiffOpMove>, r: int, y: int)
    requires
        plan_keys(f, t),
        raw == all_shift_moves(f, t),
        0 <= r <= y < raw.len(),
        !raw[r].move_in_dom,
        is_run(raw, r, y),
    ensures
        raw[y].to <= shifted_index(f, t, raw[y].from as int),
        raw[y].to == raw[r].to + (y - r),
        raw[r].to == shifted_index(f, t, raw[r].from as int),
    decreases y - r,
{
    let len = if f.len() < t.len() { t.len() } else { f.len() };
    lemma_shift_moves(f, t, len);
    if y > r {
        assert(is_run(raw, r, y - 1));
        lemma_kept_within_shift(f, t, raw, r, y - 1);
        let prev = raw[y - 1];
        assert(raw[y].from == prev.from + 1) by {
            assert(prev.from == raw[r].from + (y - 1 - r));
        }
        lemma_shifted_index_grows(f, t, prev.from as int, raw[y].from as int);
    }
}

/// Two moves that keep their place on the page are in the same order in the new list as in
/// the old one.
pub(crate) proof fn lemma_kept_moves_in_order(f: Seq<u64>, t: Seq<u64>, x: int, y: int)
    requires
        plan_keys(f, t),
        0 <= x < y < all_shift_moves(f, t).len(),
        !settled_moves(f, t, all_shift_moves(f, t), all_shift_moves(f, t).len())[x].move_in_dom,
        !settled_moves(f, t, all_shift_moves(f, t), all_shift_moves(f, t).len())[y].move_in_dom,
    ensures
        all_shift_moves(f, t)[x].to < all_shift_moves(f, t)[y].to,
{
    let raw = all_shift_moves(f, t);
    let len = if f.len() < t.len() { t.len() } else { f.len() };
    lemma_shift_moves(f, t, len);
    lemma_kept_run(f, t, raw, x);
    lemma_kept_run(f, t, raw, y);
    let rx = choose|r: int|
        #![trigger raw[r]]
        0 <= r <= x && !raw[r].move_in_dom && !passes_stay(f, t, raw[r].from as int, raw[r].to as int)
            && is_run(raw, r, x) && forall|z: int|
            r <= z <= x ==> !(#[trigger] settled_moves(f, t, raw, raw.len())[z]).move_in_dom;
    let ry = choose|r: int|
        #![trigger raw[r]]
        0 <= r <= y && !raw[r].move_in_dom && !passes_stay(f, t, raw[r].from as int, raw[r].to as int)
            && is_run(raw, r, y) && forall|z: int|
            r <= z <= y ==> !(#[trigger] settled_moves(f, t, raw, raw.len())[z]).move_in_dom;
    lemma_kept_within_shift(f, t, raw, ry, y);
    if x >= ry {
        assert(raw[x].to == raw[ry].to + (x - ry));
    } else {
        lemma_kept_within_shift(f, t, raw, rx, x);
        assert(raw[x].from < raw[ry].from);
        lemma_shifted_index_grows(f, t, raw[x].from as int, raw[ry].from as int);
    }
}

/// The rows removed by the plan: ascending, one for each row whose key is not kept.
pub(crate) proof fn lemma_removed_list(f: Seq<u64>, t: Seq<u64>, k: nat)
    requires
        f.len() <= usize::MAX,
    ensures
        forall|x: int|
            0 <= x < removed_list(f, t, k).len() ==> (#[trigger] removed_list(f, t, k)[x]) < k
                && removed_at(f, t, removed_list(f, t, k)[x] as int),
        forall|x: int, y: int|
            0 <= x < y < removed_list(f, t, k).len() ==> (#[trigger] removed_list(f, t, k)[x])
                < (#[trigger] removed_list(f, t, k)[y]),
        forall|i: int|
            0 <= i < k && removed_at(f, t, i) ==> exists|x: int|
                0 <= x < removed_list(f, t, k).len() && (#[trigger] removed_list(f, t, k)[x]) == i,
    decreases k,
{
    if k > 0 {
        lemma_removed_list(f, t, (k - 1) as nat);
        let prev = removed_list(f, t, (k - 1) as nat);
        let cur = removed_list(f, t, k);
        if removed_at(f, t, k - 1) {
            assert forall|i: int| 0 <= i < k && removed_at(f, t, i) implies exists|x: int|
                0 <= x < cur.len() && (#[trigger] cur[x]) == i by {
                if i == k - 1 {
                    assert(cur[prev.len() as int] == i);
                } else {
                    let x = choose|x: int| 0 <= x < prev.len() && (#[trigger] prev[x]) == i;
                    assert(cur[x] == prev[x]);
                }
            }
        }
    }
}

/// The rows built by the plan: ascending, one for each key that is new.
pub(crate) proof fn lemma_added_list(f: Seq<u64>, t: Seq<u64>, k: nat)
    requires
        t.len() <= usize::MAX,
    ensures
        forall|x: int|
            0 <= x < added_list(f, t, k).len() ==> (#[trigger] added_list(f, t, k)[x]).at < k
                && added_at(f, t, added_list(f, t, k)[x].at as int) && added_list(f, t, k)[x].mode
                == DiffOpAddMode::Normal,
        forall|x: int, y: int|
            0 <= x < y < added_list(f, t, k).len() ==> (#[trigger] added_list(f, t, k)[x]).at
                < (#[trigger] added_list(f, t, k)[y]).at,
        forall|i: int|
            0 <= i < k && added_at(f, t, i) ==> exists|x: int|
                0 <= x < added_list(f, t, k).len() && (#[trigger] added_list(f, t, k)[x]).at == i,
    decreases k,
{
    if k > 0 {
        lemma_added_list(f, t, (k - 1) as nat);
        let prev = added_list(f, t, (k - 1) as nat);
        let cur = added_list(f, t, k);
        if added_at(f, t, k - 1) {
            assert forall|i: int| 0 <= i < k && added_at(f, t, i) implies exists|x: int|
                0 <= x < cur.len() && (#[trigger] cur[x]).at == i by {
                if i == k - 1 {
                    assert(cur[prev.len() as int].at == i);
                } else {
                    let x = choose|x: int| 0 <= x < prev.len() && (#[trigger] prev[x]).at == i;
                    assert(cur[x] == prev[x]);
                }
            }
        }
    }
}

/// How many rows below `k` have keys that the other list holds too.
pub open spec fn kept_count(f: Seq<u64>, t: Seq<u64>, k: nat) -> nat
    decreases k,
{
    if k == 0 {
        0
    } else {
        kept_count(f, t, (k - 1) as nat) + if (k - 1) < f.len() && t.contains(f[k - 1]) {
            1nat
        } else {
            0nat
        }
    }
}

/// The keys below `k` that the other list holds too.
pub open spec fn kept_keys(f: Seq<u64>, t: Seq<u64>, k: int) -> Set<u64> {
    Set::new(|key: u64| exists|i: int| 0 <= i < k && i < f.len() && f[i] == key && t.contains(key))
}

proof fn lemma_kept_count(f: Seq<u64>, t: Seq<u64>, k: nat)
    requires
        f.no_duplicates(),
        k <= f.len(),
    ensures
        kept_keys(f, t, k as int).finite(),
        kept_count(f, t, k) == kept_keys(f, t, k as int).len(),
        removed_list(f, t, k).len() + kept_count(f, t, k) == k,
    decreases k,
{
    if k == 0 {
        assert(kept_keys(f, t, 0) =~= Set::<u64>::empty());
    } else {
        lemma_kept_count(f, t, (k - 1) as nat);
        let prev = kept_keys(f, t, k - 1);
        let cur = kept_keys(f, t, k as int);
        let key = f[k - 1];
        if t.contains(key) {
            assert(cur =~= prev.insert(key));
            assert(!prev.contains(key)) by {
                if prev.contains(key) {
                    let i = choose|i: int| 0 <= i < k - 1 && i < f.len() && f[i] == key && t.contains(key);
                    assert(f[i] == f[k - 1]);
                }
            }
        } else {
            assert(cur =~= prev);
        }
    }
}

/// As many rows of the old list are kept as rows of the new list have keys of the old one.
pub(crate) proof fn lemma_kept_counts_agree(f: Seq<u64>, t: Seq<u64>)
    requires
        f.no_duplicates(),
        t.no_duplicates(),
    ensures
        f.len() - removed_list(f, t, f.len()).len() == t.len() - added_list(f, t, t.len()).len(),
{
    lemma_kept_count(f, t, f.len());
    lemma_kept_count(t, f, t.len());
    assert(kept_keys(f, t, f.len() as int) =~= kept_keys(t, f, t.len() as int)) by {
        assert forall|key: u64| kept_keys(f, t, f.len() as int).contains(key) implies kept_keys(t, f, t.len() as int).contains(key) by {
            let j = choose|j: int| 0 <= j < t.len() && t[j] == key;
            assert(f.contains(key));
        }
        assert forall|key: u64| kept_keys(t, f, t.len() as int).contains(key) implies kept_keys(f, t, f.len() as int).contains(key) by {
            let j = choose|j: int| 0 <= j < f.len() && f[j] == key;
            assert(t.contains(key));
        }
    }
    lemma_added_is_removed_of_swap(f, t, t.len());
}

proof fn lemma_added_is_removed_of_swap(f: Seq<u64>, t: Seq<u64>, k: nat)
    ensures
        added_list(f, t, k).len() == removed_list(t, f, k).len(),
    decreases k,
{
    if k > 0 {
        lemma_added_is_removed_of_swap(f, t, (k - 1) as nat);
    }
}

/// The plan's lists run to the longer list's length; beyond each list's own length they
/// hold nothing more.
pub(crate) proof fn lemma_lists_saturate(f: Seq<u64>, t: Seq<u64>, k: nat)
    ensures
        k >= f.len() ==> removed_list(f, t, k) == removed_list(f, t, f.len()),
        k >= t.len() ==> added_list(f, t, k) == added_list(f, t, t.len()),
    decreases k,
{
    if k > f.len() {
        lemma_lists_saturate(f, t, (k - 1) as nat);
    }
    if k > t.len() {
        lemma_lists_saturate(f, t, (k - 1) as nat);
    }
}

/// The moves of the plan for `f` to `t`.
pub open spec fn plan_moves(f: Seq<u64>, t: Seq<u64>) -> Seq<DiffOpMove> {
    settled_moves(f, t, all_shift_moves(f, t), all_shift_moves(f, t).len())
}

/// What the moves of the plan are: one for each kept row that does not stay, in ascending
/// old order, each to the new index of its key.
pub(crate) proof fn lemma_plan_moves(f: Seq<u64>, t: Seq<u64>)
    requires
        plan_keys(f, t),
    ensures
        plan_moves(f, t).len() == all_shift_moves(f, t).len(),
        forall|x: int|
            0 <= x < plan_moves(f, t).len() ==> {
                let op = #[trigger] plan_moves(f, t)[x];
                &&& op.from == all_shift_moves(f, t)[x].from
                &&& op.to == all_shift_moves(f, t)[x].to
                &&& moved_at(f, t, op.from as int)
                &&& op.from < f.len()
                &&& op.to < t.len()
                &&& t[op.to as int] == f[op.from as int]
                &&& !stays_at(f, t, op.to as int)
            },
        forall|x: int, y: int|
            0 <= x < y < plan_moves(f, t).len() ==> (#[trigger] plan_moves(f, t)[x]).from
                < (#[trigger] plan_moves(f, t)[y]).from,
        forall|x: int, y: int|
            0 <= x < plan_moves(f, t).len() && 0 <= y < plan_moves(f, t).len() && x != y ==> (
            #[trigger] plan_moves(f, t)[x]).to != (#[trigger] plan_moves(f, t)[y]).to,
        forall|i: int|
            0 <= i < f.len() && moved_at(f, t, i) ==> exists|x: int|
                0 <= x < plan_moves(f, t).len() && (#[trigger] plan_moves(f, t)[x]).from == i,
{
    let raw = all_shift_moves(f, t);
    let len = if f.len() < t.len() { t.len() } else { f.len() };
    lemma_shift_moves(f, t, len);
    lemma_settled_moves(f, t, raw, raw.len());
    let moves = plan_moves(f, t);
    assert forall|x: int| 0 <= x < moves.len() implies {
        let op = #[trigger] moves[x];
        &&& op.from == raw[x].from
        &&& op.to == raw[x].to
        &&& moved_at(f, t, op.from as int)
        &&& op.from < f.len()
        &&& op.to < t.len()
        &&& t[op.to as int] == f[op.from as int]
        &&& !stays_at(f, t, op.to as int)
    } by {
        lemma_move_target(f, t, raw[x]);
    }
    assert forall|x: int, y: int|
        0 <= x < moves.len() && 0 <= y < moves.len() && x != y implies (#[trigger] moves[x]).to
            != (#[trigger] moves[y]).to by {
        lemma_move_target(f, t, raw[x]);
        lemma_move_target(f, t, raw[y]);
        if x < y {
            assert(raw[x].from < raw[y].from);
        } else {
            assert(raw[y].from < raw[x].from);
        }
    }
    assert forall|i: int| 0 <= i < f.len() && moved_at(f, t, i) implies exists|x: int|
        0 <= x < moves.len() && (#[trigger] moves[x]).from == i by {
        let x = choose|x: int| 0 <= x < raw.len() && (#[trigger] raw[x]).from == i;
        assert(moves[x].from == i);
    }
}

} // verus!
