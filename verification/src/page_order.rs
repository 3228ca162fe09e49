//! The order in which a page shows the rows in a list's slots, and how mounting a row before
//! the next row in place keeps it.

use crate::list_diff::{all_rows, distinct_rows, holds, mounted, shows_exactly, slot_ids, unmounted, ListOps};
use crate::slots::lemma_unmounted_set;
use vstd::prelude::*;

verus! {

/// The slot of the row with identity `id`.
pub open spec fn slot_of<O: ListOps>(s: Seq<Option<O::Row>>, id: nat) -> int {
    choose|k: int| 0 <= k < s.len() && #[trigger] s[k] is Some && O::row_id(s[k]->0) == id
}

/// Whether the page shows the rows of `rows` in the order of their slots.
pub open spec fn in_slot_order<O: ListOps>(page: Seq<nat>, rows: Seq<Option<O::Row>>) -> bool {
    forall|p: int, q: int|
        #![trigger page[p], page[q]]
        0 <= p < q < page.len() && holds::<O>(rows, page[p]) && holds::<O>(rows, page[q])
            ==> slot_of::<O>(rows, page[p]) < slot_of::<O>(rows, page[q])
}

/// The slot of a row that `rows` holds is where it is.
pub(crate) proof fn lemma_slot_of<O: ListOps>(s: Seq<Option<O::Row>>, k: int)
    requires
        distinct_rows::<O>(s),
        0 <= k < s.len(),
        s[k] is Some,
    ensures
        slot_of::<O>(s, O::row_id(s[k]->0)) == k,
        holds::<O>(s, O::row_id(s[k]->0)),
{
    let id = O::row_id(s[k]->0);
    assert(holds::<O>(s, id));
    let j = slot_of::<O>(s, id);
    if j != k {
        assert(s[j] is Some && s[k] is Some);
    }
}

/// Whether the slot after `t` that holds a row holds the row with identity `before`, or no
/// slot after `t` holds one if `before` is `None`.
pub open spec fn next_in_place<O: ListOps>(rows: Seq<Option<O::Row>>, t: int, before: Option<nat>) -> bool {
    match before {
        Some(b) => exists|k: int|
            #![trigger rows[k]]
            t < k < rows.len() && rows[k] is Some && O::row_id(rows[k]->0) == b && forall|j: int|
                t < j < k ==> (#[trigger] rows[j]) is None,
        None => forall|k: int| t < k < rows.len() ==> (#[trigger] rows[k]) is None,
    }
}

/// Mounting a row for the free slot `t` before the next row in place keeps the page in slot
/// order.
pub(crate) proof fn lemma_mount_in_order<O: ListOps>(
    page: Seq<nat>,
    rows: Seq<Option<O::Row>>,
    t: int,
    row: O::Row,
    before: Option<nat>,
)
    requires
        page.no_duplicates(),
        distinct_rows::<O>(rows),
        in_slot_order::<O>(page, rows),
        0 <= t < rows.len(),
        rows[t] is None,
        !holds::<O>(rows, O::row_id(row)),
        forall|x: nat| holds::<O>(rows, x) ==> page.contains(x),
        next_in_place::<O>(rows, t, before),
    ensures
        in_slot_order::<O>(mounted(page, O::row_id(row), before), rows.update(t, Some(row))),
        distinct_rows::<O>(rows.update(t, Some(row))),
{
    let r = O::row_id(row);
    let rows2 = rows.update(t, Some(row));
    let rest = unmounted(page, r);
    lemma_unmounted_set(page, r);
    let page2 = mounted(page, r, before);
    // where `rest[j]` is in `page`
    let ri = if page.contains(r) { page.index_of(r) } else { page.len() as int };
    assert forall|j: int| 0 <= j < rest.len() implies rest[j] == page[if j < ri { j } else { j + 1 }] by {}
    let at = match before {
        Some(b) => if rest.contains(b) { rest.index_of(b) } else { rest.len() as int },
        None => rest.len() as int,
    };
    assert(page2 == rest.insert(at, r));
    // slots of the rows other than `row` do not change
    assert forall|x: nat| x != r && holds::<O>(rows, x) implies holds::<O>(rows2, x) && slot_of::<O>(rows2, x)
        == slot_of::<O>(rows, x) by {
        let k = choose|k: int| 0 <= k < rows.len() && #[trigger] rows[k] is Some && O::row_id(rows[k]->0) == x;
        assert(k != t);
        assert(rows2[k] == rows[k]);
        lemma_slot_of::<O>(rows, k);
        assert(distinct_rows::<O>(rows2)) by {
            assert forall|a: int, b: int|
                0 <= a < rows2.len() && 0 <= b < rows2.len() && a != b && #[trigger] rows2[a] is Some
                    && #[trigger] rows2[b] is Some implies O::row_id(rows2[a]->0) != O::row_id(rows2[b]->0) by {
                if a == t {
                    assert(rows2[b] == rows[b]);
                    assert(holds::<O>(rows, O::row_id(rows[b]->0)));
                } else if b == t {
                    assert(rows2[a] == rows[a]);
                    assert(holds::<O>(rows, O::row_id(rows[a]->0)));
                } else {
                    assert(rows2[a] == rows[a] && rows2[b] == rows[b]);
                }
            }
        }
        lemma_slot_of::<O>(rows2, k);
    }
    assert(distinct_rows::<O>(rows2)) by {
        assert forall|a: int, b: int|
            0 <= a < rows2.len() && 0 <= b < rows2.len() && a != b && #[trigger] rows2[a] is Some
                && #[trigger] rows2[b] is Some implies O::row_id(rows2[a]->0) != O::row_id(rows2[b]->0) by {
            if a == t {
                assert(rows2[b] == rows[b]);
                assert(holds::<O>(rows, O::row_id(rows[b]->0)));
            } else if b == t {
                assert(rows2[a] == rows[a]);
                assert(holds::<O>(rows, O::row_id(rows[a]->0)));
            } else {
                assert(rows2[a] == rows[a] && rows2[b] == rows[b]);
            }
        }
    }
    lemma_slot_of::<O>(rows2, t);
    // a row held in `rows2` other than `row` is held in `rows`
    assert forall|x: nat| holds::<O>(rows2, x) && x != r implies holds::<O>(rows, x) by {
        let k = choose|k: int| 0 <= k < rows2.len() && #[trigger] rows2[k] is Some && O::row_id(rows2[k]->0) == x;
        assert(k != t);
        assert(rows2[k] == rows[k]);
    }
    assert forall|p: int, q: int|
        #![trigger page2[p], page2[q]]
        0 <= p < q < page2.len() && holds::<O>(rows2, page2[p]) && holds::<O>(rows2, page2[q]) implies slot_of::<O>(
        rows2,
        page2[p],
    ) < slot_of::<O>(rows2, page2[q]) by {
        if p != at && q != at {
            let p0 = if p < at { p } else { p - 1 };
            let q0 = if q < at { q } else { q - 1 };
            assert(page2[p] == rest[p0] && page2[q] == rest[q0]);
            let p1 = if p0 < ri { p0 } else { p0 + 1 };
            let q1 = if q0 < ri { q0 } else { q0 + 1 };
            assert(page[p1] == rest[p0] && page[q1] == rest[q0]);
            assert(rest.contains(rest[p0]) && rest.contains(rest[q0]));
            assert(page[p1] != r && page[q1] != r);
            assert(holds::<O>(rows, page[p1]) && holds::<O>(rows, page[q1]));
        } else if p == at {
            // `row`, then a row at or after `before`
            let q0 = q - 1;
            let x = rest[q0];
            assert(page2[q] == x);
            assert(rest.contains(x));
            assert(x != r);
            assert(holds::<O>(rows, x));
            match before {
                Some(b) => {
                    let kb = choose|k: int|
                        #![trigger rows[k]]
                        t < k < rows.len() && rows[k] is Some && O::row_id(rows[k]->0) == b && forall|j: int|
                            t < j < k ==> (#[trigger] rows[j]) is None;
                    lemma_slot_of::<O>(rows, kb);
                    assert(page.contains(b));
                    assert(b != r);
                    assert(rest.contains(b));
                    if x != b {
                        let pb = if at < ri { at } else { at + 1 };
                        let px = if q0 < ri { q0 } else { q0 + 1 };
                        assert(page[pb] == b);
                        assert(page[px] == x);
                        assert(pb < px);
                    }
                },
                None => {
                    assert(false);
                },
            }
        } else {
            // a row before `before`, then `row`
            let x = rest[p];
            assert(page2[p] == x);
            assert(rest.contains(x));
            assert(x != r);
            assert(holds::<O>(rows, x));
            let kx = slot_of::<O>(rows, x);
            assert(0 <= kx < rows.len() && rows[kx] is Some && O::row_id(rows[kx]->0) == x);
            assert(kx != t);
            match before {
                Some(b) => {
                    let kb = choose|k: int|
                        #![trigger rows[k]]
                        t < k < rows.len() && rows[k] is Some && O::row_id(rows[k]->0) == b && forall|j: int|
                            t < j < k ==> (#[trigger] rows[j]) is None;
                    lemma_slot_of::<O>(rows, kb);
                    assert(page.contains(b));
                    assert(rest.contains(b));
                    let pb = if at < ri { at } else { at + 1 };
                    let px = if p < ri { p } else { p + 1 };
                    assert(page[pb] == b);
                    assert(page[px] == x);
                    assert(px < pb);
                    assert(kx < kb);
                    if kx > t {
                        assert(rows[kx] is None);
                    }
                },
                None => {
                    if kx > t {
                        assert(rows[kx] is None);
                    }
                },
            }
        }
    }
}

/// A page that shows every slot's row, in slot order, shows them as the slots list them.
pub(crate) proof fn lemma_in_order_is_slots<O: ListOps>(page: Seq<nat>, rows: Seq<Option<O::Row>>)
    requires
        all_rows(rows),
        shows_exactly::<O>(page, rows),
        in_slot_order::<O>(page, rows),
    ensures
        page == slot_ids::<O>(rows),
{
    crate::list_diff::lemma_slot_ids_all::<O>(rows);
    // every page entry is some slot's row
    assert forall|p: int| 0 <= p < page.len() implies holds::<O>(rows, page[p]) && 0 <= #[trigger] slot_of::<O>(rows, page[p])
        < rows.len() && O::row_id(rows[slot_of::<O>(rows, page[p])]->0) == page[p] by {
        assert(page.contains(page[p]));
    }
    lemma_slots_are_positions::<O>(page, rows, page.len() as int);
    if page.len() < rows.len() {
        let k = rows.len() - 1;
        lemma_slot_of::<O>(rows, k);
        let x = O::row_id(rows[k]->0);
        assert(page.contains(x));
        let p = choose|p: int| 0 <= p < page.len() && page[p] == x;
        assert(slot_of::<O>(rows, page[p]) == p);
    }
    if page.len() > rows.len() {
        let p = rows.len() as int;
        assert(slot_of::<O>(rows, page[p]) == p);
    }
    assert(page.len() == rows.len());
    assert forall|p: int| 0 <= p < page.len() implies page[p] == slot_ids::<O>(rows)[p] by {
        assert(slot_of::<O>(rows, page[p]) == p);
    }
    assert(page =~= slot_ids::<O>(rows));
}

/// Every row before position `n` of the page is in the slot of its position.
proof fn lemma_slots_are_positions<O: ListOps>(page: Seq<nat>, rows: Seq<Option<O::Row>>, n: int)
    requires
        all_rows(rows),
        shows_exactly::<O>(page, rows),
        in_slot_order::<O>(page, rows),
        0 <= n <= page.len(),
        forall|p: int| 0 <= p < page.len() ==> holds::<O>(rows, page[p]) && 0 <= #[trigger] slot_of::<O>(rows, page[p])
            < rows.len() && O::row_id(rows[slot_of::<O>(rows, page[p])]->0) == page[p],
    ensures
        forall|p: int| 0 <= p < n ==> #[trigger] slot_of::<O>(rows, page[p]) == p,
    decreases n,
{
    if n > 0 {
        lemma_slots_are_positions::<O>(page, rows, n - 1);
        let p = n - 1;
        let s = slot_of::<O>(rows, page[p]);
        if p > 0 {
            assert(slot_of::<O>(rows, page[p - 1]) == p - 1);
        }
        // `s >= p`: the slots grow along the page
        assert(s >= p);
        if s > p {
            // slot `p` shows a row at some position `q`
            lemma_slot_of::<O>(rows, p);
            let x = O::row_id(rows[p]->0);
            assert(page.contains(x));
            let q = choose|q: int| 0 <= q < page.len() && page[q] == x;
            assert(slot_of::<O>(rows, page[q]) == p);
            if q < p {
                assert(slot_of::<O>(rows, page[q]) == q);
            } else {
                assert(q != p);
            }
        }
    }
}

/// A page that shows the rows of full slots in slot order is in slot order.
pub(crate) proof fn lemma_slots_in_order<O: ListOps>(page: Seq<nat>, rows: Seq<Option<O::Row>>)
    requires
        all_rows(rows),
        distinct_rows::<O>(rows),
        page == slot_ids::<O>(rows),
    ensures
        in_slot_order::<O>(page, rows),
{
    crate::list_diff::lemma_slot_ids_all::<O>(rows);
    assert forall|p: int, q: int|
        #![trigger page[p], page[q]]
        0 <= p < q < page.len() && holds::<O>(rows, page[p]) && holds::<O>(rows, page[q]) implies slot_of::<O>(rows, page[p])
        < slot_of::<O>(rows, page[q]) by {
        lemma_slot_of::<O>(rows, p);
        lemma_slot_of::<O>(rows, q);
    }
}

/// Free slots at the end of the rows can be dropped: the page shows the same rows, in the
/// same order.
pub(crate) proof fn lemma_drop_free<O: ListOps>(page: Seq<nat>, rows: Seq<Option<O::Row>>, moving: Seq<Option<O::Row>>, n: int)
    requires
        shows_exactly::<O>(page, rows + moving),
        0 <= n <= rows.len(),
        forall|i: int| n <= i < rows.len() ==> (#[trigger] rows[i]) is None,
        forall|y: int| 0 <= y < moving.len() ==> (#[trigger] moving[y]) is None,
    ensures
        shows_exactly::<O>(page, rows.take(n) + moving),
        shows_exactly::<O>(page, rows.take(n)),
        in_slot_order::<O>(page, rows) ==> in_slot_order::<O>(page, rows.take(n)),
{
    let c = rows + moving;
    let r = rows.take(n);
    let c2 = r + moving;
    assert forall|x: nat| holds::<O>(c, x) <==> holds::<O>(r, x) by {
        if holds::<O>(c, x) {
            let k = choose|k: int| 0 <= k < c.len() && #[trigger] c[k] is Some && O::row_id(c[k]->0) == x;
            assert(k < n);
            assert(r[k] == c[k]);
        }
        if holds::<O>(r, x) {
            let k = choose|k: int| 0 <= k < r.len() && #[trigger] r[k] is Some && O::row_id(r[k]->0) == x;
            assert(c[k] == r[k]);
        }
    }
    assert forall|x: nat| holds::<O>(r, x) <==> holds::<O>(c2, x) by {
        if holds::<O>(c2, x) {
            let k = choose|k: int| 0 <= k < c2.len() && #[trigger] c2[k] is Some && O::row_id(c2[k]->0) == x;
            assert(k < n);
            assert(r[k] == c2[k]);
        }
        if holds::<O>(r, x) {
            let k = choose|k: int| 0 <= k < r.len() && #[trigger] r[k] is Some && O::row_id(r[k]->0) == x;
            assert(c2[k] == r[k]);
        }
    }
    assert(distinct_rows::<O>(r)) by {
        assert forall|k1: int, k2: int|
            0 <= k1 < r.len() && 0 <= k2 < r.len() && k1 != k2 && #[trigger] r[k1] is Some && #[trigger] r[k2] is Some
                implies O::row_id(r[k1]->0) != O::row_id(r[k2]->0) by {
            assert(c[k1] == r[k1] && c[k2] == r[k2]);
        }
    }
    assert(distinct_rows::<O>(c2)) by {
        assert forall|k1: int, k2: int|
            0 <= k1 < c2.len() && 0 <= k2 < c2.len() && k1 != k2 && #[trigger] c2[k1] is Some && #[trigger] c2[k2] is Some
                implies O::row_id(c2[k1]->0) != O::row_id(c2[k2]->0) by {
            assert(k1 < n && k2 < n);
            assert(c[k1] == c2[k1] && c[k2] == c2[k2]);
        }
    }
    if in_slot_order::<O>(page, rows) {
        assert(distinct_rows::<O>(rows)) by {
            assert forall|k1: int, k2: int|
                0 <= k1 < rows.len() && 0 <= k2 < rows.len() && k1 != k2 && #[trigger] rows[k1] is Some
                    && #[trigger] rows[k2] is Some implies O::row_id(rows[k1]->0) != O::row_id(rows[k2]->0) by {
                assert(c[k1] == rows[k1] && c[k2] == rows[k2]);
            }
        }
        assert forall|p: int, q: int|
            #![trigger page[p], page[q]]
            0 <= p < q < page.len() && holds::<O>(r, page[p]) && holds::<O>(r, page[q]) implies slot_of::<O>(r, page[p])
            < slot_of::<O>(r, page[q]) by {
            let kp = slot_of::<O>(r, page[p]);
            let kq = slot_of::<O>(r, page[q]);
            assert(rows[kp] == r[kp] && rows[kq] == r[kq]);
            lemma_slot_of::<O>(rows, kp);
            lemma_slot_of::<O>(rows, kq);
            assert(holds::<O>(rows, page[p]) && holds::<O>(rows, page[q]));
        }
    }
}

/// A page that shows the rows of full slots in slot order, each once, shows exactly them.
pub(crate) proof fn lemma_slots_show_exactly<O: ListOps>(page: Seq<nat>, rows: Seq<Option<O::Row>>)
    requires
        all_rows(rows),
        page == slot_ids::<O>(rows),
        page.no_duplicates(),
    ensures
        shows_exactly::<O>(page, rows),
{
    crate::list_diff::lemma_slot_ids_all::<O>(rows);
    assert forall|k1: int, k2: int|
        0 <= k1 < rows.len() && 0 <= k2 < rows.len() && k1 != k2 && #[trigger] rows[k1] is Some && #[trigger] rows[k2]
            is Some implies O::row_id(rows[k1]->0) != O::row_id(rows[k2]->0) by {
        assert(page[k1] != page[k2]);
    }
    assert forall|x: nat| page.contains(x) <==> holds::<O>(rows, x) by {
        if page.contains(x) {
            let k = choose|k: int| 0 <= k < page.len() && page[k] == x;
            assert(rows[k] is Some);
        }
        if holds::<O>(rows, x) {
            let k = choose|k: int| 0 <= k < rows.len() && #[trigger] rows[k] is Some && O::row_id(rows[k]->0) == x;
            assert(page[k] == x);
        }
    }
}

} // verus!
