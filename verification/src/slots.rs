//! What changes to the rows of a keyed list do to the rows it shows: a list's rows are
//! slots, each free or holding a row, and the page shows exactly the rows in the slots.

use crate::list_diff::{distinct_rows, holds, mounted, shows_exactly, unmounted, ListOps};
use vstd::prelude::*;

verus! {

/// Whether every row in `slots` was built by `ops`.
pub open spec fn all_issued<O: ListOps>(ops: O, slots: Seq<Option<O::Row>>) -> bool {
    forall|k: int|
        0 <= k < slots.len() && #[trigger] slots[k] is Some ==> ops.issued(O::row_id(slots[k]->0))
}

pub(crate) proof fn lemma_unmounted_set(page: Seq<nat>, id: nat)
    requires
        page.no_duplicates(),
    ensures
        unmounted(page, id).no_duplicates(),
        forall|x: nat| #[trigger] unmounted(page, id).contains(x) <==> (page.contains(x) && x != id),
{
    if page.contains(id) {
        let i = page.index_of(id);
        let r = page.remove(i);
        assert forall|x: nat| r.contains(x) <==> (page.contains(x) && x != id) by {
            if r.contains(x) {
                let j = choose|j: int| 0 <= j < r.len() && r[j] == x;
                if j < i {
                    assert(page[j] == x);
                } else {
                    assert(page[j + 1] == x);
                }
            }
            if page.contains(x) && x != id {
                let j = choose|j: int| 0 <= j < page.len() && page[j] == x;
                if j < i {
                    assert(r[j] == x);
                } else {
                    assert(j != i);
                    assert(r[j - 1] == x);
                }
            }
        }
    }
}

pub(crate) proof fn lemma_mounted_set(page: Seq<nat>, id: nat, before: Option<nat>)
    requires
        page.no_duplicates(),
    ensures
        mounted(page, id, before).no_duplicates(),
        forall|x: nat| #[trigger] mounted(page, id, before).contains(x) <==> (page.contains(x) || x == id),
{
    lemma_unmounted_set(page, id);
    let rest = unmounted(page, id);
    let res = mounted(page, id, before);
    let at = match before {
        Some(b) => if rest.contains(b) { rest.index_of(b) } else { rest.len() as int },
        None => rest.len() as int,
    };
    assert(0 <= at <= rest.len());
    assert(res == rest.insert(at, id));
    assert forall|x: nat| res.contains(x) <==> (page.contains(x) || x == id) by {
        if res.contains(x) {
            let j = choose|j: int| 0 <= j < res.len() && res[j] == x;
            if j < at {
                assert(rest[j] == x);
            } else if j > at {
                assert(rest[j - 1] == x);
            }
        }
        if x == id {
            assert(res[at] == id);
        } else if page.contains(x) {
            assert(rest.contains(x));
            let j = choose|j: int| 0 <= j < rest.len() && rest[j] == x;
            if j < at {
                assert(res[j] == x);
            } else {
                assert(res[j + 1] == x);
            }
        }
    }
    assert forall|a: int, b: int| 0 <= a < res.len() && 0 <= b < res.len() && a != b implies res[a] != res[b] by {
        if a != at && b != at {
            let a0 = if a < at { a } else { a - 1 };
            let b0 = if b < at { b } else { b - 1 };
            assert(res[a] == rest[a0]);
            assert(res[b] == rest[b0]);
        } else if a == at {
            let b0 = if b < at { b } else { b - 1 };
            assert(res[b] == rest[b0]);
            assert(rest.contains(rest[b0]));
        } else {
            let a0 = if a < at { a } else { a - 1 };
            assert(res[a] == rest[a0]);
            assert(rest.contains(rest[a0]));
        }
    }
}

/// Taking the row out of slot `k` and off the page.
pub(crate) proof fn lemma_take_unmount<O: ListOps>(page: Seq<nat>, s: Seq<Option<O::Row>>, k: int)
    requires
        shows_exactly::<O>(page, s),
        0 <= k < s.len(),
        s[k] is Some,
    ensures
        shows_exactly::<O>(unmounted(page, O::row_id(s[k]->0)), s.update(k, None)),
{
    let id = O::row_id(s[k]->0);
    let s2 = s.update(k, None);
    lemma_unmounted_set(page, id);
    assert forall|x: nat| unmounted(page, id).contains(x) <==> holds::<O>(s2, x) by {
        if holds::<O>(s2, x) {
            let j = choose|j: int| 0 <= j < s2.len() && #[trigger] s2[j] is Some && O::row_id(s2[j]->0) == x;
            assert(s[j] == s2[j]);
            assert(j != k);
            assert(holds::<O>(s, x));
        }
        if unmounted(page, id).contains(x) {
            assert(holds::<O>(s, x));
            let j = choose|j: int| 0 <= j < s.len() && #[trigger] s[j] is Some && O::row_id(s[j]->0) == x;
            assert(j != k);
            assert(s2[j] == s[j]);
        }
    }
    assert forall|k1: int, k2: int|
        0 <= k1 < s2.len() && 0 <= k2 < s2.len() && k1 != k2 && #[trigger] s2[k1] is Some
            && #[trigger] s2[k2] is Some implies O::row_id(s2[k1]->0) != O::row_id(s2[k2]->0) by {
        assert(s2[k1] == s[k1] && s2[k2] == s[k2]);
    }
}

/// Moving the row of slot `k1` to the free slot `k2`, as a row with the same identity.
pub(crate) proof fn lemma_relocate<O: ListOps>(page: Seq<nat>, s: Seq<Option<O::Row>>, k1: int, k2: int, row: O::Row)
    requires
        shows_exactly::<O>(page, s),
        0 <= k1 < s.len(),
        0 <= k2 < s.len(),
        s[k1] is Some,
        k1 == k2 || s[k2] is None,
        O::row_id(row) == O::row_id(s[k1]->0),
    ensures
        shows_exactly::<O>(page, s.update(k1, None).update(k2, Some(row))),
{
    let s2 = s.update(k1, None).update(k2, Some(row));
    assert forall|x: nat| page.contains(x) <==> holds::<O>(s2, x) by {
        if holds::<O>(s2, x) {
            let j = choose|j: int| 0 <= j < s2.len() && #[trigger] s2[j] is Some && O::row_id(s2[j]->0) == x;
            if j == k2 {
                assert(s[k1] is Some);
                assert(holds::<O>(s, x));
            } else {
                assert(s2[j] == s[j]);
                assert(holds::<O>(s, x));
            }
        }
        if page.contains(x) {
            let j = choose|j: int| 0 <= j < s.len() && #[trigger] s[j] is Some && O::row_id(s[j]->0) == x;
            if j == k1 {
                assert(s2[k2] is Some);
            } else {
                assert(j != k2);
                assert(s2[j] == s[j]);
            }
        }
    }
    assert forall|a: int, b: int|
        0 <= a < s2.len() && 0 <= b < s2.len() && a != b && #[trigger] s2[a] is Some
            && #[trigger] s2[b] is Some implies O::row_id(s2[a]->0) != O::row_id(s2[b]->0) by {
        if a == k2 {
            assert(s2[b] == s[b]);
            assert(b != k1);
            assert(s[k1] is Some && s[b] is Some);
        } else if b == k2 {
            assert(s2[a] == s[a]);
            assert(a != k1);
            assert(s[k1] is Some && s[a] is Some);
        } else {
            assert(s2[a] == s[a] && s2[b] == s[b]);
        }
    }
}

/// Putting a row with a new identity in the free slot `k`, and on the page.
pub(crate) proof fn lemma_add_fresh<O: ListOps>(page: Seq<nat>, page2: Seq<nat>, s: Seq<Option<O::Row>>, k: int, row: O::Row)
    requires
        shows_exactly::<O>(page, s),
        0 <= k < s.len(),
        s[k] is None,
        !page.contains(O::row_id(row)),
        page2.no_duplicates(),
        forall|x: nat| #[trigger] page2.contains(x) <==> (page.contains(x) || x == O::row_id(row)),
    ensures
        shows_exactly::<O>(page2, s.update(k, Some(row))),
{
    let s2 = s.update(k, Some(row));
    assert forall|x: nat| page2.contains(x) <==> holds::<O>(s2, x) by {
        if holds::<O>(s2, x) {
            let j = choose|j: int| 0 <= j < s2.len() && #[trigger] s2[j] is Some && O::row_id(s2[j]->0) == x;
            if j != k {
                assert(s2[j] == s[j]);
                assert(holds::<O>(s, x));
            }
        }
        if page2.contains(x) {
            if x == O::row_id(row) {
                assert(s2[k] is Some);
            } else {
                assert(holds::<O>(s, x));
                let j = choose|j: int| 0 <= j < s.len() && #[trigger] s[j] is Some && O::row_id(s[j]->0) == x;
                assert(s2[j] == s[j]);
            }
        }
    }
    assert forall|a: int, b: int|
        0 <= a < s2.len() && 0 <= b < s2.len() && a != b && #[trigger] s2[a] is Some
            && #[trigger] s2[b] is Some implies O::row_id(s2[a]->0) != O::row_id(s2[b]->0) by {
        if a == k {
            assert(s2[b] == s[b]);
            assert(holds::<O>(s, O::row_id(s[b]->0)));
        } else if b == k {
            assert(s2[a] == s[a]);
            assert(holds::<O>(s, O::row_id(s[a]->0)));
        } else {
            assert(s2[a] == s[a] && s2[b] == s[b]);
        }
    }
}

/// Inserting a free slot.
pub(crate) proof fn lemma_insert_free<O: ListOps>(page: Seq<nat>, s: Seq<Option<O::Row>>, k: int)
    requires
        shows_exactly::<O>(page, s),
        0 <= k <= s.len(),
    ensures
        shows_exactly::<O>(page, s.insert(k, None)),
{
    let s2 = s.insert(k, None);
    assert forall|x: nat| page.contains(x) <==> holds::<O>(s2, x) by {
        if holds::<O>(s2, x) {
            let j = choose|j: int| 0 <= j < s2.len() && #[trigger] s2[j] is Some && O::row_id(s2[j]->0) == x;
            let j0 = if j < k { j } else { j - 1 };
            assert(s[j0] == s2[j]);
        }
        if page.contains(x) {
            let j = choose|j: int| 0 <= j < s.len() && #[trigger] s[j] is Some && O::row_id(s[j]->0) == x;
            let j2 = if j < k { j } else { j + 1 };
            assert(s2[j2] == s[j]);
        }
    }
    assert forall|a: int, b: int|
        0 <= a < s2.len() && 0 <= b < s2.len() && a != b && #[trigger] s2[a] is Some
            && #[trigger] s2[b] is Some implies O::row_id(s2[a]->0) != O::row_id(s2[b]->0) by {
        let a0 = if a < k { a } else { a - 1 };
        let b0 = if b < k { b } else { b - 1 };
        assert(s2[a] == s[a0] && s2[b] == s[b0]);
    }
}

/// Moving a row on the page and into another free slot keeps the page showing exactly the
/// rows of the slots.
pub(crate) proof fn lemma_move_on_page<O: ListOps>(
    page: Seq<nat>,
    s: Seq<Option<O::Row>>,
    k1: int,
    k2: int,
    row: O::Row,
    before: Option<nat>,
)
    requires
        shows_exactly::<O>(page, s),
        0 <= k1 < s.len(),
        0 <= k2 < s.len(),
        s[k1] is Some,
        s[k2] is None,
        O::row_id(row) == O::row_id(s[k1]->0),
    ensures
        shows_exactly::<O>(mounted(page, O::row_id(row), before), s.update(k1, None).update(k2, Some(row))),
{
    lemma_relocate::<O>(page, s, k1, k2, row);
    lemma_mounted_set(page, O::row_id(row), before);
    assert(holds::<O>(s, O::row_id(row)));
}

} // verus!
