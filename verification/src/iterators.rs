//! Lists of views: an optional view, a `Vec` of views (which keeps a marker after its items,
//! so items can be added before it), a `StaticVec`, whose length does not change, and an
//! array.

use crate::text::push_text;
use crate::view::{saturated, HtmlLen, Position, RenderHtml};
use vstd::prelude::*;

verus! {

/// The sum of the length estimates of `items`.
pub open spec fn estimates_sum<T: HtmlLen>(items: Seq<T>) -> nat
    decreases items.len(),
{
    if items.len() == 0 {
        0
    } else {
        estimates_sum(items.drop_last()) + items.last().len_estimate()
    }
}

/// Adding saturated estimates, saturating, is saturating the sum.
proof fn lemma_saturated_add(a: nat, b: nat)
    ensures
        (if saturated(a) + saturated(b) > usize::MAX {
            usize::MAX
        } else {
            (saturated(a) + saturated(b)) as usize
        }) == saturated(a + b),
{
}

/// The sum of the length estimates of `items`, saturated.
fn sum_of_lens<T: HtmlLen>(items: &[T]) -> (n: usize)
    ensures
        n == saturated(estimates_sum(items@)),
{
    let mut sum: usize = 0;
    let mut i: usize = 0;
    while i < items.len()
        invariant
            i <= items@.len(),
            sum == saturated(estimates_sum(items@.take(i as int))),
        decreases items.len() - i,
    {
        let len = items[i].html_len();
        proof {
            let taken = items@.take(i + 1);
            assert(taken.drop_last() == items@.take(i as int));
            assert(taken.last() == items@[i as int]);
            lemma_saturated_add(estimates_sum(items@.take(i as int)), items@[i as int].len_estimate());
        }
        sum = sum.saturating_add(len);
        i += 1;
    }
    assert(items@.take(items@.len() as int) == items@);
    sum
}

impl<T: HtmlLen> HtmlLen for Option<T> {
    /// The value's estimate and a marker's.
    open spec fn len_estimate(&self) -> nat {
        match self {
            Some(value) => value.len_estimate() + 3,
            None => 3,
        }
    }

    fn html_len(&self) -> (n: usize) {
        match self {
            Some(value) => {
                let len = value.html_len();
                proof {
                    lemma_saturated_add(value.len_estimate(), 3);
                }
                len.saturating_add(3)
            },
            None => 3,
        }
    }
}

impl<T: HtmlLen> HtmlLen for Vec<T> {
    /// The items' estimates and the marker's.
    open spec fn len_estimate(&self) -> nat {
        estimates_sum(self@) + 3
    }

    fn html_len(&self) -> (n: usize) {
        let sum = sum_of_lens(self.as_slice());
        proof {
            lemma_saturated_add(estimates_sum(self@), 3);
        }
        sum.saturating_add(3)
    }
}

impl<T: HtmlLen, const N: usize> HtmlLen for [T; N] {
    /// The items' estimates.
    open spec fn len_estimate(&self) -> nat {
        estimates_sum(self@)
    }

    fn html_len(&self) -> (n: usize) {
        proof {
            broadcast use vstd::array::group_array_axioms;
        }
        sum_of_lens(self.as_slice())
    }
}

/// A list of views whose length does not change: unlike a `Vec`, it needs no marker to add
/// items before.
pub struct StaticVec<T>(pub Vec<T>);

impl<T> StaticVec<T> {
    /// Iterates over the items.
    pub fn iter(&self) -> (items: std::slice::Iter<'_, T>)
        ensures
            vstd::std_specs::slice::into_iter_elts(items) == self.0@,
    {
        proof {
            broadcast use vstd::std_specs::slice::axiom_spec_slice_iter;
        }
        self.0.as_slice().iter()
    }
}

impl<T> From<Vec<T>> for StaticVec<T> {
    fn from(items: Vec<T>) -> (list: Self) {
        StaticVec(items)
    }
}

impl<T> vstd::std_specs::convert::FromSpecImpl<Vec<T>> for StaticVec<T> {
    open spec fn obeys_from_spec() -> bool {
        true
    }

    /// The list of `items`, in order.
    open spec fn from_spec(items: Vec<T>) -> Self {
        StaticVec(items)
    }
}

impl<T: HtmlLen> HtmlLen for StaticVec<T> {
    /// The items' estimates and the marker's.
    open spec fn len_estimate(&self) -> nat {
        estimates_sum(self.0@) + 3
    }

    fn html_len(&self) -> (n: usize) {
        let sum = sum_of_lens(self.0.as_slice());
        proof {
            lemma_saturated_add(estimates_sum(self.0@), 3);
        }
        sum.saturating_add(3)
    }
}

/// The HTML of `items` in a row, the first at `position`.
pub open spec fn items_html<T: RenderHtml>(items: Seq<T>, position: Position, escape: bool, mark_branches: bool) -> Seq<
    char,
>
    decreases items.len(),
{
    if items.len() == 0 {
        seq![]
    } else {
        items[0].html(position, escape, mark_branches) + items_html(
            items.drop_first(),
            items[0].position_after(position, escape, mark_branches),
            escape,
            mark_branches,
        )
    }
}

/// Where the node after `items` in a row goes.
pub open spec fn items_position_after<T: RenderHtml>(
    items: Seq<T>,
    position: Position,
    escape: bool,
    mark_branches: bool,
) -> Position
    decreases items.len(),
{
    if items.len() == 0 {
        position
    } else {
        items_position_after(
            items.drop_first(),
            items[0].position_after(position, escape, mark_branches),
            escape,
            mark_branches,
        )
    }
}

/// The HTML of a list of `items`: the items, then a marker when escaping.
pub open spec fn list_html<T: RenderHtml>(items: Seq<T>, position: Position, escape: bool, mark_branches: bool) -> Seq<
    char,
> {
    items_html(items, position, escape, mark_branches) + if escape {
        "<!>"@
    } else {
        seq![]
    }
}

/// Where the node after a list of `items` goes.
pub open spec fn list_position_after<T: RenderHtml>(
    items: Seq<T>,
    position: Position,
    escape: bool,
    mark_branches: bool,
) -> Position {
    if escape {
        Position::NextChild
    } else {
        items_position_after(items, position, escape, mark_branches)
    }
}

/// `items` in reverse order.
pub(crate) fn reversed<T>(items: Vec<T>) -> (rev: Vec<T>)
    ensures
        rev@ == items@.reverse(),
{
    let mut items = items;
    let ghost start = items@;
    let mut rev: Vec<T> = Vec::new();
    while items.len() > 0
        invariant
            items@ == start.subrange(0, items@.len() as int),
            rev@ == start.subrange(items@.len() as int, start.len() as int).reverse(),
            items@.len() <= start.len(),
        decreases items@.len(),
    {
        let item = items.pop().unwrap();
        rev.push(item);
        proof {
            assert(items@ =~= start.subrange(0, items@.len() as int));
            assert(start.subrange(items@.len() as int, start.len() as int) =~= seq![item] + start.subrange(
                items@.len() as int + 1,
                start.len() as int,
            ));
            assert(rev@ =~= start.subrange(items@.len() as int, start.len() as int).reverse());
        }
    }
    rev
}

/// Writes the HTML of `items` in a row, then a marker when escaping.
fn write_list<T: RenderHtml>(items: Vec<T>, buf: &mut String, position: &mut Position, escape: bool, mark_branches: bool)
    ensures
        final(buf)@ == old(buf)@ + list_html(items@, *old(position), escape, mark_branches),
        *final(position) == list_position_after(items@, *old(position), escape, mark_branches),
{
    let ghost all = items@;
    let n = items.len();
    let mut rest = reversed(items);
    let mut k: usize = 0;
    assert(all.subrange(0, all.len() as int) =~= all);
    while rest.len() > 0
        invariant
            rest@.reverse() == all.subrange(k as int, all.len() as int),
            k <= all.len(),
            n == all.len(),
            old(buf)@ + items_html(all, *old(position), escape, mark_branches) == buf@ + items_html(
                all.subrange(k as int, all.len() as int),
                *position,
                escape,
                mark_branches,
            ),
            items_position_after(all, *old(position), escape, mark_branches) == items_position_after(
                all.subrange(k as int, all.len() as int),
                *position,
                escape,
                mark_branches,
            ),
        decreases rest@.len(),
    {
        let ghost before = rest@;
        let ghost pos = *position;
        let ghost buf0 = buf@;
        let child = rest.pop().unwrap();
        let ghost now = all.subrange(k as int, all.len() as int);
        proof {
            assert(before.reverse()[0] == before[before.len() - 1]);
            assert(now[0] == child);
            assert(now.drop_first() =~= all.subrange(k + 1, all.len() as int));
            assert(rest@.reverse() =~= before.reverse().drop_first());
        }
        child.to_html_with_buf(buf, position, escape, mark_branches);
        proof {
            assert(items_html(now, pos, escape, mark_branches) == child.html(pos, escape, mark_branches) + items_html(
                now.drop_first(),
                child.position_after(pos, escape, mark_branches),
                escape,
                mark_branches,
            ));
            assert(buf0 + items_html(now, pos, escape, mark_branches) =~= buf@ + items_html(
                now.drop_first(),
                *position,
                escape,
                mark_branches,
            ));
        }
        k += 1;
    }
    proof {
        assert(all.subrange(k as int, all.len() as int) =~= Seq::<T>::empty());
    }
    if escape {
        push_text(buf, "<!>");
        *position = Position::NextChild;
    }
}

impl<T: RenderHtml> RenderHtml for Vec<T> {
    open spec fn html(&self, position: Position, escape: bool, mark_branches: bool) -> Seq<char> {
        list_html(self@, position, escape, mark_branches)
    }

    open spec fn position_after(&self, position: Position, escape: bool, mark_branches: bool) -> Position {
        list_position_after(self@, position, escape, mark_branches)
    }

    fn to_html_with_buf(self, buf: &mut String, position: &mut Position, escape: bool, mark_branches: bool)
        ensures
            self.position_after(*old(position), escape, mark_branches) == *final(position),
    {
        write_list(self, buf, position, escape, mark_branches);
    }
}

impl<T: RenderHtml> RenderHtml for StaticVec<T> {
    open spec fn html(&self, position: Position, escape: bool, mark_branches: bool) -> Seq<char> {
        list_html(self.0@, position, escape, mark_branches)
    }

    open spec fn position_after(&self, position: Position, escape: bool, mark_branches: bool) -> Position {
        list_position_after(self.0@, position, escape, mark_branches)
    }

    fn to_html_with_buf(self, buf: &mut String, position: &mut Position, escape: bool, mark_branches: bool)
        ensures
            self.position_after(*old(position), escape, mark_branches) == *final(position),
    {
        write_list(self.0, buf, position, escape, mark_branches);
    }
}

/// A list writes its items in their order: its first item's HTML comes first, written from
/// the list's own position, and the rest of the list follows from where the first item
/// leaves off; a list with no item writes only what ends a list, the `<!>` marker when it
/// escapes. A `StaticVec` and a `Vec` of the same items write the same HTML.
pub proof fn lemma_lists_write_in_order<T: RenderHtml>(
    list: StaticVec<T>,
    rest: StaticVec<T>,
    position: Position,
    escape: bool,
    mark_branches: bool,
)
    requires
        list.0@.len() > 0 ==> rest.0@ == list.0@.drop_first(),
    ensures
        list.0@.len() > 0 ==> list.html(position, escape, mark_branches) == list.0@[0].html(position, escape, mark_branches)
            + rest.html(list.0@[0].position_after(position, escape, mark_branches), escape, mark_branches),
        list.0@.len() > 0 ==> list.0.html(position, escape, mark_branches) == list.0@[0].html(position, escape, mark_branches)
            + rest.0.html(list.0@[0].position_after(position, escape, mark_branches), escape, mark_branches),
        list.0@.len() == 0 ==> list.html(position, escape, mark_branches) == if escape {
            "<!>"@
        } else {
            Seq::<char>::empty()
        },
        list.0@.len() == 0 ==> list.0.html(position, escape, mark_branches) == if escape {
            "<!>"@
        } else {
            Seq::<char>::empty()
        },
        list.html(position, escape, mark_branches) == list.0.html(position, escape, mark_branches),
{
    if list.0@.len() > 0 {
        let first = list.0@[0];
        let after = first.position_after(position, escape, mark_branches);
        let marker = if escape {
            "<!>"@
        } else {
            Seq::<char>::empty()
        };
        assert(items_html(list.0@, position, escape, mark_branches) == first.html(position, escape, mark_branches)
            + items_html(rest.0@, after, escape, mark_branches));
        assert(list.html(position, escape, mark_branches) =~= first.html(position, escape, mark_branches)
            + rest.html(after, escape, mark_branches));
        assert(list.0.html(position, escape, mark_branches) =~= first.html(position, escape, mark_branches)
            + rest.0.html(after, escape, mark_branches));
    } else {
        assert(items_html(list.0@, position, escape, mark_branches) == Seq::<char>::empty());
        assert(list.html(position, escape, mark_branches) =~= if escape {
            "<!>"@
        } else {
            Seq::<char>::empty()
        });
    }
}

} // verus!
