//! A keyed list of views (`<For>`), as the server renders it: each item's view, marked as a
//! branch with the item's key when branches are marked, and a marker after the list.

use crate::iterators::reversed;
use crate::list_diff::ListError;
use crate::text::push_text;
use crate::view::{HtmlLen, Position, RenderHtml};
use vstd::prelude::*;

verus! {

/// A key that can be serialized into the page, for the islands router.
///
/// Only the `islands` feature uses serialized keys; without it every key serializes to an
/// empty key, and the call reports that, for the caller to log once.
pub trait SerializableKey {
    /// Serializes the key to a unique string, with what the call reports.
    fn ser_key(&self) -> (key: (String, Option<ListError>))
        ensures
            key.0@ == Seq::<char>::empty(),
            key.1 == Some(ListError::SerializableKeyWithoutIslands),
    ;
}

impl<T> SerializableKey for T {
    fn ser_key(&self) -> (key: (String, Option<ListError>)) {
        (String::new(), Some(ListError::SerializableKeyWithoutIslands))
    }
}

/// A keyed list of views: on the server, each item's view with its serialized key.
pub struct Keyed<T, KF, VF, V> {
    items: Option<Vec<T>>,
    ssr_items: Vec<(String, V)>,
    key_fn: KF,
    view_fn: VF,
}

impl<T, KF, VF, V> Keyed<T, KF, VF, V> {
    /// The items' views, each with its serialized key.
    pub closed spec fn rendered(&self) -> Seq<(String, V)> {
        self.ssr_items@
    }
}

/// Whether `rendered` holds, for each of `items`, an empty key and the view that `view_fn`
/// made from its index and the item.
pub open spec fn made_by<T, VF, VFS, V>(view_fn: VF, items: Seq<T>, rendered: Seq<(String, V)>) -> bool
    where
        VF: Fn(usize, T) -> (VFS, V),
{
    &&& rendered.len() == items.len()
    &&& forall|i: int|
        0 <= i < items.len() ==> {
            &&& (#[trigger] rendered[i]).0@ == Seq::<char>::empty()
            &&& exists|set_index: VFS| #[trigger] view_fn.ensures((i as usize, items[i]), (set_index, rendered[i].1))
        }
}

/// Creates a keyed list of views: each item's view is made by `view_fn` from its index
/// and the item.
pub fn keyed<T, K, KF, VF, VFS, V>(items: Vec<T>, key_fn: KF, view_fn: VF) -> (list: Keyed<T, KF, VF, V>)
    where
        KF: Fn(&T) -> K,
        VF: Fn(usize, T) -> (VFS, V),
    requires
        forall|i: usize, item: T| view_fn.requires((i, item)),
    ensures
        made_by::<T, VF, VFS, V>(view_fn, items@, list.rendered()),
{
    let ghost all = items@;
    let n = items.len();
    let mut rest = reversed(items);
    let mut ssr_items: Vec<(String, V)> = Vec::new();
    let mut index: usize = 0;
    while rest.len() > 0
        invariant
            rest@.reverse() == all.subrange(index as int, all.len() as int),
            index <= all.len(),
            n == all.len(),
            ssr_items@.len() == index,
            forall|i: usize, item: T| view_fn.requires((i, item)),
            forall|i: int|
                0 <= i < index ==> {
                    &&& (#[trigger] ssr_items@[i]).0@ == Seq::<char>::empty()
                    &&& exists|set_index: VFS| #[trigger] view_fn.ensures((i as usize, all[i]), (set_index, ssr_items@[i].1))
                },
        decreases rest@.len(),
    {
        let ghost before = rest@;
        let item = rest.pop().unwrap();
        let ghost now = all.subrange(index as int, all.len() as int);
        proof {
            assert(before.reverse() == now);
            assert(before.len() > 0);
            assert(now.len() == before.len());
            assert(index < all.len());
            assert(before.reverse()[0] == before[before.len() - 1]);
            assert(item == before[before.len() - 1]);
            assert(now[0] == all[index as int]);
            assert(all[index as int] == item);
            assert(rest@.reverse() =~= before.reverse().drop_first());
            assert(now.drop_first() =~= all.subrange(index + 1, all.len() as int));
        }
        // serialized keys are for the islands router only
        let key = String::new();
        let (set_index, view) = view_fn(index, item);
        ssr_items.push((key, view));
        proof {
            assert(view_fn.ensures((index as usize, all[index as int]), (set_index, ssr_items@[index as int].1)));
        }
        index += 1;
    }
    proof {
        assert(rest@.reverse().len() == 0);
        assert(index == all.len());
        assert(made_by::<T, VF, VFS, V>(view_fn, all, ssr_items@));
    }
    let list = Keyed { items: None, ssr_items, key_fn, view_fn };
    proof {
        assert(list.rendered() == ssr_items@);
        assert(all == items@);
    }
    list
}

/// The marker that opens a branch named `name`.
pub open spec fn branch_open(name: Seq<char>) -> Seq<char> {
    "<!--bo-"@ + name + "-->"@
}

/// The marker that closes a branch named `name`.
pub open spec fn branch_close(name: Seq<char>) -> Seq<char> {
    "<!--bc-"@ + name + "-->"@
}

/// The HTML of the items of a keyed list, the first at `position`.
pub open spec fn keyed_items_html<V: RenderHtml>(
    items: Seq<(String, V)>,
    position: Position,
    escape: bool,
    mark_branches: bool,
) -> Seq<char>
    decreases items.len(),
{
    if items.len() == 0 {
        seq![]
    } else {
        let name = "item-"@ + items[0].0@;
        (if mark_branches && escape {
            branch_open(name)
        } else {
            seq![]
        }) + items[0].1.html(position, escape, mark_branches) + (if mark_branches && escape {
            branch_close(name)
        } else {
            seq![]
        }) + keyed_items_html(items.drop_first(), Position::NextChild, escape, mark_branches)
    }
}

/// The HTML of a keyed list of `items`.
pub open spec fn keyed_html<V: RenderHtml>(
    items: Seq<(String, V)>,
    position: Position,
    escape: bool,
    mark_branches: bool,
) -> Seq<char> {
    (if mark_branches && escape {
        branch_open("for"@)
    } else {
        seq![]
    }) + keyed_items_html(items, position, escape, mark_branches) + (if mark_branches && escape {
        branch_close("for"@)
    } else {
        seq![]
    }) + "<!>"@
}

/// Writes the markers of the branch `name`.
fn push_branch(buf: &mut String, name: &str, opening: bool)
    ensures
        final(buf)@ == old(buf)@ + if opening {
            branch_open(name@)
        } else {
            branch_close(name@)
        },
{
    if opening {
        push_text(buf, "<!--bo-");
    } else {
        push_text(buf, "<!--bc-");
    }
    push_text(buf, name);
    push_text(buf, "-->");
}

/// The name of the branch of an item with key `key`.
fn item_branch(key: &String) -> (name: String)
    ensures
        name@ == "item-"@ + key@,
{
    let mut name = String::new();
    push_text(&mut name, "item-");
    push_text(&mut name, key.as_str());
    name
}

impl<T, KF, VF, V: RenderHtml> HtmlLen for Keyed<T, KF, VF, V> {
    /// No estimate: a list may be empty.
    open spec fn len_estimate(&self) -> nat {
        0
    }

    fn html_len(&self) -> (n: usize) {
        0
    }
}

impl<T, KF, VF, V: RenderHtml> RenderHtml for Keyed<T, KF, VF, V> {
    open spec fn html(&self, position: Position, escape: bool, mark_branches: bool) -> Seq<char> {
        keyed_html(self.rendered(), position, escape, mark_branches)
    }

    open spec fn position_after(&self, position: Position, escape: bool, mark_branches: bool) -> Position {
        if self.rendered().len() > 0 {
            Position::NextChild
        } else {
            position
        }
    }

    fn to_html_with_buf(self, buf: &mut String, position: &mut Position, escape: bool, mark_branches: bool)
        ensures
            self.position_after(*old(position), escape, mark_branches) == *final(position),
    {
        let ghost all = self.ssr_items@;
        let ghost start = buf@;
        let ghost first = *position;
        let marked = mark_branches && escape;
        if marked {
            push_branch(buf, "for", true);
        }
        let ghost opened = buf@;
        let n = self.ssr_items.len();
        let mut rest = reversed(self.ssr_items);
        let mut k: usize = 0;
        assert(all.subrange(0, all.len() as int) =~= all);
        while rest.len() > 0
            invariant
                rest@.reverse() == all.subrange(k as int, all.len() as int),
                k <= all.len(),
                n == all.len(),
                marked == (mark_branches && escape),
                opened + keyed_items_html(all, first, escape, mark_branches) == buf@ + keyed_items_html(
                    all.subrange(k as int, all.len() as int),
                    *position,
                    escape,
                    mark_branches,
                ),
                k > 0 ==> *position == Position::NextChild,
                k == 0 ==> *position == first,
            decreases rest@.len(),
        {
            let ghost before = rest@;
            let ghost buf0 = buf@;
            let ghost pos = *position;
            let (key, item) = rest.pop().unwrap();
            let ghost now = all.subrange(k as int, all.len() as int);
            proof {
                assert(before.reverse()[0] == before[before.len() - 1]);
                assert(now[0] == (key, item));
                assert(now.drop_first() =~= all.subrange(k + 1, all.len() as int));
                assert(rest@.reverse() =~= before.reverse().drop_first());
            }
            let name = item_branch(&key);
            if marked {
                push_branch(buf, name.as_str(), true);
            }
            item.to_html_with_buf(buf, position, escape, mark_branches);
            if marked {
                push_branch(buf, name.as_str(), false);
            }
            *position = Position::NextChild;
            proof {
                assert(buf0 + keyed_items_html(now, pos, escape, mark_branches) =~= buf@ + keyed_items_html(
                    now.drop_first(),
                    Position::NextChild,
                    escape,
                    mark_branches,
                ));
            }
            k += 1;
        }
        proof {
            assert(all.subrange(k as int, all.len() as int) =~= Seq::<(String, V)>::empty());
        }
        if marked {
            push_branch(buf, "for", false);
        }
        push_text(buf, "<!>");
        proof {
            reveal_strlit("for");
            assert(buf@ =~= start + keyed_html(all, first, escape, mark_branches));
        }
    }
}

} // verus!
