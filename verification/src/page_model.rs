//! A model of the element a keyed list is rendered in: the rows it shows, in order. It does
//! what the browser does: mounting a row that is shown moves it, and mounting before a row
//! that is not shown mounts at the end.

use crate::list_diff::{ListOps, PageOp, mounted, unmounted};
use vstd::prelude::*;

verus! {

/// A row of the model: its key, where it was built, and which build made it.
#[derive(Debug)]
pub struct ModelRow {
    pub key: u64,
    pub built_at: usize,
    pub id: usize,
}

/// The rows a list's element shows, by identity, and the key of every row ever built.
pub struct PageModel {
    dom: Vec<usize>,
    keys: Vec<u64>,
    log: Ghost<Seq<PageOp>>,
}

/// The identities of `dom`, as the page shows them.
pub open spec fn as_page(dom: Seq<usize>) -> Seq<nat> {
    dom.map_values(|x: usize| x as nat)
}

/// Where `id` is in `dom`, if it is there.
fn position(dom: &Vec<usize>, id: usize) -> (found: Option<usize>)
    ensures
        match found {
            Some(i) => i < dom@.len() && dom@[i as int] == id,
            None => !dom@.contains(id),
        },
{
    let mut i: usize = 0;
    while i < dom.len()
        invariant
            i <= dom@.len(),
            forall|k: int| 0 <= k < i ==> dom@[k] != id,
        decreases dom.len() - i,
    {
        if dom[i] == id {
            return Some(i);
        }
        i += 1;
    }
    None
}

proof fn lemma_as_page_contains(dom: Seq<usize>, id: usize)
    ensures
        as_page(dom).contains(id as nat) == dom.contains(id),
        as_page(dom).len() == dom.len(),
{
    if dom.contains(id) {
        let i = choose|i: int| 0 <= i < dom.len() && dom[i] == id;
        assert(as_page(dom)[i] == id as nat);
    }
    if as_page(dom).contains(id as nat) {
        let i = choose|i: int| 0 <= i < as_page(dom).len() && as_page(dom)[i] == id as nat;
        assert(dom[i] == id);
    }
}

proof fn lemma_as_page_index_of(dom: Seq<usize>, i: int)
    requires
        0 <= i < dom.len(),
        dom.no_duplicates(),
    ensures
        as_page(dom).index_of(dom[i] as nat) == i,
        as_page(dom).contains(dom[i] as nat),
        as_page(dom).no_duplicates(),
{
    let p = as_page(dom);
    assert(p[i] == dom[i] as nat);
    let j = p.index_of(dom[i] as nat);
    assert(p[j] == dom[i] as nat);
    assert(dom[j] == dom[i]);
    assert forall|a: int, b: int| 0 <= a < p.len() && 0 <= b < p.len() && a != b implies p[a] != p[b] by {
        assert(dom[a] != dom[b]);
    }
}

proof fn lemma_as_page_no_duplicates(dom: Seq<usize>)
    requires
        dom.no_duplicates(),
    ensures
        as_page(dom).no_duplicates(),
{
    let p = as_page(dom);
    assert forall|a: int, b: int| 0 <= a < p.len() && 0 <= b < p.len() && a != b implies p[a] != p[b] by {
        assert(dom[a] != dom[b]);
    }
}

impl PageModel {
    /// A page showing nothing, on which no row has been built.
    pub fn new() -> (page: Self)
        ensures
            page.inv(),
            page.shown() == Seq::<nat>::empty(),
            forall|id: nat| !page.issued(id),
    {
        let page = PageModel { dom: Vec::new(), keys: Vec::new(), log: Ghost(Seq::empty()) };
        assert(as_page(page.dom@) == Seq::<nat>::empty());
        page
    }

    /// The key of the row with the identity `id`.
    pub closed spec fn key_of(&self, id: nat) -> u64 {
        self.keys@[id as int]
    }

    /// The keys of the rows shown, in order.
    pub fn shown_keys(&self) -> (keys: Vec<u64>)
        requires
            self.inv(),
        ensures
            keys@.len() == self.shown().len(),
            forall|k: int| 0 <= k < keys@.len() ==> keys@[k] == self.key_of(#[trigger] self.shown()[k]),
    {
        let mut keys: Vec<u64> = Vec::new();
        let mut i: usize = 0;
        while i < self.dom.len()
            invariant
                i <= self.dom@.len(),
                keys@.len() == i,
                self.inv(),
                forall|k: int| 0 <= k < i ==> keys@[k] == self.keys@[self.dom@[k] as int],
            decreases self.dom.len() - i,
        {
            let id = self.dom[i];
            keys.push(self.keys[id]);
            i += 1;
        }
        proof {
            lemma_as_page_contains(self.dom@, 0);
        }
        keys
    }

    /// Removes `id` from the rows shown, if it is there.
    fn take_off(&mut self, id: usize)
        requires
            old(self).inv(),
        ensures
            final(self).inv(),
            final(self).keys == old(self).keys,
            final(self).shown() == unmounted(old(self).shown(), id as nat),
            final(self).log == old(self).log,
    {
        let ghost before = self.dom@;
        proof {
            lemma_as_page_contains(before, id);
        }
        match position(&self.dom, id) {
            Some(i) => {
                self.dom.remove(i);
                proof {
                    lemma_as_page_index_of(before, i as int);
                    assert(as_page(self.dom@) == as_page(before).remove(i as int));
                    assert forall|a: int, b: int|
                        0 <= a < self.dom@.len() && 0 <= b < self.dom@.len() && a != b implies self.dom@[a]
                        != self.dom@[b] by {
                        let a0 = if a < i { a } else { a + 1 };
                        let b0 = if b < i { b } else { b + 1 };
                        assert(self.dom@[a] == before[a0]);
                        assert(self.dom@[b] == before[b0]);
                    }
                    assert forall|k: int| 0 <= k < self.dom@.len() implies self.dom@[k] < self.keys@.len() by {
                        let k0 = if k < i { k } else { k + 1 };
                        assert(self.dom@[k] == before[k0]);
                    }
                }
            },
            None => {},
        }
    }
}

impl ListOps for PageModel {
    type Item = u64;

    type Row = ModelRow;

    open spec fn row_id(row: ModelRow) -> nat {
        row.id as nat
    }

    closed spec fn shown(&self) -> Seq<nat> {
        as_page(self.dom@)
    }

    open spec fn origin(row: ModelRow) -> (usize, u64) {
        (row.built_at, row.key)
    }

    closed spec fn issued(&self, id: nat) -> bool {
        id < self.keys@.len()
    }

    closed spec fn log(&self) -> Seq<PageOp> {
        self.log@
    }

    closed spec fn inv(&self) -> bool {
        &&& self.dom@.no_duplicates()
        &&& forall|k: int| 0 <= k < self.dom@.len() ==> #[trigger] self.dom@[k] < self.keys@.len()
    }

    fn build(&mut self, index: usize, item: u64) -> (row: ModelRow) {
        let id = self.keys.len();
        self.keys.push(item);
        proof {
            lemma_as_page_contains(self.dom@, id);
            assert(!self.dom@.contains(id)) by {
                if self.dom@.contains(id) {
                    let k = choose|k: int| 0 <= k < self.dom@.len() && self.dom@[k] == id;
                    assert(self.dom@[k] < old(self).keys@.len());
                }
            }
        }
        self.log = Ghost(self.log@.push(PageOp::Build { index, id: id as nat }));
        ModelRow { key: item, built_at: index, id }
    }

    fn unmount(&mut self, row: &mut ModelRow) {
        self.take_off(row.id);
        self.log = Ghost(self.log@.push(PageOp::Unmount { id: row.id as nat }));
    }

    fn mount(&mut self, row: &mut ModelRow, before: Option<&ModelRow>) {
        self.take_off(row.id);
        self.log = Ghost(self.log@.push(PageOp::Mount { id: row.id as nat }));
        let ghost rest = self.dom@;
        proof {
            lemma_as_page_contains(rest, row.id);
            lemma_as_page_no_duplicates(rest);
        }
        let at = match before {
            Some(anchor) => position(&self.dom, anchor.id),
            None => None,
        };
        match at {
            Some(i) => {
                self.dom.insert(i, row.id);
                proof {
                    lemma_as_page_index_of(rest, i as int);
                    assert(as_page(self.dom@) == as_page(rest).insert(i as int, row.id as nat));
                    assert forall|a: int, b: int|
                        0 <= a < self.dom@.len() && 0 <= b < self.dom@.len() && a != b implies self.dom@[a]
                        != self.dom@[b] by {
                        if a != i && b != i {
                            let a0 = if a < i { a } else { a - 1 };
                            let b0 = if b < i { b } else { b - 1 };
                            assert(self.dom@[a] == rest[a0]);
                            assert(self.dom@[b] == rest[b0]);
                        } else if a == i {
                            let b0 = if b < i { b } else { b - 1 };
                            assert(self.dom@[b] == rest[b0]);
                        } else {
                            let a0 = if a < i { a } else { a - 1 };
                            assert(self.dom@[a] == rest[a0]);
                        }
                    }
                    assert forall|k: int| 0 <= k < self.dom@.len() implies self.dom@[k] < self.keys@.len() by {
                        if k != i {
                            let k0 = if k < i { k } else { k - 1 };
                            assert(self.dom@[k] == rest[k0]);
                        }
                    }
                }
            },
            None => {
                self.dom.push(row.id);
                proof {
                    assert(as_page(self.dom@) == as_page(rest).push(row.id as nat));
                    match before {
                        Some(anchor) => {
                            lemma_as_page_contains(rest, anchor.id);
                        },
                        None => {},
                    }
                    assert forall|a: int, b: int|
                        0 <= a < self.dom@.len() && 0 <= b < self.dom@.len() && a != b implies self.dom@[a]
                        != self.dom@[b] by {
                        if a < rest.len() && b < rest.len() {
                            assert(self.dom@[a] == rest[a]);
                            assert(self.dom@[b] == rest[b]);
                        } else if a < rest.len() {
                            assert(self.dom@[a] == rest[a]);
                            assert(rest.contains(rest[a]));
                        } else {
                            assert(self.dom@[b] == rest[b]);
                            assert(rest.contains(rest[b]));
                        }
                    }
                }
            },
        }
    }

    fn set_index(&mut self, row: &ModelRow, index: usize) {
        self.log = Ghost(self.log@.push(PageOp::SetIndex { id: row.id as nat, index }));
    }
}

} // verus!
