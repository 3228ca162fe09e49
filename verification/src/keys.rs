//! The ordered key sets of keyed lists: `indexmap`'s `IndexSet` hashed with `rustc_hash`'s
//! `FxHasher`, keyed by integers.

use indexmap::IndexSet;
use rustc_hash::FxHasher;
use std::hash::BuildHasherDefault;
use vstd::prelude::*;

verus! {

#[verifier::external_type_specification]
#[verifier::external_body]
#[verifier::reject_recursive_types(T)]
#[verifier::reject_recursive_types(S)]
pub struct ExIndexSet<T, S>(IndexSet<T, S>);

#[verifier::external_type_specification]
#[verifier::external_body]
pub struct ExFxHasher(FxHasher);

#[verifier::external_type_specification]
#[verifier::external_body]
#[verifier::reject_recursive_types(H)]
pub struct ExBuildHasherDefault<H>(BuildHasherDefault<H>);

/// The keys of a keyed list, in order, each once.
pub type FxIndexSet = IndexSet<u64, BuildHasherDefault<FxHasher>>;

/// The keys a set holds, in insertion order.
pub uninterp spec fn set_keys(set: FxIndexSet) -> Seq<u64>;

/// `IndexSet::default`: a set with no keys.
#[verifier::external_body]
pub(crate) fn new_key_set() -> (set: FxIndexSet)
    ensures
        set_keys(set) == Seq::<u64>::empty(),
{
    IndexSet::default()
}

/// `IndexSet::insert`: appends `key` unless the set holds it already; `true` if it was
/// appended.
#[verifier::external_body]
pub(crate) fn insert_key(set: &mut FxIndexSet, key: u64) -> (inserted: bool)
    ensures
        inserted == !set_keys(*old(set)).contains(key),
        set_keys(*final(set)) == if inserted {
            set_keys(*old(set)).push(key)
        } else {
            set_keys(*old(set))
        },
{
    set.insert(key)
}

/// `IndexSet::len`: the number of keys.
#[verifier::external_body]
pub(crate) fn key_set_len(set: &FxIndexSet) -> (n: usize)
    ensures
        n == set_keys(*set).len(),
{
    set.len()
}

/// `IndexSet::get_index`: the key at `index`, if there is one.
#[verifier::external_body]
pub(crate) fn key_at(set: &FxIndexSet, index: usize) -> (key: Option<u64>)
    ensures
        key == if index < set_keys(*set).len() {
            Some(set_keys(*set)[index as int])
        } else {
            None::<u64>
        },
{
    set.get_index(index).copied()
}

/// `IndexSet::get_index_of`: where `key` is in the set, if it is there.
#[verifier::external_body]
pub(crate) fn index_of_key(set: &FxIndexSet, key: u64) -> (index: Option<usize>)
    ensures
        match index {
            Some(i) => i < set_keys(*set).len() && set_keys(*set)[i as int] == key,
            None => !set_keys(*set).contains(key),
        },
{
    set.get_index_of(&key)
}

/// `IndexSet::contains`: whether the set holds `key`.
#[verifier::external_body]
pub(crate) fn contains_key(set: &FxIndexSet, key: u64) -> (found: bool)
    ensures
        found == set_keys(*set).contains(key),
{
    set.contains(&key)
}

/// `keys` with each key where it first occurs, in order.
pub open spec fn first_occurrences(keys: Seq<u64>) -> Seq<u64>
    decreases keys.len(),
{
    if keys.len() == 0 {
        seq![]
    } else {
        let before = first_occurrences(keys.drop_last());
        if before.contains(keys.last()) {
            before
        } else {
            before.push(keys.last())
        }
    }
}

/// The set of `keys`, in order, each once (the first of repeated keys is kept).
pub fn key_set_from(keys: &[u64]) -> (set: FxIndexSet)
    ensures
        set_keys(set) == first_occurrences(keys@),
        set_keys(set).no_duplicates(),
        set_keys(set).to_set() == keys@.to_set(),
        keys@.no_duplicates() ==> set_keys(set) == keys@,
{
    let mut set = new_key_set();
    let mut i: usize = 0;
    while i < keys.len()
        invariant
            i <= keys.len(),
            set_keys(set).no_duplicates(),
            set_keys(set) == first_occurrences(keys@.take(i as int)),
            set_keys(set).to_set() == keys@.take(i as int).to_set(),
            keys@.no_duplicates() ==> set_keys(set) == keys@.take(i as int),
        decreases keys.len() - i,
    {
        let key = keys[i];
        let ghost before = set_keys(set);
        insert_key(&mut set, key);
        proof {
            assert(keys@.take(i + 1) == keys@.take(i as int).push(key));
            assert(keys@.take(i + 1).drop_last() == keys@.take(i as int));
            before.lemma_push_to_set_commute(key);
            keys@.take(i as int).lemma_push_to_set_commute(key);
            if before.contains(key) {
                assert(before.to_set().contains(key));
                assert(before.to_set().insert(key) == before.to_set());
            }
            if keys@.no_duplicates() {
                assert(!keys@.take(i as int).contains(key)) by {
                    if keys@.take(i as int).contains(key) {
                        let j = choose|j: int| 0 <= j < i && keys@.take(i as int)[j] == key;
                        assert(keys@[j] == keys@[i as int]);
                    }
                }
            }
        }
        i += 1;
    }
    assert(keys@.take(keys.len() as int) == keys@);
    set
}

} // verus!
