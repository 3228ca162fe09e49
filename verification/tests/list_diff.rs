use halyard_tachys::keys::FxIndexSet;
use halyard_tachys::list_apply::{apply_or_rebuild, reconcile};
use halyard_tachys::list_diff::{diff, Diff, DiffOpAdd, DiffOpAddMode, DiffOpMove, ListError, ListOps};
use std::collections::HashMap;

/// A plan written by hand, to test what happens when one does not fit the rows.
fn plan(removed: &[usize], moved: &[(usize, usize, bool)], added: &[usize]) -> Diff {
    Diff {
        removed: removed.to_vec(),
        moved: moved
            .iter()
            .map(|&(from, to, move_in_dom)| DiffOpMove { from, to, move_in_dom })
            .collect(),
        added: added
            .iter()
            .map(|&at| DiffOpAdd { at, mode: DiffOpAddMode::Normal })
            .collect(),
        clear: false,
    }
}

type Key = u64;

/// A rendered row: its key, and which build made it.
#[derive(Debug)]
struct Row {
    key: Key,
    id: usize,
}

/// What the diff asked the list to do, in order.
#[derive(Clone, Debug, PartialEq, Eq)]
enum Op {
    Build { index: usize, key: Key },
    Unmount { key: Key },
    Mount { key: Key, before: Option<Key> },
    SetIndex { key: Key, index: usize },
}

/// The list's parent in a model DOM: the ids of the rows it shows, in order. It does
/// what the browser does: mounting a row that is already shown moves it, and mounting
/// before a row that is not shown mounts at the end (before the list's marker).
#[derive(Default)]
struct Model {
    dom: Vec<usize>,
    keys: HashMap<usize, Key>,
    next_id: usize,
    ops: Vec<Op>,
}

impl ListOps for Model {
    type Item = Key;
    type Row = Row;

    fn build(&mut self, index: usize, key: Key) -> Row {
        let id = self.next_id;
        self.next_id += 1;
        self.keys.insert(id, key);
        self.ops.push(Op::Build { index, key });
        Row { key, id }
    }

    fn unmount(&mut self, row: &mut Row) {
        self.dom.retain(|&id| id != row.id);
        self.ops.push(Op::Unmount { key: row.key });
    }

    fn mount(&mut self, row: &mut Row, before: Option<&Row>) {
        self.dom.retain(|&id| id != row.id);
        let at = before
            .and_then(|anchor| self.dom.iter().position(|&id| id == anchor.id))
            .unwrap_or(self.dom.len());
        self.dom.insert(at, row.id);
        self.ops.push(Op::Mount { key: row.key, before: before.map(|anchor| anchor.key) });
    }

    fn set_index(&mut self, row: &Row, index: usize) {
        self.ops.push(Op::SetIndex { key: row.key, index });
    }
}

/// A keyed list in the model DOM, updated as a keyed list view updates one.
struct List {
    keys: FxIndexSet,
    rows: Vec<Option<Row>>,
    model: Model,
    /// What the last update reported, if it recovered from something.
    reported: Option<ListError>,
}

impl List {
    /// Renders and mounts `keys` as the first render does: every item, repeated keys
    /// included.
    fn new(keys: &[Key]) -> Self {
        let mut model = Model::default();
        let rows = keys
            .iter()
            .enumerate()
            .map(|(index, &key)| {
                let mut row = model.build(index, key);
                model.mount(&mut row, None);
                Some(row)
            })
            .collect();
        model.ops.clear();
        Self { keys: keys.iter().copied().collect(), rows, model, reported: None }
    }

    /// Updates the list to `keys`; returns what the diff did.
    fn update(&mut self, keys: &[Key]) -> Vec<Op> {
        let new_keys: FxIndexSet = keys.iter().copied().collect();
        let items = keys.iter().copied().map(Some).collect();
        self.reported = reconcile(&self.keys, &new_keys, &mut self.rows, items, &mut self.model);
        self.keys = new_keys;
        std::mem::take(&mut self.model.ops)
    }

    /// Applies a hand-written `plan` for the update to `keys`.
    fn apply(&mut self, plan: Diff, keys: &[Key]) -> Vec<Op> {
        let items = keys.iter().copied().map(Some).collect();
        self.reported = apply_or_rebuild(plan, &mut self.rows, items, &mut self.model);
        self.keys = keys.iter().copied().collect();
        std::mem::take(&mut self.model.ops)
    }

    /// The keys the page shows, in order.
    fn shown(&self) -> Vec<Key> {
        self.model.dom.iter().map(|id| self.model.keys[id]).collect()
    }

    /// The keys of the retained rows, in order (`None` for a hole).
    fn row_keys(&self) -> Vec<Option<Key>> {
        self.rows.iter().map(|row| row.as_ref().map(|row| row.key)).collect()
    }

    /// The row ids by key (for lists of distinct keys).
    fn ids(&self) -> HashMap<Key, usize> {
        self.rows.iter().flatten().map(|row| (row.key, row.id)).collect()
    }
}

fn some(keys: &[Key]) -> Vec<Option<Key>> {
    keys.iter().copied().map(Some).collect()
}

/// Updates `list` (of distinct keys) to `new` (distinct keys) and checks the result:
/// the page shows `new` in order, the rows match it, every kept key keeps its row,
/// every new key gets one new row and every removed row is unmounted.
fn check_update(list: &mut List, new: &[Key]) -> Result<Vec<Op>, String> {
    let old: Vec<Key> = list.keys.iter().copied().collect();
    let old_ids = list.ids();
    let first_new_id = list.model.next_id;
    let ops = list.update(new);
    let failure = |list: &List, what: &str| {
        format!(
            "{old:?} -> {new:?}: {what} (shown {:?}, rows {:?}, ops {ops:?})",
            list.shown(),
            list.row_keys()
        )
    };
    if list.shown() != new {
        return Err(failure(list, "the page does not show the new order"));
    }
    if list.row_keys() != some(new) {
        return Err(failure(list, "the rows are not in the new order"));
    }
    for row in list.rows.iter().flatten() {
        let reused = match old_ids.get(&row.key) {
            Some(&id) => id == row.id,
            None => row.id >= first_new_id,
        };
        if !reused {
            return Err(failure(list, "a row was built again or reused"));
        }
    }
    let built = ops.iter().filter(|op| matches!(op, Op::Build { .. })).count();
    let unmounted = ops.iter().filter(|op| matches!(op, Op::Unmount { .. })).count();
    let added = new.iter().filter(|key| !old_ids.contains_key(key)).count();
    let removed = old.iter().filter(|key| !new.contains(key)).count();
    if built != added || unmounted != removed {
        return Err(failure(list, "rows were built or unmounted needlessly"));
    }
    Ok(ops)
}

/// Calls `f` with every pair of lists of distinct keys with at most `max` keys each,
/// up to renaming keys (the diff only compares keys): the old list is `0..m`, the new
/// one any arrangement of some of those and of fresh keys (`m`, `m + 1`, ..., named in
/// the order they appear).
fn for_each_small_pair(max: usize, mut f: impl FnMut(&[Key], &[Key])) {
    fn extend(
        old: &[Key],
        new: &mut Vec<Key>,
        used: &mut [bool],
        fresh: Key,
        max: usize,
        f: &mut dyn FnMut(&[Key], &[Key]),
    ) {
        f(old, new);
        if new.len() == max {
            return;
        }
        for key in 0..old.len() {
            if !used[key] {
                used[key] = true;
                new.push(key as Key);
                extend(old, new, used, fresh, max, f);
                new.pop();
                used[key] = false;
            }
        }
        new.push(fresh);
        extend(old, new, used, fresh + 1, max, f);
        new.pop();
    }

    for m in 0..=max {
        let old: Vec<Key> = (0..m as Key).collect();
        let mut used = vec![false; m];
        extend(&old, &mut Vec::new(), &mut used, m as Key, max, &mut f);
    }
}

/// xorshift64*: deterministic, so a failure can be reproduced.
struct Rng(u64);

impl Rng {
    fn next(&mut self) -> u64 {
        self.0 ^= self.0 >> 12;
        self.0 ^= self.0 << 25;
        self.0 ^= self.0 >> 27;
        self.0.wrapping_mul(0x2545_F491_4F6C_DD1D)
    }

    fn below(&mut self, n: usize) -> usize {
        if n == 0 {
            0
        } else {
            (self.next() % n as u64) as usize
        }
    }

    fn shuffle(&mut self, keys: &mut [Key]) {
        for i in (1..keys.len()).rev() {
            keys.swap(i, self.below(i + 1));
        }
    }
}

/// A random edit of `old`: the kinds of change a real list sees (a few moves,
/// insertions and removals; a filter; a sort; a reversal), and arbitrary ones.
fn random_edit(rng: &mut Rng, old: &[Key], fresh: &mut Key) -> Vec<Key> {
    let mut new = old.to_vec();
    match rng.below(5) {
        0 => {
            for _ in 0..1 + rng.below(4) {
                match rng.below(4) {
                    0 if new.len() >= 2 => {
                        let (a, b) = (rng.below(new.len()), rng.below(new.len()));
                        new.swap(a, b);
                    }
                    1 if !new.is_empty() => {
                        new.remove(rng.below(new.len()));
                    }
                    2 => {
                        new.insert(rng.below(new.len() + 1), *fresh);
                        *fresh += 1;
                    }
                    _ if !new.is_empty() => {
                        let key = new.remove(rng.below(new.len()));
                        new.insert(rng.below(new.len() + 1), key);
                    }
                    _ => {}
                }
            }
        }
        1 => new.retain(|_| rng.below(3) != 0),
        2 => new.sort_unstable(),
        3 => new.reverse(),
        _ => {
            new.retain(|_| rng.below(4) != 0);
            for _ in 0..rng.below(6) {
                new.push(*fresh);
                *fresh += 1;
            }
            rng.shuffle(&mut new);
        }
    }
    new
}

#[test]
fn every_pair_of_small_lists_ends_in_the_new_order() {
    let mut cases = 0usize;
    let mut wrong = 0usize;
    let mut first = Vec::new();
    for_each_small_pair(7, |old, new| {
        cases += 1;
        if let Err(failure) = check_update(&mut List::new(old), new) {
            wrong += 1;
            if first.len() < 3 {
                first.push(failure);
            }
        }
    });
    assert!(cases > 200_000, "only {cases} cases");
    assert_eq!(wrong, 0, "{wrong} of {cases} updates went wrong; the first:\n{}", first.join("\n"));
}

#[test]
fn random_longer_lists_end_in_the_new_order() {
    let mut rng = Rng(0x9E37_79B9_7F4A_7C15);
    let mut updates = 0usize;
    let mut wrong = 0usize;
    let mut first = Vec::new();
    for _ in 0..2_000 {
        let len = rng.below(48);
        let mut start: Vec<Key> = (0..len as Key).collect();
        rng.shuffle(&mut start);
        let mut fresh = len as Key;
        let mut list = List::new(&start);
        for _ in 0..6 {
            let old: Vec<Key> = list.keys.iter().copied().collect();
            let new = random_edit(&mut rng, &old, &mut fresh);
            updates += 1;
            if let Err(failure) = check_update(&mut list, &new) {
                wrong += 1;
                if first.len() < 3 {
                    first.push(failure);
                }
                // the model no longer matches the rows; start a new list
                break;
            }
        }
    }
    assert_eq!(wrong, 0, "{wrong} of {updates} updates went wrong; the first:\n{}", first.join("\n"));
}

/// Wherever the positional diff below leaves the page right, the library's diff does the
/// same DOM operations in the same order: the same moves, insertions and removals.
#[test]
fn same_operations_as_the_previous_diff_wherever_it_was_right() {
    let mut same = 0usize;
    let mut positionally_wrong = 0usize;
    let mut compare = |old: &[Key], new: &[Key]| {
        let mut before = List::new(old);
        let expected = positional_update(&mut before, new);
        if before.shown() != new {
            positionally_wrong += 1;
            return;
        }
        let mut after = List::new(old);
        assert_eq!(after.update(new), expected, "{old:?} -> {new:?}");
        same += 1;
    };
    for_each_small_pair(7, &mut compare);
    let mut rng = Rng(0x0DDB_1A5E_5BAD_5EED);
    for _ in 0..5_000 {
        let len = rng.below(48);
        let mut old: Vec<Key> = (0..len as Key).collect();
        rng.shuffle(&mut old);
        let mut fresh = len as Key;
        let new = random_edit(&mut rng, &old, &mut fresh);
        compare(&old, &new);
    }
    assert!(same > 200_000, "only {same} cases compared");
    assert!(positionally_wrong > 0);
}

/// A row that keeps its place on the page must not cross a row that stays at its
/// index: the page must not show `[1, 3, 4, 2, 0]`.
#[test]
fn a_row_moving_past_a_row_that_stays_is_moved_in_the_dom() {
    let mut list = List::new(&[0, 1, 2]);
    let ops = list.update(&[3, 4, 2, 1, 0]);
    assert_eq!(list.shown(), [3, 4, 2, 1, 0]);
    assert_eq!(
        ops,
        [
            Op::Mount { key: 0, before: None },
            Op::SetIndex { key: 0, index: 4 },
            Op::Mount { key: 1, before: Some(0) },
            Op::SetIndex { key: 1, index: 3 },
            Op::Build { index: 0, key: 3 },
            Op::Mount { key: 3, before: Some(2) },
            Op::Build { index: 1, key: 4 },
            Op::Mount { key: 4, before: Some(2) },
        ]
    );
}

#[test]
fn empty_lists() {
    let mut list = List::new(&[]);
    assert_eq!(list.update(&[]), []);
    assert_eq!(list.shown(), Vec::<Key>::new());
    check_update(&mut list, &[1, 2]).unwrap();
    check_update(&mut list, &[]).unwrap();
    assert!(list.rows.is_empty());
    check_update(&mut list, &[]).unwrap();
    check_update(&mut list, &[3]).unwrap();
}

/// Keys should be unique, but nothing stops a list from repeating one. Every item is
/// shown, in order, as the first render and the server render show them.
#[test]
fn repeated_keys_in_an_update_show_every_item_in_order() {
    let mut list = List::new(&[1]);
    list.update(&[2, 2, 3]);
    assert_eq!(list.shown(), [2, 2, 3]);
    assert_eq!(list.row_keys(), some(&[2, 2, 3]));
    assert!(matches!(list.reported, Some(ListError::RepeatedKeys { items: 3, keys: 2 })));
}

/// The first render shows both `1`s; the update must remove both.
#[test]
fn repeated_keys_in_the_first_render_leave_no_stale_rows() {
    let mut list = List::new(&[1, 1]);
    list.update(&[2]);
    assert_eq!(list.shown(), [2]);
    assert_eq!(list.row_keys(), some(&[2]));
    assert!(matches!(list.reported, Some(ListError::RepeatedKeys { items: 2, keys: 1 })));
}

/// Once the keys are unique again, the list is diffed by key again: rows are kept.
#[test]
fn a_list_whose_keys_stop_repeating_is_diffed_by_key_again() {
    let mut list = List::new(&[1, 1]);
    list.update(&[1, 2]);
    assert_eq!(list.shown(), [1, 2]);
    let ids = list.ids();
    check_update(&mut list, &[2, 1, 3]).unwrap();
    assert_eq!(list.ids()[&1], ids[&1]);
    assert_eq!(list.ids()[&2], ids[&2]);
}

/// Applies a plan that does not fit the rows of `[1, 2, 3]` for the update to
/// `[3, 4]`: the list is rendered again from scratch, so the page is right.
fn recovers_from(plan: Diff) {
    let mut list = List::new(&[1, 2, 3]);
    let old_ids = list.ids();
    list.apply(plan, &[3, 4]);
    assert_eq!(list.shown(), [3, 4]);
    assert_eq!(list.row_keys(), some(&[3, 4]));
    assert!(
        list.rows.iter().flatten().all(|row| !old_ids.values().any(|&id| id == row.id)),
        "every row is rendered again"
    );
    assert!(matches!(list.reported, Some(ListError::Invariant(_))));
}

#[test]
fn a_plan_removing_past_the_end_renders_the_list_again() {
    recovers_from(plan(&[0, 7], &[(2, 0, true)], &[1]));
}

#[test]
fn a_plan_removing_a_row_twice_renders_the_list_again() {
    recovers_from(plan(&[0, 0], &[(2, 0, true)], &[1]));
}

#[test]
fn a_plan_moving_a_missing_row_renders_the_list_again() {
    recovers_from(plan(&[0, 1], &[(9, 0, true)], &[1]));
}

#[test]
fn a_plan_moving_past_the_end_renders_the_list_again() {
    recovers_from(plan(&[0, 1], &[(2, 9, false)], &[1]));
}

#[test]
fn a_plan_adding_past_the_end_renders_the_list_again() {
    recovers_from(plan(&[0, 1], &[(2, 0, true)], &[5]));
}

#[test]
fn a_plan_moving_two_rows_to_one_place_renders_the_list_again() {
    recovers_from(plan(&[0], &[(1, 0, false), (2, 0, false)], &[]));
}

#[test]
fn a_plan_leaving_a_hole_renders_the_list_again() {
    recovers_from(plan(&[0, 1], &[], &[1]));
}

/// The plan that fits `[1, 2, 3]` to `[3, 4]` is carried out as it is: the kept row keeps
/// its identity and nothing is reported.
#[test]
fn a_plan_that_fits_is_carried_out_without_a_report() {
    let mut list = List::new(&[1, 2, 3]);
    let old_ids = list.ids();
    list.apply(plan(&[0, 1], &[(2, 0, true)], &[1]), &[3, 4]);
    assert_eq!(list.shown(), [3, 4]);
    assert_eq!(list.row_keys(), some(&[3, 4]));
    assert_eq!(list.ids()[&3], old_ids[&3]);
    assert!(list.reported.is_none());
}

/// The diff of `[1, 2, 3]` to `[3, 4]`: two removals, one move, one addition.
#[test]
fn diff_of_a_small_update_is_exact() {
    let from: FxIndexSet = [1, 2, 3].into_iter().collect();
    let to: FxIndexSet = [3, 4].into_iter().collect();
    let plan_found = diff(&from, &to).unwrap();
    assert_eq!(plan_found.removed, vec![0, 1]);
    assert_eq!(plan_found.moved, vec![DiffOpMove { from: 2, to: 0, move_in_dom: true }]);
    assert_eq!(plan_found.added, vec![DiffOpAdd { at: 1, mode: DiffOpAddMode::Normal }]);
    assert!(!plan_found.clear);
}

/// Clearing a list and filling an empty one are the two special plans.
#[test]
fn diff_clears_and_appends() {
    let some_keys: FxIndexSet = [5, 6].into_iter().collect();
    let none: FxIndexSet = FxIndexSet::default();
    let cleared = diff(&some_keys, &none).unwrap();
    assert!(cleared.clear);
    assert!(cleared.removed.is_empty() && cleared.moved.is_empty() && cleared.added.is_empty());
    let filled = diff(&none, &some_keys).unwrap();
    assert_eq!(
        filled.added,
        vec![
            DiffOpAdd { at: 0, mode: DiffOpAddMode::Append },
            DiffOpAdd { at: 1, mode: DiffOpAddMode::Append }
        ]
    );
    assert!(!filled.clear);
}

/// A positional diff, which compares the keys index by index and groups adjacent moves; it
/// does not always leave the page right, and the library's diff is held to it wherever it
/// does. `positional_update` updates a list with it.
fn positional_update(list: &mut List, keys: &[Key]) -> Vec<Op> {
    let new_keys: FxIndexSet = keys.iter().copied().collect();
    let items = keys.iter().copied().map(Some).collect();
    let cmds = positional_diff(&list.keys, &new_keys);
    positional_apply_diff(cmds, &mut list.rows, items, &mut list.model);
    list.keys = new_keys;
    std::mem::take(&mut list.model.ops)
}

fn positional_diff(from: &FxIndexSet, to: &FxIndexSet) -> PositionalDiff {
    if from.is_empty() && to.is_empty() {
        return PositionalDiff::default();
    } else if to.is_empty() {
        return PositionalDiff { clear: true, ..Default::default() };
    } else if from.is_empty() {
        return PositionalDiff {
            added: to
                .iter()
                .enumerate()
                .map(|(at, _)| PositionalAdd { at, mode: PositionalAddMode::Append })
                .collect(),
            ..Default::default()
        };
    }

    let mut removed = vec![];
    let mut moved = vec![];
    let mut added = vec![];
    let max_len = if from.len() > to.len() { from.len() } else { to.len() };

    for index in 0..max_len {
        let from_item = from.get_index(index);
        let to_item = to.get_index(index);
        if from_item != to_item {
            if from_item.is_some() && !to.contains(from_item.unwrap()) {
                removed.push(PositionalRemove { at: index });
            }
            if to_item.is_some() && !from.contains(to_item.unwrap()) {
                added.push(PositionalAdd { at: index, mode: PositionalAddMode::Normal });
            }
            if let Some(from_item) = from_item {
                if let Some(to_item) = to.get_full(from_item) {
                    let moves_forward_by = (to_item.0 as i32) - (index as i32);
                    let move_in_dom = moves_forward_by != (added.len() as i32) - (removed.len() as i32);
                    moved.push(PositionalMove { from: index, len: 1, to: to_item.0, move_in_dom });
                }
            }
        }
    }

    moved = positional_group_adjacent_moves(moved);

    PositionalDiff { removed, items_to_move: moved.iter().map(|m| m.len).sum(), moved, added, clear: false }
}

fn positional_group_adjacent_moves(moved: Vec<PositionalMove>) -> Vec<PositionalMove> {
    let mut prev: Option<PositionalMove> = None;
    let mut new_moved = Vec::with_capacity(moved.len());
    for m in moved {
        match prev {
            Some(mut p) => {
                if (m.from == p.from + p.len) && (m.to == p.to + p.len) {
                    p.len += 1;
                    prev = Some(p);
                } else {
                    new_moved.push(prev.take().unwrap());
                    prev = Some(m);
                }
            }
            None => prev = Some(m),
        }
    }
    if let Some(prev) = prev {
        new_moved.push(prev)
    }
    new_moved
}

#[derive(Debug, Default)]
struct PositionalDiff {
    removed: Vec<PositionalRemove>,
    moved: Vec<PositionalMove>,
    items_to_move: usize,
    added: Vec<PositionalAdd>,
    clear: bool,
}

#[derive(Clone, Copy, Debug)]
struct PositionalMove {
    from: usize,
    len: usize,
    to: usize,
    move_in_dom: bool,
}

#[derive(Clone, Copy, Debug)]
struct PositionalAdd {
    at: usize,
    mode: PositionalAddMode,
}

#[derive(Debug)]
struct PositionalRemove {
    at: usize,
}

#[derive(Clone, Copy, Debug)]
enum PositionalAddMode {
    Normal,
    Append,
}

fn positional_next_row<T>(rows: &[Option<T>], start_at: usize) -> Option<&T> {
    rows[start_at..].iter().find(|s| s.is_some())?.as_ref()
}

fn positional_apply_diff<O: ListOps>(
    diff: PositionalDiff,
    children: &mut Vec<Option<O::Row>>,
    mut items: Vec<Option<O::Item>>,
    ops: &mut O,
) {
    if diff.clear {
        for mut child in children.drain(0..).flatten() {
            ops.unmount(&mut child);
        }
        if diff.added.is_empty() {
            return;
        }
    }

    for PositionalRemove { at } in &diff.removed {
        let mut item_to_remove = children[*at].take().unwrap();
        ops.unmount(&mut item_to_remove);
    }

    let (move_cmds, add_cmds) = positional_unpack_moves(&diff);

    let mut moved_children = move_cmds.iter().map(|move_| children[move_.from].take()).collect::<Vec<_>>();

    children.resize_with(children.len() + diff.added.len(), || None);

    for (i, PositionalMove { to, .. }) in move_cmds.iter().enumerate().filter(|(_, move_)| !move_.move_in_dom) {
        children[*to] = moved_children[i].take().inspect(|row| ops.set_index(row, *to));
    }

    for (i, PositionalMove { to, .. }) in move_cmds.into_iter().enumerate().filter(|(_, move_)| move_.move_in_dom) {
        let mut each_item = moved_children[i].take().unwrap();
        ops.mount(&mut each_item, positional_next_row(children, to));
        ops.set_index(&each_item, to);
        children[to] = Some(each_item);
    }

    for PositionalAdd { at, mode } in add_cmds {
        let item = items[at].take().unwrap();
        let mut item = ops.build(at, item);
        let before = match mode {
            PositionalAddMode::Normal => positional_next_row(children, at),
            PositionalAddMode::Append => None,
        };
        ops.mount(&mut item, before);
        children[at] = Some(item);
    }

    children.retain(Option::is_some);
}

fn positional_unpack_moves(diff: &PositionalDiff) -> (Vec<PositionalMove>, Vec<PositionalAdd>) {
    let mut moves = Vec::with_capacity(diff.items_to_move);
    let mut adds = Vec::with_capacity(diff.added.len());

    let mut removes_iter = diff.removed.iter();
    let mut adds_iter = diff.added.iter();
    let mut moves_iter = diff.moved.iter();

    let mut removes_next = removes_iter.next();
    let mut adds_next = adds_iter.next();
    let mut moves_next = moves_iter.next().copied();

    for i in 0..diff.items_to_move + diff.added.len() + diff.removed.len() {
        if let Some(PositionalRemove { at, .. }) = removes_next {
            if i == *at {
                removes_next = removes_iter.next();
                continue;
            }
        }

        match (adds_next, &mut moves_next) {
            (Some(add), Some(move_)) => {
                if add.at == i {
                    adds.push(*add);
                    adds_next = adds_iter.next();
                } else {
                    let mut single_move = *move_;
                    single_move.len = 1;
                    moves.push(single_move);
                    move_.len -= 1;
                    move_.from += 1;
                    move_.to += 1;
                    if move_.len == 0 {
                        moves_next = moves_iter.next().copied();
                    }
                }
            }
            (Some(add), None) => {
                adds.push(*add);
                adds_next = adds_iter.next();
            }
            (None, Some(move_)) => {
                let mut single_move = *move_;
                single_move.len = 1;
                moves.push(single_move);
                move_.len -= 1;
                move_.from += 1;
                move_.to += 1;
                if move_.len == 0 {
                    moves_next = moves_iter.next().copied();
                }
            }
            (None, None) => break,
        }
    }

    (moves, adds)
}

use halyard_tachys::keys::key_set_from;
use halyard_tachys::page_model::PageModel;

/// The key set of a list keeps the first of repeated keys, in order.
#[test]
fn a_key_set_keeps_each_key_once_in_order() {
    let set = key_set_from(&[3, 1, 3, 2]);
    assert_eq!(set.iter().copied().collect::<Vec<_>>(), [3, 1, 2]);
}

/// The page model of the library shows a list's rows in the order the update leaves them.
#[test]
fn the_page_model_shows_the_new_order() {
    let mut page = PageModel::new();
    let mut rows = Vec::new();
    for (index, key) in [1u64, 2, 3].into_iter().enumerate() {
        let mut row = page.build(index, key);
        page.mount(&mut row, None);
        rows.push(Some(row));
    }
    assert_eq!(page.shown_keys(), [1, 2, 3]);
    let old_keys = key_set_from(&[1, 2, 3]);
    let new_keys = key_set_from(&[3, 4, 1]);
    let reported = reconcile(&old_keys, &new_keys, &mut rows, vec![Some(3), Some(4), Some(1)], &mut page);
    assert!(reported.is_none());
    assert_eq!(page.shown_keys(), [3, 4, 1]);
    assert_eq!(rows.iter().map(|row| row.as_ref().map(|row| row.key)).collect::<Vec<_>>(), [Some(3), Some(4), Some(1)]);
}

/// A plan that fits the rows is carried out as it is written: rows that it moves without
/// moving them on the page change places in the list and keep their places on the page.
#[test]
fn a_plan_that_fits_the_rows_is_trusted_for_the_page() {
    let mut list = List::new(&[1, 2]);
    let old_ids = list.ids();
    list.apply(plan(&[], &[(0, 1, false), (1, 0, false)], &[]), &[2, 1]);
    assert_eq!(list.row_keys(), some(&[2, 1]));
    assert_eq!(list.shown(), [1, 2]);
    assert!(list.reported.is_none());
    assert!(
        list.rows.iter().flatten().all(|row| old_ids.values().any(|&id| id == row.id)),
        "every row is kept"
    );
}
