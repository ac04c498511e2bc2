use vstd::prelude::*;

use crate::heap_object::{string_at, string_hash_ok, spec_hash_string, GcObject, HeapObject};
use crate::memory::next_capacity;
use crate::text::chars_eq;
use crate::value::{GcPtr, Value, ValueView};

verus! {

/// A slot of the table.
pub enum Cell {
    NeverFilled,
    Tombstone,
    Entry { key: GcPtr, hash: u32, value: Value },
}

/// A hash table from interned strings (by heap slot) to values, with open
/// addressing, linear probing and tombstones. `count` counts entries and
/// tombstones together, and the table grows before it is three quarters
/// full.
pub struct HashTable {
    capacity: usize,
    count: usize,
    cells: Vec<Cell>,
}

// ---------------------------------------------------------------------------
// Probing arithmetic.
// ---------------------------------------------------------------------------

/// The cell that the `t`-th probe from `home` visits.
pub open spec fn probe(home: int, t: int, cap: int) -> int {
    if home + t < cap {
        home + t
    } else {
        home + t - cap
    }
}

/// How many probes from `home` it takes to reach `j`.
pub open spec fn dist(home: int, j: int, cap: int) -> int {
    if j >= home {
        j - home
    } else {
        j + cap - home
    }
}

/// The cell where probing for a hash starts.
pub open spec fn home_of(hash: u32, cap: int) -> int {
    (hash as int) % cap
}

pub proof fn lemma_probe_dist(home: int, j: int, cap: int)
    requires
        0 <= home < cap,
        0 <= j < cap,
    ensures
        0 <= dist(home, j, cap) < cap,
        probe(home, dist(home, j, cap), cap) == j,
{
}

pub proof fn lemma_dist_probe(home: int, t: int, cap: int)
    requires
        0 <= home < cap,
        0 <= t < cap,
    ensures
        0 <= probe(home, t, cap) < cap,
        dist(home, probe(home, t, cap), cap) == t,
{
}

// ---------------------------------------------------------------------------
// The abstract contents.
// ---------------------------------------------------------------------------

pub open spec fn is_entry(cells: Seq<Cell>, j: int) -> bool {
    0 <= j < cells.len() && cells[j] is Entry
}

pub open spec fn key_at(cells: Seq<Cell>, j: int) -> usize {
    cells[j]->key.0
}

pub open spec fn hash_at(cells: Seq<Cell>, j: int) -> u32 {
    cells[j]->hash
}

pub open spec fn has_key(cells: Seq<Cell>, k: usize) -> bool {
    exists|j: int| is_entry(cells, j) && key_at(cells, j) == k
}

pub open spec fn slot_of(cells: Seq<Cell>, k: usize) -> int {
    choose|j: int| is_entry(cells, j) && key_at(cells, j) == k
}

/// The map from keys to values that a run of cells holds.
pub open spec fn cells_map(cells: Seq<Cell>) -> Map<usize, ValueView> {
    Map::new(|k: usize| has_key(cells, k), |k: usize| cells[slot_of(cells, k)]->value@)
}

/// The map from keys to hashes that a run of cells holds.
pub open spec fn cells_hashes(cells: Seq<Cell>) -> Map<usize, u32> {
    Map::new(|k: usize| has_key(cells, k), |k: usize| hash_at(cells, slot_of(cells, k)))
}

/// One for a cell that was ever filled, zero for an empty one.
pub open spec fn filled_of(c: Cell) -> nat {
    if c is NeverFilled {
        0
    } else {
        1
    }
}

/// The number of cells that were ever filled (entries and tombstones).
pub open spec fn filled_count(cells: Seq<Cell>) -> nat
    decreases cells.len(),
{
    if cells.len() == 0 {
        0
    } else {
        filled_count(cells.drop_last()) + filled_of(cells.last())
    }
}

/// No two entries share a key.
pub open spec fn unique_keys(cells: Seq<Cell>) -> bool {
    forall|i: int, j: int|
        is_entry(cells, i) && is_entry(cells, j) && #[trigger] key_at(cells, i) == #[trigger] key_at(
            cells,
            j,
        ) ==> i == j
}

/// Probing from an entry's home cell to the entry crosses no empty cell.
pub open spec fn probe_ok(cells: Seq<Cell>, j: int) -> bool {
    let cap = cells.len() as int;
    let home = home_of(hash_at(cells, j), cap);
    forall|t: int|
        0 <= t < dist(home, j, cap) ==> !(#[trigger] cells[probe(home, t, cap)] is NeverFilled)
}

pub open spec fn all_probe_ok(cells: Seq<Cell>) -> bool {
    forall|j: int| is_entry(cells, j) ==> #[trigger] probe_ok(cells, j)
}

pub proof fn lemma_filled_count_bound(cells: Seq<Cell>)
    ensures
        filled_count(cells) <= cells.len(),
    decreases cells.len(),
{
    if cells.len() > 0 {
        lemma_filled_count_bound(cells.drop_last());
    }
}

/// A table with fewer filled cells than cells has an empty cell.
pub proof fn lemma_exists_never_filled(cells: Seq<Cell>)
    requires
        filled_count(cells) < cells.len(),
    ensures
        exists|e: int| 0 <= e < cells.len() && cells[e] is NeverFilled,
    decreases cells.len(),
{
    if cells.last() is NeverFilled {
        assert(cells[cells.len() - 1] is NeverFilled);
    } else {
        lemma_exists_never_filled(cells.drop_last());
        let e = choose|e: int|
            0 <= e < cells.drop_last().len() && cells.drop_last()[e] is NeverFilled;
        assert(cells[e] is NeverFilled);
    }
}

/// Replacing one cell changes the filled count by the difference.
pub proof fn lemma_filled_count_update(cells: Seq<Cell>, i: int, c: Cell)
    requires
        0 <= i < cells.len(),
    ensures
        filled_count(cells.update(i, c)) + filled_of(cells[i]) == filled_count(cells) + filled_of(c),
    decreases cells.len(),
{
    let u = cells.update(i, c);
    assert(filled_count(u) == filled_count(u.drop_last()) + filled_of(u.last()));
    assert(filled_count(cells) == filled_count(cells.drop_last()) + filled_of(cells.last()));
    if i == cells.len() - 1 {
        assert(u.drop_last() =~= cells.drop_last());
        assert(u.last() == c);
    } else {
        lemma_filled_count_update(cells.drop_last(), i, c);
        assert(u.drop_last() =~= cells.drop_last().update(i, c));
        assert(u.last() == cells.last());
        assert(cells.drop_last()[i] == cells[i]);
    }
}

pub proof fn lemma_filled_count_all_empty(cells: Seq<Cell>)
    requires
        forall|j: int| 0 <= j < cells.len() ==> #[trigger] cells[j] is NeverFilled,
    ensures
        filled_count(cells) == 0,
    decreases cells.len(),
{
    if cells.len() > 0 {
        lemma_filled_count_all_empty(cells.drop_last());
    }
}

/// An entry is the slot of its own key.
pub proof fn lemma_slot_of(cells: Seq<Cell>, j: int)
    requires
        unique_keys(cells),
        is_entry(cells, j),
    ensures
        has_key(cells, key_at(cells, j)),
        slot_of(cells, key_at(cells, j)) == j,
        cells_map(cells).contains_key(key_at(cells, j)),
        cells_map(cells)[key_at(cells, j)] == cells[j]->value@,
        cells_hashes(cells)[key_at(cells, j)] == hash_at(cells, j),
{
    let k = key_at(cells, j);
    assert(is_entry(cells, j) && key_at(cells, j) == k);
    let j2 = slot_of(cells, k);
    assert(is_entry(cells, j2) && key_at(cells, j2) == k);
}

/// Writing an entry at a slot: the map gains the key, and keeps the others.
pub proof fn lemma_write_entry(cells: Seq<Cell>, p: int, key: GcPtr, hash: u32, value: Value)
    requires
        0 <= p < cells.len(),
        unique_keys(cells),
        is_entry(cells, p) ==> key_at(cells, p) == key.0,
        !is_entry(cells, p) ==> !has_key(cells, key.0),
    ensures
        ({
            let c2 = cells.update(p, Cell::Entry { key, hash, value });
            &&& unique_keys(c2)
            &&& cells_map(c2) =~= cells_map(cells).insert(key.0, value@)
            &&& cells_hashes(c2) =~= cells_hashes(cells).insert(key.0, hash)
        }),
{
    let c2 = cells.update(p, Cell::Entry { key, hash, value });
    assert(is_entry(c2, p) && key_at(c2, p) == key.0);
    assert forall|i: int, j: int|
        is_entry(c2, i) && is_entry(c2, j) && #[trigger] key_at(c2, i) == #[trigger] key_at(c2, j)
            implies i == j by {
        if i != p && j != p {
            assert(key_at(cells, i) == key_at(cells, j));
        } else if i == p && j != p {
            assert(is_entry(cells, j) && key_at(cells, j) == key.0);
            if !is_entry(cells, p) {
                assert(has_key(cells, key.0));
            } else {
                assert(key_at(cells, p) == key_at(cells, j));
            }
        } else if j == p && i != p {
            assert(is_entry(cells, i) && key_at(cells, i) == key.0);
            if !is_entry(cells, p) {
                assert(has_key(cells, key.0));
            } else {
                assert(key_at(cells, p) == key_at(cells, i));
            }
        }
    }
    lemma_slot_of(c2, p);
    assert forall|k: usize| #[trigger] has_key(c2, k) == (has_key(cells, k) || k == key.0) by {
        if has_key(cells, k) && k != key.0 {
            let j = slot_of(cells, k);
            assert(is_entry(c2, j) && key_at(c2, j) == k);
        }
        if has_key(c2, k) && k != key.0 {
            let j = slot_of(c2, k);
            assert(is_entry(cells, j) && key_at(cells, j) == k);
        }
    }
    assert forall|k: usize| has_key(c2, k) && k != key.0 implies slot_of(c2, k) == slot_of(
        cells,
        k,
    ) by {
        let j0 = slot_of(cells, k);
        assert(is_entry(cells, j0) && key_at(cells, j0) == k);
        assert(j0 != p);
        assert(is_entry(c2, j0) && key_at(c2, j0) == k);
        lemma_slot_of(c2, j0);
    }
}

/// Turning an entry into a tombstone removes its key from the map.
pub proof fn lemma_write_tombstone(cells: Seq<Cell>, p: int)
    requires
        is_entry(cells, p),
        unique_keys(cells),
    ensures
        ({
            let c2 = cells.update(p, Cell::Tombstone);
            &&& unique_keys(c2)
            &&& cells_map(c2) =~= cells_map(cells).remove(key_at(cells, p))
            &&& cells_hashes(c2) =~= cells_hashes(cells).remove(key_at(cells, p))
        }),
{
    let c2 = cells.update(p, Cell::Tombstone);
    let key = key_at(cells, p);
    assert forall|i: int, j: int|
        is_entry(c2, i) && is_entry(c2, j) && #[trigger] key_at(c2, i) == #[trigger] key_at(c2, j)
            implies i == j by {
        assert(key_at(cells, i) == key_at(cells, j));
    }
    assert forall|k: usize| #[trigger] has_key(c2, k) == (has_key(cells, k) && k != key) by {
        if has_key(cells, k) && k != key {
            let j = slot_of(cells, k);
            assert(is_entry(c2, j) && key_at(c2, j) == k);
        }
        if has_key(c2, k) {
            let j = slot_of(c2, k);
            assert(is_entry(cells, j) && key_at(cells, j) == k);
            assert(key_at(cells, p) == key);
        }
    }
    assert forall|k: usize| has_key(c2, k) implies slot_of(c2, k) == slot_of(cells, k) by {
        let j = slot_of(c2, k);
        assert(is_entry(cells, j) && key_at(cells, j) == k);
        lemma_slot_of(cells, j);
    }
}

impl View for HashTable {
    type V = Map<usize, ValueView>;

    closed spec fn view(&self) -> Map<usize, ValueView> {
        cells_map(self.cells@)
    }
}

impl HashTable {
    /// The hash stored with each key.
    pub closed spec fn hashes(&self) -> Map<usize, u32> {
        cells_hashes(self.cells@)
    }

    /// The table's invariant.
    pub closed spec fn wf(&self) -> bool {
        &&& self.cells.len() == self.capacity
        &&& self.count == filled_count(self.cells@)
        &&& 4 * self.count <= 3 * self.capacity
        &&& self.capacity <= usize::MAX / 8
        &&& unique_keys(self.cells@)
        &&& all_probe_ok(self.cells@)
    }

    /// The hash given for a key agrees with the hash stored with it.
    pub open spec fn hash_agrees(&self, key: GcPtr, hash: u32) -> bool {
        self.hashes().contains_key(key.0) ==> self.hashes()[key.0] == hash
    }

    /// The number of cells ever filled: entries and tombstones.
    pub closed spec fn filled(&self) -> nat {
        self.count as nat
    }

    /// The largest number of filled cells that the table can grow to hold.
    pub open spec fn filled_limit() -> nat {
        (usize::MAX / 32) as nat
    }

    /// An empty table with no cells.
    pub fn new() -> (res: HashTable)
        ensures
            res.wf(),
            res@ == Map::<usize, ValueView>::empty(),
            res.hashes() == Map::<usize, u32>::empty(),
            res.filled() == 0,
    {
        let res = HashTable { count: 0, capacity: 0, cells: Vec::new() };
        assert(res@ =~= Map::<usize, ValueView>::empty());
        assert(res.hashes() =~= Map::<usize, u32>::empty());
        res
    }

    /// The cell where the entry for `key` is, or, when there is none, a cell
    /// where it may go: a tombstone or empty cell that probing reaches before
    /// any empty cell.
    fn find_cell(&self, key: GcPtr, hash: u32) -> (res: usize)
        requires
            self.wf(),
            self.capacity > 0,
            self.count < self.capacity,
            self.hash_agrees(key, hash),
        ensures
            res < self.capacity,
            self@.contains_key(key.0) ==> is_entry(self.cells@, res as int) && key_at(
                self.cells@,
                res as int,
            ) == key.0,
            !self@.contains_key(key.0) ==> !is_entry(self.cells@, res as int) && forall|t: int|
                0 <= t < dist(home_of(hash, self.capacity as int), res as int, self.capacity as int)
                    ==> !(#[trigger] self.cells@[probe(
                    home_of(hash, self.capacity as int),
                    t,
                    self.capacity as int,
                )] is NeverFilled),
    {
        let ghost cells = self.cells@;
        let ghost cap = self.capacity as int;
        let home = (hash as usize) % self.capacity;
        let ghost h = home as int;
        proof {
            lemma_exists_never_filled(cells);
        }
        let ghost e = choose|e: int| 0 <= e < cells.len() && cells[e] is NeverFilled;
        proof {
            lemma_probe_dist(h, e, cap);
        }
        let mut index = home;
        let mut t: usize = 0;
        let mut last_tombstone: Option<usize> = None;
        loop
            invariant
                self.wf(),
                cells == self.cells@,
                self.hash_agrees(key, hash),
                cap == self.capacity,
                0 <= h < cap,
                h == home_of(hash, cap),
                0 <= e < cap,
                cells[e] is NeverFilled,
                t <= dist(h, e, cap) < cap,
                index == probe(h, t as int, cap),
                forall|u: int|
                    0 <= u < t ==> !(#[trigger] cells[probe(h, u, cap)] is NeverFilled) && !(
                    is_entry(cells, probe(h, u, cap)) && key_at(cells, probe(h, u, cap)) == key.0),
                last_tombstone matches Some(p) ==> p < cap && cells[p as int] is Tombstone && dist(
                    h,
                    p as int,
                    cap,
                ) < t,
            decreases cap - t,
        {
            proof {
                lemma_dist_probe(h, t as int, cap);
            }
            match &self.cells[index] {
                Cell::Entry { key: k, .. } => {
                    proof {
                        assert(key_at(cells, index as int) == k.0);
                    }
                    if k.0 == key.0 {
                        proof {
                            lemma_slot_of(cells, index as int);
                        }
                        return index;
                    }
                },
                Cell::Tombstone => {
                    last_tombstone = Some(index);
                },
                Cell::NeverFilled => {
                    proof {
                        if self@.contains_key(key.0) {
                            let j = slot_of(cells, key.0);
                            assert(is_entry(cells, j) && key_at(cells, j) == key.0);
                            assert(cells_hashes(cells)[key.0] == hash_at(cells, j));
                            assert(hash_at(cells, j) == hash);
                            assert(probe_ok(cells, j));
                            lemma_probe_dist(h, j, cap);
                            let dj = dist(h, j, cap);
                            if dj < t {
                                assert(is_entry(cells, probe(h, dj, cap)));
                            } else if dj > t {
                                assert(!(cells[probe(h, t as int, cap)] is NeverFilled));
                            }
                        }
                    }
                    match last_tombstone {
                        Some(p) => {
                            proof {
                                assert forall|u: int|
                                    0 <= u < dist(h, p as int, cap) implies !(
                                #[trigger] cells[probe(h, u, cap)] is NeverFilled) by {}
                            }
                            return p;
                        },
                        None => {
                            return index;
                        },
                    }
                },
            }
            proof {
                assert(index as int != e);
            }
            t = t + 1;
            index = if index + 1 == self.capacity {
                0
            } else {
                index + 1
            };
        }
    }

    /// Grows the table to `capacity` cells and places every entry anew,
    /// dropping the tombstones.
    fn adjust_capacity(&mut self, capacity: usize)
        requires
            old(self).wf(),
            old(self).capacity < capacity <= usize::MAX / 8,
            4 * (old(self).count + 1) <= 3 * capacity,
        ensures
            final(self).wf(),
            final(self).capacity == capacity,
            final(self)@ == old(self)@,
            final(self).hashes() == old(self).hashes(),
            final(self).count <= old(self).count,
    {
        let mut cells: Vec<Cell> = Vec::new();
        let mut i: usize = 0;
        while i < capacity
            invariant
                i <= capacity,
                cells.len() == i,
                forall|j: int| 0 <= j < i ==> #[trigger] cells@[j] is NeverFilled,
            decreases capacity - i,
        {
            cells.push(Cell::NeverFilled);
            i = i + 1;
        }
        proof {
            lemma_filled_count_all_empty(cells@);
        }
        let mut fresh = HashTable { capacity, count: 0, cells };
        assert(fresh@ =~= Map::<usize, ValueView>::empty());
        assert(fresh.hashes() =~= Map::<usize, u32>::empty());
        let ghost old_cells = self.cells@;
        let mut i: usize = 0;
        while i < self.capacity
            invariant
                self.wf(),
                self.cells@ == old_cells,
                i <= self.capacity,
                fresh.wf(),
                fresh.capacity == capacity,
                4 * (self.count + 1) <= 3 * capacity,
                fresh.count <= filled_count(old_cells.subrange(0, i as int)),
                fresh@ == cells_map(old_cells.subrange(0, i as int)),
                fresh.hashes() == cells_hashes(old_cells.subrange(0, i as int)),
            decreases self.capacity - i,
        {
            let ghost prefix = old_cells.subrange(0, i as int);
            let ghost next = old_cells.subrange(0, i + 1);
            proof {
                lemma_unique_prefix(old_cells, i as int);
                lemma_unique_prefix(old_cells, i + 1);
                assert(next.drop_last() =~= prefix);
                lemma_filled_count_bound(old_cells.subrange(0, i + 1));
                lemma_filled_count_prefix(old_cells, i + 1);
            }
            match &self.cells[i] {
                Cell::Entry { key, hash, value } => {
                    proof {
                        assert(is_entry(next, i as int));
                        assert(key_at(next, i as int) == key.0);
                        assert(key_at(old_cells, i as int) == key.0);
                        assert(is_entry(old_cells, i as int));
                        assert forall|k: usize| #[trigger]
                            has_key(next, k) == (has_key(prefix, k) || k == key.0) by {
                            if has_key(prefix, k) {
                                let j = slot_of(prefix, k);
                                assert(is_entry(next, j) && key_at(next, j) == k);
                            }
                            if has_key(next, k) && k != key.0 {
                                let j = slot_of(next, k);
                                assert(is_entry(prefix, j) && key_at(prefix, j) == k);
                            }
                        }
                        assert(!has_key(prefix, key.0)) by {
                            if has_key(prefix, key.0) {
                                let j = slot_of(prefix, key.0);
                                assert(is_entry(old_cells, j) && key_at(old_cells, j) == key.0);
                                assert(is_entry(old_cells, i as int));
                            }
                        }
                        assert forall|k: usize| has_key(next, k) implies slot_of(next, k) == (if k
                            == key.0 {
                            i as int
                        } else {
                            slot_of(prefix, k)
                        }) by {
                            let j = slot_of(next, k);
                            if k == key.0 {
                                assert(is_entry(old_cells, j) && key_at(old_cells, j) == key.0);
                                assert(is_entry(old_cells, i as int));
                            } else {
                                let j0 = slot_of(prefix, k);
                                assert(is_entry(old_cells, j0) && key_at(old_cells, j0) == k);
                                assert(is_entry(old_cells, j) && key_at(old_cells, j) == k);
                            }
                        }
                        assert(cells_map(next) =~= cells_map(prefix).insert(key.0, value@));
                        assert(cells_hashes(next) =~= cells_hashes(prefix).insert(key.0, *hash));
                    }
                    fresh.insert_fresh(*key, *hash, value.duplicate());
                },
                _ => {
                    proof {
                        assert forall|k: usize| #[trigger] has_key(next, k) == has_key(prefix, k) by {
                            if has_key(prefix, k) {
                                let j = slot_of(prefix, k);
                                assert(is_entry(next, j) && key_at(next, j) == k);
                            }
                            if has_key(next, k) {
                                let j = slot_of(next, k);
                                assert(is_entry(prefix, j) && key_at(prefix, j) == k);
                            }
                        }
                        assert forall|k: usize| has_key(next, k) implies slot_of(next, k)
                            == slot_of(prefix, k) by {
                            let j = slot_of(next, k);
                            assert(next[j] == old_cells[j]);
                            assert(j != i);
                            assert(prefix[j] == old_cells[j]);
                            assert(is_entry(prefix, j) && key_at(prefix, j) == k);
                            lemma_slot_of(prefix, j);
                        }
                        assert(cells_map(next) =~= cells_map(prefix));
                        assert(cells_hashes(next) =~= cells_hashes(prefix));
                    }
                },
            }
            i = i + 1;
        }
        assert(old_cells.subrange(0, self.capacity as int) =~= old_cells);
        *self = fresh;
    }

    /// Places an entry for a key that the table does not hold, when there is
    /// room.
    fn insert_fresh(&mut self, key: GcPtr, hash: u32, value: Value)
        requires
            old(self).wf(),
            !old(self)@.contains_key(key.0),
            4 * (old(self).count + 1) <= 3 * old(self).capacity,
        ensures
            final(self).wf(),
            final(self).capacity == old(self).capacity,
            final(self)@ == old(self)@.insert(key.0, value@),
            final(self).hashes() == old(self).hashes().insert(key.0, hash),
            final(self).count <= old(self).count + 1,
    {
        let idx = self.find_cell(key, hash);
        self.write_entry(idx, key, hash, value);
    }

    /// Writes an entry at a cell that `find_cell` gave for its key.
    fn write_entry(&mut self, idx: usize, key: GcPtr, hash: u32, value: Value)
        requires
            old(self).wf(),
            idx < old(self).capacity,
            old(self).hash_agrees(key, hash),
            4 * (old(self).count + 1) <= 3 * old(self).capacity,
            old(self)@.contains_key(key.0) ==> is_entry(old(self).cells@, idx as int) && key_at(
                old(self).cells@,
                idx as int,
            ) == key.0,
            !old(self)@.contains_key(key.0) ==> !is_entry(old(self).cells@, idx as int) && forall|
                t: int,
            |
                0 <= t < dist(
                    home_of(hash, old(self).capacity as int),
                    idx as int,
                    old(self).capacity as int,
                ) ==> !(#[trigger] old(self).cells@[probe(
                    home_of(hash, old(self).capacity as int),
                    t,
                    old(self).capacity as int,
                )] is NeverFilled),
        ensures
            final(self).wf(),
            final(self).capacity == old(self).capacity,
            final(self)@ == old(self)@.insert(key.0, value@),
            final(self).hashes() == old(self).hashes().insert(key.0, hash),
            final(self).count == old(self).count + if old(self).cells@[idx as int] is NeverFilled {
                1int
            } else {
                0int
            },
    {
        let ghost cells = self.cells@;
        let ghost cap = self.capacity as int;
        let was_empty = match &self.cells[idx] {
            Cell::NeverFilled => true,
            _ => false,
        };
        if was_empty {
            self.count = self.count + 1;
        }
        let ghost v = value@;
        proof {
            lemma_write_entry(cells, idx as int, key, hash, value);
            lemma_filled_count_update(cells, idx as int, Cell::Entry { key, hash, value });
        }
        self.cells.set(idx, Cell::Entry { key, hash, value });
        proof {
            let c2 = self.cells@;
            assert(c2 == cells.update(idx as int, Cell::Entry { key, hash, value }));
            assert(self.count == filled_count(c2));
            assert(unique_keys(c2));
            assert forall|j: int| is_entry(c2, j) implies #[trigger] probe_ok(c2, j) by {
                let hj = home_of(hash_at(c2, j), cap);
                assert forall|t: int| 0 <= t < dist(hj, j, cap) implies !(
                #[trigger] c2[probe(hj, t, cap)] is NeverFilled) by {
                    if j != idx {
                        assert(probe_ok(cells, j));
                        assert(is_entry(cells, j));
                        assert(!(cells[probe(hj, t, cap)] is NeverFilled));
                    } else if cells_map(cells).contains_key(key.0) {
                        assert(probe_ok(cells, j));
                        assert(!(cells[probe(hj, t, cap)] is NeverFilled));
                    } else {
                        assert(!(cells[probe(hj, t, cap)] is NeverFilled));
                    }
                }
            }
        }
    }

    /// Binds `key` to `value`; whether the key is new to the table.
    pub fn set(&mut self, key: GcPtr, hash: u32, value: Value) -> (res: bool)
        requires
            old(self).wf(),
            old(self).hash_agrees(key, hash),
            old(self).filled() < HashTable::filled_limit(),
        ensures
            final(self).wf(),
            final(self)@ == old(self)@.insert(key.0, value@),
            final(self).hashes() == old(self).hashes().insert(key.0, hash),
            final(self).filled() <= old(self).filled() + 1,
            res == !old(self)@.contains_key(key.0),
    {
        if 4 * (self.count + 1) > 3 * self.capacity {
            let new_capacity = next_capacity(self.capacity);
            assert(4 * (self.count + 1) <= 3 * new_capacity);
            self.adjust_capacity(new_capacity);
        }
        let idx = self.find_cell(key, hash);
        let is_new = match &self.cells[idx] {
            Cell::Entry { .. } => false,
            _ => true,
        };
        self.write_entry(idx, key, hash, value);
        is_new
    }

    /// The value bound to `key`, if any.
    pub fn get(&self, key: GcPtr, hash: u32) -> (res: Option<Value>)
        requires
            self.wf(),
            self.hash_agrees(key, hash),
        ensures
            match res {
                Some(v) => self@.contains_key(key.0) && v@ == self@[key.0],
                None => !self@.contains_key(key.0),
            },
    {
        if self.count == 0 {
            proof {
                lemma_no_entries_when_empty(self.cells@);
            }
            return None;
        }
        let idx = self.find_cell(key, hash);
        match &self.cells[idx] {
            Cell::Entry { value, .. } => Some(value.duplicate()),
            _ => None,
        }
    }

    /// Removes the binding of `key`; whether there was one.
    pub fn delete(&mut self, key: GcPtr, hash: u32) -> (res: bool)
        requires
            old(self).wf(),
            old(self).hash_agrees(key, hash),
        ensures
            final(self).wf(),
            final(self)@ == old(self)@.remove(key.0),
            final(self).hashes() == old(self).hashes().remove(key.0),
            final(self).filled() == old(self).filled(),
            res == old(self)@.contains_key(key.0),
    {
        if self.count == 0 {
            proof {
                lemma_no_entries_when_empty(self.cells@);
                assert(self@ =~= old(self)@.remove(key.0));
                assert(self.hashes() =~= old(self).hashes().remove(key.0));
            }
            return false;
        }
        let idx = self.find_cell(key, hash);
        let found = match &self.cells[idx] {
            Cell::Entry { .. } => true,
            _ => false,
        };
        if found {
            self.tombstone_at(idx);
            true
        } else {
            proof {
                assert(self@ =~= old(self)@.remove(key.0));
                assert(self.hashes() =~= old(self).hashes().remove(key.0));
            }
            false
        }
    }

    /// Turns the entry at `idx` into a tombstone.
    fn tombstone_at(&mut self, idx: usize)
        requires
            old(self).wf(),
            is_entry(old(self).cells@, idx as int),
        ensures
            final(self).wf(),
            final(self).capacity == old(self).capacity,
            final(self).count == old(self).count,
            final(self).cells@ == old(self).cells@.update(idx as int, Cell::Tombstone),
            final(self)@ == old(self)@.remove(key_at(old(self).cells@, idx as int)),
            final(self).hashes() == old(self).hashes().remove(key_at(old(self).cells@, idx as int)),
    {
        let ghost cells = self.cells@;
        let ghost cap = self.capacity as int;
        proof {
            lemma_write_tombstone(cells, idx as int);
            lemma_filled_count_update(cells, idx as int, Cell::Tombstone);
        }
        self.cells.set(idx, Cell::Tombstone);
        proof {
            let c2 = self.cells@;
            assert forall|j: int| is_entry(c2, j) implies #[trigger] probe_ok(c2, j) by {
                let hj = home_of(hash_at(c2, j), cap);
                assert(probe_ok(cells, j));
                assert forall|t: int| 0 <= t < dist(hj, j, cap) implies !(
                #[trigger] c2[probe(hj, t, cap)] is NeverFilled) by {
                    assert(!(cells[probe(hj, t, cap)] is NeverFilled));
                }
            }
        }
    }

    /// Copies every binding of this table into `target`.
    pub fn add_all(&self, target: &mut HashTable)
        requires
            self.wf(),
            old(target).wf(),
            forall|k: usize|
                self@.contains_key(k) ==> #[trigger] old(target).hash_agrees(
                    GcPtr(k),
                    self.hashes()[k],
                ),
            old(target).filled() + self@.len() < HashTable::filled_limit(),
        ensures
            final(target).wf(),
            final(target)@ == old(target)@.union_prefer_right(self@),
            final(target).hashes() == old(target).hashes().union_prefer_right(self.hashes()),
            final(target).filled() <= old(target).filled() + self@.len(),
    {
        let entries = self.entries();
        let mut i: usize = 0;
        proof {
            lemma_entries_distinct_len(self, entries@);
        }
        while i < entries.len()
            invariant
                self.wf(),
                target.wf(),
                i <= entries.len(),
                entries.len() == self@.len(),
                forall|m: int, n: int|
                    0 <= m < n < entries.len() ==> (#[trigger] entries@[m]).0.0 != (
                    #[trigger] entries@[n]).0.0,
                forall|m: int|
                    0 <= m < entries.len() ==> self@.contains_key((#[trigger] entries@[m]).0.0)
                        && entries@[m].2@ == self@[entries@[m].0.0] && entries@[m].1
                        == self.hashes()[entries@[m].0.0],
                forall|k: usize|
                    self@.contains_key(k) ==> exists|m: int|
                        0 <= m < entries.len() && (#[trigger] entries@[m]).0.0 == k,
                forall|k: usize|
                    self@.contains_key(k) ==> #[trigger] old(target).hash_agrees(
                        GcPtr(k),
                        self.hashes()[k],
                    ),
                target.filled() <= old(target).filled() + i,
                old(target).filled() + self@.len() < HashTable::filled_limit(),
                target@ == old(target)@.union_prefer_right(
                    Map::new(
                        |k: usize| exists|m: int| 0 <= m < i && (#[trigger] entries@[m]).0.0 == k,
                        |k: usize| self@[k],
                    ),
                ),
                target.hashes() == old(target).hashes().union_prefer_right(
                    Map::new(
                        |k: usize| exists|m: int| 0 <= m < i && (#[trigger] entries@[m]).0.0 == k,
                        |k: usize| self.hashes()[k],
                    ),
                ),
            decreases entries.len() - i,
        {
            let (key, hash, value) = (entries[i].0, entries[i].1, entries[i].2.duplicate());
            proof {
                if target.hashes().contains_key(key.0) {
                    if old(target).hashes().contains_key(key.0) {
                        assert(old(target).hash_agrees(key, self.hashes()[key.0]));
                    }
                }
            }
            target.set(key, hash, value);
            proof {
                let m1 = Map::new(
                    |k: usize| exists|m: int| 0 <= m < i && (#[trigger] entries@[m]).0.0 == k,
                    |k: usize| self@[k],
                );
                let m2 = Map::new(
                    |k: usize| exists|m: int| 0 <= m < i + 1 && (#[trigger] entries@[m]).0.0 == k,
                    |k: usize| self@[k],
                );
                assert(m2 =~= m1.insert(key.0, self@[key.0])) by {
                    assert forall|k: usize| m2.contains_key(k) == (m1.contains_key(k) || k
                        == key.0) by {
                        if k == key.0 {
                            assert(entries@[i as int].0.0 == k);
                        }
                    }
                }
                let h1 = Map::new(
                    |k: usize| exists|m: int| 0 <= m < i && (#[trigger] entries@[m]).0.0 == k,
                    |k: usize| self.hashes()[k],
                );
                let h2 = Map::new(
                    |k: usize| exists|m: int| 0 <= m < i + 1 && (#[trigger] entries@[m]).0.0 == k,
                    |k: usize| self.hashes()[k],
                );
                assert(h2 =~= h1.insert(key.0, self.hashes()[key.0])) by {
                    assert forall|k: usize| h2.contains_key(k) == (h1.contains_key(k) || k
                        == key.0) by {
                        if k == key.0 {
                            assert(entries@[i as int].0.0 == k);
                        }
                    }
                }
                assert(target@ =~= old(target)@.union_prefer_right(m2));
                assert(target.hashes() =~= old(target).hashes().union_prefer_right(h2));
            }
            i = i + 1;
        }
        proof {
            let m1 = Map::new(
                |k: usize| exists|m: int| 0 <= m < i && (#[trigger] entries@[m]).0.0 == k,
                |k: usize| self@[k],
            );
            assert(m1 =~= self@);
            let h1 = Map::new(
                |k: usize| exists|m: int| 0 <= m < i && (#[trigger] entries@[m]).0.0 == k,
                |k: usize| self.hashes()[k],
            );
            assert(h1 =~= self.hashes());
        }
    }

    /// The entries with their hashes, in the order of the cells.
    pub fn entries(&self) -> (res: Vec<(GcPtr, u32, Value)>)
        requires
            self.wf(),
        ensures
            forall|m: int, n: int|
                0 <= m < n < res.len() ==> (#[trigger] res@[m]).0.0 != (#[trigger] res@[n]).0.0,
            forall|m: int|
                0 <= m < res.len() ==> self@.contains_key((#[trigger] res@[m]).0.0) && res@[m].2@
                    == self@[res@[m].0.0] && res@[m].1 == self.hashes()[res@[m].0.0],
            forall|k: usize|
                self@.contains_key(k) ==> exists|m: int|
                    0 <= m < res.len() && (#[trigger] res@[m]).0.0 == k,
    {
        let mut out: Vec<(GcPtr, u32, Value)> = Vec::new();
        let ghost mut srcs: Seq<int> = Seq::empty();
        let mut i: usize = 0;
        while i < self.cells.len()
            invariant
                self.wf(),
                i <= self.cells.len(),
                srcs.len() == out.len(),
                forall|m: int|
                    0 <= m < out.len() ==> 0 <= #[trigger] srcs[m] < i && is_entry(
                        self.cells@,
                        srcs[m],
                    ) && key_at(self.cells@, srcs[m]) == out@[m].0.0,
                forall|m: int, n: int|
                    0 <= m < n < out.len() ==> (#[trigger] out@[m]).0.0 != (#[trigger] out@[n]).0.0,
                forall|m: int|
                    0 <= m < out.len() ==> self@.contains_key((#[trigger] out@[m]).0.0)
                        && out@[m].2@ == self@[out@[m].0.0] && out@[m].1
                        == self.hashes()[out@[m].0.0],
                forall|j: int|
                    0 <= j < i && is_entry(self.cells@, j) ==> exists|m: int|
                        0 <= m < out.len() && (#[trigger] out@[m]).0.0 == key_at(self.cells@, j),
            decreases self.cells.len() - i,
        {
            match &self.cells[i] {
                Cell::Entry { key, hash, value } => {
                    proof {
                        assert(is_entry(self.cells@, i as int));
                        assert(key_at(self.cells@, i as int) == key.0);
                        lemma_slot_of(self.cells@, i as int);
                        assert forall|m: int| 0 <= m < out.len() implies (
                        #[trigger] out@[m]).0.0 != key.0 by {
                            let j2 = srcs[m];
                            assert(is_entry(self.cells@, j2));
                            if out@[m].0.0 == key.0 {
                                assert(key_at(self.cells@, j2) == key_at(self.cells@, i as int));
                            }
                        }
                    }
                    let ghost old_out = out@;
                    out.push((*key, *hash, value.duplicate()));
                    proof {
                        srcs = srcs.push(i as int);
                        assert forall|j: int|
                            0 <= j < i + 1 && is_entry(self.cells@, j) implies exists|m: int|
                            0 <= m < out.len() && (#[trigger] out@[m]).0.0 == key_at(
                                self.cells@,
                                j,
                            ) by {
                            if j == i {
                                assert(out@[out.len() - 1].0.0 == key_at(self.cells@, j));
                            } else {
                                let m = choose|m: int|
                                    0 <= m < old_out.len() && (#[trigger] old_out[m]).0.0
                                        == key_at(self.cells@, j);
                                assert(out@[m] == old_out[m]);
                            }
                        }
                    }
                },
                _ => {},
            }
            i = i + 1;
        }
        proof {
            assert forall|k: usize| self@.contains_key(k) implies exists|m: int|
                0 <= m < out.len() && (#[trigger] out@[m]).0.0 == k by {
                let j = slot_of(self.cells@, k);
                assert(is_entry(self.cells@, j));
            }
        }
        out
    }

    /// The key whose string in `objects` is `chars`, if the table holds one.
    /// Every key must be a string slot whose hash is stored with it.
    pub fn find_string(&self, objects: &Vec<Option<GcObject>>, chars: &Vec<char>, hash: u32) -> (res:
        Option<GcPtr>)
        requires
            self.wf(),
            hash == spec_hash_string(chars@),
            forall|k: usize|
                self@.contains_key(k) ==> (#[trigger] string_at(objects@, k as int)) is Some
                    && self.hashes()[k] == spec_hash_string(string_at(objects@, k as int)->0)
                    && string_hash_ok(objects@, k as int),
        ensures
            match res {
                Some(k) => self@.contains_key(k.0) && string_at(objects@, k.0 as int) == Some(
                    chars@,
                ),
                None => forall|k: usize|
                    self@.contains_key(k) ==> string_at(objects@, k as int) != Some(chars@),
            },
    {
        if self.count == 0 {
            proof {
                lemma_no_entries_when_empty(self.cells@);
            }
            return None;
        }
        let ghost cells = self.cells@;
        let ghost cap = self.capacity as int;
        let home = (hash as usize) % self.capacity;
        let ghost h = home as int;
        proof {
            lemma_exists_never_filled(cells);
        }
        let ghost e = choose|e: int| 0 <= e < cells.len() && cells[e] is NeverFilled;
        proof {
            lemma_probe_dist(h, e, cap);
        }
        let mut index = home;
        let mut t: usize = 0;
        loop
            invariant
                self.wf(),
                cells == self.cells@,
                cap == self.capacity,
                hash == spec_hash_string(chars@),
                forall|k: usize|
                    self@.contains_key(k) ==> (#[trigger] string_at(objects@, k as int)) is Some
                        && self.hashes()[k] == spec_hash_string(string_at(objects@, k as int)->0)
                        && string_hash_ok(objects@, k as int),
                0 <= h < cap,
                h == home_of(hash, cap),
                0 <= e < cap,
                cells[e] is NeverFilled,
                t <= dist(h, e, cap) < cap,
                index == probe(h, t as int, cap),
                forall|u: int|
                    0 <= u < t ==> !(#[trigger] cells[probe(h, u, cap)] is NeverFilled) && !(
                    is_entry(cells, probe(h, u, cap)) && string_at(
                        objects@,
                        key_at(cells, probe(h, u, cap)) as int,
                    ) == Some(chars@)),
            decreases cap - t,
        {
            proof {
                lemma_dist_probe(h, t as int, cap);
            }
            match &self.cells[index] {
                Cell::Entry { key, .. } => {
                    proof {
                        assert(is_entry(cells, index as int));
                        assert(key_at(cells, index as int) == key.0);
                        lemma_slot_of(cells, index as int);
                        assert(string_at(objects@, key.0 as int) is Some);
                    }
                    let matches = match &objects[key.0] {
                        Some(o) => match &o.object {
                            HeapObject::HeapString(so) => so.hash == hash && chars_eq(
                                &so.chars,
                                chars,
                            ),
                            _ => false,
                        },
                        None => false,
                    };
                    if matches {
                        return Some(*key);
                    }
                },
                Cell::Tombstone => {},
                Cell::NeverFilled => {
                    proof {
                        assert forall|k: usize| self@.contains_key(k) implies string_at(
                            objects@,
                            k as int,
                        ) != Some(chars@) by {
                            if string_at(objects@, k as int) == Some(chars@) {
                                let j = slot_of(cells, k);
                                assert(is_entry(cells, j) && key_at(cells, j) == k);
                                lemma_slot_of(cells, j);
                                assert(hash_at(cells, j) == hash);
                                assert(probe_ok(cells, j));
                                lemma_probe_dist(h, j, cap);
                                let dj = dist(h, j, cap);
                                if dj < t {
                                    assert(is_entry(cells, probe(h, dj, cap)));
                                } else if dj > t {
                                    assert(!(cells[probe(h, t as int, cap)] is NeverFilled));
                                }
                            }
                        }
                    }
                    return None;
                },
            }
            proof {
                assert(index as int != e);
            }
            t = t + 1;
            index = if index + 1 == self.capacity {
                0
            } else {
                index + 1
            };
        }
    }

    /// Drops every binding whose key is a slot of `objects` that holds no
    /// marked object (the weak references of the string table).
    pub fn delete_unmarked(&mut self, objects: &Vec<Option<GcObject>>)
        requires
            old(self).wf(),
        ensures
            final(self).wf(),
            final(self).filled() == old(self).filled(),
            forall|k: usize|
                #[trigger] final(self)@.contains_key(k) == (old(self)@.contains_key(k)
                    && is_marked_at(objects@, k as int)),
            forall|k: usize|
                #[trigger] final(self)@.contains_key(k) ==> final(self)@[k] == old(self)@[k]
                    && final(self).hashes()[k] == old(self).hashes()[k],
    {
        let ghost old_cells = self.cells@;
        let ghost old_view = self@;
        let ghost old_hashes = self.hashes();
        let mut i: usize = 0;
        while i < self.cells.len()
            invariant
                self.wf(),
                self.count == old(self).count,
                self.cells.len() == old_cells.len(),
                i <= self.cells.len(),
                unique_keys(old_cells),
                old_view == cells_map(old_cells),
                old_hashes == cells_hashes(old_cells),
                forall|j: int| i <= j < old_cells.len() ==> self.cells@[j] == old_cells[j],
                forall|k: usize|
                    #[trigger] self@.contains_key(k) == (old_view.contains_key(k) && (
                    is_marked_at(objects@, k as int) || slot_of(old_cells, k) >= i)),
                forall|k: usize|
                    #[trigger] self@.contains_key(k) ==> self@[k] == old_view[k]
                        && self.hashes()[k] == old_hashes[k],
            decreases self.cells.len() - i,
        {
            let drop = match &self.cells[i] {
                Cell::Entry { key, .. } => {
                    proof {
                        assert(is_entry(old_cells, i as int));
                        assert(key_at(old_cells, i as int) == key.0);
                        lemma_slot_of(old_cells, i as int);
                    }
                    match &objects.get(key.0) {
                        Some(Some(o)) => !o.is_marked,
                        _ => true,
                    }
                },
                _ => false,
            };
            if drop {
                let ghost k0 = key_at(old_cells, i as int);
                proof {
                    assert(is_entry(self.cells@, i as int));
                    lemma_slot_of(self.cells@, i as int);
                }
                self.tombstone_at(i);
            } else {
                proof {
                    if is_entry(old_cells, i as int) {
                        lemma_slot_of(old_cells, i as int);
                    }
                }
            }
            proof {
                assert forall|k: usize| #[trigger] self@.contains_key(k) == (old_view.contains_key(k)
                    && (is_marked_at(objects@, k as int) || slot_of(old_cells, k) >= i + 1)) by {
                    if old_view.contains_key(k) && slot_of(old_cells, k) == i {
                        lemma_slot_of(old_cells, i as int);
                    }
                }
            }
            i = i + 1;
        }
    }

    /// Releases the cells; the table is empty again.
    pub fn free(&mut self)
        ensures
            final(self).wf(),
            final(self)@ == Map::<usize, ValueView>::empty(),
            final(self).hashes() == Map::<usize, u32>::empty(),
            final(self).filled() == 0,
    {
        *self = HashTable::new();
    }
}

pub proof fn lemma_filled_count_prefix(cells: Seq<Cell>, i: int)
    requires
        0 <= i <= cells.len(),
    ensures
        filled_count(cells.subrange(0, i)) <= filled_count(cells),
    decreases cells.len() - i,
{
    if i < cells.len() {
        lemma_filled_count_prefix(cells, i + 1);
        assert(cells.subrange(0, i + 1).drop_last() =~= cells.subrange(0, i));
    } else {
        assert(cells.subrange(0, i) =~= cells);
    }
}

/// A list of the distinct keys of a table is as long as the table.
pub proof fn lemma_entries_distinct_len(t: &HashTable, es: Seq<(GcPtr, u32, Value)>)
    requires
        forall|m: int, n: int|
            0 <= m < n < es.len() ==> (#[trigger] es[m]).0.0 != (#[trigger] es[n]).0.0,
        forall|m: int| 0 <= m < es.len() ==> t@.contains_key((#[trigger] es[m]).0.0),
        forall|k: usize|
            t@.contains_key(k) ==> exists|m: int| 0 <= m < es.len() && (#[trigger] es[m]).0.0 == k,
    ensures
        es.len() == t@.len(),
{
    let keys = es.map_values(|e: (GcPtr, u32, Value)| e.0.0);
    assert(keys.no_duplicates()) by {
        assert forall|m: int, n: int| 0 <= m < keys.len() && 0 <= n < keys.len() && m != n implies keys[m]
            != keys[n] by {
            if m < n {
                assert(es[m].0.0 != es[n].0.0);
            } else {
                assert(es[n].0.0 != es[m].0.0);
            }
        }
    }
    assert(keys.to_set() =~= t@.dom()) by {
        assert forall|k: usize| keys.to_set().contains(k) == t@.dom().contains(k) by {
            if t@.contains_key(k) {
                let m = choose|m: int| 0 <= m < es.len() && (#[trigger] es[m]).0.0 == k;
                assert(keys[m] == k);
            }
            if keys.to_set().contains(k) {
                let m = choose|m: int| 0 <= m < keys.len() && keys[m] == k;
                assert(es[m].0.0 == k);
            }
        }
    }
    keys.unique_seq_to_set();
}

/// The stored hashes have the keys of the table.
pub proof fn lemma_hashes_dom(t: &HashTable)
    ensures
        t.hashes().dom() == t@.dom(),
{
    assert(t.hashes().dom() =~= t@.dom());
}

/// Whether slot `k` of the heap holds an object that is marked.
pub open spec fn is_marked_at(objects: Seq<Option<GcObject>>, k: int) -> bool {
    0 <= k < objects.len() && objects[k] is Some && objects[k]->0.is_marked
}

/// A prefix of cells with unique keys has unique keys.
pub proof fn lemma_unique_prefix(cells: Seq<Cell>, i: int)
    requires
        unique_keys(cells),
        0 <= i <= cells.len(),
    ensures
        unique_keys(cells.subrange(0, i)),
{
    let p = cells.subrange(0, i);
    assert forall|a: int, b: int|
        is_entry(p, a) && is_entry(p, b) && #[trigger] key_at(p, a) == #[trigger] key_at(p, b)
            implies a == b by {
        assert(p[a] == cells[a] && p[b] == cells[b]);
        assert(key_at(cells, a) == key_at(cells, b));
    }
}

/// A table with no filled cell holds no key.
pub proof fn lemma_no_entries_when_empty(cells: Seq<Cell>)
    requires
        filled_count(cells) == 0,
    ensures
        cells_map(cells) =~= Map::<usize, ValueView>::empty(),
        forall|k: usize| !has_key(cells, k),
    decreases cells.len(),
{
    if cells.len() > 0 {
        lemma_no_entries_when_empty(cells.drop_last());
        assert forall|k: usize| !has_key(cells, k) by {
            if has_key(cells, k) {
                let j = slot_of(cells, k);
                if j < cells.len() - 1 {
                    assert(cells.drop_last()[j] == cells[j]);
                    assert(is_entry(cells.drop_last(), j) && key_at(cells.drop_last(), j) == k);
                } else {
                    assert(!(cells.last() is NeverFilled));
                }
                if j < cells.len() - 1 {
                    assert(has_key(cells.drop_last(), k));
                }
            }
        }
    }
}

} // verus!
