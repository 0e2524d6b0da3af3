use crate::array::Array;
use crate::capacity::{
    cells_to_sample, lemma_next_power_of_two, lemma_rounded_capacity, lemma_target_capacity,
    lemma_word, max_capacity, spec_cells_to_sample, spec_max, spec_max_capacity, spec_min,
    spec_rounded_capacity, spec_target_capacity, target_capacity, DEFAULT_CAPACITY, SAMPLING_RANGE,
};
use crate::cell::{Cell, SlotHandle, ARRAY_SIZE};
use crate::hash::{hash_key, hasher_ok, spec_hash, spec_tag};
use crate::metadata::Metadata;
use crate::statistics::{clamped, clamped_tally, Counter, Statistics, Tally};
use vstd::laws_eq::obeys_concrete_eq;
use vstd::prelude::*;

verus! {

/// A hash map that keeps its entries in one array of cells, and that moves them to a new
/// array a few cells at a time when it grows or shrinks.
pub struct HashMap<K, V, H> {
    array: Array<K, V>,
    minimum_capacity: usize,
    hasher: H,
}

/// Points at a cell of a map and, where it has one, at an entry in that cell.
pub struct Accessor {
    in_old: bool,
    cell_index: usize,
    cell_in_sampling_range: bool,
    slot: Option<SlotHandle>,
}

/// Walks over the entries of a map, cell by cell: first over the cells of the array that is
/// being drained, then over those of the current array.
pub struct Scanner {
    accessor: Option<Accessor>,
    in_old: bool,
    cell_index: usize,
    activated: bool,
    erase_on_next: bool,
}

/// The least capacity of a map for which `requested` is asked: at least 256, and no more
/// than the largest capacity.
pub open spec fn spec_least_capacity(requested: Option<usize>) -> nat {
    match requested {
        Some(capacity) => if capacity <= DEFAULT_CAPACITY {
            DEFAULT_CAPACITY as nat
        } else if capacity >= spec_max_capacity() {
            spec_max_capacity()
        } else {
            capacity as nat
        },
        None => DEFAULT_CAPACITY as nat,
    }
}

impl<K, V, H: Fn(&K) -> u64> View for HashMap<K, V, H> {
    type V = Map<K, V>;

    closed spec fn view(&self) -> Map<K, V> {
        self.array.view(self.hasher)
    }
}

impl Accessor {
    /// The accessor points at a cell that `map` has, and at an entry where it points at a
    /// slot.
    pub closed spec fn fits<K, V, H: Fn(&K) -> u64>(&self, map: &HashMap<K, V, H>) -> bool {
        &&& map.array.has_cell(self.in_old, self.cell_index as int)
        &&& self.cell_in_sampling_range == (self.cell_index < SAMPLING_RANGE)
        &&& self.slot matches Some(h) ==> map.array.cell_of(
            self.in_old,
            self.cell_index as int,
        ).entry_at(h) is Some
    }

    /// The entry that the accessor points at.
    pub closed spec fn entry<K, V, H: Fn(&K) -> u64>(&self, map: &HashMap<K, V, H>) -> Option<
        (K, V),
    > {
        match self.slot {
            Some(h) => map.array.cell_of(self.in_old, self.cell_index as int).entry_at(h),
            None => None,
        }
    }

    /// Whether the accessor points at a slot.
    pub closed spec fn is_occupied(&self) -> bool {
        self.slot is Some
    }

    /// Whether the accessor points into the array that is being drained.
    pub closed spec fn spec_in_old(&self) -> bool {
        self.in_old
    }

    /// The number of the cell that the accessor points at.
    pub closed spec fn spec_cell_index(&self) -> int {
        self.cell_index as int
    }

    /// The slot that the accessor points at, if it points at one.
    pub closed spec fn spec_slot(&self) -> Option<SlotHandle> {
        self.slot
    }

    /// Whether the cell that the accessor points at is among the first 16 of its array.
    pub open spec fn in_sampling_range(&self) -> bool {
        self.spec_cell_index() < SAMPLING_RANGE
    }

    /// The cell that the accessor points at.
    pub closed spec fn cell<K, V, H: Fn(&K) -> u64>(&self, map: &HashMap<K, V, H>) -> Cell<K, V> {
        map.array.cell_of(self.in_old, self.cell_index as int)
    }

    /// Whether two accessors point at the same slot of the same cell of the same array.
    pub closed spec fn same_place(&self, other: Accessor) -> bool {
        &&& self.in_old == other.in_old
        &&& self.cell_index == other.cell_index
        &&& self.slot == other.slot
    }
}

impl<K: PartialEq + Send + 'static, V: Send + 'static, H: Fn(&K) -> u64> HashMap<K, V, H> {
    /// The hasher is usable, the arrays are sound, and the capacity is not under the least
    /// capacity.
    pub closed spec fn wf(&self) -> bool {
        &&& hasher_ok::<K, H>(self.hasher)
        &&& obeys_concrete_eq::<K>()
        &&& self.array.wf(self.hasher)
        &&& DEFAULT_CAPACITY <= self.minimum_capacity <= self.array.capacity()
    }

    /// The number of primary slots of the current array.
    pub closed spec fn spec_capacity(&self) -> nat {
        self.array.capacity()
    }

    pub closed spec fn spec_minimum_capacity(&self) -> nat {
        self.minimum_capacity as nat
    }

    /// Whether an old array is still being drained.
    pub closed spec fn is_migrating(&self) -> bool {
        self.array.has_old()
    }

    pub closed spec fn spec_hasher(&self) -> H {
        self.hasher
    }

    /// An empty map with the given hasher, for at least `minimum_capacity` entries.
    pub fn new(hasher: H, minimum_capacity: Option<usize>) -> (map: Self)
        requires
            hasher_ok::<K, H>(hasher),
            obeys_concrete_eq::<K>(),
        ensures
            map.wf(),
            map@ == Map::<K, V>::empty(),
            map.spec_hasher() == hasher,
            map.spec_minimum_capacity() == spec_least_capacity(minimum_capacity),
            map.spec_capacity() == spec_rounded_capacity(spec_least_capacity(minimum_capacity)),
            !map.is_migrating(),
    {
        let limit = max_capacity();
        proof {
            lemma_word();
            vstd::arithmetic::power2::lemma2_to64();
        }
        let initial_capacity = match minimum_capacity {
            Some(capacity) => if capacity <= DEFAULT_CAPACITY {
                DEFAULT_CAPACITY
            } else if capacity >= limit {
                limit
            } else {
                capacity
            },
            None => DEFAULT_CAPACITY,
        };
        let array = Array::new(initial_capacity, None);
        proof {
            array.lemma_fresh(hasher);
            lemma_next_power_of_two(initial_capacity as nat);
        }
        HashMap { array, minimum_capacity: initial_capacity, hasher }
    }

    /// The hash and the tag of a key.
    fn hash(&self, key: &K) -> (r: (u64, u16))
        requires
            self.wf(),
        ensures
            r.0 == spec_hash::<K, H>(self.hasher, *key),
            r.1 == spec_tag::<K, H>(self.hasher, *key),
    {
        hash_key(&self.hasher, key)
    }

    /// The array that a handle points into: the one that is being drained where `in_old` is
    /// set, else the current one.
    pub closed spec fn table(&self, in_old: bool) -> Array<K, V> {
        if in_old {
            self.array.predecessor()
        } else {
            self.array
        }
    }

    /// Looks for `key` in the cell of one of the two arrays that it belongs to. Returns the
    /// slot that holds the key, if there is one, and the number of the cell.
    fn search(&self, in_old: bool, key: &K, hash: u64, tag: u16) -> (r: (Option<SlotHandle>, usize))
        requires
            self.wf(),
            in_old ==> self.array.has_old(),
            hash == spec_hash::<K, H>(self.hasher, *key),
            tag == spec_tag::<K, H>(self.hasher, *key),
        ensures
            r.1 == self.table(in_old).index_of(self.hasher, *key),
            r.1 < self.table(in_old).num_cells(),
            match r.0 {
                Some(h) => self.table(in_old).cell_at(r.1 as int).entry_at(h) matches Some(e) && e.0
                    == *key,
                None => !self.table(in_old).own_map(self.hasher).contains_key(*key),
            },
    {
        let table: &Array<K, V> = if in_old {
            self.array.old_array().unwrap()
        } else {
            &self.array
        };
        let cell_index = table.calculate_cell_index(hash);
        let cell = table.cell(cell_index);
        proof {
            table.lemma_cell_wf(self.hasher, cell_index as int);
            table.lemma_lookup(self.hasher, *key);
        }
        if !cell.killed() && !cell.empty() {
            if let Some(h) = cell.search(key, tag) {
                return (Some(h), cell_index);
            }
            proof {
                if cell.tagged().contains_key(*key) {
                    let h = cell.lemma_tagged_slot(*key);
                    cell.lemma_tagged(h, *key);
                    table.lemma_entry(self.hasher, cell_index as int, *key);
                }
            }
        } else {
            proof {
                if cell.is_killed() {
                    cell.lemma_killed();
                }
            }
        }
        (None, cell_index)
    }

    /// Finds the place of `key`: takes one step of the migration where an old array is being
    /// drained, looks for the key in the old array, drains the cell of the old array that
    /// the key belongs to where the key is not there, and then looks in the current array.
    /// Returns an accessor for the entry, or one for the cell of the current array that an
    /// entry for the key goes to, and the number of that cell.
    fn acquire(&mut self, key: &K, hash: u64, tag: u16) -> (r: (Accessor, usize))
        requires
            old(self).wf(),
            hash == spec_hash::<K, H>(old(self).hasher, *key),
            tag == spec_tag::<K, H>(old(self).hasher, *key),
        ensures
            final(self).wf(),
            final(self)@ == old(self)@,
            final(self).hasher == old(self).hasher,
            final(self).minimum_capacity == old(self).minimum_capacity,
            final(self).array.lb_cells() == old(self).array.lb_cells(),
            final(self).array.num_cells() == old(self).array.num_cells(),
            r.0.fits(final(self)),
            r.0.cell_index == r.1,
            r.0.is_occupied() <==> old(self)@.contains_key(*key),
            r.0.is_occupied() ==> r.0.entry(final(self)) == Some((*key, old(self)@[*key])),
            !r.0.is_occupied() ==> !r.0.in_old && r.1 == final(self).array.index_of(
                final(self).hasher,
                *key,
            ),
            !r.0.in_old ==> r.1 == final(self).array.index_of(final(self).hasher, *key),
            !old(self).array.has_old() ==> *final(self) == *old(self) && !r.0.in_old,
    {
        if self.array.has_old_array() {
            if !self.array.partial_rehash(&self.hasher) {
                let (slot, cell_index) = self.search(true, key, hash, tag);
                if let Some(h) = slot {
                    proof {
                        let prev = self.array.predecessor();
                        let cell = prev.cell_at(cell_index as int);
                        prev.lemma_cell_wf(self.hasher, cell_index as int);
                        assert(cell.holds(h, *key));
                        cell.lemma_tagged(h, *key);
                        prev.lemma_entry(self.hasher, cell_index as int, *key);
                    }
                    return (
                        Accessor {
                            in_old: true,
                            cell_index,
                            cell_in_sampling_range: cell_index < SAMPLING_RANGE,
                            slot,
                        },
                        cell_index,
                    );
                }
                if !self.array.old_array().unwrap().cell(cell_index).killed() {
                    self.array.kill_cell(cell_index, &self.hasher);
                    proof {
                        let prev = self.array.predecessor();
                        prev.lemma_lookup(self.hasher, *key);
                        prev.lemma_cell_wf(self.hasher, cell_index as int);
                        prev.cell_at(cell_index as int).lemma_killed();
                    }
                }
            }
        }
        assert(self.array.has_old() ==> !self.array.predecessor().own_map(self.hasher).contains_key(
            *key,
        ));
        let (slot, cell_index) = self.search(false, key, hash, tag);
        proof {
            if let Some(h) = slot {
                let cell = self.array.cell_at(cell_index as int);
                self.array.lemma_cell_wf(self.hasher, cell_index as int);
                assert(cell.holds(h, *key));
                cell.lemma_tagged(h, *key);
                self.array.lemma_entry(self.hasher, cell_index as int, *key);
            }
        }
        (
            Accessor {
                in_old: false,
                cell_index,
                cell_in_sampling_range: cell_index < SAMPLING_RANGE,
                slot,
            },
            cell_index,
        )
    }

    /// The accessor for the entry of `key`, if the map has one. On the way, the migration of
    /// an old array goes one step further.
    pub fn get(&mut self, key: K) -> (r: Option<Accessor>)
        requires
            old(self).wf(),
        ensures
            Self::fetched(*old(self), *final(self), key, r),
    {
        let (hash, tag) = self.hash(&key);
        let (accessor, _) = self.acquire(&key, hash, tag);
        if accessor.slot.is_none() {
            return None;
        }
        Some(accessor)
    }

    /// The number of cells of the current array.
    pub closed spec fn spec_num_cells(&self) -> nat {
        self.array.num_cells()
    }

    /// The cell with the number `i` of the current array.
    pub closed spec fn current_cell(&self, i: int) -> Cell<K, V> {
        self.array.cell_at(i)
    }

    /// The number of the cell of the current array that `key` belongs to.
    pub closed spec fn home_index(&self, key: K) -> int {
        self.array.index_of(self.hasher, key)
    }

    /// The cell of the current array that `key` belongs to.
    pub open spec fn home_cell(&self, key: K) -> Cell<K, V> {
        self.current_cell(self.home_index(key))
    }

    /// Whether the primary slots of the cell that `key` belongs to are all occupied.
    pub open spec fn home_is_full(&self, key: K) -> bool {
        self.home_cell(key).is_full_between(None, 0, ARRAY_SIZE as int)
    }

    /// The current array has a sixteenth as many cells as the capacity says, its cells are
    /// sound and not marked as drained, and each key belongs to one of them.
    pub proof fn lemma_cells(&self)
        requires
            self.wf(),
        ensures
            self.spec_num_cells() * ARRAY_SIZE == self.spec_capacity(),
            self.spec_num_cells() >= SAMPLING_RANGE,
            forall|i: int|
                0 <= i < self.spec_num_cells() ==> (#[trigger] self.current_cell(i)).wf()
                    && !self.current_cell(i).is_killed(),
            forall|key: K| 0 <= #[trigger] self.home_index(key) < self.spec_num_cells(),
    {
        self.array.lemma_capacity();
        assert forall|i: int| 0 <= i < self.spec_num_cells() implies (#[trigger] self.current_cell(
            i,
        )).wf() && !self.current_cell(i).is_killed() by {
            self.array.lemma_cell_wf(self.hasher, i);
        }
        assert forall|key: K| 0 <= #[trigger] self.home_index(key) < self.spec_num_cells() by {
            self.array.lemma_lookup(self.hasher, key);
        }
    }

    /// The number of entries in the primary slots of the first `n` cells of the current
    /// array.
    pub open spec fn sampled_primary(&self, n: nat) -> nat
        decreases n,
    {
        if n == 0 {
            0
        } else {
            self.sampled_primary((n - 1) as nat) + self.current_cell(n - 1).primary_len()
        }
    }

    /// The number of entries in the first `n` cells of the current array, as the words of
    /// the cells count them.
    pub open spec fn sampled_entries(&self, n: nat) -> nat
        decreases n,
    {
        if n == 0 {
            0
        } else {
            self.sampled_entries((n - 1) as nat) + self.current_cell(n - 1).counted_len()
        }
    }

    /// Whether the first 16 cells of the current array speak for a resize. To grow, every run
    /// of cells from the first on has to have fewer than 16 free primary slots; to shrink,
    /// the 16 cells have to hold fewer than 16 entries in their primary slots.
    pub open spec fn sample_allows(&self, shrink: bool) -> bool {
        forall|k: nat|
            1 <= k <= SAMPLING_RANGE ==> if shrink {
                #[trigger] self.sampled_primary(k) < ARRAY_SIZE
            } else {
                k * ARRAY_SIZE - self.sampled_primary(k) < ARRAY_SIZE
            }
    }

    /// The size that the first `cells` cells of the current array let one expect: the number
    /// of their entries times the number of cells that each of them stands for, held at the
    /// largest `usize`.
    pub open spec fn spec_estimate(&self, cells: nat) -> nat {
        spec_min(
            self.sampled_entries(cells) * (self.spec_num_cells() / cells),
            usize::MAX as nat,
        )
    }

    /// The estimate of the size for which `wanted` entries are to be sampled.
    pub open spec fn spec_len(&self, wanted: nat) -> nat {
        self.spec_estimate(spec_cells_to_sample(wanted, self.spec_capacity()))
    }

    /// The capacity that a map which is not migrating has after a resize was asked for.
    pub open spec fn spec_resized_capacity(&self, shrink: bool) -> nat {
        let capacity = self.spec_capacity();
        let minimum = self.spec_minimum_capacity();
        if shrink && capacity == minimum {
            capacity
        } else if !self.sample_allows(shrink) {
            capacity
        } else {
            let estimate = self.spec_len(spec_min(capacity / 16, 16384));
            let target = spec_target_capacity(capacity, estimate, minimum);
            let granted = spec_rounded_capacity(spec_max(target, DEFAULT_CAPACITY as nat));
            if target != capacity && ((!shrink && granted > capacity) || (shrink && granted
                == target)) {
                granted
            } else {
                capacity
            }
        }
    }

    /// The estimate of the size that the first `cells` cells of the current array give.
    fn estimate(&self, cells: usize) -> (n: usize)
        requires
            self.wf(),
            1 <= cells <= self.array.num_cells(),
        ensures
            n == self.spec_estimate(cells as nat),
    {
        let mut num_entries: usize = 0;
        let mut i: usize = 0;
        while i < cells
            invariant
                self.wf(),
                i <= cells <= self.array.num_cells(),
                num_entries == spec_min(self.sampled_entries(i as nat), usize::MAX as nat),
            decreases cells - i,
        {
            proof {
                self.array.lemma_cell_wf(self.hasher, i as int);
            }
            let (size, linked) = self.array.cell(i).size();
            num_entries = num_entries.saturating_add(size.saturating_add(linked));
            i += 1;
        }
        let scale = self.array.get_num_cells() / cells;
        proof {
            let s = self.sampled_entries(cells as nat) as int;
            let q = scale as int;
            let m = usize::MAX as int;
            let c = cells as int;
            let total = self.array.num_cells() as int;
            assert(total / c >= 1) by (nonlinear_arith)
                requires
                    1 <= c <= total,
            ;
            if s > m {
                assert(s * q > m) by (nonlinear_arith)
                    requires
                        s > m,
                        q >= 1,
                        m >= 0,
                ;
                assert(m * q >= m) by (nonlinear_arith)
                    requires
                        q >= 1,
                        m >= 0,
                ;
            }
        }
        match num_entries.checked_mul(scale) {
            Some(n) => n,
            None => usize::MAX,
        }
    }

    /// Asks for a resize. Where an old array is being drained, the migration goes one step
    /// further and nothing else happens. Else the first 16 cells are looked at, and where they
    /// speak for it, the size is estimated and a new array of the capacity that the policy
    /// gives takes over from the current one, which is drained from then on.
    fn resize(&mut self, shrink: bool)
        requires
            old(self).wf(),
        ensures
            final(self).wf(),
            final(self)@ == old(self)@,
            final(self).hasher == old(self).hasher,
            final(self).minimum_capacity == old(self).minimum_capacity,
            final(self).spec_capacity() == if old(self).is_migrating() {
                old(self).spec_capacity()
            } else {
                old(self).spec_resized_capacity(shrink)
            },
            final(self).spec_capacity() <= 64 * old(self).spec_capacity(),
            !shrink ==> final(self).spec_capacity() >= old(self).spec_capacity(),
    {
        if self.array.has_old_array() {
            self.array.partial_rehash(&self.hasher);
            return;
        }
        proof {
            self.lemma_resized_capacity(shrink);
        }
        proof {
            self.array.lemma_capacity();
        }
        let capacity = self.array.get_capacity();
        if shrink && capacity == self.minimum_capacity {
            return;
        }
        let mut num_entries: usize = 0;
        let mut i: usize = 0;
        while i < SAMPLING_RANGE
            invariant
                self.wf(),
                *self == *old(self),
                SAMPLING_RANGE <= self.array.num_cells(),
                i <= SAMPLING_RANGE,
                num_entries == self.sampled_primary(i as nat),
                num_entries <= i * ARRAY_SIZE,
                !(shrink && self.spec_capacity() == self.spec_minimum_capacity()),
                !self.is_migrating(),
                forall|k: nat|
                    1 <= k <= i ==> if shrink {
                        #[trigger] self.sampled_primary(k) < ARRAY_SIZE
                    } else {
                        k * ARRAY_SIZE - self.sampled_primary(k) < ARRAY_SIZE
                    },
            decreases SAMPLING_RANGE - i,
        {
            proof {
                self.array.lemma_cell_wf(self.hasher, i as int);
            }
            num_entries = num_entries + self.array.cell(i).size().0;
            if shrink {
                if num_entries >= ARRAY_SIZE {
                    assert(!(self.sampled_primary((i + 1) as nat) < ARRAY_SIZE));
                    return;
                }
            } else {
                if (i + 1) * ARRAY_SIZE - num_entries >= ARRAY_SIZE {
                    assert(!((i + 1) * ARRAY_SIZE - self.sampled_primary((i + 1) as nat)
                        < ARRAY_SIZE));
                    return;
                }
            }
            i += 1;
        }
        assert(self.sample_allows(shrink));
        let wanted = if capacity / 16 < 16384 {
            capacity / 16
        } else {
            16384
        };
        let cells = cells_to_sample(wanted, capacity);
        proof {
            lemma_rounded_capacity(spec_min(wanted as nat, capacity as nat), capacity as nat);
        }
        let estimated = self.estimate(cells);
        let new_capacity = target_capacity(capacity, estimated, self.minimum_capacity);
        if new_capacity != capacity {
            let mut new_array: Array<K, V> = Array::new(new_capacity, None);
            let granted = new_array.get_capacity();
            if (!shrink && granted > capacity) || (shrink && granted == new_capacity) {
                proof {
                    lemma_target_capacity(
                        capacity as nat,
                        estimated as nat,
                        self.minimum_capacity as nat,
                    );
                }
                core::mem::swap(&mut self.array, &mut new_array);
                self.array.adopt(Box::new(new_array));
                proof {
                    self.array.lemma_fresh(self.hasher);
                }
            }
        }
    }

    /// What `get` does: the map is as it was, and the accessor, which there is where the map
    /// has the key, points at the entry of the key.
    pub open spec fn fetched(pre: Self, post: Self, key: K, r: Option<Accessor>) -> bool {
        &&& post.wf()
        &&& post@ == pre@
        &&& post.spec_capacity() == pre.spec_capacity()
        &&& post.spec_minimum_capacity() == pre.spec_minimum_capacity()
        &&& post.spec_hasher() == pre.spec_hasher()
        &&& r is Some <==> pre@.contains_key(key)
        &&& r matches Some(accessor) ==> accessor.fits(&post) && accessor.entry(&post) == Some(
            (key, pre@[key]),
        )
        &&& !pre.is_migrating() ==> {
            &&& post == pre
            &&& r matches Some(accessor) ==> !accessor.spec_in_old() && accessor.spec_cell_index()
                == pre.home_index(key)
        }
    }

    /// Whether an `insert` of `key` into this map, which is not migrating, asks for a
    /// growing resize: the map has no entry for the key, and the cell that the key belongs
    /// to is among the first 16 and has no free primary slot.
    pub open spec fn asks_to_grow(&self, key: K) -> bool {
        &&& !self@.contains_key(key)
        &&& self.home_index(key) < SAMPLING_RANGE
        &&& self.home_is_full(key)
    }

    /// Whether a `remove` of `key` from this map, which is not migrating, asks for a
    /// shrinking resize: the entry of the key is the only one in its cell, and that cell is
    /// among the first 16.
    pub open spec fn asks_to_shrink(&self, key: K) -> bool {
        &&& self@.contains_key(key)
        &&& self.home_index(key) < SAMPLING_RANGE
        &&& self.home_cell(key).len() == 1
    }

    /// What `insert` does: where the map has no entry for the key it gains the entry, and
    /// else it is as it was and the value comes back. Either way the accessor points at the
    /// entry of the key. The capacity does not shrink, and grows 64 times at most. For a map
    /// that is not migrating: the capacity is what a growing resize leaves where one is asked
    /// for, and else the map stays as it is but for the cell that the key belongs to, where
    /// the entry goes to the next free slot.
    pub open spec fn inserted(
        pre: Self,
        post: Self,
        key: K,
        value: V,
        r: Result<Accessor, (Accessor, V)>,
    ) -> bool {
        &&& post.wf()
        &&& post.spec_hasher() == pre.spec_hasher()
        &&& post.spec_minimum_capacity() == pre.spec_minimum_capacity()
        &&& pre.spec_capacity() <= post.spec_capacity() <= 64 * pre.spec_capacity()
        &&& match r {
            Ok(accessor) => {
                &&& !pre@.contains_key(key)
                &&& post@ == pre@.insert(key, value)
                &&& accessor.fits(&post)
                &&& accessor.entry(&post) == Some((key, value))
            },
            Err((accessor, rejected)) => {
                &&& pre@.contains_key(key)
                &&& post@ == pre@
                &&& rejected == value
                &&& accessor.fits(&post)
                &&& accessor.entry(&post) == Some((key, pre@[key]))
            },
        }
        &&& !pre.is_migrating() ==> {
            &&& post.spec_capacity() == if pre.asks_to_grow(key) {
                pre.spec_resized_capacity(false)
            } else {
                pre.spec_capacity()
            }
            &&& r is Err ==> post == pre
            &&& !pre.asks_to_grow(key) ==> !post.is_migrating()
            &&& !pre.asks_to_grow(key) ==> (r matches Ok(accessor) ==> Self::stored(
                pre,
                post,
                key,
                value,
                accessor,
            ))
        }
    }

    /// How a map that is not migrating changes where an entry is stored without a resize:
    /// the cell that the key belongs to changes as `Cell::inserted` says, every other cell
    /// is as it was, and the map has an overflow link where it had one or where that cell
    /// had no free primary slot.
    pub open spec fn stored(pre: Self, post: Self, key: K, value: V, accessor: Accessor) -> bool {
        &&& !accessor.spec_in_old()
        &&& accessor.spec_cell_index() == pre.home_index(key)
        &&& post.home_index(key) == pre.home_index(key)
        &&& accessor.spec_slot() matches Some(h) && Cell::inserted(
            pre.home_cell(key),
            post.home_cell(key),
            h,
            key,
            spec_tag(pre.spec_hasher(), key),
            value,
        )
        &&& forall|i: int|
            0 <= i < pre.spec_num_cells() && i != pre.home_index(key) ==> #[trigger] post.current_cell(
                i,
            ) == pre.current_cell(i)
        &&& post.has_links() == (pre.has_links() || pre.home_is_full(key))
    }

    /// What `upsert` does: the map has the value for the key, and the accessor points at
    /// that entry.
    pub open spec fn upserted(pre: Self, post: Self, key: K, value: V, accessor: Accessor) -> bool {
        &&& post.wf()
        &&& post.spec_hasher() == pre.spec_hasher()
        &&& post.spec_minimum_capacity() == pre.spec_minimum_capacity()
        &&& pre.spec_capacity() <= post.spec_capacity() <= 64 * pre.spec_capacity()
        &&& post@ == pre@.insert(key, value)
        &&& accessor.fits(&post)
        &&& accessor.entry(&post) == Some((key, value))
        &&& !pre.is_migrating() ==> {
            &&& post.spec_capacity() == if pre.asks_to_grow(key) {
                pre.spec_resized_capacity(false)
            } else {
                pre.spec_capacity()
            }
            &&& !pre.asks_to_grow(key) ==> !post.is_migrating()
        }
    }

    /// How a map changes where the value of the entry that an accessor points at becomes
    /// `value`: the accessor points at the entry with the new value, and the map has that
    /// value for the key.
    pub open spec fn revalued(pre: Self, post: Self, accessor: Accessor, value: V) -> bool {
        &&& post.wf()
        &&& post.spec_hasher() == pre.spec_hasher()
        &&& post.spec_minimum_capacity() == pre.spec_minimum_capacity()
        &&& post.spec_capacity() == pre.spec_capacity()
        &&& post.is_migrating() == pre.is_migrating()
        &&& accessor.fits(&post)
        &&& accessor.entry(&pre) matches Some(e) && accessor.entry(&post) == Some((e.0, value))
            && post@ == pre@.insert(e.0, value)
    }

    /// What `remove` does: the map has no entry for the key, and the result says whether it
    /// had one.
    pub open spec fn removed(pre: Self, post: Self, key: K, removed: bool) -> bool {
        &&& post.wf()
        &&& post.spec_hasher() == pre.spec_hasher()
        &&& post.spec_minimum_capacity() == pre.spec_minimum_capacity()
        &&& removed == pre@.contains_key(key)
        &&& post@ == pre@.remove(key)
        &&& !removed ==> post.spec_capacity() == pre.spec_capacity()
        &&& !pre.is_migrating() && !pre.asks_to_shrink(key) ==> post.spec_capacity()
            == pre.spec_capacity() && !post.is_migrating()
    }

    /// What `retain` does: the map keeps, with their values, entries for which `f` can
    /// return `true`, and loses entries for which `f` can return `false`; the counts are the
    /// number of entries that it keeps and the number of those that it loses. The capacity
    /// and the state of the migration stay unless more entries were lost than kept and no
    /// more than an eighth of the capacity is in use.
    pub open spec fn retained<F: Fn(&K, &V) -> bool>(
        pre: Self,
        post: Self,
        f: F,
        counts: (usize, usize),
    ) -> bool {
        &&& post.wf()
        &&& post.spec_hasher() == pre.spec_hasher()
        &&& post.spec_minimum_capacity() == pre.spec_minimum_capacity()
        &&& forall|k: K| #[trigger]
            post@.contains_key(k) ==> pre@.contains_key(k) && post@[k] == pre@[k] && call_ensures(
                f,
                (&k, &pre@[k]),
                true,
            )
        &&& forall|k: K|
            pre@.contains_key(k) && !(#[trigger] post@.contains_key(k)) ==> call_ensures(
                f,
                (&k, &pre@[k]),
                false,
            )
        &&& pre@.dom().finite()
        &&& post@.dom().finite()
        &&& counts.0 == clamped(post@.dom().len())
        &&& counts.1 == clamped(pre@.dom().difference(post@.dom()).len())
        &&& !(counts.1 > counts.0 && counts.0 <= pre.spec_capacity() / 8) ==> post.spec_capacity()
            == pre.spec_capacity() && post.is_migrating() == pre.is_migrating()
    }

    /// Whether a cell of the map has a link in its overflow chain.
    pub closed spec fn has_links(&self) -> bool {
        exists|in_old: bool, i: int| #[trigger]
            self.array.has_cell(in_old, i) && self.array.cell_of(in_old, i).num_links() > 0
    }

    /// A map without entries has no overflow links.
    pub proof fn lemma_no_links(&self)
        requires
            self.wf(),
            self@ == Map::<K, V>::empty(),
        ensures
            !self.has_links(),
    {
        assert forall|in_old: bool, i: int| #[trigger]
            self.array.has_cell(in_old, i) implies self.array.cell_of(in_old, i).num_links()
            == 0 by {
            let table = self.table(in_old);
            let cell = table.cell_at(i);
            table.lemma_cell_wf(self.hasher, i);
            cell.lemma_empty();
            if cell.len() > 0 {
                let k = choose|k: K| cell.tagged().contains_key(k);
                assert(cell.tagged() !~= Map::<K, (u16, V)>::empty());
                assert(cell.tagged().contains_key(k));
                table.lemma_entry(self.hasher, i, k);
                assert(self@.contains_key(k));
            }
        }
    }

    /// The capacity is a power of two, at least 256 and at least the least capacity.
    pub proof fn lemma_capacity(&self)
        requires
            self.wf(),
        ensures
            crate::capacity::is_power_of_two(self.spec_capacity() as int),
            DEFAULT_CAPACITY <= self.spec_minimum_capacity() <= self.spec_capacity(),
            self.spec_capacity() <= spec_max_capacity(),
    {
        self.array.lemma_capacity();
    }

    /// The capacity that a resize leaves is a power of two, not under the least capacity and
    /// at most 64 times the capacity before; and it is not under the capacity before unless
    /// the resize was to shrink.
    pub proof fn lemma_resized_capacity(&self, shrink: bool)
        requires
            self.wf(),
        ensures
            crate::capacity::is_power_of_two(self.spec_resized_capacity(shrink) as int),
            self.spec_minimum_capacity() <= self.spec_resized_capacity(shrink),
            self.spec_resized_capacity(shrink) <= 64 * self.spec_capacity(),
            self.spec_resized_capacity(shrink) <= spec_max_capacity(),
            !shrink ==> self.spec_resized_capacity(shrink) >= self.spec_capacity(),
    {
        self.lemma_capacity();
        lemma_word();
        let capacity = self.spec_capacity();
        let minimum = self.spec_minimum_capacity();
        let estimate = self.spec_len(spec_min(capacity / 16, 16384));
        let target = spec_target_capacity(capacity, estimate, minimum);
        let wanted = spec_max(target, DEFAULT_CAPACITY as nat);
        let granted = spec_rounded_capacity(wanted);
        lemma_target_capacity(capacity, estimate, minimum);
        lemma_rounded_capacity(wanted, spec_max_capacity());
        if 64 * capacity <= spec_max_capacity() {
            crate::capacity::lemma_power_of_two_closed(capacity, capacity);
            lemma_rounded_capacity(wanted, 64 * capacity);
        }
    }

    /// No key has two places: accessors that point at entries with the same key point at the
    /// same slot of the same cell of the same array.
    pub proof fn lemma_single_occupancy(&self, a: Accessor, b: Accessor)
        requires
            self.wf(),
            a.fits(self),
            b.fits(self),
            a.entry(self) is Some,
            b.entry(self) is Some,
            a.entry(self).unwrap().0 == b.entry(self).unwrap().0,
        ensures
            a.same_place(b),
    {
        let key = a.entry(self).unwrap().0;
        let ta = self.table(a.in_old);
        let tb = self.table(b.in_old);
        let ca = ta.cell_at(a.cell_index as int);
        let cb = tb.cell_at(b.cell_index as int);
        ta.lemma_cell_wf(self.hasher, a.cell_index as int);
        tb.lemma_cell_wf(self.hasher, b.cell_index as int);
        assert(ca.holds(a.slot.unwrap(), key));
        assert(cb.holds(b.slot.unwrap(), key));
        ca.lemma_tagged(a.slot.unwrap(), key);
        cb.lemma_tagged(b.slot.unwrap(), key);
        ta.lemma_entry(self.hasher, a.cell_index as int, key);
        tb.lemma_entry(self.hasher, b.cell_index as int, key);
        if a.in_old != b.in_old {
            assert(self.array.predecessor().own_map(self.hasher).dom().contains(key));
            assert(self.array.own_map(self.hasher).dom().contains(key));
        } else {
            ca.lemma_unique(a.slot.unwrap(), b.slot.unwrap(), key);
        }
    }

    /// The number of entries in the cells of the two arrays.
    pub closed spec fn num_entries(&self) -> nat {
        self.array.num_entries() + if self.array.has_old() {
            self.array.predecessor().num_entries()
        } else {
            0
        }
    }

    /// A map has as many keys as its cells have entries.
    pub proof fn lemma_num_entries(&self)
        requires
            self.wf(),
        ensures
            self@.dom().finite(),
            self@.dom().len() == self.num_entries(),
    {
        self.array.lemma_view_count(self.hasher);
    }

    /// A map has finitely many entries.
    pub proof fn lemma_finite(&self)
        requires
            self.wf(),
        ensures
            self@.dom().finite(),
    {
        self.array.lemma_view_finite(self.hasher);
    }

    /// Whether the word of each cell counts all entries of its overflow chain.
    pub closed spec fn counts_all(&self) -> bool {
        forall|in_old: bool, i: int| #[trigger]
            self.array.has_cell(in_old, i) ==> self.array.cell_of(in_old, i).overflow_len()
                <= crate::metadata::OVERFLOW_LEN_MAX
    }

    proof fn lemma_tally_cells(table: Array<K, V>, n: nat, start: Tally)
        requires
            forall|i: int| 0 <= i < n ==> (#[trigger] table.cell_at(i)).overflow_len()
                <= crate::metadata::OVERFLOW_LEN_MAX,
        ensures
            Self::tally_cells(table, n, start).entries == start.entries + table.entries_below(n),
        decreases n,
    {
        if n > 0 {
            Self::lemma_tally_cells(table, (n - 1) as nat, start);
            table.lemma_entries_step(n);
        } else {
            table.lemma_entries_step(0);
        }
    }

    /// Where the map has no more entries than the word of a cell counts, the word of each
    /// cell counts all entries of its overflow chain.
    pub proof fn lemma_counts_all(&self)
        requires
            self.wf(),
            self@.dom().len() <= crate::metadata::OVERFLOW_LEN_MAX,
        ensures
            self.counts_all(),
    {
        self.lemma_num_entries();
        assert forall|in_old: bool, i: int| #[trigger]
            self.array.has_cell(in_old, i) implies self.array.cell_of(in_old, i).overflow_len()
            <= crate::metadata::OVERFLOW_LEN_MAX by {
            let table = self.table(in_old);
            table.lemma_cell_wf(self.hasher, i);
            table.cell_at(i).lemma_links();
            table.lemma_cell_in_entries(i, table.num_cells());
        }
    }

    /// Where the map has no more entries than the word of a cell counts, the tally of the
    /// map has as many entries as the map has keys.
    pub proof fn lemma_tally_entries(&self)
        requires
            self.wf(),
            self@.dom().len() <= crate::metadata::OVERFLOW_LEN_MAX,
        ensures
            self@.dom().finite(),
            self.spec_tally().entries == self@.dom().len(),
    {
        self.lemma_num_entries();
        self.lemma_counts_all();
        let current = self.table(false);
        assert forall|i: int| 0 <= i < current.num_cells() implies (#[trigger] current.cell_at(
            i,
        )).overflow_len() <= crate::metadata::OVERFLOW_LEN_MAX by {
            assert(self.array.has_cell(false, i));
        }
        if self.is_migrating() {
            let drained = self.table(true);
            assert forall|i: int| 0 <= i < drained.num_cells() implies (#[trigger] drained.cell_at(
                i,
            )).overflow_len() <= crate::metadata::OVERFLOW_LEN_MAX by {
                assert(self.array.has_cell(true, i));
            }
            Self::lemma_tally_cells(
                drained,
                drained.num_cells(),
                Tally::zero().enter_array(drained.num_cells(), false),
            );
            Self::lemma_tally_cells(
                current,
                current.num_cells(),
                Self::tally_cells(
                    drained,
                    drained.num_cells(),
                    Tally::zero().enter_array(drained.num_cells(), false),
                ).enter_array(current.num_cells(), true),
            );
        } else {
            Self::lemma_tally_cells(
                current,
                current.num_cells(),
                Tally::zero().enter_array(current.num_cells(), true),
            );
        }
    }

    /// The cell that an accessor into the current array points at is the cell of that
    /// number.
    pub proof fn lemma_accessor_cell(&self, accessor: Accessor)
        requires
            accessor.fits(self),
            !accessor.spec_in_old(),
        ensures
            accessor.cell(self) == self.current_cell(accessor.spec_cell_index()),
            0 <= accessor.spec_cell_index() < self.spec_num_cells(),
    {
    }

    /// The cell that a key belongs to has no more entries than the map, and it has a free
    /// primary slot where the map has fewer than 16 entries.
    pub proof fn lemma_home(&self, key: K)
        requires
            self.wf(),
        ensures
            self@.dom().finite(),
            self.home_cell(key).len() <= self@.dom().len(),
            self@.dom().len() < ARRAY_SIZE ==> !self.home_is_full(key),
            !self.is_migrating() ==> (self@.contains_key(key) <==> self.home_cell(
                key,
            ).tagged().contains_key(key)),
    {
        self.lemma_num_entries();
        self.lemma_cells();
        let i = self.home_index(key);
        self.array.lemma_cell_in_entries(i, self.array.num_cells());
        self.home_cell(key).lemma_full();
        self.array.lemma_lookup(self.hasher, key);
    }

    /// The first cells hold no more entries than the first cells and some more.
    pub proof fn lemma_sampled_monotone(&self, n: nat, m: nat)
        requires
            n <= m,
        ensures
            self.sampled_entries(n) <= self.sampled_entries(m),
            self.sampled_primary(n) <= self.sampled_primary(m),
        decreases m,
    {
        if n < m {
            self.lemma_sampled_monotone(n, (m - 1) as nat);
        }
    }

    proof fn lemma_sampled_below(&self, n: nat)
        requires
            forall|i: int|
                0 <= i < n ==> (#[trigger] self.array.cell_at(i)).overflow_len()
                    <= crate::metadata::OVERFLOW_LEN_MAX,
        ensures
            self.sampled_entries(n) == self.array.entries_below(n),
        decreases n,
    {
        self.array.lemma_entries_step(n);
        if n > 0 {
            self.lemma_sampled_below((n - 1) as nat);
        }
    }

    /// For a map that is not migrating and has no more entries than the word of a cell
    /// counts, the cells of the current array hold as many entries as the map has keys.
    pub proof fn lemma_sampled_all(&self)
        requires
            self.wf(),
            !self.is_migrating(),
            self@.dom().len() <= crate::metadata::OVERFLOW_LEN_MAX,
        ensures
            self.sampled_entries(self.spec_num_cells()) == self@.dom().len(),
    {
        self.lemma_num_entries();
        self.lemma_counts_all();
        assert forall|i: int| 0 <= i < self.array.num_cells() implies (
        #[trigger] self.array.cell_at(i)).overflow_len() <= crate::metadata::OVERFLOW_LEN_MAX by {
            assert(self.array.has_cell(false, i));
        }
        self.lemma_sampled_below(self.array.num_cells());
    }

    /// For a map that is not migrating and has no more entries than the word of a cell
    /// counts, the estimate from a sample of the whole capacity is the number of keys.
    pub proof fn lemma_len_whole(&self)
        requires
            self.wf(),
            !self.is_migrating(),
            self@.dom().len() <= crate::metadata::OVERFLOW_LEN_MAX,
        ensures
            self.spec_len(self.spec_capacity()) == self@.dom().len(),
    {
        self.lemma_sampled_all();
        self.lemma_cells();
        self.lemma_capacity();
        let capacity = self.spec_capacity();
        lemma_rounded_capacity(capacity, capacity);
        lemma_word();
        vstd::arithmetic::power2::lemma2_to64();
        let cells = self.spec_num_cells() as int;
        assert(cells / cells == 1) by (nonlinear_arith)
            requires
                cells > 0,
        ;
        assert(self.sampled_entries(self.spec_num_cells()) * 1 == self.sampled_entries(
            self.spec_num_cells(),
        ));
    }

    /// The tally of cells leaves the capacities and the number of cells as they are, and
    /// counts the cells that are marked as drained.
    proof fn lemma_tally_cells_frame(table: Array<K, V>, n: nat, start: Tally)
        ensures
            Self::tally_cells(table, n, start).capacity == start.capacity,
            Self::tally_cells(table, n, start).effective_capacity == start.effective_capacity,
            Self::tally_cells(table, n, start).cells == start.cells,
            (forall|i: int| 0 <= i < n ==> !(#[trigger] table.cell_at(i)).is_killed())
                ==> Self::tally_cells(table, n, start).killed_entries == start.killed_entries,
        decreases n,
    {
        if n > 0 {
            Self::lemma_tally_cells_frame(table, (n - 1) as nat, start);
        }
    }

    /// The tally of cells without entries in their overflow chains leaves the figures on
    /// such entries as they are.
    proof fn lemma_tally_cells_links(table: Array<K, V>, n: nat, start: Tally)
        requires
            forall|i: int| 0 <= i < n ==> (#[trigger] table.cell_at(i)).overflow_len() == 0,
        ensures
            Self::tally_cells(table, n, start).linked_entries == start.linked_entries,
            Self::tally_cells(table, n, start).cells_having_link == start.cells_having_link,
            Self::tally_cells(table, n, start).max_link_length == start.max_link_length,
        decreases n,
    {
        if n > 0 {
            Self::lemma_tally_cells_links(table, (n - 1) as nat, start);
        }
    }

    /// The tally of cells that hold nothing counts each of them as empty, and all of them
    /// as one run.
    proof fn lemma_tally_cells_empty(table: Array<K, V>, n: nat, start: Tally)
        requires
            forall|i: int| 0 <= i < n ==> (#[trigger] table.cell_at(i)).len() == 0,
        ensures
            Self::tally_cells(table, n, start).entries == start.entries,
            Self::tally_cells(table, n, start).empty_cells == start.empty_cells + n,
            Self::tally_cells(table, n, start).run == start.run + n,
            Self::tally_cells(table, n, start).max_consecutive_empty_cells == if n == 0 {
                start.max_consecutive_empty_cells
            } else {
                crate::statistics::larger(start.max_consecutive_empty_cells, start.run + n)
            },
        decreases n,
    {
        if n > 0 {
            Self::lemma_tally_cells_empty(table, (n - 1) as nat, start);
        }
    }

    /// The tally of the map has the capacity of the current array as the capacity in
    /// effect, and 16 slots for each cell; for a map that is not migrating, its capacity is
    /// that of the map, its cells are those of the current array, and no cell is marked as
    /// drained.
    pub proof fn lemma_tally_capacity(&self)
        requires
            self.wf(),
        ensures
            self.spec_tally().effective_capacity == self.spec_capacity(),
            self.spec_tally().cells * 16 == self.spec_tally().capacity,
            self.spec_tally().capacity >= self.spec_capacity(),
            !self.is_migrating() ==> {
                &&& self.spec_tally().capacity == self.spec_capacity()
                &&& self.spec_tally().cells == self.spec_num_cells()
                &&& self.spec_tally().killed_entries == 0
            },
    {
        let current = self.table(false);
        let drained = if self.is_migrating() {
            Self::tally_cells(
                self.table(true),
                self.table(true).num_cells(),
                Tally::zero().enter_array(self.table(true).num_cells(), false),
            )
        } else {
            Tally::zero()
        };
        if self.is_migrating() {
            Self::lemma_tally_cells_frame(
                self.table(true),
                self.table(true).num_cells(),
                Tally::zero().enter_array(self.table(true).num_cells(), false),
            );
        }
        Self::lemma_tally_cells_frame(
            current,
            current.num_cells(),
            drained.enter_array(current.num_cells(), true),
        );
        assert forall|i: int| 0 <= i < current.num_cells() implies !(#[trigger] current.cell_at(
            i,
        )).is_killed() by {}
    }

    /// The tally of a map without overflow links has no entries in overflow chains.
    pub proof fn lemma_tally_links(&self)
        requires
            self.wf(),
            !self.has_links(),
        ensures
            self.spec_tally().linked_entries == 0,
            self.spec_tally().cells_having_link == 0,
            self.spec_tally().max_link_length == 0,
    {
        let current = self.table(false);
        assert forall|i: int| 0 <= i < current.num_cells() implies (#[trigger] current.cell_at(
            i,
        )).overflow_len() == 0 by {
            assert(self.array.has_cell(false, i));
            current.lemma_cell_wf(self.hasher, i);
            current.cell_at(i).lemma_links();
        }
        let drained = if self.is_migrating() {
            Self::tally_cells(
                self.table(true),
                self.table(true).num_cells(),
                Tally::zero().enter_array(self.table(true).num_cells(), false),
            )
        } else {
            Tally::zero()
        };
        if self.is_migrating() {
            let prev = self.table(true);
            assert forall|i: int| 0 <= i < prev.num_cells() implies (#[trigger] prev.cell_at(
                i,
            )).overflow_len() == 0 by {
                assert(self.array.has_cell(true, i));
                prev.lemma_cell_wf(self.hasher, i);
                prev.cell_at(i).lemma_links();
            }
            Self::lemma_tally_cells_links(
                prev,
                prev.num_cells(),
                Tally::zero().enter_array(prev.num_cells(), false),
            );
        }
        Self::lemma_tally_cells_links(
            current,
            current.num_cells(),
            drained.enter_array(current.num_cells(), true),
        );
    }

    /// The cells of a map without entries hold nothing.
    proof fn lemma_empty_cells(&self, in_old: bool, i: int)
        requires
            self.wf(),
            self@ == Map::<K, V>::empty(),
            self.array.has_cell(in_old, i),
        ensures
            self.table(in_old).cell_at(i).len() == 0,
            self.table(in_old).cell_at(i).num_links() == 0,
    {
        let table = self.table(in_old);
        let cell = table.cell_at(i);
        table.lemma_cell_wf(self.hasher, i);
        cell.lemma_empty();
        if cell.len() > 0 {
            assert(cell.tagged() !~= Map::<K, (u16, V)>::empty());
            let k = choose|k: K| cell.tagged().contains_key(k);
            assert(cell.tagged().contains_key(k));
            table.lemma_entry(self.hasher, i, k);
            assert(self@.contains_key(k));
        }
    }

    /// The tally of a map without entries: no entries, every cell empty, and, for a map that
    /// is not migrating, all cells in one run.
    pub proof fn lemma_tally_empty(&self)
        requires
            self.wf(),
            self@ == Map::<K, V>::empty(),
        ensures
            self.spec_tally().entries == 0,
            self.spec_tally().empty_cells == self.spec_tally().cells,
            self.spec_tally().linked_entries == 0,
            self.spec_tally().cells_having_link == 0,
            self.spec_tally().max_link_length == 0,
            !self.is_migrating() ==> self.spec_tally().max_consecutive_empty_cells
                == self.spec_num_cells(),
    {
        self.lemma_no_links();
        self.lemma_tally_links();
        self.lemma_tally_capacity();
        self.lemma_cells();
        let current = self.table(false);
        assert forall|i: int| 0 <= i < current.num_cells() implies (#[trigger] current.cell_at(
            i,
        )).len() == 0 by {
            self.lemma_empty_cells(false, i);
        }
        let drained = if self.is_migrating() {
            Self::tally_cells(
                self.table(true),
                self.table(true).num_cells(),
                Tally::zero().enter_array(self.table(true).num_cells(), false),
            )
        } else {
            Tally::zero()
        };
        if self.is_migrating() {
            let prev = self.table(true);
            assert forall|i: int| 0 <= i < prev.num_cells() implies (#[trigger] prev.cell_at(
                i,
            )).len() == 0 by {
                self.lemma_empty_cells(true, i);
            }
            Self::lemma_tally_cells_empty(
                prev,
                prev.num_cells(),
                Tally::zero().enter_array(prev.num_cells(), false),
            );
            Self::lemma_tally_cells_frame(
                prev,
                prev.num_cells(),
                Tally::zero().enter_array(prev.num_cells(), false),
            );
        }
        Self::lemma_tally_cells_empty(
            current,
            current.num_cells(),
            drained.enter_array(current.num_cells(), true),
        );
        Self::lemma_tally_cells_frame(
            current,
            current.num_cells(),
            drained.enter_array(current.num_cells(), true),
        );
    }

    /// What an accessor points at is an entry of the map.
    pub proof fn lemma_accessor(&self, accessor: Accessor)
        requires
            self.wf(),
            accessor.fits(self),
            accessor.entry(self) is Some,
        ensures
            accessor.entry(self) matches Some(e) && self@.contains_key(e.0) && self@[e.0] == e.1,
    {
        let table = self.table(accessor.in_old);
        let i = accessor.cell_index as int;
        let h = accessor.slot.unwrap();
        let cell = table.cell_at(i);
        let e = cell.entry_at(h).unwrap();
        table.lemma_cell_wf(self.hasher, i);
        assert(cell.holds(h, e.0));
        cell.lemma_tagged(h, e.0);
        table.lemma_entry(self.hasher, i, e.0);
    }

    /// Takes the entry that the accessor points at out of the map. Where that leaves one of
    /// the first 16 cells of its array empty, a shrinking resize is asked for.
    fn erase(&mut self, accessor: Accessor)
        requires
            old(self).wf(),
            accessor.fits(old(self)),
            accessor.is_occupied(),
        ensures
            final(self).wf(),
            final(self)@ == old(self)@.remove(accessor.entry(old(self)).unwrap().0),
            final(self).hasher == old(self).hasher,
            final(self).minimum_capacity == old(self).minimum_capacity,
            !accessor.cell_in_sampling_range ==> final(self).spec_capacity() == old(self).spec_capacity(),
            !(accessor.cell_in_sampling_range && accessor.cell(old(self)).len() == 1) ==> {
                &&& final(self).spec_capacity() == old(self).spec_capacity()
                &&& final(self).is_migrating() == old(self).is_migrating()
            },
    {
        let h = accessor.slot.unwrap();
        self.array.erase(&self.hasher, accessor.in_old, accessor.cell_index, h);
        if accessor.cell_in_sampling_range {
            let table: &Array<K, V> = if accessor.in_old {
                self.array.old_array().unwrap()
            } else {
                &self.array
            };
            proof {
                table.lemma_cell_wf(self.hasher, accessor.cell_index as int);
            }
            if table.cell(accessor.cell_index).empty() {
                self.resize(true);
            }
        }
    }

    /// Stores an entry for `key` unless the map has one. Returns the accessor for the new
    /// entry, or the accessor for the entry that the map has, with the value that was not
    /// stored. Where the key belongs to one of the first 16 cells and the primary slots of
    /// that cell are full, a growing resize is asked for first.
    pub fn insert(&mut self, key: K, value: V) -> (r: Result<Accessor, (Accessor, V)>)
        requires
            old(self).wf(),
        ensures
            Self::inserted(*old(self), *final(self), key, value, r),
    {
        let (hash, tag) = self.hash(&key);
        let (mut accessor, mut cell_index) = self.acquire(&key, hash, tag);
        if accessor.slot.is_some() {
            return Err((accessor, value));
        }
        proof {
            self.array.lemma_cell_wf(self.hasher, cell_index as int);
        }
        if self.array.cell(cell_index).full() && cell_index < ARRAY_SIZE {
            self.resize(false);
            let (again, index) = self.acquire(&key, hash, tag);
            accessor = again;
            cell_index = index;
            if accessor.slot.is_some() {
                return Err((accessor, value));
            }
        }
        let ghost before = *self;
        let h = self.array.insert(&self.hasher, cell_index, key, tag, value);
        accessor.slot = Some(h);
        proof {
            if !old(self).is_migrating() && !old(self).asks_to_grow(key) {
                Self::lemma_stored(before, *self, key, tag, value, h);
            }
        }
        Ok(accessor)
    }

    /// An entry went into the cell of a map that is not migrating: the map has an overflow
    /// link where it had one or where that cell had no free primary slot.
    proof fn lemma_stored(before: Self, after: Self, key: K, tag: u16, value: V, h: SlotHandle)
        requires
            before.wf(),
            !before.is_migrating(),
            !after.is_migrating(),
            after.array.num_cells() == before.array.num_cells(),
            Cell::inserted(
                before.home_cell(key),
                after.current_cell(before.home_index(key)),
                h,
                key,
                tag,
                value,
            ),
            forall|i: int|
                0 <= i < before.spec_num_cells() && i != before.home_index(key)
                    ==> #[trigger] after.current_cell(i) == before.current_cell(i),
        ensures
            after.has_links() == (before.has_links() || before.home_is_full(key)),
    {
        before.lemma_cells();
        let i = before.home_index(key);
        let cell = before.home_cell(key);
        let filled = after.current_cell(i);
        filled.lemma_links();
        assert(filled.num_links() >= cell.num_links());
        if before.home_is_full(key) {
            if h.link is None {
                assert(cell.entry_at(SlotHandle { link: None, index: h.index }) is Some);
            }
            assert(filled.entry_at(h) is Some);
            assert(after.array.has_cell(false, i) && after.array.cell_of(false, i).num_links() > 0);
        } else {
            assert(h.link is None);
            assert(filled.num_links() == cell.num_links());
            if after.has_links() {
                let (o, j) = choose|o: bool, j: int| #[trigger]
                    after.array.has_cell(o, j) && after.array.cell_of(o, j).num_links() > 0;
                assert(!o);
                if j != i {
                    assert(after.current_cell(j) == before.current_cell(j));
                }
                assert(before.array.has_cell(o, j) && before.array.cell_of(o, j).num_links() > 0);
            }
        }
        if before.has_links() {
            let (o, j) = choose|o: bool, j: int| #[trigger]
                before.array.has_cell(o, j) && before.array.cell_of(o, j).num_links() > 0;
            assert(!o);
            if j != i {
                assert(after.current_cell(j) == before.current_cell(j));
            }
            assert(after.array.has_cell(o, j) && after.array.cell_of(o, j).num_links() > 0);
        }
    }

    /// Stores `value` for `key`, in place of the value that the map has for it, if any.
    /// Returns the accessor for the entry.
    pub fn upsert(&mut self, key: K, value: V) -> (accessor: Accessor)
        requires
            old(self).wf(),
        ensures
            Self::upserted(*old(self), *final(self), key, value, accessor),
    {
        match self.insert(key, value) {
            Ok(accessor) => accessor,
            Err((accessor, value)) => {
                let h = accessor.slot.unwrap();
                self.array.replace_value(
                    &self.hasher,
                    accessor.in_old,
                    accessor.cell_index,
                    h,
                    value,
                );
                accessor
            },
        }
    }

    /// Takes the entry of `key` out of the map. Returns whether there was one.
    pub fn remove(&mut self, key: K) -> (removed: bool)
        requires
            old(self).wf(),
        ensures
            Self::removed(*old(self), *final(self), key, removed),
    {
        match self.get(key) {
            Some(accessor) => {
                proof {
                    self.lemma_cells();
                }
                self.erase(accessor);
                true
            },
            None => {
                assert(self@ =~= old(self)@.remove(key));
                false
            },
        }
    }

    /// The number of primary slots of the current array. On the way, the migration of an old
    /// array goes one step further.
    pub fn capacity(&mut self) -> (n: usize)
        requires
            old(self).wf(),
        ensures
            final(self).wf(),
            final(self)@ == old(self)@,
            final(self).spec_hasher() == old(self).spec_hasher(),
            final(self).spec_minimum_capacity() == old(self).spec_minimum_capacity(),
            final(self).spec_capacity() == old(self).spec_capacity(),
            n == old(self).spec_capacity(),
            !old(self).is_migrating() ==> *final(self) == *old(self),
    {
        if self.array.has_old_array() {
            self.array.partial_rehash(&self.hasher);
        }
        self.array.get_capacity()
    }

    /// Calls `f` on the entry of `key`, if the map has one, and returns what `f` returns. On
    /// the way, the migration of an old array goes one step further.
    pub fn read<U, F: FnOnce(&K, &V) -> U>(&mut self, key: K, f: F) -> (r: Option<U>)
        requires
            old(self).wf(),
            old(self)@.contains_key(key) ==> call_requires(f, (&key, &old(self)@[key])),
        ensures
            final(self).wf(),
            final(self)@ == old(self)@,
            final(self).spec_hasher() == old(self).spec_hasher(),
            final(self).spec_minimum_capacity() == old(self).spec_minimum_capacity(),
            final(self).spec_capacity() == old(self).spec_capacity(),
            !old(self).is_migrating() ==> *final(self) == *old(self),
            match r {
                Some(u) => old(self)@.contains_key(key) && call_ensures(
                    f,
                    (&key, &old(self)@[key]),
                    u,
                ),
                None => !old(self)@.contains_key(key),
            },
    {
        let (hash, tag) = self.hash(&key);
        if self.array.has_old_array() {
            if !self.array.partial_rehash(&self.hasher) {
                let (slot, cell_index) = self.search(true, &key, hash, tag);
                if let Some(h) = slot {
                    proof {
                        self.lemma_accessor(
                            Accessor {
                                in_old: true,
                                cell_index,
                                cell_in_sampling_range: cell_index < SAMPLING_RANGE,
                                slot,
                            },
                        );
                        self.array.predecessor().lemma_cell_wf(self.hasher, cell_index as int);
                    }
                    let (k, v) = self.array.old_array().unwrap().cell(cell_index).get(h);
                    return Some(f(k, v));
                }
            }
        }
        let (slot, cell_index) = self.search(false, &key, hash, tag);
        if let Some(h) = slot {
            proof {
                self.lemma_accessor(
                    Accessor {
                        in_old: false,
                        cell_index,
                        cell_in_sampling_range: cell_index < SAMPLING_RANGE,
                        slot,
                    },
                );
                self.array.lemma_cell_wf(self.hasher, cell_index as int);
            }
            let (k, v) = self.array.cell(cell_index).get(h);
            return Some(f(k, v));
        }
        None
    }
}

impl Accessor {
    /// The entry that the accessor points at.
    pub fn peek<'a, K: PartialEq + Send + 'static, V: Send + 'static, H: Fn(&K) -> u64>(
        &self,
        map: &'a HashMap<K, V, H>,
    ) -> (entry: (&'a K, &'a V))
        requires
            map.wf(),
            self.fits(map),
            self.entry(map) is Some,
        ensures
            self.entry(map) == Some((*entry.0, *entry.1)),
            map@.contains_key(*entry.0),
            map@[*entry.0] == *entry.1,
    {
        proof {
            map.lemma_accessor(*self);
            map.table(self.in_old).lemma_cell_wf(map.hasher, self.cell_index as int);
        }
        let table: &Array<K, V> = if self.in_old {
            map.array.old_array().unwrap()
        } else {
            &map.array
        };
        table.cell(self.cell_index).get(self.slot.unwrap())
    }

    /// The entry that the accessor points at, with the value open to change.
    pub fn get<'a, K: PartialEq + Send + 'static, V: Send + 'static, H: Fn(&K) -> u64>(
        &self,
        map: &'a mut HashMap<K, V, H>,
    ) -> (entry: (&'a K, &'a mut V))
        requires
            old(map).wf(),
            self.fits(old(map)),
            self.entry(old(map)) is Some,
        ensures
            self.entry(old(map)) == Some((*entry.0, *entry.1)),
            old(map)@.contains_key(*entry.0),
            old(map)@[*entry.0] == *entry.1,
            HashMap::revalued(*old(map), *final(map), *self, *final(entry.1)),
    {
        let ghost before = *map;
        proof {
            before.lemma_accessor(*self);
            let earlier = self.entry(&before).unwrap().1;
            assert forall|after: HashMap<K, V, H>, value: V|
                after.hasher == before.hasher && after.minimum_capacity == before.minimum_capacity
                    && #[trigger] Array::revalued(
                    before.array,
                    after.array,
                    before.hasher,
                    self.in_old,
                    self.cell_index as int,
                    self.slot.unwrap(),
                    value,
                    earlier,
                ) implies HashMap::revalued(before, after, *self, value) by {}
        }
        map.array.get_mut(&map.hasher, self.in_old, self.cell_index, self.slot.unwrap())
    }

    /// Takes the entry that the accessor points at out of the map. Returns whether the
    /// accessor pointed at an entry.
    pub fn erase<K: PartialEq + Send + 'static, V: Send + 'static, H: Fn(&K) -> u64>(
        self,
        map: &mut HashMap<K, V, H>,
    ) -> (erased: bool)
        requires
            old(map).wf(),
            self.fits(old(map)),
        ensures
            final(map).wf(),
            final(map).spec_hasher() == old(map).spec_hasher(),
            final(map).spec_minimum_capacity() == old(map).spec_minimum_capacity(),
            erased == self.entry(old(map)) is Some,
            erased ==> final(map)@ == old(map)@.remove(self.entry(old(map)).unwrap().0),
            !erased ==> *final(map) == *old(map),
            !(self.in_sampling_range() && self.cell(old(map)).len() == 1) ==> {
                &&& final(map).spec_capacity() == old(map).spec_capacity()
                &&& final(map).is_migrating() == old(map).is_migrating()
            },
    {
        if self.slot.is_none() {
            return false;
        }
        map.erase(self);
        true
    }
}

impl<K: PartialEq + Send + 'static, V: Send + 'static, H: Fn(&K) -> u64> HashMap<K, V, H> {
    /// The keys in the cells of one of the arrays from the cell `c` on, and, where that array
    /// is the one that is being drained, the keys in the current array as well: the keys
    /// that a walk over the map has before it once it reaches that cell.
    pub closed spec fn keys_from_cell(&self, in_old: bool, c: int) -> Set<K> {
        Set::new(
            |k: K|
                (self.table(in_old).own_map(self.hasher).contains_key(k) && self.table(
                    in_old,
                ).index_of(self.hasher, k) >= c) || (in_old && self.array.own_map(
                    self.hasher,
                ).contains_key(k)),
        )
    }

    /// A walk that starts with the first cell has all keys of the map before it.
    proof fn lemma_keys_from_first_cell(&self)
        requires
            self.wf(),
        ensures
            self.keys_from_cell(self.array.has_old(), 0) == self@.dom(),
    {
        assert forall|k: K|
            self.keys_from_cell(self.array.has_old(), 0).contains(k) <==> self@.dom().contains(
                k,
            ) by {
            self.table(self.array.has_old()).lemma_lookup(self.hasher, k);
        }
        assert(self.keys_from_cell(self.array.has_old(), 0) =~= self@.dom());
    }

    /// The keys from a cell on are the keys of that cell and the keys from the next cell on.
    proof fn lemma_keys_from_cell(&self, in_old: bool, c: int)
        requires
            self.wf(),
            in_old ==> self.array.has_old(),
            0 <= c < self.table(in_old).num_cells(),
        ensures
            self.keys_from_cell(in_old, c) == self.table(in_old).cell_at(c).keys_from(0).union(
                self.keys_from_cell(in_old, c + 1),
            ),
            self.table(in_old).cell_at(c).keys_from(0).disjoint(self.keys_from_cell(in_old, c + 1)),
    {
        let table = self.table(in_old);
        let cell = table.cell_at(c);
        cell.lemma_keys_from_start();
        assert forall|k: K|
            self.keys_from_cell(in_old, c).contains(k) <==> cell.keys_from(0).union(
                self.keys_from_cell(in_old, c + 1),
            ).contains(k) by {
            table.lemma_lookup(self.hasher, k);
            if cell.tagged().contains_key(k) {
                table.lemma_entry(self.hasher, c, k);
            }
        }
        assert(self.keys_from_cell(in_old, c) =~= cell.keys_from(0).union(
            self.keys_from_cell(in_old, c + 1),
        ));
        assert forall|k: K|
            !(cell.keys_from(0).contains(k) && self.keys_from_cell(in_old, c + 1).contains(
                k,
            )) by {
            if cell.tagged().contains_key(k) {
                table.lemma_entry(self.hasher, c, k);
                if in_old {
                    assert(table.own_map(self.hasher).dom().contains(k));
                }
            }
        }
    }

    /// Past the last cell of the array that is being drained, a walk has the keys of the
    /// current array before it; past the last cell of the current array, none.
    proof fn lemma_keys_from_end(&self, in_old: bool)
        requires
            self.wf(),
            in_old ==> self.array.has_old(),
        ensures
            self.keys_from_cell(in_old, self.table(in_old).num_cells() as int) == if in_old {
                self.keys_from_cell(false, 0)
            } else {
                Set::<K>::empty()
            },
    {
        let n = self.table(in_old).num_cells() as int;
        if in_old {
            assert forall|k: K|
                self.keys_from_cell(true, n).contains(k) <==> self.keys_from_cell(
                    false,
                    0,
                ).contains(k) by {
                self.table(true).lemma_lookup(self.hasher, k);
                self.table(false).lemma_lookup(self.hasher, k);
            }
            assert(self.keys_from_cell(true, n) =~= self.keys_from_cell(false, 0));
        } else {
            assert forall|k: K| !self.keys_from_cell(false, n).contains(k) by {
                self.table(false).lemma_lookup(self.hasher, k);
            }
            assert(self.keys_from_cell(false, n) =~= Set::<K>::empty());
        }
    }

    /// The first cell that holds an entry, among the cells of one of the arrays from the cell
    /// `from` on and, where that array is the one that is being drained, the cells of the
    /// current array.
    fn find_cell(&self, in_old: bool, from: usize) -> (found: Option<(bool, usize)>)
        requires
            self.wf(),
            in_old ==> self.array.has_old(),
            from <= self.table(in_old).num_cells(),
        ensures
            match found {
                Some((o, c)) => {
                    &&& o ==> in_old
                    &&& o == in_old ==> c >= from
                    &&& c < self.table(o).num_cells()
                    &&& self.table(o).cell_at(c as int).len() > 0
                    &&& self.keys_from_cell(o, c as int) == self.keys_from_cell(in_old, from as int)
                },
                None => self.keys_from_cell(in_old, from as int) == Set::<K>::empty(),
            },
    {
        let mut start = from;
        if in_old {
            let table = self.array.old_array().unwrap();
            let num_cells = table.get_num_cells();
            let mut i = from;
            while i < num_cells
                invariant
                    self.wf(),
                    self.array.has_old(),
                    *table == self.table(true),
                    num_cells == table.num_cells(),
                    from <= i <= num_cells,
                    in_old,
                    self.keys_from_cell(true, i as int) == self.keys_from_cell(true, from as int),
                decreases num_cells - i,
            {
                proof {
                    table.lemma_cell_wf(self.hasher, i as int);
                    table.cell_at(i as int).lemma_empty();
                    if table.cell_at(i as int).is_killed() {
                        table.cell_at(i as int).lemma_killed();
                    }
                    self.lemma_keys_from_cell(true, i as int);
                }
                let cell = table.cell(i);
                if !cell.killed() && !cell.empty() {
                    return Some((true, i));
                }
                proof {
                    assert(self.keys_from_cell(true, i + 1) =~= self.keys_from_cell(true, i as int));
                }
                i += 1;
            }
            proof {
                self.lemma_keys_from_end(true);
            }
            start = 0;
        }
        let num_cells = self.array.get_num_cells();
        let mut i = start;
        while i < num_cells
            invariant
                self.wf(),
                in_old ==> self.array.has_old(),
                num_cells == self.array.num_cells(),
                start <= i <= num_cells,
                !in_old ==> start == from,
                self.table(false) == self.array,
                self.keys_from_cell(false, i as int) == self.keys_from_cell(in_old, from as int),
            decreases num_cells - i,
        {
            proof {
                self.array.lemma_cell_wf(self.hasher, i as int);
                self.array.cell_at(i as int).lemma_empty();
                self.lemma_keys_from_cell(false, i as int);
            }
            let cell = self.array.cell(i);
            if !cell.killed() && !cell.empty() {
                return Some((false, i));
            }
            proof {
                assert(self.keys_from_cell(false, i + 1) =~= self.keys_from_cell(false, i as int));
            }
            i += 1;
        }
        proof {
            self.lemma_keys_from_end(false);
        }
        None
    }

    /// The keys that a walk has before it from a cell on stay the same while the cells from
    /// that cell on, and the cells of the current array where the walk is in the array that
    /// is being drained, stay the same.
    proof fn lemma_keys_from_cell_kept(&self, before: &Self, in_old: bool, from: int)
        requires
            self.wf(),
            before.wf(),
            self.hasher == before.hasher,
            in_old ==> self.array.has_old() && before.array.has_old(),
            self.table(in_old).lb_cells() == before.table(in_old).lb_cells(),
            self.table(in_old).num_cells() == before.table(in_old).num_cells(),
            forall|j: int|
                from <= j < before.table(in_old).num_cells() ==> #[trigger] self.table(
                    in_old,
                ).cell_at(j) == before.table(in_old).cell_at(j),
            in_old ==> self.array.lb_cells() == before.array.lb_cells() && self.array.num_cells()
                == before.array.num_cells() && forall|j: int|
                0 <= j < before.array.num_cells() ==> #[trigger] self.array.cell_at(j)
                    == before.array.cell_at(j),
            from >= 0,
        ensures
            self.keys_from_cell(in_old, from) == before.keys_from_cell(in_old, from),
    {
        assert forall|k: K|
            self.keys_from_cell(in_old, from).contains(k) <==> before.keys_from_cell(
                in_old,
                from,
            ).contains(k) by {
            self.table(in_old).lemma_lookup(self.hasher, k);
            before.table(in_old).lemma_lookup(self.hasher, k);
            if in_old {
                self.array.lemma_lookup(self.hasher, k);
                before.array.lemma_lookup(self.hasher, k);
            }
        }
        assert(self.keys_from_cell(in_old, from) =~= before.keys_from_cell(in_old, from));
    }

    /// A scanner that points at the first entry of a cell.
    fn pick(&self, in_old: bool, cell_index: usize) -> (found: Option<Scanner>)
        requires
            self.wf(),
            in_old ==> self.array.has_old(),
            cell_index < self.table(in_old).num_cells(),
        ensures
            match found {
                Some(scanner) => {
                    &&& scanner.fits(self)
                    &&& scanner.accessor is Some
                    &&& !scanner.activated
                    &&& !scanner.erase_on_next
                    &&& scanner.in_old == in_old
                    &&& scanner.cell_index == cell_index
                    &&& scanner.remaining(self) == self.keys_from_cell(in_old, cell_index as int)
                },
                None => self.table(in_old).cell_at(cell_index as int).len() == 0,
            },
    {
        let table: &Array<K, V> = if in_old {
            self.array.old_array().unwrap()
        } else {
            &self.array
        };
        proof {
            table.lemma_cell_wf(self.hasher, cell_index as int);
        }
        let cell = table.cell(cell_index);
        match cell.first() {
            Some(h) => {
                let scanner = Scanner {
                    accessor: Some(
                        Accessor {
                            in_old,
                            cell_index,
                            cell_in_sampling_range: cell_index < SAMPLING_RANGE,
                            slot: Some(h),
                        },
                    ),
                    in_old,
                    cell_index,
                    activated: false,
                    erase_on_next: false,
                };
                proof {
                    cell.lemma_occupied_is_valid(h);
                    cell.lemma_rank(h, h);
                    assert forall|k: K|
                        cell.keys_from(cell.rank(h)).contains(k) <==> cell.keys_from(0).contains(
                            k,
                        ) by {
                        if cell.keys_from(0).contains(k) {
                            let g = choose|g: SlotHandle| cell.holds(g, k) && cell.rank(g) >= 0;
                            assert(cell.entry_at(g) is Some);
                            assert(cell.holds(g, k) && cell.rank(g) >= cell.rank(h));
                        }
                        if cell.keys_from(cell.rank(h)).contains(k) {
                            let g = choose|g: SlotHandle|
                                cell.holds(g, k) && cell.rank(g) >= cell.rank(h);
                            assert(cell.holds(g, k) && cell.rank(g) >= 0);
                        }
                    }
                    assert(cell.keys_from(cell.rank(h)) =~= cell.keys_from(0));
                    self.lemma_keys_from_cell(in_old, cell_index as int);
                }
                Some(scanner)
            },
            None => None,
        }
    }

    /// A scanner that points at the first entry of the map and has not produced it yet.
    pub fn iter(&self) -> (scanner: Scanner)
        requires
            self.wf(),
        ensures
            scanner.fits(self),
            scanner.remaining(self) == self@.dom(),
            scanner.current(self) is None,
            !scanner.will_erase(),
    {
        proof {
            self.lemma_keys_from_first_cell();
        }
        if let Some((in_old, cell_index)) = self.find_cell(self.array.has_old_array(), 0) {
            if let Some(scanner) = self.pick(in_old, cell_index) {
                return scanner;
            }
        }
        Scanner { accessor: None, in_old: false, cell_index: 0, activated: false, erase_on_next: false }
    }

    /// A scanner that points at the first entry after the cell `current_index` of one of the
    /// arrays.
    fn next(&self, in_old: bool, current_index: usize) -> (found: Option<Scanner>)
        requires
            self.wf(),
            in_old ==> self.array.has_old(),
            current_index < self.table(in_old).num_cells(),
        ensures
            match found {
                Some(scanner) => {
                    &&& scanner.fits(self)
                    &&& scanner.accessor is Some
                    &&& !scanner.activated
                    &&& !scanner.erase_on_next
                    &&& scanner.in_old ==> in_old
                    &&& scanner.in_old == in_old ==> scanner.cell_index > current_index
                    &&& scanner.remaining(self) == self.keys_from_cell(in_old, current_index + 1)
                },
                None => self.keys_from_cell(in_old, current_index + 1) == Set::<K>::empty(),
            },
    {
        proof {
            self.table(in_old).lemma_num_cells();
        }
        if let Some((o, cell_index)) = self.find_cell(in_old, current_index + 1) {
            if let Some(scanner) = self.pick(o, cell_index) {
                return Some(scanner);
            }
        }
        None
    }
}

impl Scanner {
    /// The scanner points at an entry that `map` has, or at none.
    pub closed spec fn fits<K: PartialEq + Send + 'static, V: Send + 'static, H: Fn(&K) -> u64>(
        &self,
        map: &HashMap<K, V, H>,
    ) -> bool {
        &&& self.accessor matches Some(accessor) ==> {
            &&& accessor.fits(map)
            &&& accessor.is_occupied()
            &&& accessor.in_old == self.in_old
            &&& accessor.cell_index == self.cell_index
        }
        &&& self.erase_on_next ==> self.activated && self.accessor is Some
    }

    /// The entry that the scanner has produced last.
    pub closed spec fn current<K: PartialEq + Send + 'static, V: Send + 'static, H: Fn(&K) -> u64>(
        &self,
        map: &HashMap<K, V, H>,
    ) -> Option<(K, V)> {
        if self.activated && self.accessor is Some {
            self.accessor.unwrap().entry(map)
        } else {
            None
        }
    }

    /// The keys of the entries that the scanner has yet to produce.
    pub closed spec fn remaining<
        K: PartialEq + Send + 'static,
        V: Send + 'static,
        H: Fn(&K) -> u64,
    >(&self, map: &HashMap<K, V, H>) -> Set<K> {
        match self.accessor {
            Some(accessor) => {
                let cell = map.array.cell_of(accessor.in_old, accessor.cell_index as int);
                let rank = cell.rank(accessor.slot.unwrap());
                cell.keys_from(
                    if self.activated {
                        rank + 1
                    } else {
                        rank
                    },
                ).union(map.keys_from_cell(accessor.in_old, accessor.cell_index + 1))
            },
            None => Set::empty(),
        }
    }

    /// Whether the entry that this scanner points at comes after the entry that `earlier`
    /// points at, in the order in which a walk over `map` goes: the array that is being
    /// drained before the current array, the cells of an array by their number, and the
    /// slots of a cell by their rank.
    pub closed spec fn comes_after<
        K: PartialEq + Send + 'static,
        V: Send + 'static,
        H: Fn(&K) -> u64,
    >(&self, map: &HashMap<K, V, H>, earlier: Scanner) -> bool {
        &&& self.accessor is Some
        &&& earlier.accessor is Some
        &&& {
            let here = self.accessor.unwrap();
            let there = earlier.accessor.unwrap();
            let cell = map.array.cell_of(there.in_old, there.cell_index as int);
            ||| there.in_old && !here.in_old
            ||| there.in_old == here.in_old && here.cell_index > there.cell_index
            ||| there.in_old == here.in_old && here.cell_index == there.cell_index && cell.rank(
                here.slot.unwrap(),
            ) > cell.rank(there.slot.unwrap())
        }
    }

    /// Whether the next step takes the entry that was produced last out of the map.
    pub closed spec fn will_erase(&self) -> bool {
        self.erase_on_next
    }

    /// A scanner that has not produced the entry that it points at produces it.
    proof fn lemma_activate<K: PartialEq + Send + 'static, V: Send + 'static, H: Fn(&K) -> u64>(
        before: Scanner,
        after: Scanner,
        map: &HashMap<K, V, H>,
    )
        requires
            map.wf(),
            before.fits(map),
            before.accessor is Some,
            !before.activated,
            after.activated,
            after.accessor == before.accessor,
        ensures
            after.current(map) matches Some(e) && before.remaining(map).contains(e.0)
                && after.remaining(map) == before.remaining(map).remove(e.0) && map@.contains_key(
                e.0,
            ) && map@[e.0] == e.1,
    {
        let accessor = before.accessor.unwrap();
        let table = map.table(accessor.in_old);
        let c = accessor.cell_index as int;
        let cell = table.cell_at(c);
        let h = accessor.slot.unwrap();
        let key = cell.entry_at(h).unwrap().0;
        table.lemma_cell_wf(map.hasher, c);
        map.lemma_accessor(accessor);
        cell.lemma_keys_from(h);
        cell.lemma_occupied_is_valid(h);
        cell.lemma_rank(h, h);
        map.lemma_keys_from_cell(accessor.in_old, c);
        assert(cell.holds(h, key) && cell.rank(h) >= 0);
        assert(cell.keys_from(0).contains(key));
        assert(after.remaining(map) =~= before.remaining(map).remove(key));
    }

    /// Goes on to the next entry. Where the entry that was produced last is marked for it,
    /// that entry is taken out of the map first. Returns whether there is a next entry.
    pub fn next<K: PartialEq + Send + 'static, V: Send + 'static, H: Fn(&K) -> u64>(
        &mut self,
        map: &mut HashMap<K, V, H>,
    ) -> (advanced: bool)
        requires
            old(map).wf(),
            old(self).fits(old(map)),
        ensures
            final(map).wf(),
            final(self).fits(final(map)),
            final(map).spec_hasher() == old(map).spec_hasher(),
            final(map).spec_minimum_capacity() == old(map).spec_minimum_capacity(),
            final(map).spec_capacity() == old(map).spec_capacity(),
            final(map).is_migrating() == old(map).is_migrating(),
            final(map)@ == if old(self).will_erase() {
                old(map)@.remove(old(self).current(old(map)).unwrap().0)
            } else {
                old(map)@
            },
            !final(self).will_erase(),
            advanced == final(self).current(final(map)) is Some,
            advanced && old(self).current(old(map)) is Some ==> final(self).comes_after(
                old(map),
                *old(self),
            ),
            match final(self).current(final(map)) {
                Some(e) => {
                    &&& old(self).remaining(old(map)).contains(e.0)
                    &&& final(self).remaining(final(map)) == old(self).remaining(old(map)).remove(
                        e.0,
                    )
                    &&& final(map)@.contains_key(e.0)
                    &&& final(map)@[e.0] == e.1
                },
                None => {
                    &&& old(self).remaining(old(map)) == Set::<K>::empty()
                    &&& final(self).remaining(final(map)) == Set::<K>::empty()
                },
            },
    {
        let ghost start = *self;
        let ghost map_start = *map;
        if !self.activated {
            self.activated = true;
            proof {
                if self.accessor is Some {
                    Self::lemma_activate(start, *self, map);
                }
            }
        } else if self.accessor.is_some() {
            let erase = self.erase_on_next;
            self.erase_on_next = false;
            let accessor = self.accessor.take().unwrap();
            let in_old = accessor.in_old;
            let cell_index = accessor.cell_index;
            let h = accessor.slot.unwrap();
            let table: &Array<K, V> = if in_old {
                map.array.old_array().unwrap()
            } else {
                &map.array
            };
            proof {
                table.lemma_cell_wf(map.hasher, cell_index as int);
                table.cell_at(cell_index as int).lemma_occupied_is_valid(h);
                map.lemma_accessor(accessor);
            }
            let following = table.cell(cell_index).next(h);
            let ghost cell_start = map_start.table(in_old).cell_at(cell_index as int);
            if erase {
                map.array.erase(&map.hasher, in_old, cell_index, h);
            }
            let ghost cell_now = map.table(in_old).cell_at(cell_index as int);
            proof {
                map.table(in_old).lemma_cell_wf(map.hasher, cell_index as int);
                map.lemma_keys_from_cell_kept(&map_start, in_old, cell_index + 1);
            }
            match following {
                Some(g) => {
                    self.accessor = Some(
                        Accessor {
                            in_old,
                            cell_index,
                            cell_in_sampling_range: accessor.cell_in_sampling_range,
                            slot: Some(g),
                        },
                    );
                    proof {
                        let after_h = cell_start.rank(h) + 1;
                        let from_g = cell_start.rank(g);
                        assert(cell_now.entry_at(g) == cell_start.entry_at(g));
                        assert(cell_now.keys_from(cell_now.rank(g)) == cell_start.keys_from(from_g));
                        assert forall|k: K|
                            cell_start.keys_from(after_h).contains(k)
                                <==> cell_start.keys_from(from_g).contains(k) by {
                            if cell_start.keys_from(after_h).contains(k) {
                                let other = choose|other: SlotHandle|
                                    cell_start.holds(other, k) && cell_start.rank(other)
                                        >= after_h;
                                assert(cell_start.entry_at(other) is Some);
                                assert(cell_start.holds(other, k) && cell_start.rank(other)
                                    >= from_g);
                            }
                            if cell_start.keys_from(from_g).contains(k) {
                                let other = choose|other: SlotHandle|
                                    cell_start.holds(other, k) && cell_start.rank(other)
                                        >= from_g;
                                assert(cell_start.holds(other, k) && cell_start.rank(other)
                                    >= after_h);
                            }
                        }
                        assert(cell_start.keys_from(after_h)
                            =~= cell_start.keys_from(from_g));
                        let unproduced = Scanner {
                            accessor: self.accessor,
                            in_old: self.in_old,
                            cell_index: self.cell_index,
                            activated: false,
                            erase_on_next: false,
                        };
                        assert(unproduced.remaining(map) == start.remaining(&map_start));
                        Self::lemma_activate(unproduced, *self, map);
                    }
                },
                None => {
                    proof {
                        let after_h = cell_start.rank(h) + 1;
                        assert forall|k: K|
                            !cell_start.keys_from(after_h).contains(k) by {
                            if cell_start.keys_from(after_h).contains(k) {
                                let other = choose|other: SlotHandle|
                                    cell_start.holds(other, k) && cell_start.rank(other)
                                        >= after_h;
                                assert(cell_start.entry_at(other) is Some);
                            }
                        }
                        assert(start.remaining(&map_start) =~= map_start.keys_from_cell(
                            in_old,
                            cell_index + 1,
                        ));
                    }
                    match map.next(in_old, cell_index) {
                        Some(scanner) => {
                            self.accessor = scanner.accessor;
                            self.in_old = scanner.in_old;
                            self.cell_index = scanner.cell_index;
                            proof {
                                Self::lemma_activate(scanner, *self, map);
                            }
                        },
                        None => {},
                    }
                },
            }
        }
        self.accessor.is_some()
    }

    /// The entry that the scanner has produced last.
    pub fn peek<'a, K: PartialEq + Send + 'static, V: Send + 'static, H: Fn(&K) -> u64>(
        &self,
        map: &'a HashMap<K, V, H>,
    ) -> (entry: (&'a K, &'a V))
        requires
            map.wf(),
            self.fits(map),
            self.current(map) is Some,
        ensures
            self.current(map) == Some((*entry.0, *entry.1)),
            map@.contains_key(*entry.0),
            map@[*entry.0] == *entry.1,
    {
        match &self.accessor {
            Some(accessor) => accessor.peek(map),
            None => vstd::pervasive::unreached(),
        }
    }

    /// The entry that the scanner has produced last, with the value open to change. The
    /// scanner goes on from the same place afterwards.
    pub fn get<'a, K: PartialEq + Send + 'static, V: Send + 'static, H: Fn(&K) -> u64>(
        &self,
        map: &'a mut HashMap<K, V, H>,
    ) -> (entry: (&'a K, &'a mut V))
        requires
            old(map).wf(),
            self.fits(old(map)),
            self.current(old(map)) is Some,
        ensures
            self.current(old(map)) == Some((*entry.0, *entry.1)),
            final(map).wf(),
            final(map).spec_hasher() == old(map).spec_hasher(),
            final(map).spec_minimum_capacity() == old(map).spec_minimum_capacity(),
            final(map).spec_capacity() == old(map).spec_capacity(),
            final(map).is_migrating() == old(map).is_migrating(),
            final(map)@ == old(map)@.insert(*entry.0, *final(entry.1)),
            self.fits(final(map)),
            self.current(final(map)) == Some((*entry.0, *final(entry.1))),
            self.remaining(final(map)) == self.remaining(old(map)),
    {
        let ghost before = *map;
        proof {
            let accessor = self.accessor.unwrap();
            before.lemma_accessor(accessor);
            let earlier = accessor.entry(&before).unwrap().1;
            let key = accessor.entry(&before).unwrap().0;
            assert forall|after: HashMap<K, V, H>, value: V|
                after.hasher == before.hasher && after.minimum_capacity == before.minimum_capacity
                    && #[trigger] Array::revalued(
                    before.array,
                    after.array,
                    before.hasher,
                    accessor.in_old,
                    accessor.cell_index as int,
                    accessor.slot.unwrap(),
                    value,
                    earlier,
                ) implies {
                &&& after.wf()
                &&& after.spec_capacity() == before.spec_capacity()
                &&& after.is_migrating() == before.is_migrating()
                &&& after@ == before@.insert(key, value)
                &&& self.fits(&after)
                &&& self.current(&after) == Some((key, value))
                &&& self.remaining(&after) == self.remaining(&before)
            } by {
                Self::lemma_revalued_remaining(*self, &before, &after, value, earlier);
            }
        }
        match &self.accessor {
            Some(accessor) => map.array.get_mut(
                &map.hasher,
                accessor.in_old,
                accessor.cell_index,
                accessor.slot.unwrap(),
            ),
            None => vstd::pervasive::unreached(),
        }
    }

    /// A change of the value of the entry that the scanner points at leaves the keys that
    /// the scanner has yet to produce as they were.
    proof fn lemma_revalued_remaining<
        K: PartialEq + Send + 'static,
        V: Send + 'static,
        H: Fn(&K) -> u64,
    >(scanner: Scanner, before: &HashMap<K, V, H>, after: &HashMap<K, V, H>, value: V, earlier: V)
        requires
            before.wf(),
            scanner.fits(before),
            scanner.accessor is Some,
            after.hasher == before.hasher,
            after.minimum_capacity == before.minimum_capacity,
            Array::revalued(
                before.array,
                after.array,
                before.hasher,
                scanner.accessor.unwrap().in_old,
                scanner.accessor.unwrap().cell_index as int,
                scanner.accessor.unwrap().slot.unwrap(),
                value,
                earlier,
            ),
        ensures
            after.wf(),
            scanner.fits(after),
            scanner.remaining(after) == scanner.remaining(before),
    {
        let accessor = scanner.accessor.unwrap();
        let in_old = accessor.in_old;
        let c = accessor.cell_index as int;
        let h = accessor.slot.unwrap();
        let cell_before = before.table(in_old).cell_at(c);
        let cell_after = after.table(in_old).cell_at(c);
        after.lemma_keys_from_cell_kept(before, in_old, c + 1);
        let from = cell_before.rank(h) + if scanner.activated {
            1int
        } else {
            0int
        };
        assert forall|k: K| cell_after.keys_from(from).contains(k) <==> cell_before.keys_from(
            from,
        ).contains(k) by {
            if cell_after.keys_from(from).contains(k) {
                let g = choose|g: SlotHandle| cell_after.holds(g, k) && cell_after.rank(g) >= from;
                assert(cell_before.holds(g, k) && cell_before.rank(g) >= from);
            }
            if cell_before.keys_from(from).contains(k) {
                let g = choose|g: SlotHandle| cell_before.holds(g, k) && cell_before.rank(g) >= from;
                assert(cell_after.holds(g, k) && cell_after.rank(g) >= from);
            }
        }
        assert(cell_after.keys_from(from) =~= cell_before.keys_from(from));
    }

    /// Marks the entry that the scanner has produced last: the next step takes it out of
    /// the map.
    fn mark_for_erase(&mut self)
        requires
            old(self).activated,
            old(self).accessor is Some,
        ensures
            final(self).erase_on_next,
            final(self).accessor == old(self).accessor,
            final(self).in_old == old(self).in_old,
            final(self).cell_index == old(self).cell_index,
            final(self).activated,
    {
        self.erase_on_next = true;
    }
}

impl<K: PartialEq + Send + 'static, V: Send + 'static, H: Fn(&K) -> u64> HashMap<K, V, H> {
    /// The tally of the first `n` cells of an array, on top of `start`. The entries in the
    /// overflow chain of a cell count as the word of the cell counts them.
    pub open spec fn tally_cells(table: Array<K, V>, n: nat, start: Tally) -> Tally
        decreases n,
    {
        if n == 0 {
            start
        } else {
            let cell = table.cell_at(n - 1);
            Self::tally_cells(table, (n - 1) as nat, start).add_cell(
                cell.primary_len(),
                Metadata::saturated(cell.overflow_len()),
                cell.is_killed(),
            )
        }
    }

    /// The tally of the map: that of the cells of the array that is being drained, if there
    /// is one, and on top of it that of the cells of the current array.
    pub open spec fn spec_tally(&self) -> Tally {
        let drained = if self.is_migrating() {
            Self::tally_cells(
                self.table(true),
                self.table(true).num_cells(),
                Tally::zero().enter_array(self.table(true).num_cells(), false),
            )
        } else {
            Tally::zero()
        };
        Self::tally_cells(
            self.table(false),
            self.table(false).num_cells(),
            drained.enter_array(self.table(false).num_cells(), true),
        )
    }

    /// Adds the cells of one of the arrays to the figures.
    fn tally_array(&self, in_old: bool, counter: &mut Counter, Ghost(start): Ghost<Tally>)
        requires
            self.wf(),
            in_old ==> self.array.has_old(),
            old(counter).counts(start),
        ensures
            final(counter).counts(
                Self::tally_cells(
                    self.table(in_old),
                    self.table(in_old).num_cells(),
                    start.enter_array(self.table(in_old).num_cells(), !in_old),
                ),
            ),
    {
        let table: &Array<K, V> = if in_old {
            self.array.old_array().unwrap()
        } else {
            &self.array
        };
        proof {
            table.lemma_capacity();
        }
        let num_cells = table.get_num_cells();
        counter.enter_array(num_cells, !in_old, Ghost(start));
        let ghost entered = start.enter_array(num_cells as nat, !in_old);
        let mut i: usize = 0;
        while i < num_cells
            invariant
                self.wf(),
                in_old ==> self.array.has_old(),
                *table == self.table(in_old),
                num_cells == table.num_cells(),
                i <= num_cells,
                counter.counts(Self::tally_cells(*table, i as nat, entered)),
            decreases num_cells - i,
        {
            proof {
                table.lemma_cell_wf(self.hasher, i as int);
            }
            let cell = table.cell(i);
            let (size, linked) = cell.size();
            counter.add_cell(
                size,
                linked,
                cell.killed(),
                Ghost(Self::tally_cells(*table, i as nat, entered)),
                Ghost(Metadata::saturated(cell.overflow_len())),
            );
            i += 1;
        }
    }

    /// The figures of the map, gathered by a scan over all cells.
    pub fn statistics(&self) -> (statistics: Statistics)
        requires
            self.wf(),
        ensures
            statistics@ == clamped_tally(self.spec_tally()),
    {
        let mut counter = Counter::new();
        let ghost mut tally = Tally::zero();
        if self.array.has_old_array() {
            self.tally_array(true, &mut counter, Ghost(tally));
            proof {
                tally = Self::tally_cells(
                    self.table(true),
                    self.table(true).num_cells(),
                    Tally::zero().enter_array(self.table(true).num_cells(), false),
                );
            }
        }
        self.tally_array(false, &mut counter, Ghost(tally));
        counter.finish(
            Ghost(
                Self::tally_cells(
                    self.table(false),
                    self.table(false).num_cells(),
                    tally.enter_array(self.table(false).num_cells(), true),
                ),
            ),
        )
    }

    /// An estimate of the number of entries. `f` gets the capacity and says how many entries
    /// to sample; the cells that hold as many primary slots, from the first cell on, are
    /// counted, and the count is scaled to all cells. Before that, the migration of an old
    /// array goes on by up to as many steps as cells are sampled.
    pub fn len<F: FnOnce(usize) -> usize>(&mut self, f: F) -> (n: usize)
        requires
            old(self).wf(),
            call_requires(f, (old(self).spec_capacity() as usize,)),
        ensures
            final(self).wf(),
            final(self)@ == old(self)@,
            final(self).spec_hasher() == old(self).spec_hasher(),
            final(self).spec_minimum_capacity() == old(self).spec_minimum_capacity(),
            final(self).spec_capacity() == old(self).spec_capacity(),
            !old(self).is_migrating() ==> *final(self) == *old(self),
            exists|wanted: usize| #[trigger]
                call_ensures(f, (old(self).spec_capacity() as usize,), wanted) && n == final(self).spec_len(wanted as nat),
    {
        proof {
            self.array.lemma_capacity();
        }
        let capacity = self.array.get_capacity();
        let wanted = f(capacity);
        let cells = cells_to_sample(wanted, capacity);
        proof {
            lemma_rounded_capacity(spec_min(wanted as nat, capacity as nat), capacity as nat);
        }
        let mut done = !self.array.has_old_array();
        let mut i: usize = 0;
        while i < cells && !done
            invariant
                self.wf(),
                self@ == old(self)@,
                self.hasher == old(self).hasher,
                self.minimum_capacity == old(self).minimum_capacity,
                self.array.num_cells() == old(self).array.num_cells(),
                !done ==> self.array.has_old(),
                !old(self).is_migrating() ==> *self == *old(self) && done,
                i <= cells,
            decreases cells - i,
        {
            done = self.array.partial_rehash(&self.hasher);
            i += 1;
        }
        self.estimate(cells)
    }

    /// Keeps the entries for which `f` returns `true` and takes the others out of the map.
    /// Returns the number of entries that were kept and the number of those that were taken
    /// out, each held at the largest `usize`. Where more were taken out than kept, and no
    /// more than an eighth of the capacity is in use, a shrinking resize is asked for.
    pub fn retain<F: Fn(&K, &V) -> bool>(&mut self, f: F) -> (counts: (usize, usize))
        requires
            old(self).wf(),
            forall|k: K| #[trigger]
                old(self)@.contains_key(k) ==> call_requires(f, (&k, &old(self)@[k])),
        ensures
            Self::retained(*old(self), *final(self), f, counts),
    {
        let ghost start = *self;
        let ghost mut kept: Set<K> = Set::empty();
        let ghost mut dropped: Set<K> = Set::empty();
        let mut retained_entries: usize = 0;
        let mut removed_entries: usize = 0;
        let mut scanner = self.iter();
        proof {
            self.lemma_finite();
        }
        let mut advanced = scanner.next(self);
        proof {
            if advanced {
                assert(start@.dom() =~= scanner.remaining(self).insert(
                    scanner.current(self).unwrap().0,
                ));
            }
        }
        while advanced
            invariant
                self.wf(),
                start.wf(),
                start@.dom().finite(),
                scanner.fits(self),
                !scanner.will_erase(),
                self.hasher == start.hasher,
                self.minimum_capacity == start.minimum_capacity,
                self.spec_capacity() == start.spec_capacity(),
                self.is_migrating() == start.is_migrating(),
                forall|k: K| #[trigger]
                    start@.contains_key(k) ==> call_requires(f, (&k, &start@[k])),
                kept.finite(),
                dropped.finite(),
                retained_entries == clamped(kept.len()),
                removed_entries == clamped(dropped.len()),
                kept.disjoint(dropped),
                kept.disjoint(scanner.remaining(self)),
                dropped.disjoint(scanner.remaining(self)),
                advanced == scanner.current(self) is Some,
                !advanced ==> scanner.remaining(self) == Set::<K>::empty(),
                scanner.current(self) matches Some(e) ==> !kept.contains(e.0) && !dropped.contains(
                    e.0,
                ) && !scanner.remaining(self).contains(e.0),
                start@.dom() == kept.union(dropped).union(scanner.remaining(self)).union(
                    match scanner.current(self) {
                        Some(e) => Set::empty().insert(e.0),
                        None => Set::empty(),
                    },
                ),
                self@.dom() == kept.union(scanner.remaining(self)).union(
                    match scanner.current(self) {
                        Some(e) => Set::empty().insert(e.0),
                        None => Set::empty(),
                    },
                ),
                forall|k: K| #[trigger] self@.contains_key(k) ==> self@[k] == start@[k],
                forall|k: K| #[trigger]
                    kept.contains(k) ==> call_ensures(f, (&k, &start@[k]), true),
                forall|k: K| #[trigger]
                    dropped.contains(k) ==> call_ensures(f, (&k, &start@[k]), false),
            decreases
                    scanner.remaining(self).len() + if advanced {
                        1nat
                    } else {
                        0nat
                    },
        {
            let ghost entry = scanner.current(self).unwrap();
            let ghost remaining = scanner.remaining(self);
            proof {
                vstd::set_lib::lemma_set_subset_finite(start@.dom(), remaining);
            }
            let (k, v) = scanner.peek(self);
            proof {
                assert(start@.dom().contains(entry.0));
                assert(call_requires(f, (&entry.0, &start@[entry.0])));
            }
            let keep = f(k, v);
            if !keep {
                scanner.mark_for_erase();
                removed_entries = removed_entries.saturating_add(1);
                proof {
                    dropped = dropped.insert(entry.0);
                }
            } else {
                retained_entries = retained_entries.saturating_add(1);
                proof {
                    kept = kept.insert(entry.0);
                }
            }
            assert(scanner.remaining(self) == remaining);
            assert(scanner.current(self) == Some(entry));
            advanced = scanner.next(self);
            proof {
                let left = scanner.remaining(self);
                if advanced {
                    let produced = scanner.current(self).unwrap();
                    assert(left == remaining.remove(produced.0));
                    assert(start@.dom() =~= kept.union(dropped).union(left).union(
                        Set::empty().insert(produced.0),
                    ));
                    assert(self@.dom() =~= kept.union(left).union(
                        Set::empty().insert(produced.0),
                    ));
                } else {
                    assert(start@.dom() =~= kept.union(dropped).union(left).union(Set::empty()));
                    assert(self@.dom() =~= kept.union(left).union(Set::empty()));
                }
            }
        }
        proof {
            assert(self@.dom() =~= kept);
            assert(start@.dom().difference(self@.dom()) =~= dropped);
        }
        if removed_entries > retained_entries {
            proof {
                self.array.lemma_capacity();
            }
            if retained_entries <= self.array.get_capacity() / 8 {
                self.resize(true);
            }
        }
        (retained_entries, removed_entries)
    }

    /// Takes all entries out of the map. Returns their number, held at the largest `usize`.
    pub fn clear(&mut self) -> (n: usize)
        requires
            old(self).wf(),
        ensures
            final(self).wf(),
            final(self).spec_hasher() == old(self).spec_hasher(),
            final(self).spec_minimum_capacity() == old(self).spec_minimum_capacity(),
            final(self)@ == Map::<K, V>::empty(),
            !final(self).has_links(),
            old(self)@.dom().finite(),
            n == clamped(old(self)@.dom().len()),
            n == 0 ==> final(self).spec_capacity() == old(self).spec_capacity() && final(self).is_migrating() == old(self).is_migrating(),
    {
        let none = |k: &K, v: &V| -> (keep: bool)
            ensures
                !keep,
            { false };
        let counts = self.retain(none);
        proof {
            assert(self@ =~= Map::<K, V>::empty());
            assert(old(self)@.dom().difference(self@.dom()) =~= old(self)@.dom());
            self.lemma_no_links();
        }
        counts.1
    }
}

} // verus!
