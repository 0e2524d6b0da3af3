use crate::capacity::{
    cell_index, lemma_cell_index_bound, lemma_next_power_of_two, lemma_word, rounded_capacity,
    spec_cell_index, spec_rounded_capacity, DEFAULT_CAPACITY,
};
use crate::cell::{Cell, SlotHandle, ARRAY_SIZE};
use crate::counting::{count_if, lemma_count_bounds, lemma_count_full, lemma_count_update, lemma_count_zero};
use crate::hash::{hash_key, hasher_ok, spec_hash, spec_tag};
use vstd::arithmetic::power2::{lemma2_to64, lemma_pow2_adds, lemma_pow2_strictly_increases, pow2};
use vstd::prelude::*;

verus! {

/// A table of cells whose number is a power of two, with the array that it takes over from
/// while that one is being drained.
pub struct Array<K, V> {
    cells: Vec<Cell<K, V>>,
    lb_cells: u32,
    old_array: Option<Box<Array<K, V>>>,
    rehashing_index: usize,
    rehashed_cells: usize,
}

pub open spec fn cell_is_killed<K, V>(cell: Cell<K, V>) -> bool {
    cell.is_killed()
}

/// The number of cells of the old array that one step of the migration takes: 16 where the
/// new array has no more cells than the old one, and half as many for each doubling, but 1 at
/// least.
pub open spec fn spec_stride(lb_new: nat, lb_old: nat) -> nat {
    if lb_new <= lb_old {
        16
    } else if lb_new == lb_old + 1 {
        8
    } else if lb_new == lb_old + 2 {
        4
    } else if lb_new == lb_old + 3 {
        2
    } else {
        1
    }
}

/// Hands a drained array to the epoch collector of `crossbeam_epoch`: `Guard::defer` stores
/// the closure and runs it, which drops the array, at some point after the threads that are
/// pinned now have been unpinned. No claim is made of when, or whether, that happens.
#[verifier::external_body]
fn retire<K: Send + 'static, V: Send + 'static>(array: Box<Array<K, V>>) {
    crossbeam_epoch::pin().defer(move || array.release());
}

impl<K, V> Array<K, V> {
    /// The binary logarithm of the number of cells.
    pub closed spec fn lb_cells(&self) -> nat {
        self.lb_cells as nat
    }

    pub closed spec fn num_cells(&self) -> nat {
        self.cells@.len()
    }

    /// The number of primary slots.
    pub open spec fn capacity(&self) -> nat {
        self.num_cells() * ARRAY_SIZE as nat
    }

    pub closed spec fn cell_at(&self, i: int) -> Cell<K, V> {
        self.cells@[i]
    }

    /// Whether an array is still being drained into this one.
    pub closed spec fn has_old(&self) -> bool {
        self.old_array is Some
    }

    /// The array that is being drained into this one.
    pub closed spec fn predecessor(&self) -> Array<K, V> {
        *self.old_array.unwrap()
    }

    /// The next cell of the old array that the stepwise migration will take.
    pub closed spec fn rehashing_index(&self) -> nat {
        self.rehashing_index as nat
    }

    /// The number of cells of the old array that have been drained.
    pub closed spec fn rehashed_cells(&self) -> nat {
        self.rehashed_cells as nat
    }

    /// The number of cells of this array that are marked as drained.
    pub closed spec fn killed_cells(&self) -> nat {
        count_if(self.cells@, |cell: Cell<K, V>| cell_is_killed(cell))
    }

    /// The cell of this array that `key` belongs to.
    pub open spec fn index_of<H: Fn(&K) -> u64>(&self, hasher: H, key: K) -> int {
        spec_cell_index(spec_hash(hasher, key), self.lb_cells()) as int
    }

    /// The cell that a handle of the map points into: one of the array that is being drained
    /// where `in_old` is set, else one of this array.
    pub open spec fn cell_of(&self, in_old: bool, i: int) -> Cell<K, V> {
        if in_old {
            self.predecessor().cell_at(i)
        } else {
            self.cell_at(i)
        }
    }

    /// Whether the handle of a cell names a cell that there is.
    pub open spec fn has_cell(&self, in_old: bool, i: int) -> bool {
        if in_old {
            self.has_old() && 0 <= i < self.predecessor().num_cells()
        } else {
            0 <= i < self.num_cells()
        }
    }

    /// What the cells of this array hold, as a map.
    #[verifier::opaque]
    pub open spec fn own_map<H: Fn(&K) -> u64>(&self, hasher: H) -> Map<K, V> {
        Map::new(
            |k: K| self.cell_at(self.index_of(hasher, k)).tagged().contains_key(k),
            |k: K| self.cell_at(self.index_of(hasher, k)).tagged()[k].1,
        )
    }

    /// The cells are as many as the logarithm says, between 16 cells and as many as give the
    /// largest capacity.
    pub open spec fn sized(&self) -> bool {
        &&& self.num_cells() == pow2(self.lb_cells())
        &&& 4 <= self.lb_cells()
        &&& self.lb_cells() + 4 < usize::BITS
    }

    /// Each cell is sound, and each entry sits in the cell that its hash names, under the tag
    /// that its hash gives.
    #[verifier::opaque]
    pub open spec fn cells_wf<H: Fn(&K) -> u64>(&self, hasher: H) -> bool {
        &&& forall|i: int| 0 <= i < self.num_cells() ==> (#[trigger] self.cell_at(i)).wf()
        &&& forall|i: int, k: K|
            0 <= i < self.num_cells() && #[trigger] self.cell_at(i).tagged().contains_key(k) ==> {
                &&& self.index_of(hasher, k) == i
                &&& self.cell_at(i).tagged()[k].0 == spec_tag(hasher, k)
            }
    }

    /// No cell is marked as drained.
    pub open spec fn none_killed(&self) -> bool {
        forall|i: int| 0 <= i < self.num_cells() ==> !(#[trigger] self.cell_at(i)).is_killed()
    }

    /// The cells of this array are sound and none of them is marked as drained.
    pub open spec fn own_wf<H: Fn(&K) -> u64>(&self, hasher: H) -> bool {
        &&& self.sized()
        &&& self.cells_wf(hasher)
        &&& self.none_killed()
    }

    /// `prev` can be the array that is being drained into this one: it is sound and has no
    /// predecessor of its own, no key is in both, and the counters of the migration agree
    /// with the cells of `prev` that are marked as drained.
    pub open spec fn old_ok<H: Fn(&K) -> u64>(&self, hasher: H, prev: Array<K, V>) -> bool {
        &&& prev.sized()
        &&& prev.cells_wf(hasher)
        &&& !prev.has_old()
        &&& prev.own_map(hasher).dom().disjoint(self.own_map(hasher).dom())
        &&& self.rehashed_cells() == prev.killed_cells()
        &&& self.rehashing_index() <= prev.num_cells()
        &&& forall|i: int|
            0 <= i < self.rehashing_index() ==> (#[trigger] prev.cell_at(i)).is_killed()
    }

    pub open spec fn wf<H: Fn(&K) -> u64>(&self, hasher: H) -> bool {
        &&& self.own_wf(hasher)
        &&& self.has_old() ==> self.old_ok(hasher, self.predecessor())
    }

    /// What this array and the array that is being drained into it hold together.
    pub open spec fn joined<H: Fn(&K) -> u64>(&self, hasher: H, prev: Array<K, V>) -> Map<K, V> {
        prev.own_map(hasher).union_prefer_right(self.own_map(hasher))
    }

    /// The entries of the map that this array stands for.
    pub open spec fn view<H: Fn(&K) -> u64>(&self, hasher: H) -> Map<K, V> {
        if self.has_old() {
            self.joined(hasher, self.predecessor())
        } else {
            self.own_map(hasher)
        }
    }

    /// What stays as it is while entries come and go: the size of the array, whether an array
    /// is being drained into it, and how far that has got.
    pub open spec fn same_frame(&self, before: Self) -> bool {
        &&& self.lb_cells() == before.lb_cells()
        &&& self.num_cells() == before.num_cells()
        &&& self.has_old() == before.has_old()
        &&& self.rehashing_index() == before.rehashing_index()
        &&& self.rehashed_cells() == before.rehashed_cells()
        &&& self.has_old() ==> {
            &&& self.predecessor().lb_cells() == before.predecessor().lb_cells()
            &&& self.predecessor().num_cells() == before.predecessor().num_cells()
        }
    }

    /// Every cell but the cell `i` of one of the two arrays is as it was.
    pub open spec fn other_cells_kept(&self, before: Self, in_old: bool, i: int) -> bool {
        &&& forall|j: int|
            0 <= j < before.num_cells() && (in_old || j != i) ==> #[trigger] self.cell_at(j)
                == before.cell_at(j)
        &&& before.has_old() ==> forall|j: int|
            0 <= j < before.predecessor().num_cells() && (!in_old || j != i)
                ==> #[trigger] self.predecessor().cell_at(j) == before.predecessor().cell_at(j)
    }

    /// The fields beside the cells are the same in both.
    spec fn same_rest(&self, before: Self) -> bool {
        &&& self.lb_cells == before.lb_cells
        &&& self.old_array == before.old_array
        &&& self.rehashing_index == before.rehashing_index
        &&& self.rehashed_cells == before.rehashed_cells
    }

    /// The arrays differ in the cell `i` only, which is sound and has the same mark in both.
    spec fn one_cell_changed(&self, before: Self, i: int) -> bool {
        &&& self.same_rest(before)
        &&& 0 <= i < before.num_cells()
        &&& self.cells@ =~= before.cells@.update(i, self.cells@[i])
        &&& self.cells@[i].wf()
        &&& self.cells@[i].is_killed() == before.cells@[i].is_killed()
    }

    /// The arrays differ only in the cell `i` of the array that is being drained.
    spec fn one_old_cell_changed(&self, before: Self, i: int) -> bool {
        &&& self.lb_cells == before.lb_cells
        &&& self.cells@ == before.cells@
        &&& self.rehashing_index == before.rehashing_index
        &&& self.rehashed_cells == before.rehashed_cells
        &&& self.old_array is Some
        &&& before.old_array is Some
        &&& self.predecessor().one_cell_changed(before.predecessor(), i)
    }

    pub proof fn lemma_cell_wf<H: Fn(&K) -> u64>(&self, hasher: H, i: int)
        requires
            self.cells_wf(hasher),
            0 <= i < self.num_cells(),
        ensures
            self.cell_at(i).wf(),
    {
        reveal(Array::cells_wf);
    }

    /// What a cell holds, the array holds, and the cell is the one that the key belongs to.
    pub proof fn lemma_entry<H: Fn(&K) -> u64>(&self, hasher: H, i: int, key: K)
        requires
            self.cells_wf(hasher),
            0 <= i < self.num_cells(),
            self.cell_at(i).tagged().contains_key(key),
        ensures
            self.index_of(hasher, key) == i,
            self.cell_at(i).tagged()[key].0 == spec_tag(hasher, key),
            self.own_map(hasher).contains_key(key),
            self.own_map(hasher)[key] == self.cell_at(i).tagged()[key].1,
    {
        reveal(Array::cells_wf);
        reveal(Array::own_map);
    }

    /// What the array holds for a key is what the cell holds that the key belongs to.
    pub proof fn lemma_lookup<H: Fn(&K) -> u64>(&self, hasher: H, key: K)
        requires
            self.sized(),
        ensures
            0 <= self.index_of(hasher, key) < self.num_cells(),
            self.own_map(hasher).contains_key(key) <==> self.cell_at(
                self.index_of(hasher, key),
            ).tagged().contains_key(key),
            self.own_map(hasher).contains_key(key) ==> self.own_map(hasher)[key] == self.cell_at(
                self.index_of(hasher, key),
            ).tagged()[key].1,
    {
        reveal(Array::own_map);
        lemma_cell_index_bound(spec_hash(hasher, key), self.lb_cells());
    }

    /// One cell was replaced by a sound one whose entries belong there: the array is sound,
    /// and it holds what the new cell holds and what the other cells held.
    proof fn lemma_cell_replaced<H: Fn(&K) -> u64>(before: Self, after: Self, hasher: H, i: int)
        requires
            before.sized(),
            before.cells_wf(hasher),
            after.one_cell_changed(before, i),
            forall|k: K| #[trigger]
                after.cells@[i].tagged().contains_key(k) ==> before.index_of(hasher, k) == i
                    && after.cells@[i].tagged()[k].0 == spec_tag(hasher, k),
        ensures
            after.sized(),
            after.cells_wf(hasher),
            after.killed_cells() == before.killed_cells(),
            forall|k: K|
                #![trigger after.own_map(hasher).contains_key(k)]
                #![trigger before.own_map(hasher).contains_key(k)]
                {
                    &&& after.own_map(hasher).contains_key(k) <==> if before.index_of(hasher, k)
                        == i {
                        after.cells@[i].tagged().contains_key(k)
                    } else {
                        before.own_map(hasher).contains_key(k)
                    }
                    &&& after.own_map(hasher).contains_key(k) ==> after.own_map(hasher)[k]
                        == if before.index_of(hasher, k) == i {
                        after.cells@[i].tagged()[k].1
                    } else {
                        before.own_map(hasher)[k]
                    }
                },
    {
        reveal(Array::cells_wf);
        reveal(Array::own_map);
        assert forall|j: int| 0 <= j < after.num_cells() implies (#[trigger] after.cell_at(
            j,
        )).wf() by {
            if j != i {
                assert(after.cell_at(j) == before.cell_at(j));
            }
        }
        assert forall|j: int, k: K|
            0 <= j < after.num_cells() && #[trigger] after.cell_at(j).tagged().contains_key(
                k,
            ) implies after.index_of(hasher, k) == j && after.cell_at(j).tagged()[k].0 == spec_tag(
            hasher,
            k,
        ) by {
            if j != i {
                assert(after.cell_at(j) == before.cell_at(j));
            }
        }
        assert forall|k: K|
            #![trigger after.own_map(hasher).contains_key(k)]
            #![trigger before.own_map(hasher).contains_key(k)]
            {
                &&& after.own_map(hasher).contains_key(k) <==> if before.index_of(hasher, k) == i {
                    after.cells@[i].tagged().contains_key(k)
                } else {
                    before.own_map(hasher).contains_key(k)
                }
                &&& after.own_map(hasher).contains_key(k) ==> after.own_map(hasher)[k]
                    == if before.index_of(hasher, k) == i {
                    after.cells@[i].tagged()[k].1
                } else {
                    before.own_map(hasher)[k]
                }
            } by {
            let j = before.index_of(hasher, k);
            lemma_cell_index_bound(spec_hash(hasher, k), before.lb_cells());
            if j != i {
                assert(after.cells@[j] == before.cells@[j]);
            }
        }
        lemma_count_update(
            before.cells@,
            |cell: Cell<K, V>| cell_is_killed(cell),
            i,
            after.cells@[i],
        );
    }

    /// The cell `i` was replaced by one that holds one entry more.
    proof fn lemma_own_inserted<H: Fn(&K) -> u64>(
        before: Self,
        after: Self,
        hasher: H,
        i: int,
        key: K,
        tag: u16,
        value: V,
    )
        requires
            before.sized(),
            before.cells_wf(hasher),
            after.one_cell_changed(before, i),
            after.cells@[i].tagged() == before.cells@[i].tagged().insert(key, (tag, value)),
            before.index_of(hasher, key) == i,
            tag == spec_tag(hasher, key),
        ensures
            after.sized(),
            after.cells_wf(hasher),
            after.killed_cells() == before.killed_cells(),
            after.own_map(hasher) == before.own_map(hasher).insert(key, value),
    {
        assert forall|k: K| #[trigger]
            after.cells@[i].tagged().contains_key(k) implies before.index_of(hasher, k) == i
            && after.cells@[i].tagged()[k].0 == spec_tag(hasher, k) by {
            if k != key {
                before.lemma_entry(hasher, i, k);
            }
        }
        Self::lemma_cell_replaced(before, after, hasher, i);
        assert forall|k: K|
            after.own_map(hasher).contains_key(k) <==> before.own_map(hasher).insert(
                key,
                value,
            ).contains_key(k) by {
            before.lemma_lookup(hasher, k);
        }
        assert forall|k: K| #[trigger]
            after.own_map(hasher).contains_key(k) implies after.own_map(hasher)[k]
            == before.own_map(hasher).insert(key, value)[k] by {
            before.lemma_lookup(hasher, k);
        }
        assert(after.own_map(hasher) =~= before.own_map(hasher).insert(key, value));
    }

    /// The cell `i` was replaced by one that holds one entry less.
    proof fn lemma_own_removed<H: Fn(&K) -> u64>(
        before: Self,
        after: Self,
        hasher: H,
        i: int,
        key: K,
    )
        requires
            before.sized(),
            before.cells_wf(hasher),
            after.one_cell_changed(before, i),
            before.cells@[i].tagged().contains_key(key),
            after.cells@[i].tagged() == before.cells@[i].tagged().remove(key),
        ensures
            after.sized(),
            after.cells_wf(hasher),
            after.killed_cells() == before.killed_cells(),
            before.own_map(hasher).contains_key(key),
            before.own_map(hasher)[key] == before.cells@[i].tagged()[key].1,
            after.own_map(hasher) == before.own_map(hasher).remove(key),
    {
        before.lemma_entry(hasher, i, key);
        assert forall|k: K| #[trigger]
            after.cells@[i].tagged().contains_key(k) implies before.index_of(hasher, k) == i
            && after.cells@[i].tagged()[k].0 == spec_tag(hasher, k) by {
            before.lemma_entry(hasher, i, k);
        }
        Self::lemma_cell_replaced(before, after, hasher, i);
        assert forall|k: K|
            after.own_map(hasher).contains_key(k) <==> before.own_map(hasher).remove(
                key,
            ).contains_key(k) by {
            before.lemma_lookup(hasher, k);
        }
        assert forall|k: K| #[trigger]
            after.own_map(hasher).contains_key(k) implies after.own_map(hasher)[k]
            == before.own_map(hasher).remove(key)[k] by {
            before.lemma_lookup(hasher, k);
        }
        assert(after.own_map(hasher) =~= before.own_map(hasher).remove(key));
    }

    /// The cell `i` was replaced by one that holds the same entries.
    proof fn lemma_own_kept<H: Fn(&K) -> u64>(before: Self, after: Self, hasher: H, i: int)
        requires
            before.sized(),
            before.cells_wf(hasher),
            0 <= i < before.num_cells(),
            after.same_rest(before),
            after.cells@ =~= before.cells@.update(i, after.cells@[i]),
            after.cells@[i].wf(),
            after.cells@[i].tagged() == before.cells@[i].tagged(),
        ensures
            after.sized(),
            after.cells_wf(hasher),
            after.own_map(hasher) == before.own_map(hasher),
    {
        reveal(Array::cells_wf);
        reveal(Array::own_map);
        assert forall|j: int| 0 <= j < after.num_cells() implies (#[trigger] after.cell_at(
            j,
        )).wf() by {
            if j != i {
                assert(after.cell_at(j) == before.cell_at(j));
            }
        }
        assert forall|j: int, k: K|
            0 <= j < after.num_cells() && #[trigger] after.cell_at(j).tagged().contains_key(
                k,
            ) implies after.index_of(hasher, k) == j && after.cell_at(j).tagged()[k].0 == spec_tag(
            hasher,
            k,
        ) by {
            if j != i {
                assert(after.cell_at(j) == before.cell_at(j));
            } else {
                assert(before.cell_at(i).tagged().contains_key(k));
            }
        }
        assert forall|k: K|
            after.cell_at(after.index_of(hasher, k)).tagged() == before.cell_at(
                before.index_of(hasher, k),
            ).tagged() by {
            let j = before.index_of(hasher, k);
            lemma_cell_index_bound(spec_hash(hasher, k), before.lb_cells());
            if j != i {
                assert(after.cells@[j] == before.cells@[j]);
            }
        }
        assert(after.own_map(hasher) =~= before.own_map(hasher));
    }

    /// An array for `capacity` entries, which takes over from `old_array`.
    pub fn new(capacity: usize, old_array: Option<Box<Array<K, V>>>) -> (array: Self)
        ensures
            array.sized(),
            array.capacity() == spec_rounded_capacity(
                if capacity >= DEFAULT_CAPACITY {
                    capacity as nat
                } else {
                    DEFAULT_CAPACITY as nat
                },
            ),
            array.has_old() == (old_array is Some),
            old_array matches Some(prev) ==> array.predecessor() == *prev,
            array.rehashing_index() == 0,
            array.rehashed_cells() == 0,
            array.is_fresh(),
    {
        let wanted = if capacity >= DEFAULT_CAPACITY {
            capacity
        } else {
            DEFAULT_CAPACITY
        };
        let (rounded, exponent) = rounded_capacity(wanted);
        proof {
            lemma_word();
            lemma2_to64();
            lemma_next_power_of_two(wanted as nat);
            if exponent < 8 {
                lemma_pow2_strictly_increases(exponent as nat, 8);
            }
            lemma_pow2_adds((exponent - 4) as nat, 4);
        }
        let lb_cells = exponent - 4;
        let num_cells = rounded / ARRAY_SIZE;
        let mut cells: Vec<Cell<K, V>> = Vec::new();
        let mut i: usize = 0;
        while i < num_cells
            invariant
                i <= num_cells,
                cells@.len() == i,
                forall|j: int|
                    0 <= j < i ==> (#[trigger] cells@[j]).wf() && !cells@[j].is_killed()
                        && cells@[j].tagged() == Map::<K, (u16, V)>::empty() && cells@[j].len() == 0
                        && cells@[j].num_links() == 0,
            decreases num_cells - i,
        {
            cells.push(Cell::new());
            i += 1;
        }
        Array { cells, lb_cells, old_array, rehashing_index: 0, rehashed_cells: 0 }
    }

    /// Every cell is sound, holds nothing, and is not marked as drained.
    pub open spec fn is_fresh(&self) -> bool {
        forall|i: int|
            0 <= i < self.num_cells() ==> {
                &&& (#[trigger] self.cell_at(i)).wf()
                &&& !self.cell_at(i).is_killed()
                &&& self.cell_at(i).tagged() == Map::<K, (u16, V)>::empty()
                &&& self.cell_at(i).len() == 0
                &&& self.cell_at(i).num_links() == 0
            }
    }

    /// A fresh array holds nothing of its own. Where it takes over from a sound array that
    /// is not being drained into, the two together are sound and hold what that array held.
    pub proof fn lemma_fresh<H: Fn(&K) -> u64>(&self, hasher: H)
        requires
            self.sized(),
            self.is_fresh(),
            self.rehashing_index() == 0,
            self.rehashed_cells() == 0,
            self.has_old() ==> self.predecessor().own_wf(hasher) && !self.predecessor().has_old(),
        ensures
            self.wf(hasher),
            self.own_map(hasher) == Map::<K, V>::empty(),
            self.has_old() ==> self.view(hasher) == self.predecessor().own_map(hasher),
    {
        reveal(Array::cells_wf);
        reveal(Array::own_map);
        assert forall|k: K| !self.own_map(hasher).contains_key(k) by {
            lemma_cell_index_bound(spec_hash(hasher, k), self.lb_cells());
            assert(self.cell_at(self.index_of(hasher, k)).tagged() == Map::<K, (u16, V)>::empty());
        }
        assert(self.own_map(hasher) =~= Map::<K, V>::empty());
        if self.has_old() {
            let prev = self.predecessor();
            lemma_count_zero(prev.cells@, |cell: Cell<K, V>| cell_is_killed(cell));
            assert forall|i: int| 0 <= i < prev.cells@.len() implies !cell_is_killed(
                #[trigger] prev.cells@[i],
            ) by {
                assert(!prev.cell_at(i).is_killed());
            }
            assert(self.joined(hasher, prev) =~= prev.own_map(hasher));
        }
    }

    /// Gives the array up.
    pub fn release(self) {
    }

    /// The number of primary slots.
    pub fn get_capacity(&self) -> (n: usize)
        requires
            self.sized(),
        ensures
            n == self.capacity(),
    {
        proof {
            lemma_word();
            lemma_pow2_adds(self.lb_cells(), 4);
            lemma2_to64();
            lemma_pow2_strictly_increases(self.lb_cells() + 4, usize::BITS as nat);
        }
        self.cells.len() * ARRAY_SIZE
    }

    pub fn get_num_cells(&self) -> (n: usize)
        ensures
            n == self.num_cells(),
    {
        self.cells.len()
    }

    /// The cell that a hash belongs to.
    pub fn calculate_cell_index(&self, hash: u64) -> (i: usize)
        requires
            self.sized(),
        ensures
            i == spec_cell_index(hash, self.lb_cells()),
            i < self.num_cells(),
    {
        cell_index(hash, self.lb_cells)
    }

    /// The cell with the number `i`.
    pub fn cell(&self, i: usize) -> (cell: &Cell<K, V>)
        requires
            i < self.num_cells(),
        ensures
            *cell == self.cell_at(i as int),
    {
        &self.cells[i]
    }

    /// Whether an array is still being drained into this one.
    pub fn has_old_array(&self) -> (b: bool)
        ensures
            b == self.has_old(),
    {
        self.old_array.is_some()
    }

    /// The array that is being drained into this one.
    pub fn old_array(&self) -> (prev: Option<&Array<K, V>>)
        ensures
            prev is Some == self.has_old(),
            prev matches Some(o) ==> *o == self.predecessor(),
    {
        match &self.old_array {
            Some(prev) => Some(&**prev),
            None => None,
        }
    }

    /// The marks of the cells are as they were where one cell changed and kept its mark.
    proof fn lemma_marks_kept(before: Self, after: Self, i: int)
        requires
            after.one_cell_changed(before, i),
        ensures
            before.none_killed() ==> after.none_killed(),
            forall|j: int|
                0 <= j < before.num_cells() ==> (#[trigger] after.cell_at(j)).is_killed()
                    == before.cell_at(j).is_killed(),
            forall|j: int|
                0 <= j < before.num_cells() && j != i ==> #[trigger] after.cell_at(j)
                    == before.cell_at(j),
            after.num_cells() == before.num_cells(),
    {
        assert forall|j: int| 0 <= j < before.num_cells() implies (#[trigger] after.cell_at(
            j,
        )).is_killed() == before.cell_at(j).is_killed() by {
            if j != i {
                assert(after.cells@[j] == before.cells@[j]);
            }
        }
    }

    /// An entry came into the cell `i` of this array.
    proof fn lemma_inserted<H: Fn(&K) -> u64>(
        before: Self,
        after: Self,
        hasher: H,
        i: int,
        key: K,
        tag: u16,
        value: V,
    )
        requires
            before.wf(hasher),
            after.one_cell_changed(before, i),
            after.cells@[i].tagged() == before.cells@[i].tagged().insert(key, (tag, value)),
            before.index_of(hasher, key) == i,
            tag == spec_tag(hasher, key),
            !before.view(hasher).contains_key(key),
        ensures
            after.wf(hasher),
            after.view(hasher) == before.view(hasher).insert(key, value),
    {
        Self::lemma_own_inserted(before, after, hasher, i, key, tag, value);
        Self::lemma_marks_kept(before, after, i);
        if after.has_old() {
            let prev = before.predecessor();
            assert(prev.own_map(hasher).dom().disjoint(after.own_map(hasher).dom()));
            assert(after.joined(hasher, prev) =~= before.joined(hasher, prev).insert(key, value));
        }
    }

    /// An entry left the cell `i` of this array.
    proof fn lemma_erased_own<H: Fn(&K) -> u64>(
        before: Self,
        after: Self,
        hasher: H,
        i: int,
        entry: (K, V),
    )
        requires
            before.wf(hasher),
            after.one_cell_changed(before, i),
            before.cells@[i].tagged().contains_key(entry.0),
            before.cells@[i].tagged()[entry.0].1 == entry.1,
            after.cells@[i].tagged() == before.cells@[i].tagged().remove(entry.0),
        ensures
            after.wf(hasher),
            before.view(hasher).contains_key(entry.0),
            before.view(hasher)[entry.0] == entry.1,
            after.view(hasher) == before.view(hasher).remove(entry.0),
    {
        Self::lemma_own_removed(before, after, hasher, i, entry.0);
        Self::lemma_marks_kept(before, after, i);
        if after.has_old() {
            let prev = before.predecessor();
            assert(prev.own_map(hasher).dom().disjoint(after.own_map(hasher).dom()));
            assert(!prev.own_map(hasher).dom().contains(entry.0));
            assert(after.joined(hasher, prev) =~= before.joined(hasher, prev).remove(entry.0));
        }
    }

    /// An entry left the cell `i` of the array that is being drained.
    proof fn lemma_erased_old<H: Fn(&K) -> u64>(
        before: Self,
        after: Self,
        hasher: H,
        i: int,
        entry: (K, V),
    )
        requires
            before.wf(hasher),
            after.one_old_cell_changed(before, i),
            before.predecessor().cells@[i].tagged().contains_key(entry.0),
            before.predecessor().cells@[i].tagged()[entry.0].1 == entry.1,
            after.predecessor().cells@[i].tagged() == before.predecessor().cells@[i].tagged().remove(
                entry.0,
            ),
        ensures
            after.wf(hasher),
            before.view(hasher).contains_key(entry.0),
            before.view(hasher)[entry.0] == entry.1,
            after.view(hasher) == before.view(hasher).remove(entry.0),
    {
        let prev_before = before.predecessor();
        let prev = after.predecessor();
        Self::lemma_own_removed(prev_before, prev, hasher, i, entry.0);
        Self::lemma_marks_kept(prev_before, prev, i);
        Self::lemma_same_cells(before, after, hasher);
        assert(prev.own_map(hasher).dom().disjoint(after.own_map(hasher).dom()));
        assert(!before.own_map(hasher).dom().contains(entry.0));
        assert(after.joined(hasher, prev) =~= before.joined(hasher, prev_before).remove(entry.0));
    }

    /// Arrays with the same cells hold the same.
    proof fn lemma_same_cells<H: Fn(&K) -> u64>(before: Self, after: Self, hasher: H)
        requires
            after.cells@ == before.cells@,
            after.lb_cells == before.lb_cells,
        ensures
            after.own_map(hasher) == before.own_map(hasher),
            before.cells_wf(hasher) ==> after.cells_wf(hasher),
            before.sized() ==> after.sized(),
            before.none_killed() ==> after.none_killed(),
            after.killed_cells() == before.killed_cells(),
    {
        assert forall|i: int| after.cell_at(i) == before.cell_at(i) by {}
        assert(after.own_map(hasher) =~= before.own_map(hasher)) by {
            reveal(Array::own_map);
        }
        if before.cells_wf(hasher) {
            reveal(Array::cells_wf);
            assert forall|i: int| 0 <= i < after.num_cells() implies (#[trigger] after.cell_at(
                i,
            )).wf() by {
                assert(before.cell_at(i).wf());
            }
            assert forall|i: int, k: K|
                0 <= i < after.num_cells() && #[trigger] after.cell_at(i).tagged().contains_key(
                    k,
                ) implies after.index_of(hasher, k) == i && after.cell_at(i).tagged()[k].0
                == spec_tag(hasher, k) by {
                assert(before.cell_at(i).tagged().contains_key(k));
            }
        }
        if before.none_killed() {
            assert forall|i: int| 0 <= i < after.num_cells() implies !(#[trigger] after.cell_at(
                i,
            )).is_killed() by {
                assert(!before.cell_at(i).is_killed());
            }
        }
    }

    /// A value was replaced in the cell `i` of this array.
    proof fn lemma_revalued_own<H: Fn(&K) -> u64>(
        before: Self,
        after: Self,
        hasher: H,
        i: int,
        key: K,
        value: V,
    )
        requires
            before.wf(hasher),
            after.one_cell_changed(before, i),
            before.cells@[i].tagged().contains_key(key),
            after.cells@[i].tagged() == before.cells@[i].tagged().insert(
                key,
                (before.cells@[i].tagged()[key].0, value),
            ),
        ensures
            after.wf(hasher),
            before.view(hasher).contains_key(key),
            before.view(hasher)[key] == before.cells@[i].tagged()[key].1,
            after.view(hasher) == before.view(hasher).insert(key, value),
    {
        before.lemma_entry(hasher, i, key);
        Self::lemma_own_inserted(
            before,
            after,
            hasher,
            i,
            key,
            before.cells@[i].tagged()[key].0,
            value,
        );
        Self::lemma_marks_kept(before, after, i);
        if after.has_old() {
            let prev = before.predecessor();
            assert(prev.own_map(hasher).dom().disjoint(after.own_map(hasher).dom()));
            assert(!prev.own_map(hasher).dom().contains(key));
            assert(after.joined(hasher, prev) =~= before.joined(hasher, prev).insert(key, value));
        }
    }

    /// A value was replaced in the cell `i` of the array that is being drained.
    proof fn lemma_revalued_old<H: Fn(&K) -> u64>(
        before: Self,
        after: Self,
        hasher: H,
        i: int,
        key: K,
        value: V,
    )
        requires
            before.wf(hasher),
            after.one_old_cell_changed(before, i),
            before.predecessor().cells@[i].tagged().contains_key(key),
            after.predecessor().cells@[i].tagged() == before.predecessor().cells@[i].tagged().insert(
                key,
                (before.predecessor().cells@[i].tagged()[key].0, value),
            ),
        ensures
            after.wf(hasher),
            before.view(hasher).contains_key(key),
            before.view(hasher)[key] == before.predecessor().cells@[i].tagged()[key].1,
            after.view(hasher) == before.view(hasher).insert(key, value),
    {
        let prev_before = before.predecessor();
        let prev = after.predecessor();
        prev_before.lemma_entry(hasher, i, key);
        Self::lemma_own_inserted(
            prev_before,
            prev,
            hasher,
            i,
            key,
            prev_before.cells@[i].tagged()[key].0,
            value,
        );
        Self::lemma_marks_kept(prev_before, prev, i);
        Self::lemma_same_cells(before, after, hasher);
        assert(prev.own_map(hasher).dom().disjoint(after.own_map(hasher).dom()));
        assert(!before.own_map(hasher).dom().contains(key));
        assert(after.joined(hasher, prev) =~= before.joined(hasher, prev_before).insert(key, value));
    }

    /// Stores an entry for a key that the map does not hold, in the cell `i` of this array,
    /// which is the cell that the key belongs to.
    pub fn insert<H: Fn(&K) -> u64>(
        &mut self,
        hasher: &H,
        i: usize,
        key: K,
        tag: u16,
        value: V,
    ) -> (h: SlotHandle)
        requires
            old(self).wf(*hasher),
            i == old(self).index_of(*hasher, key),
            tag == spec_tag(*hasher, key),
            !old(self).view(*hasher).contains_key(key),
        ensures
            final(self).wf(*hasher),
            final(self).view(*hasher) == old(self).view(*hasher).insert(key, value),
            final(self).same_frame(*old(self)),
            final(self).other_cells_kept(*old(self), false, i as int),
            Cell::inserted(
                old(self).cell_at(i as int),
                final(self).cell_at(i as int),
                h,
                key,
                tag,
                value,
            ),
    {
        let ghost before = *self;
        proof {
            before.lemma_lookup(*hasher, key);
            before.lemma_cell_wf(*hasher, i as int);
        }
        let h = self.cells[i].insert(key, tag, value);
        proof {
            Self::lemma_inserted(before, *self, *hasher, i as int, key, tag, value);
            Self::lemma_marks_kept(before, *self, i as int);
        }
        h
    }

    /// Takes the entry out of the slot `h` of a cell.
    pub fn erase<H: Fn(&K) -> u64>(
        &mut self,
        hasher: &H,
        in_old: bool,
        i: usize,
        h: SlotHandle,
    ) -> (entry: (K, V))
        requires
            old(self).wf(*hasher),
            old(self).has_cell(in_old, i as int),
            old(self).cell_of(in_old, i as int).entry_at(h) is Some,
        ensures
            final(self).wf(*hasher),
            old(self).view(*hasher).contains_key(entry.0),
            old(self).view(*hasher)[entry.0] == entry.1,
            final(self).view(*hasher) == old(self).view(*hasher).remove(entry.0),
            final(self).same_frame(*old(self)),
            final(self).other_cells_kept(*old(self), in_old, i as int),
            Cell::removed(
                old(self).cell_of(in_old, i as int),
                final(self).cell_of(in_old, i as int),
                h,
                entry,
            ),
    {
        let ghost before = *self;
        if in_old {
            proof {
                before.predecessor().lemma_cell_wf(*hasher, i as int);
            }
            let mut prev = self.old_array.take().unwrap();
            let entry = prev.cells[i].remove(h);
            self.old_array = Some(prev);
            proof {
                let cell = before.predecessor().cells@[i as int];
                assert(cell.holds(h, entry.0));
                cell.lemma_tagged(h, entry.0);
                Self::lemma_erased_old(before, *self, *hasher, i as int, entry);
                Self::lemma_marks_kept(before.predecessor(), self.predecessor(), i as int);
            }
            entry
        } else {
            proof {
                before.lemma_cell_wf(*hasher, i as int);
            }
            let entry = self.cells[i].remove(h);
            proof {
                let cell = before.cells@[i as int];
                assert(cell.holds(h, entry.0));
                cell.lemma_tagged(h, entry.0);
                Self::lemma_erased_own(before, *self, *hasher, i as int, entry);
                Self::lemma_marks_kept(before, *self, i as int);
            }
            entry
        }
    }

    /// Replaces the value in the slot `h` of a cell and hands the earlier one back.
    pub fn replace_value<H: Fn(&K) -> u64>(
        &mut self,
        hasher: &H,
        in_old: bool,
        i: usize,
        h: SlotHandle,
        value: V,
    ) -> (earlier: V)
        requires
            old(self).wf(*hasher),
            old(self).has_cell(in_old, i as int),
            old(self).cell_of(in_old, i as int).entry_at(h) is Some,
        ensures
            final(self).wf(*hasher),
            final(self).view(*hasher) == old(self).view(*hasher).insert(
                old(self).cell_of(in_old, i as int).entry_at(h).unwrap().0,
                value,
            ),
            old(self).view(*hasher).contains_key(
                old(self).cell_of(in_old, i as int).entry_at(h).unwrap().0,
            ),
            old(self).view(*hasher)[old(self).cell_of(in_old, i as int).entry_at(h).unwrap().0]
                == earlier,
            final(self).same_frame(*old(self)),
            final(self).other_cells_kept(*old(self), in_old, i as int),
            Cell::revalued(
                old(self).cell_of(in_old, i as int),
                final(self).cell_of(in_old, i as int),
                h,
                value,
                earlier,
            ),
    {
        let ghost before = *self;
        let ghost key = before.cell_of(in_old, i as int).entry_at(h).unwrap().0;
        if in_old {
            proof {
                before.predecessor().lemma_cell_wf(*hasher, i as int);
            }
            let mut prev = self.old_array.take().unwrap();
            let earlier = prev.cells[i].replace_value(h, value);
            self.old_array = Some(prev);
            proof {
                let cell = before.predecessor().cells@[i as int];
                assert(cell.holds(h, key));
                cell.lemma_tagged(h, key);
                Self::lemma_revalued_old(before, *self, *hasher, i as int, key, value);
                Self::lemma_marks_kept(before.predecessor(), self.predecessor(), i as int);
            }
            earlier
        } else {
            proof {
                before.lemma_cell_wf(*hasher, i as int);
            }
            let earlier = self.cells[i].replace_value(h, value);
            proof {
                let cell = before.cells@[i as int];
                assert(cell.holds(h, key));
                cell.lemma_tagged(h, key);
                Self::lemma_revalued_own(before, *self, *hasher, i as int, key, value);
                Self::lemma_marks_kept(before, *self, i as int);
            }
            earlier
        }
    }

    /// An entry went from the cell `oi` of the array that is being drained to the cell `ni`
    /// of the array that takes over: the two are sound together and hold what they held.
    proof fn lemma_moved<H: Fn(&K) -> u64>(
        cur: Self,
        prev: Self,
        cur_after: Self,
        prev_after: Self,
        hasher: H,
        oi: int,
        ni: int,
        key: K,
        tag: u16,
        value: V,
    )
        requires
            cur.own_wf(hasher),
            cur.old_ok(hasher, prev),
            prev_after.one_cell_changed(prev, oi),
            prev.cells@[oi].tagged().contains_key(key),
            prev.cells@[oi].tagged()[key].1 == value,
            prev_after.cells@[oi].tagged() == prev.cells@[oi].tagged().remove(key),
            ni == cur.index_of(hasher, key),
            tag == spec_tag(hasher, key),
            cur_after.one_cell_changed(cur, ni),
            cur_after.cells@[ni].tagged() == cur.cells@[ni].tagged().insert(key, (tag, value)),
        ensures
            cur_after.own_wf(hasher),
            cur_after.old_ok(hasher, prev_after),
            cur_after.joined(hasher, prev_after) == cur.joined(hasher, prev),
    {
        Self::lemma_own_removed(prev, prev_after, hasher, oi, key);
        Self::lemma_own_inserted(cur, cur_after, hasher, ni, key, tag, value);
        Self::lemma_marks_kept(prev, prev_after, oi);
        Self::lemma_marks_kept(cur, cur_after, ni);
        assert(prev_after.own_map(hasher).dom().disjoint(cur_after.own_map(hasher).dom()));
        assert(cur_after.joined(hasher, prev_after) =~= cur.joined(hasher, prev));
    }

    /// The empty cell `oi` of the array that is being drained got its mark, and the count of
    /// drained cells went up by one.
    proof fn lemma_cell_killed<H: Fn(&K) -> u64>(
        cur: Self,
        prev: Self,
        cur_after: Self,
        prev_after: Self,
        hasher: H,
        oi: int,
    )
        requires
            cur.own_wf(hasher),
            cur.old_ok(hasher, prev),
            0 <= oi < prev.num_cells(),
            prev_after.same_rest(prev),
            prev_after.cells@ =~= prev.cells@.update(oi, prev_after.cells@[oi]),
            prev_after.cells@[oi].wf(),
            prev_after.cells@[oi].is_killed(),
            !prev.cells@[oi].is_killed(),
            prev_after.cells@[oi].tagged() == prev.cells@[oi].tagged(),
            cur_after.cells@ == cur.cells@,
            cur_after.lb_cells == cur.lb_cells,
            cur_after.old_array == cur.old_array,
            cur_after.rehashing_index == cur.rehashing_index,
            cur_after.rehashed_cells == cur.rehashed_cells + 1,
        ensures
            cur_after.own_wf(hasher),
            cur_after.old_ok(hasher, prev_after),
            cur_after.joined(hasher, prev_after) == cur.joined(hasher, prev),
            forall|j: int|
                0 <= j < prev.num_cells() && j != oi ==> #[trigger] prev_after.cell_at(j)
                    == prev.cell_at(j),
    {
        Self::lemma_own_kept(prev, prev_after, hasher, oi);
        Self::lemma_same_cells(cur, cur_after, hasher);
        lemma_count_update(
            prev.cells@,
            |cell: Cell<K, V>| cell_is_killed(cell),
            oi,
            prev_after.cells@[oi],
        );
        assert forall|j: int| 0 <= j < cur_after.rehashing_index() implies (
        #[trigger] prev_after.cell_at(j)).is_killed() by {
            if j != oi {
                assert(prev_after.cells@[j] == prev.cells@[j]);
                assert(prev.cell_at(j).is_killed());
            }
        }
        assert forall|j: int| 0 <= j < prev.num_cells() && j != oi implies #[trigger] prev_after.cell_at(
            j,
        ) == prev.cell_at(j) by {
            assert(prev_after.cells@[j] == prev.cells@[j]);
        }
    }

    /// Where every cell of the array that is being drained has its mark, that array holds
    /// nothing.
    proof fn lemma_drained<H: Fn(&K) -> u64>(cur: Self, prev: Self, hasher: H)
        requires
            cur.old_ok(hasher, prev),
            cur.rehashed_cells() == prev.num_cells(),
        ensures
            prev.own_map(hasher) == Map::<K, V>::empty(),
            cur.joined(hasher, prev) == cur.own_map(hasher),
    {
        lemma_count_full(prev.cells@, |cell: Cell<K, V>| cell_is_killed(cell));
        assert forall|k: K| !prev.own_map(hasher).contains_key(k) by {
            prev.lemma_lookup(hasher, k);
            let i = prev.index_of(hasher, k);
            prev.lemma_cell_wf(hasher, i);
            assert(cell_is_killed(prev.cells@[i]));
            prev.cell_at(i).lemma_killed();
        }
        assert(prev.own_map(hasher) =~= Map::<K, V>::empty());
        assert(cur.joined(hasher, prev) =~= cur.own_map(hasher));
    }

    /// Where the migration has come to the end of the array that is being drained, every
    /// cell of that array has its mark.
    proof fn lemma_all_taken<H: Fn(&K) -> u64>(cur: Self, prev: Self, hasher: H)
        requires
            cur.old_ok(hasher, prev),
            cur.rehashing_index() == prev.num_cells(),
        ensures
            cur.rehashed_cells() == prev.num_cells(),
    {
        lemma_count_full(prev.cells@, |cell: Cell<K, V>| cell_is_killed(cell));
        assert forall|i: int| 0 <= i < prev.cells@.len() implies cell_is_killed(
            #[trigger] prev.cells@[i],
        ) by {
            assert(prev.cell_at(i).is_killed());
        }
    }

    /// Moves every entry of the cell `old_index` of `prev` to the cell of this array that it
    /// belongs to, and then marks the cell as drained.
    fn drain_cell<H: Fn(&K) -> u64>(&mut self, prev: &mut Array<K, V>, old_index: usize, hasher: &H)
        requires
            hasher_ok::<K, H>(*hasher),
            !old(self).has_old(),
            old(self).own_wf(*hasher),
            old(self).old_ok(*hasher, *old(prev)),
            old_index < old(prev).num_cells(),
            !old(prev).cell_at(old_index as int).is_killed(),
        ensures
            !final(self).has_old(),
            final(self).own_wf(*hasher),
            final(self).old_ok(*hasher, *final(prev)),
            final(self).joined(*hasher, *final(prev)) == old(self).joined(*hasher, *old(prev)),
            final(self).lb_cells() == old(self).lb_cells(),
            final(prev).lb_cells() == old(prev).lb_cells(),
            final(prev).num_cells() == old(prev).num_cells(),
            final(self).rehashing_index() == old(self).rehashing_index(),
            final(self).rehashed_cells() == old(self).rehashed_cells() + 1,
            final(prev).cell_at(old_index as int).is_killed(),
            forall|j: int|
                0 <= j < old(prev).num_cells() && j != old_index ==> #[trigger] final(prev).cell_at(j)
                    == old(prev).cell_at(j),
    {
        let ghost cur_start = *self;
        let ghost prev_start = *prev;
        proof {
            prev.lemma_cell_wf(*hasher, old_index as int);
        }
        let mut next = prev.cells[old_index].first();
        while next.is_some()
            invariant
                hasher_ok::<K, H>(*hasher),
                !self.has_old(),
                self.own_wf(*hasher),
                self.old_ok(*hasher, *prev),
                self.joined(*hasher, *prev) == cur_start.joined(*hasher, prev_start),
                self.lb_cells == cur_start.lb_cells,
                self.rehashing_index == cur_start.rehashing_index,
                self.rehashed_cells == cur_start.rehashed_cells,
                prev.lb_cells == prev_start.lb_cells,
                prev.cells@.len() == prev_start.cells@.len(),
                old_index < prev.cells@.len(),
                !prev.cells@[old_index as int].is_killed(),
                forall|j: int|
                    0 <= j < prev_start.cells@.len() && j != old_index ==> #[trigger] prev.cells@[j]
                        == prev_start.cells@[j],
                match next {
                    Some(g) => prev.cells@[old_index as int].entry_at(g) is Some,
                    None => prev.cells@[old_index as int].tagged() == Map::<K, (u16, V)>::empty(),
                },
            decreases prev.cells@[old_index as int].len(),
        {
            let g = next.unwrap();
            let ghost cur = *self;
            let ghost prv = *prev;
            proof {
                prv.lemma_cell_wf(*hasher, old_index as int);
            }
            let (key, value) = prev.cells[old_index].remove(g);
            let (hash, tag) = hash_key(hasher, &key);
            let ni = self.calculate_cell_index(hash);
            proof {
                let cell = prv.cells@[old_index as int];
                assert(cell.holds(g, key));
                cell.lemma_tagged(g, key);
                prv.lemma_entry(*hasher, old_index as int, key);
                assert(!cur.own_map(*hasher).dom().contains(key));
                cur.lemma_lookup(*hasher, key);
                cur.lemma_cell_wf(*hasher, ni as int);
            }
            self.cells[ni].insert(key, tag, value);
            proof {
                Self::lemma_moved(
                    cur,
                    prv,
                    *self,
                    *prev,
                    *hasher,
                    old_index as int,
                    ni as int,
                    key,
                    tag,
                    value,
                );
                Self::lemma_marks_kept(prv, *prev, old_index as int);
                prev.lemma_cell_wf(*hasher, old_index as int);
            }
            next = prev.cells[old_index].first();
        }
        let ghost cur = *self;
        let ghost prv = *prev;
        proof {
            prv.lemma_cell_wf(*hasher, old_index as int);
            Self::lemma_mark_room(prv, old_index as int);
            prv.lemma_num_cells();
        }
        prev.cells[old_index].kill();
        self.rehashed_cells = self.rehashed_cells + 1;
        proof {
            Self::lemma_cell_killed(cur, prv, *self, *prev, *hasher, old_index as int);
        }
    }

    /// While a cell has no mark, fewer cells have a mark than there are cells.
    proof fn lemma_mark_room(prev: Self, i: int)
        requires
            0 <= i < prev.num_cells(),
            !prev.cell_at(i).is_killed(),
        ensures
            prev.killed_cells() < prev.num_cells(),
    {
        let p = |cell: Cell<K, V>| cell_is_killed(cell);
        lemma_count_bounds(prev.cells@, p);
        lemma_count_full(prev.cells@, p);
        if prev.killed_cells() == prev.num_cells() {
            assert(p(prev.cells@[i]));
        }
    }

    /// Moves every entry of the cell `old_index` of the array that is being drained to the
    /// cell of this array that it belongs to, marks the cell as drained and counts it.
    pub fn kill_cell<H: Fn(&K) -> u64>(&mut self, old_index: usize, hasher: &H)
        requires
            hasher_ok::<K, H>(*hasher),
            old(self).wf(*hasher),
            old(self).has_old(),
            old_index < old(self).predecessor().num_cells(),
            !old(self).predecessor().cell_at(old_index as int).is_killed(),
        ensures
            final(self).wf(*hasher),
            final(self).has_old(),
            final(self).view(*hasher) == old(self).view(*hasher),
            final(self).lb_cells() == old(self).lb_cells(),
            final(self).num_cells() == old(self).num_cells(),
            final(self).predecessor().lb_cells() == old(self).predecessor().lb_cells(),
            final(self).predecessor().num_cells() == old(self).predecessor().num_cells(),
            final(self).rehashing_index() == old(self).rehashing_index(),
            final(self).rehashed_cells() == old(self).rehashed_cells() + 1,
            final(self).predecessor().cell_at(old_index as int).is_killed(),
            forall|j: int|
                0 <= j < old(self).predecessor().num_cells() && j != old_index ==> #[trigger] final(self).predecessor().cell_at(j) == old(self).predecessor().cell_at(j),
    {
        let ghost before = *self;
        let mut prev = self.old_array.take().unwrap();
        proof {
            Self::lemma_same_cells(before, *self, *hasher);
        }
        self.drain_cell(&mut *prev, old_index, hasher);
        let ghost drained = *self;
        self.old_array = Some(prev);
        proof {
            Self::lemma_same_cells(drained, *self, *hasher);
        }
    }

    /// The number of cells of the old array that one step of the migration takes.
    fn stride(lb_new: u32, lb_old: u32) -> (n: usize)
        ensures
            n == spec_stride(lb_new as nat, lb_old as nat),
            1 <= n <= 16,
    {
        if lb_new <= lb_old {
            16
        } else if lb_new - lb_old == 1 {
            8
        } else if lb_new - lb_old == 2 {
            4
        } else if lb_new - lb_old == 3 {
            2
        } else {
            1
        }
    }

    /// One step of the migration: drains the next cells of the old array, as many as the
    /// stride says, and gives the old array up where all its cells are drained then. Returns
    /// whether the old array is gone.
    pub fn partial_rehash<H: Fn(&K) -> u64>(&mut self, hasher: &H) -> (done: bool) where
        K: Send + 'static,
        V: Send + 'static,

        requires
            hasher_ok::<K, H>(*hasher),
            old(self).wf(*hasher),
            old(self).has_old(),
        ensures
            final(self).wf(*hasher),
            final(self).view(*hasher) == old(self).view(*hasher),
            final(self).lb_cells() == old(self).lb_cells(),
            final(self).num_cells() == old(self).num_cells(),
            done == !final(self).has_old(),
            !done ==> {
                &&& final(self).predecessor().lb_cells() == old(self).predecessor().lb_cells()
                &&& final(self).predecessor().num_cells() == old(self).predecessor().num_cells()
                &&& final(self).rehashing_index() == old(self).rehashing_index() + spec_stride(
                    old(self).lb_cells(),
                    old(self).predecessor().lb_cells(),
                )
            },
    {
        let ghost before = *self;
        let mut prev = self.old_array.take().unwrap();
        proof {
            Self::lemma_same_cells(before, *self, *hasher);
        }
        let num_cells = prev.cells.len();
        let stride = Self::stride(self.lb_cells, prev.lb_cells);
        let start = self.rehashing_index;
        let end = if num_cells - start < stride {
            num_cells
        } else {
            start + stride
        };
        let mut i = start;
        while i < end
            invariant
                hasher_ok::<K, H>(*hasher),
                !self.has_old(),
                self.own_wf(*hasher),
                self.old_ok(*hasher, *prev),
                self.joined(*hasher, *prev) == before.joined(*hasher, before.predecessor()),
                self.lb_cells == before.lb_cells,
                self.cells@.len() == before.cells@.len(),
                self.rehashing_index == start,
                prev.lb_cells == before.predecessor().lb_cells,
                prev.cells@.len() == num_cells,
                start <= i <= end <= num_cells,
                forall|j: int| start <= j < i ==> (#[trigger] prev.cells@[j]).is_killed(),
            decreases end - i,
        {
            if !prev.cells[i].killed() {
                let ghost prv = *prev;
                self.drain_cell(&mut *prev, i, hasher);
                proof {
                    assert forall|j: int| start <= j < i + 1 implies (#[trigger] prev.cells@[j]).is_killed() by {
                        if j != i {
                            assert(prev.cell_at(j) == prv.cell_at(j));
                        } else {
                            assert(prev.cell_at(j).is_killed());
                        }
                    }
                }
            }
            i += 1;
        }
        let ghost cur = *self;
        self.rehashing_index = end;
        proof {
            Self::lemma_same_cells(cur, *self, *hasher);
            assert forall|j: int| 0 <= j < self.rehashing_index() implies (#[trigger] prev.cell_at(
                j,
            )).is_killed() by {
                if j >= start {
                    assert(prev.cells@[j].is_killed());
                } else {
                    assert(cur.old_ok(*hasher, *prev));
                }
            }
            assert(self.old_ok(*hasher, *prev));
            if end == num_cells {
                Self::lemma_all_taken(*self, *prev, *hasher);
            }
        }
        if self.rehashed_cells == num_cells {
            proof {
                Self::lemma_drained(*self, *prev, *hasher);
            }
            retire(prev);
            true
        } else {
            let ghost cur = *self;
            self.old_array = Some(prev);
            proof {
                Self::lemma_same_cells(cur, *self, *hasher);
            }
            false
        }
    }

    /// Makes `prev` the array that is drained into this one, with the migration at its start.
    pub fn adopt(&mut self, prev: Box<Array<K, V>>)
        requires
            !old(self).has_old(),
        ensures
            final(self).has_old(),
            final(self).predecessor() == *prev,
            final(self).lb_cells() == old(self).lb_cells(),
            final(self).num_cells() == old(self).num_cells(),
            final(self).rehashing_index() == 0,
            final(self).rehashed_cells() == 0,
            forall|i: int| final(self).cell_at(i) == old(self).cell_at(i),
    {
        self.old_array = Some(prev);
        self.rehashing_index = 0;
        self.rehashed_cells = 0;
    }

    /// The number of entries in the first `n` cells.
    pub closed spec fn entries_below(&self, n: nat) -> nat
        decreases n,
    {
        if n == 0 {
            0
        } else {
            self.entries_below((n - 1) as nat) + self.cell_at(n - 1).len()
        }
    }

    /// The number of entries in the cells of this array.
    pub open spec fn num_entries(&self) -> nat {
        self.entries_below(self.num_cells())
    }

    /// The number of entries in the first cells, one cell more.
    pub proof fn lemma_entries_step(&self, n: nat)
        ensures
            self.entries_below(0) == 0,
            n > 0 ==> self.entries_below(n) == self.entries_below((n - 1) as nat) + self.cell_at(
                n - 1,
            ).len(),
    {
    }

    /// No cell has more entries than the cells have together.
    pub proof fn lemma_cell_in_entries(&self, i: int, n: nat)
        requires
            0 <= i < n,
        ensures
            self.cell_at(i).len() <= self.entries_below(n),
        decreases n,
    {
        if i < n - 1 {
            self.lemma_cell_in_entries(i, (n - 1) as nat);
        }
    }

    proof fn lemma_entries_below(&self, g: spec_fn(int) -> nat, n: nat)
        requires
            forall|i: int| 0 <= i < n ==> #[trigger] g(i) == self.cell_at(i).len(),
        ensures
            self.entries_below(n) == crate::counting::sum_below(g, n),
        decreases n,
    {
        if n > 0 {
            self.lemma_entries_below(g, (n - 1) as nat);
        }
    }

    /// The cells of an array hold as many keys as they have entries.
    pub proof fn lemma_count<H: Fn(&K) -> u64>(&self, hasher: H)
        requires
            self.sized(),
            self.cells_wf(hasher),
        ensures
            self.own_map(hasher).dom().finite(),
            self.own_map(hasher).dom().len() == self.num_entries(),
    {
        let n = self.num_cells();
        let f = |i: int| self.cell_at(i).tagged().dom();
        let g = |i: int| self.cell_at(i).len();
        assert forall|i: int| 0 <= i < n implies (#[trigger] f(i)).finite() && g(i) == f(i).len() by {
            self.lemma_cell_wf(hasher, i);
            self.cell_at(i).lemma_count();
        }
        assert forall|i: int, j: int, k: K|
            0 <= i < j < n && #[trigger] f(i).contains(k) implies !(#[trigger] f(j).contains(k)) by {
            if f(j).contains(k) {
                self.lemma_entry(hasher, i, k);
                self.lemma_entry(hasher, j, k);
            }
        }
        crate::counting::lemma_union_below_len(f, g, n);
        assert forall|k: K|
            self.own_map(hasher).dom().contains(k) <==> crate::counting::union_below(f, n).contains(
                k,
            ) by {
            self.lemma_lookup(hasher, k);
            if self.own_map(hasher).dom().contains(k) {
                let i = self.index_of(hasher, k);
                assert(f(i).contains(k));
                crate::counting::lemma_union_below(f, n);
            }
            if crate::counting::union_below(f, n).contains(k) {
                crate::counting::lemma_union_below_member(f, n, k);
                let i = choose|i: int| 0 <= i < n && #[trigger] f(i).contains(k);
                assert(f(i).contains(k));
                self.lemma_entry(hasher, i, k);
            }
        }
        assert(self.own_map(hasher).dom() =~= crate::counting::union_below(f, n));
        self.lemma_entries_below(g, n);
    }

    /// The cells of an array hold finitely many keys.
    pub proof fn lemma_finite<H: Fn(&K) -> u64>(&self, hasher: H)
        requires
            self.sized(),
            self.cells_wf(hasher),
        ensures
            self.own_map(hasher).dom().finite(),
    {
        self.lemma_count(hasher);
    }

    /// The two arrays of a map hold as many keys as they have entries.
    pub proof fn lemma_view_count<H: Fn(&K) -> u64>(&self, hasher: H)
        requires
            self.wf(hasher),
        ensures
            self.view(hasher).dom().finite(),
            self.view(hasher).dom().len() == self.num_entries() + if self.has_old() {
                self.predecessor().num_entries()
            } else {
                0
            },
    {
        self.lemma_count(hasher);
        if self.has_old() {
            let prev = self.predecessor();
            prev.lemma_count(hasher);
            assert(self.view(hasher).dom() =~= prev.own_map(hasher).dom() + self.own_map(
                hasher,
            ).dom());
            vstd::set_lib::lemma_set_disjoint_lens(
                prev.own_map(hasher).dom(),
                self.own_map(hasher).dom(),
            );
        }
    }

    /// The two arrays of a map hold finitely many keys.
    pub proof fn lemma_view_finite<H: Fn(&K) -> u64>(&self, hasher: H)
        requires
            self.wf(hasher),
        ensures
            self.view(hasher).dom().finite(),
    {
        self.lemma_finite(hasher);
        if self.has_old() {
            self.predecessor().lemma_finite(hasher);
            assert(self.view(hasher).dom() =~= self.predecessor().own_map(hasher).dom().union(
                self.own_map(hasher).dom(),
            ));
        }
    }

    /// The cells can be counted in a `usize`.
    pub proof fn lemma_num_cells(&self)
        ensures
            self.num_cells() <= usize::MAX,
    {
        assert(self.cells.len() == self.cells@.len());
    }

    /// The capacity of an array is a power of two between 256 and the largest capacity.
    pub proof fn lemma_capacity(&self)
        requires
            self.sized(),
        ensures
            crate::capacity::is_power_of_two(self.capacity() as int),
            DEFAULT_CAPACITY <= self.capacity() <= crate::capacity::spec_max_capacity(),
            self.num_cells() >= ARRAY_SIZE,
            self.capacity() / 16 == self.num_cells(),
            crate::capacity::is_power_of_two(self.num_cells() as int),
    {
        lemma_word();
        lemma2_to64();
        lemma_pow2_adds(self.lb_cells(), 4);
        assert(self.capacity() == pow2(self.lb_cells() + 4));
        if self.lb_cells() > 4 {
            lemma_pow2_strictly_increases(4, self.lb_cells());
        }
        if self.lb_cells() + 4 < usize::BITS - 1 {
            lemma_pow2_strictly_increases(self.lb_cells() + 4, (usize::BITS - 1) as nat);
        }
    }

    /// How an array changes where the value in the slot `h` of a cell becomes `value`: the
    /// cell changes as `Cell::revalued` says, every other cell is as it was, and the map has
    /// the new value for the key of that slot.
    pub open spec fn revalued<H: Fn(&K) -> u64>(
        before: Self,
        after: Self,
        hasher: H,
        in_old: bool,
        i: int,
        h: SlotHandle,
        value: V,
        earlier: V,
    ) -> bool {
        &&& after.wf(hasher)
        &&& before.cell_of(in_old, i).entry_at(h) matches Some(e) && e.1 == earlier
            && before.view(hasher).contains_key(e.0) && before.view(hasher)[e.0] == earlier
            && after.view(hasher) == before.view(hasher).insert(e.0, value)
        &&& after.same_frame(before)
        &&& after.other_cells_kept(before, in_old, i)
        &&& Cell::revalued(before.cell_of(in_old, i), after.cell_of(in_old, i), h, value, earlier)
    }

    /// The array `after` is the array `before` but for the value in the slot `h` of a cell.
    spec fn lent(before: Self, after: Self, in_old: bool, i: int, h: SlotHandle, value: V) -> bool {
        &&& if in_old {
            after.one_old_cell_changed(before, i)
        } else {
            after.one_cell_changed(before, i)
        }
        &&& before.cell_of(in_old, i).entry_at(h) matches Some(e) && Cell::revalued(
            before.cell_of(in_old, i),
            after.cell_of(in_old, i),
            h,
            value,
            e.1,
        )
    }

    proof fn lemma_lent<H: Fn(&K) -> u64>(
        before: Self,
        after: Self,
        hasher: H,
        in_old: bool,
        i: int,
        h: SlotHandle,
        value: V,
    )
        requires
            before.wf(hasher),
            before.has_cell(in_old, i),
            Self::lent(before, after, in_old, i, h, value),
        ensures
            Self::revalued(
                before,
                after,
                hasher,
                in_old,
                i,
                h,
                value,
                before.cell_of(in_old, i).entry_at(h).unwrap().1,
            ),
    {
        let key = before.cell_of(in_old, i).entry_at(h).unwrap().0;
        let cell = before.cell_of(in_old, i);
        if in_old {
            before.predecessor().lemma_cell_wf(hasher, i);
            assert(cell.holds(h, key));
            cell.lemma_tagged(h, key);
            Self::lemma_revalued_old(before, after, hasher, i, key, value);
            Self::lemma_marks_kept(before.predecessor(), after.predecessor(), i);
            assert forall|j: int| 0 <= j < before.num_cells() implies #[trigger] after.cell_at(j)
                == before.cell_at(j) by {}
        } else {
            before.lemma_cell_wf(hasher, i);
            assert(cell.holds(h, key));
            cell.lemma_tagged(h, key);
            Self::lemma_revalued_own(before, after, hasher, i, key, value);
            Self::lemma_marks_kept(before, after, i);
        }
    }

    /// The entry in the slot `h` of a cell, with the value open to change.
    pub fn get_mut<H: Fn(&K) -> u64>(
        &mut self,
        hasher: &H,
        in_old: bool,
        i: usize,
        h: SlotHandle,
    ) -> (entry: (&K, &mut V))
        requires
            old(self).wf(*hasher),
            old(self).has_cell(in_old, i as int),
            old(self).cell_of(in_old, i as int).entry_at(h) is Some,
        ensures
            old(self).cell_of(in_old, i as int).entry_at(h) == Some((*entry.0, *entry.1)),
            Self::revalued(
                *old(self),
                *final(self),
                *hasher,
                in_old,
                i as int,
                h,
                *final(entry.1),
                *entry.1,
            ),
    {
        let ghost before = *self;
        proof {
            assert forall|after: Self, value: V, earlier: V|
                Self::lent(before, after, in_old, i as int, h, value) && earlier
                    == before.cell_of(in_old, i as int).entry_at(h).unwrap().1 implies #[trigger] Self::revalued(
                before,
                after,
                *hasher,
                in_old,
                i as int,
                h,
                value,
                earlier,
            ) by {
                Self::lemma_lent(before, after, *hasher, in_old, i as int, h, value);
            }
            if in_old {
                before.predecessor().lemma_cell_wf(*hasher, i as int);
            } else {
                before.lemma_cell_wf(*hasher, i as int);
            }
        }
        if in_old {
            match &mut self.old_array {
                Some(prev) => prev.cells[i].get_mut(h),
                None => vstd::pervasive::unreached(),
            }
        } else {
            self.cells[i].get_mut(h)
        }
    }
}

} // verus!
