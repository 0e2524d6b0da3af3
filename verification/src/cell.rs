use crate::block::EntryBlock;
use crate::metadata::{Metadata, OVERFLOW_LEN_MAX};
use vstd::laws_eq::obeys_concrete_eq;
use vstd::prelude::*;

verus! {

/// The number of slots in a cell's primary storage.
pub const ARRAY_SIZE: usize = 16;

/// The number of slots in one link of a cell's overflow chain.
pub const LINK_SIZE: usize = 4;

/// Names one slot of a cell: a slot of the primary storage where `link` is `None`, else a slot
/// of the overflow link with that number. Links are numbered from the tail of the chain, so
/// the head of the chain is the link with the largest number.
#[derive(Clone, Copy, Debug, PartialEq, Eq)]
pub struct SlotHandle {
    pub link: Option<usize>,
    pub index: usize,
}

/// One bucket of the map: the word with its state, 16 primary slots, and a chain of overflow
/// links of 4 slots each.
pub struct Cell<K, V> {
    metadata: Metadata,
    primary: EntryBlock<K, V>,
    overflow: Vec<EntryBlock<K, V>>,
}

impl<K, V> Cell<K, V> {
    pub closed spec fn is_killed(&self) -> bool {
        self.metadata.is_killed()
    }

    /// The number of links in the overflow chain.
    pub closed spec fn num_links(&self) -> nat {
        self.overflow@.len()
    }

    pub closed spec fn block_of(&self, link: Option<usize>) -> EntryBlock<K, V> {
        match link {
            None => self.primary,
            Some(j) => self.overflow@[j as int],
        }
    }

    /// `h` names a slot that this cell has.
    pub closed spec fn valid_handle(&self, h: SlotHandle) -> bool {
        match h.link {
            None => h.index < ARRAY_SIZE,
            Some(j) => j < self.overflow@.len() && h.index < LINK_SIZE,
        }
    }

    /// What the slot `h` holds; nothing where the cell has no such slot.
    pub closed spec fn entry_at(&self, h: SlotHandle) -> Option<(K, V)> {
        if self.valid_handle(h) {
            self.block_of(h.link).entry(h.index as int)
        } else {
            None
        }
    }

    /// The tag stored for the slot `h`.
    pub closed spec fn tag_at(&self, h: SlotHandle) -> u16 {
        self.block_of(h.link).tag(h.index as int)
    }

    /// The place of the slot `h` in the order of traversal: the primary slots by index, then
    /// the links from the head of the chain to its tail, each by index.
    pub closed spec fn rank(&self, h: SlotHandle) -> int {
        match h.link {
            None => h.index as int,
            Some(j) => ARRAY_SIZE + LINK_SIZE * (self.overflow@.len() - 1 - j) + h.index,
        }
    }

    /// The slot `h` holds an entry for `key`.
    pub open spec fn holds(&self, h: SlotHandle, key: K) -> bool {
        self.entry_at(h) matches Some(e) && e.0 == key
    }

    pub open spec fn contains_key(&self, key: K) -> bool {
        exists|h: SlotHandle| self.holds(h, key)
    }

    /// The slot that holds `key`.
    pub open spec fn handle_of(&self, key: K) -> SlotHandle {
        choose|h: SlotHandle| self.holds(h, key)
    }

    /// The cell as a map from each key to its tag and value.
    pub closed spec fn tagged(&self) -> Map<K, (u16, V)> {
        Map::new(
            |k: K| self.contains_key(k),
            |k: K| (self.tag_at(self.handle_of(k)), self.entry_at(self.handle_of(k)).unwrap().1),
        )
    }

    /// The keys in the slots whose rank is at least `r`.
    pub open spec fn keys_from(&self, r: int) -> Set<K> {
        Set::new(|k: K| exists|h: SlotHandle| self.holds(h, k) && self.rank(h) >= r)
    }

    /// The number of entries in the primary slots.
    pub closed spec fn primary_len(&self) -> nat {
        self.primary.len()
    }

    /// The number of entries in the overflow chain.
    pub closed spec fn overflow_len(&self) -> nat {
        Self::chain_len(self.overflow@)
    }

    /// The number of entries in the cell.
    pub open spec fn len(&self) -> nat {
        self.primary_len() + self.overflow_len()
    }

    /// The number of entries in the cell as its word counts them: those in the overflow
    /// chain count up to the largest number that the word holds.
    pub open spec fn counted_len(&self) -> nat {
        self.primary_len() + Metadata::saturated(self.overflow_len())
    }

    /// The number of entries in a chain of links.
    pub open spec fn chain_len(chain: Seq<EntryBlock<K, V>>) -> nat
        decreases chain.len(),
    {
        if chain.len() == 0 {
            0
        } else {
            Self::chain_len(chain.drop_last()) + chain.last().len()
        }
    }

    proof fn lemma_chain_update(chain: Seq<EntryBlock<K, V>>, j: int, link: EntryBlock<K, V>)
        requires
            0 <= j < chain.len(),
        ensures
            Self::chain_len(chain.update(j, link)) + chain[j].len() == Self::chain_len(chain)
                + link.len(),
        decreases chain.len(),
    {
        let updated = chain.update(j, link);
        if j == chain.len() - 1 {
            assert(updated.drop_last() =~= chain.drop_last());
        } else {
            assert(updated.drop_last() =~= chain.drop_last().update(j, link));
            Self::lemma_chain_update(chain.drop_last(), j, link);
        }
    }

    proof fn lemma_chain_remove(chain: Seq<EntryBlock<K, V>>, j: int)
        requires
            0 <= j < chain.len(),
        ensures
            Self::chain_len(chain.remove(j)) + chain[j].len() == Self::chain_len(chain),
        decreases chain.len(),
    {
        let removed = chain.remove(j);
        if j == chain.len() - 1 {
            assert(removed =~= chain.drop_last());
        } else {
            assert(removed.drop_last() =~= chain.drop_last().remove(j));
            assert(removed.last() == chain.last());
            Self::lemma_chain_remove(chain.drop_last(), j);
        }
    }

    proof fn lemma_chain_push(chain: Seq<EntryBlock<K, V>>, link: EntryBlock<K, V>)
        ensures
            Self::chain_len(chain.push(link)) == Self::chain_len(chain) + link.len(),
    {
        assert(chain.push(link).drop_last() =~= chain);
    }

    /// A chain whose links all hold something holds at least as many entries as it has links.
    proof fn lemma_chain_min(chain: Seq<EntryBlock<K, V>>)
        requires
            forall|j: int| 0 <= j < chain.len() ==> (#[trigger] chain[j]).len() > 0,
        ensures
            Self::chain_len(chain) >= chain.len(),
        decreases chain.len(),
    {
        if chain.len() > 0 {
            assert forall|j: int| 0 <= j < chain.drop_last().len() implies (
            #[trigger] chain.drop_last()[j]).len() > 0 by {
                assert(chain.drop_last()[j] == chain[j]);
            }
            Self::lemma_chain_min(chain.drop_last());
        }
    }

    /// The blocks are sound, no link of the chain is empty, a killed cell holds nothing, no
    /// key occurs twice, and the word tells the state and the counts of a cell that no thread
    /// holds.
    pub closed spec fn wf(&self) -> bool {
        &&& self.primary.wf()
        &&& self.primary.size() == ARRAY_SIZE
        &&& forall|j: int|
            0 <= j < self.overflow@.len() ==> {
                &&& (#[trigger] self.overflow@[j]).wf()
                &&& self.overflow@[j].size() == LINK_SIZE
                &&& self.overflow@[j].len() > 0
            }
        &&& self.metadata.is_killed() ==> self.primary.len() == 0 && self.overflow@.len() == 0
        &&& !self.metadata.is_locked()
        &&& !self.metadata.is_waiting()
        &&& self.metadata.occupancy() == self.primary.len()
        &&& self.metadata.overflow_len() == Metadata::saturated(Self::chain_len(self.overflow@))
        &&& forall|h1: SlotHandle, h2: SlotHandle, k: K|
            #![trigger self.holds(h1, k), self.holds(h2, k)]
            self.holds(h1, k) && self.holds(h2, k) ==> h1 == h2
    }

    /// A key sits in one slot only.
    pub proof fn lemma_unique(&self, h1: SlotHandle, h2: SlotHandle, key: K)
        requires
            self.wf(),
            self.holds(h1, key),
            self.holds(h2, key),
        ensures
            h1 == h2,
    {
    }

    /// What a slot holds is what the cell maps its key to.
    pub proof fn lemma_tagged(&self, h: SlotHandle, key: K)
        requires
            self.wf(),
            self.holds(h, key),
        ensures
            self.tagged().contains_key(key),
            self.handle_of(key) == h,
            self.tagged()[key] == (self.tag_at(h), self.entry_at(h).unwrap().1),
    {
        self.lemma_unique(h, self.handle_of(key), key);
    }

    /// Each key of the map sits in a slot.
    pub proof fn lemma_tagged_slot(&self, key: K) -> (h: SlotHandle)
        requires
            self.tagged().contains_key(key),
        ensures
            self.holds(h, key),
    {
        self.handle_of(key)
    }

    /// Ranks tell slots apart, and only slots that the cell has hold anything.
    pub proof fn lemma_rank(&self, h1: SlotHandle, h2: SlotHandle)
        requires
            self.valid_handle(h1),
            self.valid_handle(h2),
        ensures
            self.rank(h1) == self.rank(h2) ==> h1 == h2,
            0 <= self.rank(h1) < ARRAY_SIZE + LINK_SIZE * self.num_links(),
    {
    }

    pub proof fn lemma_occupied_is_valid(&self, h: SlotHandle)
        requires
            self.entry_at(h) is Some,
        ensures
            self.valid_handle(h),
    {
    }

    /// A cell that is marked as drained holds nothing.
    pub proof fn lemma_killed(&self)
        requires
            self.wf(),
            self.is_killed(),
        ensures
            self.tagged() == Map::<K, (u16, V)>::empty(),
            self.len() == 0,
            self.num_links() == 0,
            forall|h: SlotHandle| self.entry_at(h) is None,
    {
        self.primary.lemma_len();
        assert forall|h: SlotHandle| self.entry_at(h) is None by {
            if self.valid_handle(h) {
                assert(self.primary.entry(h.index as int) is None);
            }
        }
        assert(self.tagged() =~= Map::<K, (u16, V)>::empty());
    }

    /// A cell has entries in its overflow chain exactly where the chain has links, and an
    /// occupied slot of a link is a slot of a chain that has links.
    pub proof fn lemma_links(&self)
        requires
            self.wf(),
        ensures
            self.num_links() == 0 <==> self.overflow_len() == 0,
            self.overflow_len() <= self.len(),
            forall|h: SlotHandle|
                #[trigger] self.entry_at(h) is Some && h.link is Some ==> self.num_links() > 0,
    {
        Self::lemma_chain_min(self.overflow@);
        if self.overflow@.len() == 0 {
            assert(self.overflow@ =~= Seq::empty());
        }
    }

    /// A cell whose primary slots are all occupied has 16 entries in them.
    pub proof fn lemma_full(&self)
        requires
            self.wf(),
        ensures
            self.is_full_between(None, 0, ARRAY_SIZE as int) <==> self.primary_len() == ARRAY_SIZE,
            self.primary_len() <= ARRAY_SIZE,
    {
        self.primary.lemma_len();
        if self.is_full_between(None, 0, ARRAY_SIZE as int) {
            assert forall|i: int| 0 <= i < self.primary.size() implies self.primary.entry(
                i,
            ) is Some by {
                assert(self.entry_at(SlotHandle { link: None, index: i as usize }) is Some);
            }
        }
        if self.primary_len() == ARRAY_SIZE {
            assert forall|i: usize| 0 <= i < ARRAY_SIZE implies (#[trigger] self.entry_at(
                SlotHandle { link: None, index: i },
            )) is Some by {
                assert(self.primary.entry(i as int) is Some);
            }
        }
    }

    /// A cell that holds nothing has no links, and a cell without entries holds nothing.
    pub proof fn lemma_empty(&self)
        requires
            self.wf(),
        ensures
            self.tagged() == Map::<K, (u16, V)>::empty() <==> self.len() == 0,
            self.len() == 0 ==> self.num_links() == 0 && self.keys_from(0) == Set::<K>::empty(),
    {
        Self::lemma_chain_min(self.overflow@);
        if self.primary.len() != 0 || self.overflow@.len() != 0 {
            let h = self.lemma_not_empty();
            let key = self.entry_at(h).unwrap().0;
            assert(self.holds(h, key));
            assert(self.tagged().contains_key(key));
        } else {
            self.primary.lemma_len();
            assert forall|h: SlotHandle| self.entry_at(h) is None by {
                if self.valid_handle(h) {
                    assert(self.primary.entry(h.index as int) is None);
                }
            }
            assert(self.tagged() =~= Map::<K, (u16, V)>::empty());
            self.lemma_keys_from_start();
        }
    }

    /// The slot with the number `p`, where the primary slots have the numbers from 0 and the
    /// slots of the link `j` the numbers from 16 + 4 * `j`.
    pub closed spec fn slot_numbered(&self, p: int) -> SlotHandle {
        if p < ARRAY_SIZE {
            SlotHandle { link: None, index: p as usize }
        } else {
            SlotHandle {
                link: Some(((p - ARRAY_SIZE) / (LINK_SIZE as int)) as usize),
                index: ((p - ARRAY_SIZE) % (LINK_SIZE as int)) as usize,
            }
        }
    }

    /// The key in the slot with the number `p`, as a set.
    pub closed spec fn key_numbered(&self, p: int) -> Set<K> {
        match self.entry_at(self.slot_numbered(p)) {
            Some(e) => Set::empty().insert(e.0),
            None => Set::empty(),
        }
    }

    /// The number of entries in the slots with a number below `p`.
    spec fn occupied_below(&self, p: nat) -> nat
        decreases p,
    {
        if p == 0 {
            0
        } else {
            self.occupied_below((p - 1) as nat) + if self.entry_at(self.slot_numbered(p - 1)) is Some {
                1nat
            } else {
                0nat
            }
        }
    }

    /// The slots of the primary storage and of the first `m` links hold as many entries as
    /// the blocks count.
    proof fn lemma_occupied_below(&self, m: nat)
        requires
            self.wf(),
            m <= self.overflow@.len(),
        ensures
            self.occupied_below(ARRAY_SIZE as nat + LINK_SIZE as nat * m) == self.primary.len()
                + Self::chain_len(self.overflow@.take(m as int)),
        decreases m,
    {
        assert(self.overflow.len() == self.overflow@.len());
        if m == 0 {
            let g = |i: int|
                if self.primary.entry(i) is Some {
                    1nat
                } else {
                    0nat
                };
            self.primary.lemma_len_is_sum(g);
            self.lemma_occupied_is_sum(g, 0, ARRAY_SIZE as nat);
            assert(self.overflow@.take(0) =~= Seq::empty());
        } else {
            let j = (m - 1) as int;
            let link = self.overflow@[j];
            let start = ARRAY_SIZE as nat + LINK_SIZE as nat * ((m - 1) as nat);
            self.lemma_occupied_below((m - 1) as nat);
            let g = |i: int|
                if link.entry(i) is Some {
                    1nat
                } else {
                    0nat
                };
            link.lemma_len_is_sum(g);
            assert forall|i: int| 0 <= i < LINK_SIZE implies self.entry_at(
                #[trigger] self.slot_numbered(start + i),
            ) == link.entry(i) by {
                assert(self.slot_numbered(start + i) == SlotHandle {
                    link: Some(j as usize),
                    index: i as usize,
                });
            }
            self.lemma_occupied_is_sum(g, start, LINK_SIZE as nat);
            assert(self.overflow@.take(m as int).drop_last() =~= self.overflow@.take(j));
        }
    }

    /// The slots with the numbers from `start` on hold as many entries as `g` counts.
    proof fn lemma_occupied_is_sum(&self, g: spec_fn(int) -> nat, start: nat, n: nat)
        requires
            forall|i: int|
                0 <= i < n ==> #[trigger] g(i) == (if self.entry_at(self.slot_numbered(start + i))
                    is Some {
                    1nat
                } else {
                    0nat
                }),
        ensures
            self.occupied_below(start + n) == self.occupied_below(start)
                + crate::counting::sum_below(g, n),
        decreases n,
    {
        if n > 0 {
            self.lemma_occupied_is_sum(g, start, (n - 1) as nat);
            assert(g(n - 1) == (if self.entry_at(self.slot_numbered(start + (n - 1))) is Some {
                1nat
            } else {
                0nat
            }));
        }
    }

    /// A cell holds as many keys as it has entries.
    pub proof fn lemma_count(&self)
        requires
            self.wf(),
        ensures
            self.tagged().dom().finite(),
            self.tagged().dom().len() == self.len(),
    {
        let n = (ARRAY_SIZE + LINK_SIZE * self.overflow@.len()) as nat;
        let f = |p: int| self.key_numbered(p);
        let g = |p: int|
            if self.entry_at(self.slot_numbered(p)) is Some {
                1nat
            } else {
                0nat
            };
        assert(self.overflow.len() == self.overflow@.len());
        assert forall|p: int| 0 <= p < n implies (#[trigger] f(p)).finite() && g(p) == f(p).len() by {
            let none: Set<K> = Set::empty();
            match self.entry_at(self.slot_numbered(p)) {
                Some(e) => {
                    assert(f(p) == none.insert(e.0));
                    assert(none.insert(e.0).len() == 1);
                },
                None => {
                    assert(f(p) == none);
                },
            }
        }
        assert forall|p: int, q: int, k: K|
            0 <= p < q < n && #[trigger] f(p).contains(k) implies !(#[trigger] f(q).contains(k)) by {
            if f(q).contains(k) {
                assert(self.holds(self.slot_numbered(p), k));
                assert(self.holds(self.slot_numbered(q), k));
            }
        }
        crate::counting::lemma_union_below_len(f, g, n);
        assert forall|k: K|
            self.tagged().dom().contains(k) <==> crate::counting::union_below(f, n).contains(
                k,
            ) by {
            if self.tagged().dom().contains(k) {
                let h = self.handle_of(k);
                assert(self.holds(h, k));
                let p = match h.link {
                    None => h.index as int,
                    Some(j) => ARRAY_SIZE + LINK_SIZE * j + h.index,
                };
                assert(self.slot_numbered(p) == h);
                assert(f(p).contains(k));
                crate::counting::lemma_union_below(f, n);
            }
            if crate::counting::union_below(f, n).contains(k) {
                crate::counting::lemma_union_below_member(f, n, k);
                let p = choose|p: int| 0 <= p < n && #[trigger] f(p).contains(k);
                assert(f(p).contains(k));
                assert(self.holds(self.slot_numbered(p), k));
            }
        }
        assert(self.tagged().dom() =~= crate::counting::union_below(f, n));
        self.lemma_occupied_is_sum(g, 0, n);
        self.lemma_occupied_below(self.overflow@.len());
        assert(self.overflow@.take(self.overflow@.len() as int) =~= self.overflow@);
    }

    /// A cell holds finitely many keys.
    pub proof fn lemma_finite(&self)
        requires
            self.wf(),
        ensures
            self.tagged().dom().finite(),
    {
        self.lemma_count();
    }

    /// Whether the block `link` has no free slot from the index `from` on below `upto`.
    pub open spec fn is_full_between(&self, link: Option<usize>, from: int, upto: int) -> bool {
        forall|i: usize|
            from <= i < upto ==> (#[trigger] self.entry_at(SlotHandle { link, index: i })) is Some
    }

    /// Whether `h` is the slot that the next entry goes to: the first free primary slot;
    /// where there is none, the first free slot of the first link from the head of the chain
    /// that has one; where there is none either, the first slot of a new link at the head.
    pub open spec fn is_next_free(&self, h: SlotHandle) -> bool {
        &&& self.entry_at(h) is None
        &&& match h.link {
            None => h.index < ARRAY_SIZE && self.is_full_between(None, 0, h.index as int),
            Some(j) => {
                &&& self.is_full_between(None, 0, ARRAY_SIZE as int)
                &&& j <= self.num_links()
                &&& h.index < LINK_SIZE
                &&& j == self.num_links() ==> h.index == 0
                &&& self.is_full_between(Some(j), 0, h.index as int)
                &&& forall|l: usize|
                    j < l < self.num_links() ==> #[trigger] self.is_full_between(
                        Some(l),
                        0,
                        LINK_SIZE as int,
                    )
            },
        }
    }

    /// How a cell changes where an entry is stored in it: the entry goes to the slot that
    /// was the next free one, and the map gains it.
    pub open spec fn inserted(
        before: Self,
        after: Self,
        h: SlotHandle,
        key: K,
        tag: u16,
        value: V,
    ) -> bool {
        &&& after.wf()
        &&& after.is_killed() == before.is_killed()
        &&& before.is_next_free(h)
        &&& after.entry_at(h) == Some((key, value))
        &&& after.tag_at(h) == tag
        &&& after.tagged() == before.tagged().insert(key, (tag, value))
        &&& after.len() == before.len() + 1
        &&& after.num_links() == if h.link is Some && h.link.unwrap() == before.num_links() {
            before.num_links() + 1
        } else {
            before.num_links()
        }
    }

    /// How a cell changes where the entry in the slot `h` is taken out: the map loses the
    /// entry, and the occupied slots that come after `h` in the order of traversal keep their
    /// handles and what follows each of them.
    pub open spec fn removed(before: Self, after: Self, h: SlotHandle, entry: (K, V)) -> bool {
        &&& after.wf()
        &&& after.is_killed() == before.is_killed()
        &&& before.entry_at(h) == Some(entry)
        &&& after.tagged() == before.tagged().remove(entry.0)
        &&& after.len() + 1 == before.len()
        &&& after.num_links() <= before.num_links()
        &&& forall|g: SlotHandle|
            before.rank(g) > before.rank(h) && #[trigger] before.entry_at(g) is Some ==> {
                &&& after.entry_at(g) == before.entry_at(g)
                &&& after.keys_from(after.rank(g)) == before.keys_from(before.rank(g))
            }
    }

    /// How a cell changes where the value in the slot `h` is replaced: the slots keep their
    /// handles and ranks, and the map has the new value for the key of that slot.
    pub open spec fn revalued(
        before: Self,
        after: Self,
        h: SlotHandle,
        value: V,
        earlier: V,
    ) -> bool {
        &&& after.wf()
        &&& after.is_killed() == before.is_killed()
        &&& after.num_links() == before.num_links()
        &&& after.len() == before.len()
        &&& before.entry_at(h) matches Some(e) && e.1 == earlier && after.entry_at(h) == Some(
            (e.0, value),
        ) && after.tagged() == before.tagged().insert(e.0, (before.tag_at(h), value))
        &&& after.tag_at(h) == before.tag_at(h)
        &&& forall|g: SlotHandle| g != h ==> #[trigger] after.entry_at(g) == before.entry_at(g)
        &&& forall|g: SlotHandle| #[trigger] after.rank(g) == before.rank(g)
    }

    /// A cell that holds nothing.
    pub fn new() -> (cell: Self)
        ensures
            cell.wf(),
            !cell.is_killed(),
            cell.num_links() == 0,
            cell.len() == 0,
            forall|h: SlotHandle| cell.entry_at(h) is None,
            cell.tagged() == Map::<K, (u16, V)>::empty(),
    {
        let cell = Cell {
            metadata: Metadata::new(),
            primary: EntryBlock::new(ARRAY_SIZE),
            overflow: Vec::new(),
        };
        assert(forall|h: SlotHandle| cell.entry_at(h) is None);
        assert(cell.tagged() =~= Map::<K, (u16, V)>::empty());
        cell
    }

    /// Whether the cell has been drained for good.
    pub fn killed(&self) -> (b: bool)
        ensures
            b == self.is_killed(),
    {
        self.metadata.killed()
    }

    /// Whether the 16 primary slots are all occupied.
    pub fn full(&self) -> (b: bool)
        requires
            self.wf(),
        ensures
            b <==> (forall|i: usize|
                i < ARRAY_SIZE ==> self.entry_at(SlotHandle { link: None, index: i }) is Some),
    {
        let b = self.primary.is_full();
        proof {
            if b {
                assert forall|i: usize| i < ARRAY_SIZE implies self.entry_at(
                    SlotHandle { link: None, index: i },
                ) is Some by {
                    assert(self.primary.entry(i as int) is Some);
                }
            } else {
                let i = choose|i: int| 0 <= i < self.primary.size() && !(self.primary.entry(i) is Some);
                assert(self.entry_at(SlotHandle { link: None, index: i as usize }) is None);
            }
        }
        b
    }

    /// Whether the cell holds no entry at all.
    pub fn empty(&self) -> (b: bool)
        requires
            self.wf(),
        ensures
            b <==> (forall|h: SlotHandle| self.entry_at(h) is None),
            b <==> self.tagged() == Map::<K, (u16, V)>::empty(),
            b <==> self.len() == 0,
            b ==> self.num_links() == 0,
    {
        let b = self.primary.is_empty() && self.overflow.len() == 0;
        proof {
            Self::lemma_chain_min(self.overflow@);
            if b {
                assert(forall|h: SlotHandle| self.entry_at(h) is None);
                assert(self.tagged() =~= Map::<K, (u16, V)>::empty());
            } else {
                let h = self.lemma_not_empty();
                let key = self.entry_at(h).unwrap().0;
                assert(self.holds(h, key));
                assert(self.tagged().contains_key(key));
            }
        }
        b
    }

    proof fn lemma_not_empty(&self) -> (h: SlotHandle)
        requires
            self.wf(),
            self.primary.len() != 0 || self.overflow@.len() != 0,
        ensures
            self.entry_at(h) is Some,
    {
        if self.primary.len() != 0 {
            self.primary.lemma_len();
            let i = choose|i: int| 0 <= i < self.primary.size() && !(self.primary.entry(i) is None);
            let h = SlotHandle { link: None, index: i as usize };
            assert(self.entry_at(h) is Some);
            h
        } else {
            let link = self.overflow@[0];
            link.lemma_len();
            let i = choose|i: int| 0 <= i < link.size() && !(link.entry(i) is None);
            let h = SlotHandle { link: Some(0usize), index: i as usize };
            assert(self.entry_at(h) is Some);
            h
        }
    }

    /// The slot that holds `key` under `tag`, if there is one. The primary slots are searched
    /// first, then the chain from its head.
    pub fn search(&self, key: &K, tag: u16) -> (found: Option<SlotHandle>) where K: PartialEq
        requires
            self.wf(),
            obeys_concrete_eq::<K>(),
        ensures
            match found {
                Some(h) => self.holds(h, *key) && self.tag_at(h) == tag,
                None => forall|h: SlotHandle| !(self.holds(h, *key) && self.tag_at(h) == tag),
            },
    {
        if let Some(i) = self.primary.search(key, tag) {
            return Some(SlotHandle { link: None, index: i });
        }
        let mut j: usize = self.overflow.len();
        while j > 0
            invariant
                self.wf(),
                obeys_concrete_eq::<K>(),
                j <= self.overflow@.len(),
                forall|i: int| 0 <= i < self.primary.size() ==> !self.primary.matches_at(i, *key, tag),
                forall|l: int, i: int|
                    j <= l < self.overflow@.len() && 0 <= i < LINK_SIZE ==> !(
                    #[trigger] self.overflow@[l].matches_at(i, *key, tag)),
            decreases j,
        {
            j -= 1;
            if let Some(i) = self.overflow[j].search(key, tag) {
                return Some(SlotHandle { link: Some(j), index: i });
            }
        }
        assert forall|h: SlotHandle| !(self.holds(h, *key) && self.tag_at(h) == tag) by {
            if self.holds(h, *key) && self.tag_at(h) == tag {
                match h.link {
                    None => {
                        assert(self.primary.matches_at(h.index as int, *key, tag));
                    },
                    Some(l) => {
                        assert(self.overflow@[l as int].matches_at(h.index as int, *key, tag));
                    },
                }
            }
        }
        None
    }

    /// One free slot was filled and nothing else changed: the map gains that entry.
    proof fn lemma_filled(before: Self, after: Self, h: SlotHandle, key: K, tag: u16, value: V)
        requires
            before.wf(),
            !before.contains_key(key),
            before.entry_at(h) is None,
            after.entry_at(h) == Some((key, value)),
            after.tag_at(h) == tag,
            forall|g: SlotHandle|
                g != h ==> #[trigger] after.entry_at(g) == before.entry_at(g) && (before.entry_at(
                    g,
                ) is Some ==> after.tag_at(g) == before.tag_at(g)),
        ensures
            forall|h1: SlotHandle, h2: SlotHandle, k: K|
                #![trigger after.holds(h1, k), after.holds(h2, k)]
                after.holds(h1, k) && after.holds(h2, k) ==> h1 == h2,
            after.tagged() == before.tagged().insert(key, (tag, value)),
    {
        assert forall|h1: SlotHandle, h2: SlotHandle, k: K|
            #![trigger after.holds(h1, k), after.holds(h2, k)]
            after.holds(h1, k) && after.holds(h2, k) implies h1 == h2 by {
            if h1 != h {
                assert(before.holds(h1, k));
            }
            if h2 != h {
                assert(before.holds(h2, k));
            }
        }
        assert(after.holds(h, key));
        assert forall|k: K| after.contains_key(k) <==> (k == key || before.contains_key(k)) by {
            if after.contains_key(k) && k != key {
                let g = after.handle_of(k);
                assert(before.holds(g, k));
            }
            if before.contains_key(k) {
                let g = before.handle_of(k);
                assert(after.holds(g, k));
            }
        }
        assert forall|k: K| #[trigger] after.tagged().contains_key(k) implies after.tagged()[k]
            == before.tagged().insert(key, (tag, value))[k] by {
            let g = after.handle_of(k);
            if k != key {
                assert(before.holds(g, k));
                assert(before.handle_of(k) == g);
            }
        }
        assert(after.tagged() =~= before.tagged().insert(key, (tag, value)));
    }

    /// Stores an entry for a key that the cell does not hold yet: in the first free primary
    /// slot; where the primary slots are full, in the first link from the head of the chain
    /// that has room; where no link has room, in a new link that becomes the head.
    pub fn insert(&mut self, key: K, tag: u16, value: V) -> (h: SlotHandle)
        requires
            old(self).wf(),
            !old(self).is_killed(),
            !old(self).tagged().contains_key(key),
        ensures
            Self::inserted(*old(self), *final(self), h, key, tag, value),
    {
        let ghost before = *self;
        if let Some(i) = self.primary.first_free() {
            let h = SlotHandle { link: None, index: i };
            self.primary.put(i, tag, key, value);
            proof {
                assert(before.entry_at(h) is None);
                assert forall|l: usize| 0 <= l < i implies (#[trigger] before.entry_at(
                    SlotHandle { link: None, index: l },
                )) is Some by {
                    assert(before.primary.entry(l as int) is Some);
                }
                Self::lemma_filled(before, *self, h, key, tag, value);
                self.primary.lemma_len();
            }
            let ghost filled = *self;
            self.metadata = self.metadata.with_occupancy(self.primary.num_entries());
            proof {
                Self::lemma_same_slots(filled, *self);
            }
            return h;
        }
        assert(before.is_full_between(None, 0, ARRAY_SIZE as int)) by {
            assert forall|i: usize| 0 <= i < ARRAY_SIZE implies (#[trigger] before.entry_at(
                SlotHandle { link: None, index: i },
            )) is Some by {
                assert(before.primary.entry(i as int) is Some);
            }
        }
        let mut j: usize = self.overflow.len();
        while j > 0
            invariant
                *self == before,
                before == *old(self),
                self.wf(),
                !self.is_killed(),
                !before.tagged().contains_key(key),
                j <= self.overflow@.len(),
                before.is_full_between(None, 0, ARRAY_SIZE as int),
                forall|l: usize|
                    j <= l < before.num_links() ==> #[trigger] before.is_full_between(
                        Some(l),
                        0,
                        LINK_SIZE as int,
                    ),
            decreases j,
        {
            j -= 1;
            let free = self.overflow[j].first_free();
            proof {
                if free is None {
                    assert forall|i: usize| 0 <= i < LINK_SIZE implies (#[trigger] before.entry_at(
                        SlotHandle { link: Some(j), index: i },
                    )) is Some by {
                        assert(before.overflow@[j as int].entry(i as int) is Some);
                    }
                    assert(before.is_full_between(Some(j), 0, LINK_SIZE as int));
                } else {
                    assert forall|i: usize| 0 <= i < free.unwrap() implies (
                    #[trigger] before.entry_at(SlotHandle { link: Some(j), index: i })) is Some by {
                        assert(before.overflow@[j as int].entry(i as int) is Some);
                    }
                    assert(before.is_full_between(Some(j), 0, free.unwrap() as int));
                    assert(before.entry_at(SlotHandle { link: Some(j), index: free.unwrap() })
                        is None);
                    assert(before.is_next_free(SlotHandle { link: Some(j), index: free.unwrap() }));
                }
            }
            if let Some(i) = free {
                let h = SlotHandle { link: Some(j), index: i };
                self.overflow[j].put(i, tag, key, value);
                proof {
                    Self::lemma_chain_update(before.overflow@, j as int, self.overflow@[j as int]);
                    assert(self.overflow@ =~= before.overflow@.update(j as int, self.overflow@[j as int]));
                    assert(before.entry_at(h) is None);
                    assert(self.overflow@.len() == before.overflow@.len());
                    assert forall|g: SlotHandle| g != h implies #[trigger] self.entry_at(g)
                        == before.entry_at(g) && (before.entry_at(g) is Some ==> self.tag_at(g)
                        == before.tag_at(g)) by {
                        if g.link is Some && g.link != Some(j) && g.link.unwrap()
                            < before.overflow@.len() {
                            assert(self.overflow@[g.link.unwrap() as int]
                                == before.overflow@[g.link.unwrap() as int]);
                        }
                    }
                    Self::lemma_filled(before, *self, h, key, tag, value);
                    self.overflow@[j as int].lemma_len();
                    assert forall|l: int| 0 <= l < self.overflow@.len() implies {
                        &&& (#[trigger] self.overflow@[l]).wf()
                        &&& self.overflow@[l].size() == LINK_SIZE
                        &&& self.overflow@[l].len() > 0
                    } by {
                        if l != j {
                            assert(self.overflow@[l] == before.overflow@[l]);
                        }
                    }
                }
                let ghost filled = *self;
                self.metadata = self.metadata.with_overflow_len(
                    self.metadata.num_linked_entries() + 1,
                );
                proof {
                    Self::lemma_same_slots(filled, *self);
                }
                return h;
            }
        }
        let mut link: EntryBlock<K, V> = EntryBlock::new(LINK_SIZE);
        link.put(0, tag, key, value);
        let h = SlotHandle { link: Some(self.overflow.len()), index: 0 };
        self.overflow.push(link);
        proof {
            Self::lemma_chain_push(before.overflow@, link);
            assert(before.entry_at(h) is None);
            assert forall|g: SlotHandle| g != h implies #[trigger] self.entry_at(g)
                == before.entry_at(g) && (before.entry_at(g) is Some ==> self.tag_at(g)
                == before.tag_at(g)) by {
                if g.link is Some && g.link.unwrap() < before.overflow@.len() {
                    assert(self.overflow@[g.link.unwrap() as int] == before.overflow@[g.link.unwrap() as int]);
                }
            }
            Self::lemma_filled(before, *self, h, key, tag, value);
            link.lemma_len();
            assert forall|l: int| 0 <= l < self.overflow@.len() implies {
                &&& (#[trigger] self.overflow@[l]).wf()
                &&& self.overflow@[l].size() == LINK_SIZE
                &&& self.overflow@[l].len() > 0
            } by {
                if l < before.overflow@.len() {
                    assert(self.overflow@[l] == before.overflow@[l]);
                }
            }
        }
        let ghost filled = *self;
        self.metadata = self.metadata.with_overflow_len(self.metadata.num_linked_entries() + 1);
        proof {
            Self::lemma_same_slots(filled, *self);
        }
        h
    }

    /// One slot was emptied and nothing else changed: the map loses that entry.
    proof fn lemma_vacated(before: Self, after: Self, h: SlotHandle, key: K)
        requires
            before.wf(),
            before.holds(h, key),
            after.entry_at(h) is None,
            forall|g: SlotHandle|
                g != h ==> #[trigger] after.entry_at(g) == before.entry_at(g) && (before.entry_at(
                    g,
                ) is Some ==> after.tag_at(g) == before.tag_at(g)),
        ensures
            forall|h1: SlotHandle, h2: SlotHandle, k: K|
                #![trigger after.holds(h1, k), after.holds(h2, k)]
                after.holds(h1, k) && after.holds(h2, k) ==> h1 == h2,
            after.tagged() == before.tagged().remove(key),
    {
        assert forall|h1: SlotHandle, h2: SlotHandle, k: K|
            #![trigger after.holds(h1, k), after.holds(h2, k)]
            after.holds(h1, k) && after.holds(h2, k) implies h1 == h2 by {
            assert(before.holds(h1, k));
            assert(before.holds(h2, k));
        }
        assert forall|k: K| after.contains_key(k) <==> (k != key && before.contains_key(k)) by {
            if after.contains_key(k) {
                let g = after.handle_of(k);
                assert(before.holds(g, k));
                if k == key {
                    before.lemma_unique(g, h, key);
                }
            }
            if before.contains_key(k) && k != key {
                let g = before.handle_of(k);
                assert(after.holds(g, k));
            }
        }
        assert forall|k: K| #[trigger] after.tagged().contains_key(k) implies after.tagged()[k]
            == before.tagged()[k] by {
            let g = after.handle_of(k);
            assert(before.holds(g, k));
            assert(before.handle_of(k) == g);
        }
        assert(after.tagged() =~= before.tagged().remove(key));
    }

    /// The handle that a slot has once the link `j` has left the chain.
    pub open spec fn renumbered(g: SlotHandle, j: usize) -> SlotHandle {
        if g.link is Some && g.link.unwrap() > j {
            SlotHandle { link: Some((g.link.unwrap() - 1) as usize), index: g.index }
        } else {
            g
        }
    }

    /// The handle that a slot had before the link `j` left the chain.
    pub open spec fn numbered_before(g: SlotHandle, j: usize) -> SlotHandle {
        if g.link is Some && g.link.unwrap() >= j {
            SlotHandle { link: Some((g.link.unwrap() + 1) as usize), index: g.index }
        } else {
            g
        }
    }

    /// An empty link left the chain: the slots of the links nearer to the head get the next
    /// lower link number, and the map stays as it was.
    proof fn lemma_unlinked(before: Self, after: Self, j: usize)
        requires
            forall|h1: SlotHandle, h2: SlotHandle, k: K|
                #![trigger before.holds(h1, k), before.holds(h2, k)]
                before.holds(h1, k) && before.holds(h2, k) ==> h1 == h2,
            j < before.overflow@.len() <= usize::MAX,
            forall|i: int| 0 <= i < LINK_SIZE ==> before.overflow@[j as int].entry(i) is None,
            after.primary == before.primary,
            after.overflow@ == before.overflow@.remove(j as int),
        ensures
            forall|g: SlotHandle|
                #[trigger] before.entry_at(g) is Some ==> {
                    &&& g.link != Some(j)
                    &&& after.entry_at(Self::renumbered(g, j)) == before.entry_at(g)
                    &&& after.tag_at(Self::renumbered(g, j)) == before.tag_at(g)
                },
            forall|g: SlotHandle|
                #[trigger] after.entry_at(g) is Some ==> {
                    &&& before.entry_at(Self::numbered_before(g, j)) == after.entry_at(g)
                    &&& before.tag_at(Self::numbered_before(g, j)) == after.tag_at(g)
                    &&& Self::renumbered(Self::numbered_before(g, j), j) == g
                },
            forall|h1: SlotHandle, h2: SlotHandle, k: K|
                #![trigger after.holds(h1, k), after.holds(h2, k)]
                after.holds(h1, k) && after.holds(h2, k) ==> h1 == h2,
            after.tagged() == before.tagged(),
    {
        assert forall|g: SlotHandle| #[trigger] before.entry_at(g) is Some implies {
            &&& g.link != Some(j)
            &&& after.entry_at(Self::renumbered(g, j)) == before.entry_at(g)
            &&& after.tag_at(Self::renumbered(g, j)) == before.tag_at(g)
        } by {
            if g.link is Some {
                let l = g.link.unwrap();
                assert(l < before.overflow@.len());
                if l > j {
                    assert(after.overflow@[l - 1] == before.overflow@[l as int]);
                } else if l < j {
                    assert(after.overflow@[l as int] == before.overflow@[l as int]);
                }
            }
        }
        assert forall|g: SlotHandle| #[trigger] after.entry_at(g) is Some implies {
            &&& before.entry_at(Self::numbered_before(g, j)) == after.entry_at(g)
            &&& before.tag_at(Self::numbered_before(g, j)) == after.tag_at(g)
            &&& Self::renumbered(Self::numbered_before(g, j), j) == g
        } by {
            if g.link is Some {
                let l = g.link.unwrap();
                assert(l < after.overflow@.len());
                if l >= j {
                    assert(after.overflow@[l as int] == before.overflow@[l + 1]);
                } else {
                    assert(after.overflow@[l as int] == before.overflow@[l as int]);
                }
            }
        }
        assert forall|h1: SlotHandle, h2: SlotHandle, k: K|
            #![trigger after.holds(h1, k), after.holds(h2, k)]
            after.holds(h1, k) && after.holds(h2, k) implies h1 == h2 by {
            assert(before.holds(Self::numbered_before(h1, j), k));
            assert(before.holds(Self::numbered_before(h2, j), k));
        }
        assert forall|k: K| after.contains_key(k) <==> before.contains_key(k) by {
            if after.contains_key(k) {
                let g = after.handle_of(k);
                assert(before.holds(Self::numbered_before(g, j), k));
            }
            if before.contains_key(k) {
                let g = before.handle_of(k);
                assert(after.holds(Self::renumbered(g, j), k));
            }
        }
        assert forall|k: K| #[trigger] after.tagged().contains_key(k) implies after.tagged()[k]
            == before.tagged()[k] by {
            let g = after.handle_of(k);
            assert(before.holds(Self::numbered_before(g, j), k));
            assert(before.handle_of(k) == Self::numbered_before(g, j));
        }
        assert(after.tagged() =~= before.tagged());
    }

    /// Emptying the slot `h` leaves the keys from a later slot `g` on as they were.
    proof fn lemma_vacated_keys(before: Self, after: Self, h: SlotHandle, g: SlotHandle)
        requires
            before.entry_at(h) is Some,
            after.entry_at(h) is None,
            after.overflow@.len() == before.overflow@.len(),
            forall|g: SlotHandle| g != h ==> #[trigger] after.entry_at(g) == before.entry_at(g),
            before.rank(g) > before.rank(h),
        ensures
            after.keys_from(after.rank(g)) == before.keys_from(before.rank(g)),
    {
        let r = before.rank(g);
        assert forall|k: K| after.keys_from(r).contains(k) <==> before.keys_from(r).contains(
            k,
        ) by {
            if after.keys_from(r).contains(k) {
                let g2 = choose|g2: SlotHandle| after.holds(g2, k) && after.rank(g2) >= r;
                assert(before.holds(g2, k) && before.rank(g2) >= r);
            }
            if before.keys_from(r).contains(k) {
                let g2 = choose|g2: SlotHandle| before.holds(g2, k) && before.rank(g2) >= r;
                assert(after.holds(g2, k) && after.rank(g2) >= r);
            }
        }
        assert(after.keys_from(r) =~= before.keys_from(r));
    }

    /// Taking the empty link `j` out of the chain leaves the keys from a slot `g` of a later
    /// link on as they were.
    proof fn lemma_unlinked_keys(before: Self, after: Self, j: usize, g: SlotHandle)
        requires
            forall|h1: SlotHandle, h2: SlotHandle, k: K|
                #![trigger before.holds(h1, k), before.holds(h2, k)]
                before.holds(h1, k) && before.holds(h2, k) ==> h1 == h2,
            j < before.overflow@.len() <= usize::MAX,
            forall|i: int| 0 <= i < LINK_SIZE ==> before.overflow@[j as int].entry(i) is None,
            after.primary == before.primary,
            after.overflow@ == before.overflow@.remove(j as int),
            before.valid_handle(g),
            g.link is Some,
            g.link.unwrap() < j,
        ensures
            after.keys_from(after.rank(g)) == before.keys_from(before.rank(g)),
    {
        Self::lemma_unlinked(before, after, j);
        let ra = after.rank(g);
        let rb = before.rank(g);
        assert(rb == ra + LINK_SIZE);
        assert forall|k: K| after.keys_from(ra).contains(k) <==> before.keys_from(rb).contains(
            k,
        ) by {
            if after.keys_from(ra).contains(k) {
                let g2 = choose|g2: SlotHandle| after.holds(g2, k) && after.rank(g2) >= ra;
                let g3 = Self::numbered_before(g2, j);
                assert(after.entry_at(g2) is Some);
                assert(before.holds(g3, k));
                assert(before.rank(g3) >= rb);
            }
            if before.keys_from(rb).contains(k) {
                let g2 = choose|g2: SlotHandle| before.holds(g2, k) && before.rank(g2) >= rb;
                let g3 = Self::renumbered(g2, j);
                assert(before.entry_at(g2) is Some);
                assert(after.holds(g3, k));
                assert(after.rank(g3) >= ra);
            }
        }
        assert(after.keys_from(ra) =~= before.keys_from(rb));
    }

    /// Takes the entry out of the slot `h`. A link of the chain that holds nothing after that
    /// leaves the chain. The occupied slots that come after `h` in the order of traversal keep
    /// their handles, and what follows each of them.
    pub fn remove(&mut self, h: SlotHandle) -> (entry: (K, V))
        requires
            old(self).wf(),
            old(self).entry_at(h) is Some,
        ensures
            Self::removed(*old(self), *final(self), h, entry),
    {
        let ghost before = *self;
        match h.link {
            None => {
                let entry = self.primary.take(h.index);
                proof {
                    assert(before.holds(h, entry.0));
                    Self::lemma_vacated(before, *self, h, entry.0);
                    assert forall|g: SlotHandle|
                        before.rank(g) > before.rank(h) && #[trigger] before.entry_at(
                            g,
                        ) is Some implies {
                        &&& self.entry_at(g) == before.entry_at(g)
                        &&& self.keys_from(self.rank(g)) == before.keys_from(before.rank(g))
                    } by {
                        Self::lemma_vacated_keys(before, *self, h, g);
                    }
                    self.primary.lemma_len();
                }
                let ghost vacated = *self;
                self.metadata = self.metadata.with_occupancy(self.primary.num_entries());
                proof {
                    Self::lemma_same_slots(vacated, *self);
                }
                entry
            },
            Some(j) => {
                let entry = self.overflow[j].take(h.index);
                let ghost vacated = *self;
                proof {
                    Self::lemma_chain_update(before.overflow@, j as int, self.overflow@[j as int]);
                    assert(self.overflow@ =~= before.overflow@.update(j as int, self.overflow@[j as int]));
                    assert(before.holds(h, entry.0));
                    assert forall|g: SlotHandle| g != h implies #[trigger] self.entry_at(g)
                        == before.entry_at(g) && (before.entry_at(g) is Some ==> self.tag_at(g)
                        == before.tag_at(g)) by {
                        if g.link is Some && g.link != Some(j) && g.link.unwrap()
                            < before.overflow@.len() {
                            assert(self.overflow@[g.link.unwrap() as int]
                                == before.overflow@[g.link.unwrap() as int]);
                        }
                    }
                    Self::lemma_vacated(before, *self, h, entry.0);
                }
                proof {
                    assert(self.overflow.len() == self.overflow@.len());
                }
                if self.overflow[j].is_empty() {
                    self.overflow.remove(j);
                    proof {
                        Self::lemma_chain_remove(vacated.overflow@, j as int);
                        assert forall|l: int| 0 <= l < self.overflow@.len() implies {
                            &&& (#[trigger] self.overflow@[l]).wf()
                            &&& self.overflow@[l].size() == LINK_SIZE
                            &&& self.overflow@[l].len() > 0
                        } by {
                            if l >= j {
                                assert(self.overflow@[l] == before.overflow@[l + 1]);
                            } else {
                                assert(self.overflow@[l] == before.overflow@[l]);
                            }
                        }
                        Self::lemma_unlinked(vacated, *self, j);
                        assert forall|g: SlotHandle|
                            before.rank(g) > before.rank(h) && #[trigger] before.entry_at(
                                g,
                            ) is Some implies {
                            &&& self.entry_at(g) == before.entry_at(g)
                            &&& self.keys_from(self.rank(g)) == before.keys_from(before.rank(g))
                        } by {
                            assert(g != h);
                            assert(vacated.entry_at(g) is Some);
                            assert(Self::renumbered(g, j) == g);
                            Self::lemma_vacated_keys(before, vacated, h, g);
                            Self::lemma_unlinked_keys(vacated, *self, j, g);
                        }
                    }
                } else {
                    proof {
                        self.overflow@[j as int].lemma_len();
                        assert forall|l: int| 0 <= l < self.overflow@.len() implies {
                            &&& (#[trigger] self.overflow@[l]).wf()
                            &&& self.overflow@[l].size() == LINK_SIZE
                            &&& self.overflow@[l].len() > 0
                        } by {
                            if l != j {
                                assert(self.overflow@[l] == before.overflow@[l]);
                            }
                        }
                        assert forall|g: SlotHandle|
                            before.rank(g) > before.rank(h) && #[trigger] before.entry_at(
                                g,
                            ) is Some implies {
                            &&& self.entry_at(g) == before.entry_at(g)
                            &&& self.keys_from(self.rank(g)) == before.keys_from(before.rank(g))
                        } by {
                            Self::lemma_vacated_keys(before, *self, h, g);
                        }
                    }
                }
                let ghost settled = *self;
                let linked = self.metadata.num_linked_entries();
                if linked < OVERFLOW_LEN_MAX as usize {
                    self.metadata = self.metadata.with_overflow_len(linked - 1);
                } else {
                    let recounted = self.count_chain();
                    self.metadata = self.metadata.with_overflow_len(recounted);
                }
                proof {
                    Self::lemma_same_slots(settled, *self);
                }
                entry
            },
        }
    }

    /// The first occupied slot, in the order of traversal, among those of the block `link`
    /// from the index `from` on and those of the blocks after it.
    fn scan(&self, link: Option<usize>, from: usize) -> (found: Option<SlotHandle>)
        requires
            self.wf(),
            match link {
                None => from <= ARRAY_SIZE,
                Some(j) => j < self.num_links() && from <= LINK_SIZE,
            },
        ensures
            match found {
                Some(g) => {
                    &&& self.entry_at(g) is Some
                    &&& self.rank(g) >= self.rank(SlotHandle { link, index: from })
                    &&& forall|other: SlotHandle|
                        #[trigger] self.entry_at(other) is Some && self.rank(other) >= self.rank(
                            SlotHandle { link, index: from },
                        ) ==> self.rank(other) >= self.rank(g)
                },
                None => forall|other: SlotHandle|
                    #[trigger] self.entry_at(other) is Some ==> self.rank(other) < self.rank(
                        SlotHandle { link, index: from },
                    ),
            },
    {
        let ghost start = self.rank(SlotHandle { link, index: from });
        let mut j: usize = self.overflow.len();
        let mut at = from;
        match link {
            None => {
                if let Some(i) = self.primary.next_occupied(at) {
                    return Some(SlotHandle { link: None, index: i });
                }
                at = 0;
            },
            Some(l) => {
                j = l + 1;
            },
        }
        while j > 0
            invariant
                self.wf(),
                start == self.rank(SlotHandle { link, index: from }),
                j <= self.overflow@.len(),
                at <= LINK_SIZE,
                at > 0 ==> link == Some((j - 1) as usize),
                start <= ARRAY_SIZE + LINK_SIZE * (self.overflow@.len() - j) + at,
                forall|other: SlotHandle|
                    #[trigger] self.entry_at(other) is Some && self.rank(other) >= start
                        ==> self.rank(other) >= ARRAY_SIZE + LINK_SIZE * (self.overflow@.len() - j)
                        + at,
            decreases j,
        {
            j -= 1;
            if let Some(i) = self.overflow[j].next_occupied(at) {
                return Some(SlotHandle { link: Some(j), index: i });
            }
            at = 0;
        }
        None
    }

    /// The first occupied slot in the order of traversal.
    pub fn first(&self) -> (found: Option<SlotHandle>)
        requires
            self.wf(),
        ensures
            match found {
                Some(g) => {
                    &&& self.entry_at(g) is Some
                    &&& forall|other: SlotHandle|
                        #[trigger] self.entry_at(other) is Some ==> self.rank(other) >= self.rank(g)
                },
                None => {
                    &&& forall|other: SlotHandle| self.entry_at(other) is None
                    &&& self.tagged() == Map::<K, (u16, V)>::empty()
                    &&& self.len() == 0
                },
            },
    {
        let found = self.scan(None, 0);
        proof {
            if found is None {
                assert forall|other: SlotHandle| self.entry_at(other) is None by {
                    if self.entry_at(other) is Some {
                        self.lemma_rank(other, other);
                    }
                }
                assert(self.tagged() =~= Map::<K, (u16, V)>::empty());
                if self.primary.len() != 0 || self.overflow@.len() != 0 {
                    let h = self.lemma_not_empty();
                }
                assert(self.overflow@ =~= Seq::empty());
            }
        }
        found
    }

    /// The first occupied slot after `h` in the order of traversal.
    pub fn next(&self, h: SlotHandle) -> (found: Option<SlotHandle>)
        requires
            self.wf(),
            self.valid_handle(h),
        ensures
            match found {
                Some(g) => {
                    &&& self.entry_at(g) is Some
                    &&& self.rank(g) > self.rank(h)
                    &&& forall|other: SlotHandle|
                        #[trigger] self.entry_at(other) is Some && self.rank(other) > self.rank(h)
                            ==> self.rank(other) >= self.rank(g)
                },
                None => forall|other: SlotHandle|
                    #[trigger] self.entry_at(other) is Some ==> self.rank(other) <= self.rank(h),
            },
    {
        self.scan(h.link, h.index + 1)
    }

    /// The keys from an occupied slot on are its own key and those after it.
    pub proof fn lemma_keys_from(&self, h: SlotHandle)
        requires
            self.wf(),
            self.entry_at(h) is Some,
        ensures
            self.keys_from(self.rank(h)) == self.keys_from(self.rank(h) + 1).insert(
                self.entry_at(h).unwrap().0,
            ),
            !self.keys_from(self.rank(h) + 1).contains(self.entry_at(h).unwrap().0),
    {
        let key = self.entry_at(h).unwrap().0;
        let r = self.rank(h);
        assert(self.holds(h, key));
        if self.keys_from(r + 1).contains(key) {
            let g = choose|g: SlotHandle| self.holds(g, key) && self.rank(g) >= r + 1;
            self.lemma_unique(g, h, key);
        }
        assert forall|k: K| self.keys_from(r).contains(k) <==> self.keys_from(r + 1).insert(
            key,
        ).contains(k) by {
            if self.keys_from(r).contains(k) && k != key {
                let g = choose|g: SlotHandle| self.holds(g, k) && self.rank(g) >= r;
                if self.rank(g) == r {
                    self.lemma_rank(g, h);
                }
                assert(self.holds(g, k) && self.rank(g) >= r + 1);
            }
            if self.keys_from(r + 1).contains(k) {
                let g = choose|g: SlotHandle| self.holds(g, k) && self.rank(g) >= r + 1;
                assert(self.holds(g, k) && self.rank(g) >= r);
            }
        }
        assert(self.keys_from(r) =~= self.keys_from(r + 1).insert(key));
    }

    /// The keys from the first rank on are all the keys of the cell.
    pub proof fn lemma_keys_from_start(&self)
        ensures
            self.keys_from(0) == self.tagged().dom(),
    {
        assert forall|k: K| self.keys_from(0).contains(k) <==> self.tagged().dom().contains(
            k,
        ) by {
            if self.keys_from(0).contains(k) {
                let g = choose|g: SlotHandle| self.holds(g, k) && self.rank(g) >= 0;
                assert(self.holds(g, k));
            }
            if self.contains_key(k) {
                let g = self.handle_of(k);
                self.lemma_rank(g, g);
                assert(self.holds(g, k) && self.rank(g) >= 0);
            }
        }
        assert(self.keys_from(0) =~= self.tagged().dom());
    }

    /// The entry in the occupied slot `h`.
    pub fn get(&self, h: SlotHandle) -> (entry: (&K, &V))
        requires
            self.wf(),
            self.entry_at(h) is Some,
        ensures
            self.entry_at(h) == Some((*entry.0, *entry.1)),
    {
        match h.link {
            None => self.primary.get(h.index),
            Some(j) => self.overflow[j].get(h.index),
        }
    }

    /// The cell `after` is the cell `before` but for the value in the slot `h`.
    spec fn lent(before: Self, after: Self, h: SlotHandle, value: V) -> bool {
        &&& after.metadata == before.metadata
        &&& match h.link {
            None => {
                &&& after.overflow@ == before.overflow@
                &&& EntryBlock::revalued(before.primary, after.primary, h.index as int, value)
            },
            Some(j) => {
                &&& after.primary == before.primary
                &&& after.overflow@ == before.overflow@.update(j as int, after.overflow@[j as int])
                &&& EntryBlock::revalued(
                    before.overflow@[j as int],
                    after.overflow@[j as int],
                    h.index as int,
                    value,
                )
            },
        }
    }

    proof fn lemma_lent(before: Self, after: Self, h: SlotHandle, value: V)
        requires
            before.wf(),
            before.entry_at(h) is Some,
            Self::lent(before, after, h, value),
        ensures
            Self::revalued(before, after, h, value, before.entry_at(h).unwrap().1),
    {
        let key = before.entry_at(h).unwrap().0;
        let tag = before.tag_at(h);
        if h.link is Some {
            let j = h.link.unwrap();
            Self::lemma_chain_update(before.overflow@, j as int, after.overflow@[j as int]);
            after.overflow@[j as int].lemma_len();
            before.overflow@[j as int].lemma_len();
            assert forall|l: int| 0 <= l < after.overflow@.len() implies {
                &&& (#[trigger] after.overflow@[l]).wf()
                &&& after.overflow@[l].size() == LINK_SIZE
                &&& after.overflow@[l].len() > 0
            } by {
                if l != j {
                    assert(after.overflow@[l] == before.overflow@[l]);
                }
            }
        }
        assert forall|g: SlotHandle| g != h implies #[trigger] after.entry_at(g)
            == before.entry_at(g) && (before.entry_at(g) is Some ==> after.tag_at(g)
            == before.tag_at(g)) by {
            if g.link is Some && g.link != h.link && g.link.unwrap() < before.overflow@.len() {
                assert(after.overflow@[g.link.unwrap() as int]
                    == before.overflow@[g.link.unwrap() as int]);
            }
        }
        Self::lemma_revalued(before, after, h, key, tag, value);
    }

    /// The entry in the occupied slot `h`, with the value open to change.
    pub fn get_mut(&mut self, h: SlotHandle) -> (entry: (&K, &mut V))
        requires
            old(self).wf(),
            old(self).entry_at(h) is Some,
        ensures
            old(self).entry_at(h) == Some((*entry.0, *entry.1)),
            Self::revalued(*old(self), *final(self), h, *final(entry.1), *entry.1),
    {
        let ghost before = *self;
        proof {
            assert forall|after: Self, value: V, earlier: V|
                Self::lent(before, after, h, value) && earlier == before.entry_at(
                    h,
                ).unwrap().1 implies #[trigger] Self::revalued(before, after, h, value, earlier) by {
                Self::lemma_lent(before, after, h, value);
            }
        }
        match h.link {
            None => self.primary.get_mut(h.index),
            Some(j) => self.overflow[j].get_mut(h.index),
        }
    }

    /// Replaces the value in the occupied slot `h` and hands the earlier one back.
    pub fn replace_value(&mut self, h: SlotHandle, value: V) -> (earlier: V)
        requires
            old(self).wf(),
            old(self).entry_at(h) is Some,
        ensures
            Self::revalued(*old(self), *final(self), h, value, earlier),
    {
        let ghost before = *self;
        let earlier = match h.link {
            None => self.primary.replace_value(h.index, value),
            Some(j) => {
                let earlier = self.overflow[j].replace_value(h.index, value);
                proof {
                    Self::lemma_chain_update(before.overflow@, j as int, self.overflow@[j as int]);
                    assert(self.overflow@ =~= before.overflow@.update(j as int, self.overflow@[j as int]));
                    self.overflow@[j as int].lemma_len();
                    before.overflow@[j as int].lemma_len();
                    assert forall|l: int| 0 <= l < self.overflow@.len() implies {
                        &&& (#[trigger] self.overflow@[l]).wf()
                        &&& self.overflow@[l].size() == LINK_SIZE
                        &&& self.overflow@[l].len() > 0
                    } by {
                        if l != j {
                            assert(self.overflow@[l] == before.overflow@[l]);
                        }
                    }
                }
                earlier
            },
        };
        proof {
            let key = before.entry_at(h).unwrap().0;
            let tag = before.tag_at(h);
            assert forall|g: SlotHandle| g != h implies #[trigger] self.entry_at(g)
                == before.entry_at(g) && (before.entry_at(g) is Some ==> self.tag_at(g)
                == before.tag_at(g)) by {
                if g.link is Some && g.link != h.link && g.link.unwrap() < before.overflow@.len() {
                    assert(self.overflow@[g.link.unwrap() as int]
                        == before.overflow@[g.link.unwrap() as int]);
                }
            }
            Self::lemma_revalued(before, *self, h, key, tag, value);
        }
        earlier
    }

    /// The value in one slot was replaced and nothing else changed.
    proof fn lemma_revalued(before: Self, after: Self, h: SlotHandle, key: K, tag: u16, value: V)
        requires
            before.wf(),
            before.holds(h, key),
            before.tag_at(h) == tag,
            after.entry_at(h) == Some((key, value)),
            after.tag_at(h) == tag,
            forall|g: SlotHandle|
                g != h ==> #[trigger] after.entry_at(g) == before.entry_at(g) && (before.entry_at(
                    g,
                ) is Some ==> after.tag_at(g) == before.tag_at(g)),
        ensures
            forall|h1: SlotHandle, h2: SlotHandle, k: K|
                #![trigger after.holds(h1, k), after.holds(h2, k)]
                after.holds(h1, k) && after.holds(h2, k) ==> h1 == h2,
            after.tagged() == before.tagged().insert(key, (tag, value)),
    {
        assert forall|h1: SlotHandle, h2: SlotHandle, k: K|
            #![trigger after.holds(h1, k), after.holds(h2, k)]
            after.holds(h1, k) && after.holds(h2, k) implies h1 == h2 by {
            assert(before.holds(h1, k));
            assert(before.holds(h2, k));
        }
        assert(after.holds(h, key));
        assert forall|k: K| after.contains_key(k) <==> (k == key || before.contains_key(k)) by {
            if after.contains_key(k) {
                let g = after.handle_of(k);
                assert(before.holds(g, k));
            }
            if before.contains_key(k) {
                let g = before.handle_of(k);
                assert(after.holds(g, k));
            }
        }
        assert forall|k: K| #[trigger] after.tagged().contains_key(k) implies after.tagged()[k]
            == before.tagged().insert(key, (tag, value))[k] by {
            let g = after.handle_of(k);
            assert(before.holds(g, k));
            assert(before.handle_of(k) == g);
        }
        assert(after.tagged() =~= before.tagged().insert(key, (tag, value)));
    }

    /// Marks an empty cell as drained for good.
    pub fn kill(&mut self)
        requires
            old(self).wf(),
            old(self).tagged() == Map::<K, (u16, V)>::empty(),
        ensures
            final(self).wf(),
            final(self).is_killed(),
            final(self).tagged() == Map::<K, (u16, V)>::empty(),
            final(self).num_links() == 0,
            final(self).len() == 0,
    {
        let empty = self.empty();
        assert(empty);
        proof {
            self.primary.lemma_len();
            assert forall|i: int| 0 <= i < self.primary.size() implies self.primary.entry(
                i,
            ) is None by {
                assert(self.entry_at(SlotHandle { link: None, index: i as usize }) is None);
            }
        }
        let ghost emptied = *self;
        self.metadata = self.metadata.kill();
        proof {
            Self::lemma_same_slots(emptied, *self);
        }
    }

    /// The number of entries in the primary slots and the number in the overflow chain, as
    /// the word of the cell counts them: the latter stays at the largest number that the word
    /// holds.
    pub fn size(&self) -> (counts: (usize, usize))
        requires
            self.wf(),
        ensures
            counts.0 == self.primary_len(),
            counts.0 <= ARRAY_SIZE,
            counts.1 == Metadata::saturated(self.overflow_len()),
            counts.1 <= OVERFLOW_LEN_MAX,
    {
        proof {
            self.primary.lemma_len();
        }
        (self.metadata.num_entries(), self.metadata.num_linked_entries())
    }

    /// The number of entries in the overflow chain, counted link by link, up to the largest
    /// number that the word of the cell holds.
    fn count_chain(&self) -> (n: usize)
        requires
            forall|j: int| 0 <= j < self.overflow@.len() ==> (#[trigger] self.overflow@[j]).wf(),
        ensures
            n == Metadata::saturated(Self::chain_len(self.overflow@)),
    {
        let mut linked: usize = 0;
        let mut j: usize = 0;
        while j < self.overflow.len()
            invariant
                forall|j: int| 0 <= j < self.overflow@.len() ==> (#[trigger] self.overflow@[j]).wf(),
                j <= self.overflow@.len(),
                linked == Metadata::saturated(Self::chain_len(self.overflow@.take(j as int))),
            decreases self.overflow@.len() - j,
        {
            proof {
                assert(self.overflow@.take(j + 1).drop_last() =~= self.overflow@.take(j as int));
                self.overflow@[j as int].lemma_len();
            }
            let in_link = self.overflow[j].num_entries();
            linked = if in_link >= OVERFLOW_LEN_MAX as usize - linked {
                OVERFLOW_LEN_MAX as usize
            } else {
                linked + in_link
            };
            j += 1;
        }
        proof {
            assert(self.overflow@.take(j as int) =~= self.overflow@);
        }
        linked
    }

    /// Cells with the same slots hold the same, whatever their words say.
    proof fn lemma_same_slots(before: Self, after: Self)
        requires
            after.primary == before.primary,
            after.overflow == before.overflow,
            forall|h1: SlotHandle, h2: SlotHandle, k: K|
                #![trigger before.holds(h1, k), before.holds(h2, k)]
                before.holds(h1, k) && before.holds(h2, k) ==> h1 == h2,
        ensures
            forall|h: SlotHandle| #[trigger] after.entry_at(h) == before.entry_at(h),
            forall|h: SlotHandle| #[trigger] after.tag_at(h) == before.tag_at(h),
            forall|h: SlotHandle| #[trigger] after.rank(h) == before.rank(h),
            forall|h: SlotHandle| #[trigger] after.valid_handle(h) == before.valid_handle(h),
            forall|r: int| #[trigger] after.keys_from(r) == before.keys_from(r),
            after.tagged() == before.tagged(),
            after.len() == before.len(),
            after.num_links() == before.num_links(),
            forall|h1: SlotHandle, h2: SlotHandle, k: K|
                #![trigger after.holds(h1, k), after.holds(h2, k)]
                after.holds(h1, k) && after.holds(h2, k) ==> h1 == h2,
    {
        assert forall|h: SlotHandle, k: K| after.holds(h, k) == before.holds(h, k) by {}
        assert forall|r: int| #[trigger] after.keys_from(r) == before.keys_from(r) by {
            assert(after.keys_from(r) =~= before.keys_from(r));
        }
        assert forall|h1: SlotHandle, h2: SlotHandle, k: K|
            #![trigger after.holds(h1, k), after.holds(h2, k)]
            after.holds(h1, k) && after.holds(h2, k) implies h1 == h2 by {
            assert(before.holds(h1, k) && before.holds(h2, k));
        }
        assert forall|k: K| after.contains_key(k) == before.contains_key(k) by {
            if before.contains_key(k) {
                assert(after.holds(before.handle_of(k), k));
            }
            if after.contains_key(k) {
                assert(before.holds(after.handle_of(k), k));
            }
        }
        assert forall|k: K| #[trigger] after.tagged().contains_key(k) implies after.tagged()[k]
            == before.tagged()[k] by {
            let g = after.handle_of(k);
            assert(before.holds(g, k));
            assert(before.handle_of(k) == g);
        }
        assert(after.tagged() =~= before.tagged());
    }
}

} // verus!
