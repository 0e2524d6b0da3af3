use crate::counting::{count_if, lemma_count_full, lemma_count_update, lemma_count_zero};
use vstd::laws_eq::obeys_concrete_eq;
use vstd::prelude::*;
use vstd::std_specs::cmp::PartialEqSpec;

verus! {

/// A block of slots of a fixed size. A cell's primary storage is one block, and each link of
/// its overflow chain is one more. The tags are stored apart from the entries, so that a
/// search reads the keys only where the tag matches.
pub struct EntryBlock<K, V> {
    tags: Vec<u16>,
    entries: Vec<Option<(K, V)>>,
    num_entries: usize,
}

pub open spec fn is_occupied<K, V>(slot: Option<(K, V)>) -> bool {
    slot is Some
}

impl<K, V> EntryBlock<K, V> {
    /// The number of slots.
    pub closed spec fn size(&self) -> nat {
        self.entries@.len()
    }

    /// What slot `i` holds.
    pub closed spec fn entry(&self, i: int) -> Option<(K, V)> {
        self.entries@[i]
    }

    /// The tag stored for slot `i`; it means something only while the slot is occupied.
    pub closed spec fn tag(&self, i: int) -> u16 {
        self.tags@[i]
    }

    /// The number of occupied slots.
    pub closed spec fn len(&self) -> nat {
        count_if(self.entries@, |slot: Option<(K, V)>| is_occupied(slot))
    }

    pub closed spec fn wf(&self) -> bool {
        &&& self.tags@.len() == self.entries@.len()
        &&& self.num_entries == self.len()
    }

    /// Slot `i` holds `key` under `tag`.
    pub open spec fn matches_at(&self, i: int, key: K, tag: u16) -> bool {
        &&& self.tag(i) == tag
        &&& self.entry(i) matches Some(e)
        &&& e.0 == key
    }

    pub proof fn lemma_len(&self)
        requires
            self.wf(),
        ensures
            self.len() <= self.size(),
            self.len() == 0 <==> (forall|i: int| 0 <= i < self.size() ==> self.entry(i) is None),
            self.len() == self.size() <==> (forall|i: int|
                0 <= i < self.size() ==> self.entry(i) is Some),
    {
        let p = |slot: Option<(K, V)>| is_occupied(slot);
        crate::counting::lemma_count_bounds(self.entries@, p);
        lemma_count_zero(self.entries@, p);
        lemma_count_full(self.entries@, p);
        if self.len() == 0 {
            assert forall|i: int| 0 <= i < self.size() implies self.entry(i) is None by {
                assert(!p(self.entries@[i]));
            }
        }
        if forall|i: int| 0 <= i < self.size() ==> self.entry(i) is None {
            assert forall|i: int| 0 <= i < self.entries@.len() implies !p(
                #[trigger] self.entries@[i],
            ) by {
                assert(self.entry(i) is None);
            }
        }
        if self.len() == self.size() {
            assert forall|i: int| 0 <= i < self.size() implies self.entry(i) is Some by {
                assert(p(self.entries@[i]));
            }
        }
        if forall|i: int| 0 <= i < self.size() ==> self.entry(i) is Some {
            assert forall|i: int| 0 <= i < self.entries@.len() implies p(
                #[trigger] self.entries@[i],
            ) by {
                assert(self.entry(i) is Some);
            }
        }
    }

    /// The number of occupied slots is the sum of one for each of them.
    pub proof fn lemma_len_is_sum(&self, g: spec_fn(int) -> nat)
        requires
            forall|i: int|
                0 <= i < self.size() ==> #[trigger] g(i) == (if self.entry(i) is Some {
                    1nat
                } else {
                    0nat
                }),
        ensures
            self.len() == crate::counting::sum_below(g, self.size()),
    {
        let p = |slot: Option<(K, V)>| is_occupied(slot);
        assert forall|i: int| 0 <= i < self.entries@.len() implies #[trigger] g(i) == (if p(
            self.entries@[i],
        ) {
            1nat
        } else {
            0nat
        }) by {
            assert(self.entry(i) == self.entries@[i]);
        }
        crate::counting::lemma_count_is_sum(self.entries@, p, g);
    }

    /// A block of `size` free slots.
    pub fn new(size: usize) -> (block: Self)
        ensures
            block.wf(),
            block.size() == size,
            block.len() == 0,
            forall|i: int| 0 <= i < size ==> block.entry(i) is None,
    {
        let mut tags: Vec<u16> = Vec::new();
        let mut entries: Vec<Option<(K, V)>> = Vec::new();
        let mut i: usize = 0;
        while i < size
            invariant
                i <= size,
                tags@.len() == i,
                entries@.len() == i,
                forall|j: int| 0 <= j < i ==> entries@[j] is None,
            decreases size - i,
        {
            tags.push(0);
            entries.push(None);
            i += 1;
        }
        let block = EntryBlock { tags, entries, num_entries: 0 };
        proof {
            let p = |slot: Option<(K, V)>| is_occupied(slot);
            lemma_count_zero(block.entries@, p);
        }
        block
    }

    pub fn num_slots(&self) -> (n: usize)
        requires
            self.wf(),
        ensures
            n == self.size(),
    {
        self.entries.len()
    }

    pub fn num_entries(&self) -> (n: usize)
        requires
            self.wf(),
        ensures
            n == self.len(),
    {
        self.num_entries
    }

    pub fn is_empty(&self) -> (b: bool)
        requires
            self.wf(),
        ensures
            b <==> self.len() == 0,
            b <==> (forall|i: int| 0 <= i < self.size() ==> self.entry(i) is None),
    {
        proof {
            self.lemma_len();
        }
        self.num_entries == 0
    }

    pub fn is_full(&self) -> (b: bool)
        requires
            self.wf(),
        ensures
            b <==> self.len() == self.size(),
            b <==> (forall|i: int| 0 <= i < self.size() ==> self.entry(i) is Some),
    {
        proof {
            self.lemma_len();
        }
        self.num_entries == self.entries.len()
    }

    /// The first slot that holds `key` under `tag`. The key is compared only where the tag
    /// matches.
    pub fn search(&self, key: &K, tag: u16) -> (found: Option<usize>) where K: PartialEq
        requires
            self.wf(),
            obeys_concrete_eq::<K>(),
        ensures
            match found {
                Some(i) => {
                    &&& i < self.size()
                    &&& self.matches_at(i as int, *key, tag)
                    &&& forall|j: int| 0 <= j < i ==> !self.matches_at(j, *key, tag)
                },
                None => forall|j: int| 0 <= j < self.size() ==> !self.matches_at(j, *key, tag),
            },
    {
        proof {
            reveal(obeys_concrete_eq);
        }
        let n = self.entries.len();
        let mut i: usize = 0;
        while i < n
            invariant
                self.wf(),
                n == self.size(),
                i <= n,
                K::obeys_eq_spec(),
                forall|x: K, y: K| #[trigger] x.eq_spec(&y) <==> x == y,
                forall|j: int| 0 <= j < i ==> !self.matches_at(j, *key, tag),
            decreases n - i,
        {
            if self.tags[i] == tag {
                match &self.entries[i] {
                    Some(e) => {
                        if e.0 == *key {
                            return Some(i);
                        }
                    },
                    None => {},
                }
            }
            i += 1;
        }
        None
    }

    /// The first free slot.
    pub fn first_free(&self) -> (found: Option<usize>)
        requires
            self.wf(),
        ensures
            match found {
                Some(i) => {
                    &&& i < self.size()
                    &&& self.entry(i as int) is None
                    &&& forall|j: int| 0 <= j < i ==> self.entry(j) is Some
                },
                None => forall|j: int| 0 <= j < self.size() ==> self.entry(j) is Some,
            },
    {
        let n = self.entries.len();
        let mut i: usize = 0;
        while i < n
            invariant
                n == self.size(),
                i <= n,
                forall|j: int| 0 <= j < i ==> self.entry(j) is Some,
            decreases n - i,
        {
            if self.entries[i].is_none() {
                return Some(i);
            }
            i += 1;
        }
        None
    }

    /// The first occupied slot at or after `from`.
    pub fn next_occupied(&self, from: usize) -> (found: Option<usize>)
        requires
            self.wf(),
        ensures
            match found {
                Some(i) => {
                    &&& from <= i < self.size()
                    &&& self.entry(i as int) is Some
                    &&& forall|j: int| from <= j < i ==> self.entry(j) is None
                },
                None => forall|j: int| from <= j < self.size() ==> self.entry(j) is None,
            },
    {
        let n = self.entries.len();
        let mut i: usize = from;
        while i < n
            invariant
                n == self.size(),
                from <= i,
                forall|j: int| from <= j < i && j < n ==> self.entry(j) is None,
            decreases n - i,
        {
            if self.entries[i].is_some() {
                return Some(i);
            }
            i += 1;
        }
        None
    }

    /// Puts an entry into the free slot `i`.
    pub fn put(&mut self, i: usize, tag: u16, key: K, value: V)
        requires
            old(self).wf(),
            i < old(self).size(),
            old(self).entry(i as int) is None,
        ensures
            final(self).wf(),
            final(self).size() == old(self).size(),
            final(self).len() == old(self).len() + 1,
            final(self).entry(i as int) == Some((key, value)),
            final(self).tag(i as int) == tag,
            forall|j: int|
                0 <= j < old(self).size() && j != i ==> final(self).entry(j) == old(self).entry(j)
                    && final(self).tag(j) == old(self).tag(j),
    {
        let size = self.entries.len();
        proof {
            let p = |slot: Option<(K, V)>| is_occupied(slot);
            let filled = self.entries@.update(i as int, Some((key, value)));
            lemma_count_update(self.entries@, p, i as int, Some((key, value)));
            crate::counting::lemma_count_bounds(filled, p);
            assert(self.num_entries + 1 <= size);
        }
        self.tags.set(i, tag);
        self.entries.set(i, Some((key, value)));
        self.num_entries = self.num_entries + 1;
    }

    /// Takes the entry out of the occupied slot `i`.
    pub fn take(&mut self, i: usize) -> (entry: (K, V))
        requires
            old(self).wf(),
            i < old(self).size(),
            old(self).entry(i as int) is Some,
        ensures
            final(self).wf(),
            final(self).size() == old(self).size(),
            final(self).len() + 1 == old(self).len(),
            old(self).entry(i as int) == Some(entry),
            final(self).entry(i as int) is None,
            forall|j: int|
                0 <= j < old(self).size() && j != i ==> final(self).entry(j) == old(self).entry(j)
                    && final(self).tag(j) == old(self).tag(j),
    {
        proof {
            let p = |slot: Option<(K, V)>| is_occupied(slot);
            lemma_count_update(self.entries@, p, i as int, None);
        }
        let slot = self.entries[i].take();
        self.num_entries = self.num_entries - 1;
        slot.unwrap()
    }

    /// The entry in the occupied slot `i`.
    pub fn get(&self, i: usize) -> (entry: (&K, &V))
        requires
            self.wf(),
            i < self.size(),
            self.entry(i as int) is Some,
        ensures
            self.entry(i as int) == Some((*entry.0, *entry.1)),
    {
        match &self.entries[i] {
            Some(e) => (&e.0, &e.1),
            None => vstd::pervasive::unreached(),
        }
    }

    /// How a block changes where the value in the slot `i` becomes `value`: the slot keeps
    /// its key and its tag, and nothing else changes.
    pub open spec fn revalued(before: Self, after: Self, i: int, value: V) -> bool {
        &&& after.wf()
        &&& after.size() == before.size()
        &&& after.len() == before.len()
        &&& before.entry(i) matches Some(e) && after.entry(i) == Some((e.0, value))
        &&& forall|j: int|
            0 <= j < before.size() ==> after.tag(j) == before.tag(j) && (j != i ==> after.entry(j)
                == before.entry(j))
    }

    /// The entry in the occupied slot `i`, with the value open to change.
    pub fn get_mut(&mut self, i: usize) -> (entry: (&K, &mut V))
        requires
            old(self).wf(),
            i < old(self).size(),
            old(self).entry(i as int) is Some,
        ensures
            old(self).entry(i as int) == Some((*entry.0, *entry.1)),
            Self::revalued(*old(self), *final(self), i as int, *final(entry.1)),
    {
        let ghost before = *self;
        let entry = match &mut self.entries[i] {
            Some(e) => (&e.0, &mut e.1),
            None => vstd::pervasive::unreached(),
        };
        proof {
            let p = |slot: Option<(K, V)>| is_occupied(slot);
            lemma_count_update(
                before.entries@,
                p,
                i as int,
                Some((*entry.0, *final(entry.1))),
            );
        }
        entry
    }

    /// Replaces the value in the occupied slot `i` and hands the earlier one back.
    pub fn replace_value(&mut self, i: usize, value: V) -> (earlier: V)
        requires
            old(self).wf(),
            i < old(self).size(),
            old(self).entry(i as int) is Some,
        ensures
            final(self).wf(),
            final(self).size() == old(self).size(),
            final(self).len() == old(self).len(),
            old(self).entry(i as int) matches Some(e) && e.1 == earlier && final(self).entry(
                i as int,
            ) == Some((e.0, value)),
            forall|j: int|
                0 <= j < old(self).size() ==> final(self).tag(j) == old(self).tag(j) && (j != i
                    ==> final(self).entry(j) == old(self).entry(j)),
    {
        let tag = self.tags[i];
        let (key, earlier) = self.take(i);
        self.put(i, tag, key, value);
        earlier
    }
}

} // verus!
