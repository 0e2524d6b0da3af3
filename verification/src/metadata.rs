use vstd::prelude::*;

verus! {

/// The bit that says a writer holds the cell.
pub const LOCK: u32 = 1u32;

/// The bit that says the cell has been drained for good.
pub const KILLED: u32 = 2u32;

/// The bit that says a thread waits for the cell.
pub const WAITING: u32 = 4u32;

/// The largest number of entries in the primary slots that the word can hold.
pub const OCCUPANCY_MAX: u32 = 31u32;

/// The number at which the count of entries in the overflow chain stays.
pub const OVERFLOW_LEN_MAX: u32 = 0xff_ffffu32;

/// The state of a cell in one word: the lock bit, the mark of a drained cell, the bit for
/// waiting threads, the number of entries in the primary slots in the next five bits, and
/// in the upper 24 bits the number of entries in the overflow chain, which stays at the
/// largest number that fits.
#[derive(Clone, Copy, Debug, PartialEq, Eq)]
pub struct Metadata {
    pub word: u32,
}

impl Metadata {
    pub open spec fn is_locked(&self) -> bool {
        self.word & LOCK != 0
    }

    pub open spec fn is_killed(&self) -> bool {
        self.word & KILLED != 0
    }

    pub open spec fn is_waiting(&self) -> bool {
        self.word & WAITING != 0
    }

    /// The number of entries in the primary slots.
    pub open spec fn occupancy(&self) -> nat {
        ((self.word >> 3) & OCCUPANCY_MAX) as nat
    }

    /// The number of entries in the overflow chain, as far as the word counts.
    pub open spec fn overflow_len(&self) -> nat {
        (self.word >> 8) as nat
    }

    /// The count of entries in the overflow chain as the word holds it.
    pub open spec fn saturated(n: nat) -> nat {
        if n >= OVERFLOW_LEN_MAX {
            OVERFLOW_LEN_MAX as nat
        } else {
            n
        }
    }

    /// The word with the given flags and counts.
    pub open spec fn holds(
        &self,
        locked: bool,
        killed: bool,
        waiting: bool,
        occupancy: nat,
        overflow_len: nat,
    ) -> bool {
        &&& self.is_locked() == locked
        &&& self.is_killed() == killed
        &&& self.is_waiting() == waiting
        &&& self.occupancy() == occupancy
        &&& self.overflow_len() == overflow_len
    }

    /// The word of a cell that is free, not drained, and holds nothing.
    pub fn new() -> (metadata: Self)
        ensures
            metadata.holds(false, false, false, 0, 0),
    {
        assert(0u32 & 1 == 0 && 0u32 & 2 == 0 && 0u32 & 4 == 0 && (0u32 >> 3) & 31 == 0 && 0u32 >> 8
            == 0) by (bit_vector);
        Metadata { word: 0 }
    }

    pub fn locked(&self) -> (b: bool)
        ensures
            b == self.is_locked(),
    {
        self.word & LOCK != 0
    }

    pub fn killed(&self) -> (b: bool)
        ensures
            b == self.is_killed(),
    {
        self.word & KILLED != 0
    }

    pub fn waiting(&self) -> (b: bool)
        ensures
            b == self.is_waiting(),
    {
        self.word & WAITING != 0
    }

    pub fn num_entries(&self) -> (n: usize)
        ensures
            n == self.occupancy(),
            n <= OCCUPANCY_MAX,
    {
        let word = self.word;
        assert((word >> 3) & 31 <= 31) by (bit_vector);
        ((self.word >> 3) & OCCUPANCY_MAX) as usize
    }

    pub fn num_linked_entries(&self) -> (n: usize)
        ensures
            n == self.overflow_len(),
            n <= OVERFLOW_LEN_MAX,
    {
        let word = self.word;
        assert(word >> 8 <= 0xff_ffff) by (bit_vector);
        (self.word >> 8) as usize
    }

    /// What a thread that wants to hold the cell does with the word that it has read: the
    /// word with the lock bit set where the cell is free, to be stored in place of the word
    /// that was read; nothing where another thread holds the cell.
    pub fn try_lock(self) -> (next: Option<Metadata>)
        ensures
            next is Some <==> !self.is_locked(),
            next matches Some(locked) ==> locked.holds(
                true,
                self.is_killed(),
                self.is_waiting(),
                self.occupancy(),
                self.overflow_len(),
            ),
    {
        let word = self.word;
        if word & LOCK != 0 {
            None
        } else {
            assert((word | 1) & 1 != 0 && ((word | 1) & 2 != 0) == (word & 2 != 0) && ((word | 1) & 4
                != 0) == (word & 4 != 0) && ((word | 1) >> 3) & 31 == (word >> 3) & 31 && (word | 1)
                >> 8 == word >> 8) by (bit_vector);
            Some(Metadata { word: word | LOCK })
        }
    }

    /// What a thread that has waited in vain does with the word that it has read: the word
    /// with the bit for waiting threads set.
    pub fn set_waiting(self) -> (next: Metadata)
        ensures
            next.holds(
                self.is_locked(),
                self.is_killed(),
                true,
                self.occupancy(),
                self.overflow_len(),
            ),
    {
        let word = self.word;
        assert((word | 4) & 4 != 0 && ((word | 4) & 1 != 0) == (word & 1 != 0) && ((word | 4) & 2
            != 0) == (word & 2 != 0) && ((word | 4) >> 3) & 31 == (word >> 3) & 31 && (word | 4) >> 8
            == word >> 8) by (bit_vector);
        Metadata { word: word | WAITING }
    }

    /// What the thread that holds the cell stores when it lets go: the word without the lock
    /// bit and without the bit for waiting threads. The second result says whether threads
    /// wait and are to be woken.
    pub fn unlock(self) -> (next: (Metadata, bool))
        ensures
            next.0.holds(false, self.is_killed(), false, self.occupancy(), self.overflow_len()),
            next.1 == self.is_waiting(),
    {
        let word = self.word;
        assert((word & 0xffff_fffa) & 1 == 0 && (word & 0xffff_fffa) & 4 == 0 && ((word
            & 0xffff_fffa) & 2 != 0) == (word & 2 != 0) && ((word & 0xffff_fffa) >> 3) & 31 == (word
            >> 3) & 31 && (word & 0xffff_fffa) >> 8 == word >> 8) by (bit_vector);
        (Metadata { word: word & 0xffff_fffa }, word & WAITING != 0)
    }

    /// The word with the mark of a drained cell.
    pub fn kill(self) -> (next: Metadata)
        ensures
            next.holds(
                self.is_locked(),
                true,
                self.is_waiting(),
                self.occupancy(),
                self.overflow_len(),
            ),
    {
        let word = self.word;
        assert((word | 2) & 2 != 0 && ((word | 2) & 1 != 0) == (word & 1 != 0) && ((word | 2) & 4
            != 0) == (word & 4 != 0) && ((word | 2) >> 3) & 31 == (word >> 3) & 31 && (word | 2) >> 8
            == word >> 8) by (bit_vector);
        Metadata { word: word | KILLED }
    }

    /// The word with another number of entries in the primary slots.
    pub fn with_occupancy(self, n: usize) -> (next: Metadata)
        requires
            n <= OCCUPANCY_MAX,
        ensures
            next.holds(
                self.is_locked(),
                self.is_killed(),
                self.is_waiting(),
                n as nat,
                self.overflow_len(),
            ),
    {
        let word = self.word;
        let count = n as u32;
        assert(count <= 31 ==> {
            let next = (word & !(31u32 << 3)) | (count << 3);
            &&& (next & 1 != 0) == (word & 1 != 0)
            &&& (next & 2 != 0) == (word & 2 != 0)
            &&& (next & 4 != 0) == (word & 4 != 0)
            &&& (next >> 3) & 31 == count
            &&& next >> 8 == word >> 8
        }) by (bit_vector);
        Metadata { word: (word & !(31u32 << 3)) | (count << 3) }
    }

    /// The word with another number of entries in the overflow chain, which stays at the
    /// largest number that fits.
    pub fn with_overflow_len(self, n: usize) -> (next: Metadata)
        ensures
            next.holds(
                self.is_locked(),
                self.is_killed(),
                self.is_waiting(),
                self.occupancy(),
                Self::saturated(n as nat),
            ),
    {
        let word = self.word;
        let count: u32 = if n >= OVERFLOW_LEN_MAX as usize {
            OVERFLOW_LEN_MAX
        } else {
            n as u32
        };
        assert(count <= 0xff_ffff ==> {
            let next = (word & 0xffu32) | (count << 8);
            &&& (next & 1 != 0) == (word & 1 != 0)
            &&& (next & 2 != 0) == (word & 2 != 0)
            &&& (next & 4 != 0) == (word & 4 != 0)
            &&& (next >> 3) & 31 == (word >> 3) & 31
            &&& next >> 8 == count
        }) by (bit_vector);
        Metadata { word: (word & 0xff) | (count << 8) }
    }
}

} // verus!
