use vstd::prelude::*;

verus! {

/// The figures that a scan over the cells of a map gathers. `run` is the number of cells
/// without an entry in their primary slots that the scan has seen in a row, up to the cell
/// that it has seen last; a run does not go on from one array into the next.
pub struct Tally {
    pub capacity: nat,
    pub effective_capacity: nat,
    pub entries: nat,
    pub killed_entries: nat,
    pub cells: nat,
    pub empty_cells: nat,
    pub max_consecutive_empty_cells: nat,
    pub linked_entries: nat,
    pub cells_having_link: nat,
    pub max_link_length: nat,
    pub run: nat,
}

/// A count as a `usize` holds it: the count itself, or the largest `usize` where the count
/// is larger.
pub open spec fn clamped(n: nat) -> nat {
    if n > usize::MAX {
        usize::MAX as nat
    } else {
        n
    }
}

pub open spec fn larger(a: nat, b: nat) -> nat {
    if a >= b {
        a
    } else {
        b
    }
}

impl Tally {
    pub open spec fn zero() -> Tally {
        Tally {
            capacity: 0,
            effective_capacity: 0,
            entries: 0,
            killed_entries: 0,
            cells: 0,
            empty_cells: 0,
            max_consecutive_empty_cells: 0,
            linked_entries: 0,
            cells_having_link: 0,
            max_link_length: 0,
            run: 0,
        }
    }

    /// The tally at the start of the scan of an array of `num_cells` cells. The capacity that
    /// is in effect is that of the current array.
    pub open spec fn enter_array(self, num_cells: nat, current: bool) -> Tally {
        Tally {
            capacity: self.capacity + num_cells * 16,
            effective_capacity: if current {
                num_cells * 16
            } else {
                self.effective_capacity
            },
            cells: self.cells + num_cells,
            run: 0,
            ..self
        }
    }

    /// The tally after one more cell, which has `size` entries in its primary slots and
    /// `linked` entries in its overflow chain. A cell without an entry in its primary slots
    /// makes the run one longer, and the longest run is at least as long as the run.
    pub open spec fn add_cell(self, size: nat, linked: nat, killed: bool) -> Tally {
        Tally {
            entries: self.entries + size + linked,
            empty_cells: if size == 0 {
                self.empty_cells + 1
            } else {
                self.empty_cells
            },
            max_consecutive_empty_cells: if size == 0 {
                larger(self.max_consecutive_empty_cells, self.run + 1)
            } else {
                self.max_consecutive_empty_cells
            },
            run: if size == 0 {
                self.run + 1
            } else {
                0
            },
            linked_entries: self.linked_entries + linked,
            cells_having_link: if linked > 0 {
                self.cells_having_link + 1
            } else {
                self.cells_having_link
            },
            max_link_length: larger(self.max_link_length, linked),
            killed_entries: if killed {
                self.killed_entries + 1
            } else {
                self.killed_entries
            },
            ..self
        }
    }
}

/// The figures of a map at one moment: capacities, numbers of cells and of entries, and how
/// the entries spread over primary slots and overflow chains.
#[derive(Clone, Copy, Debug)]
pub struct Statistics {
    capacity: usize,
    effective_capacity: usize,
    entries: usize,
    killed_entries: usize,
    cells: usize,
    empty_cells: usize,
    max_consecutive_empty_cells: usize,
    linked_entries: usize,
    cells_having_link: usize,
    max_link_length: usize,
}

impl View for Statistics {
    type V = Tally;

    closed spec fn view(&self) -> Tally {
        Tally {
            capacity: self.capacity as nat,
            effective_capacity: self.effective_capacity as nat,
            entries: self.entries as nat,
            killed_entries: self.killed_entries as nat,
            cells: self.cells as nat,
            empty_cells: self.empty_cells as nat,
            max_consecutive_empty_cells: self.max_consecutive_empty_cells as nat,
            linked_entries: self.linked_entries as nat,
            cells_having_link: self.cells_having_link as nat,
            max_link_length: self.max_link_length as nat,
            run: 0,
        }
    }
}

/// The figures of `tally` as a `usize` holds them.
pub open spec fn clamped_tally(tally: Tally) -> Tally {
    Tally {
        capacity: clamped(tally.capacity),
        effective_capacity: clamped(tally.effective_capacity),
        entries: clamped(tally.entries),
        killed_entries: clamped(tally.killed_entries),
        cells: clamped(tally.cells),
        empty_cells: clamped(tally.empty_cells),
        max_consecutive_empty_cells: clamped(tally.max_consecutive_empty_cells),
        linked_entries: clamped(tally.linked_entries),
        cells_having_link: clamped(tally.cells_having_link),
        max_link_length: clamped(tally.max_link_length),
        run: 0,
    }
}

/// The figures while a scan gathers them, with the length of the run of cells without an
/// entry in their primary slots.
pub(crate) struct Counter {
    statistics: Statistics,
    consecutive_empty_cells: usize,
}

impl Counter {
    /// The tally that the counter stands for, each figure as a `usize` holds it.
    pub(crate) closed spec fn tally(&self) -> Tally {
        Tally { run: self.consecutive_empty_cells as nat, ..self.statistics@ }
    }

    /// The counter stands for `tally`.
    pub(crate) open spec fn counts(&self, tally: Tally) -> bool {
        self.tally() == Tally { run: clamped(tally.run), ..clamped_tally(tally) }
    }

    pub(crate) fn new() -> (counter: Self)
        ensures
            counter.counts(Tally::zero()),
    {
        Counter {
            statistics: Statistics {
                capacity: 0,
                effective_capacity: 0,
                entries: 0,
                killed_entries: 0,
                cells: 0,
                empty_cells: 0,
                max_consecutive_empty_cells: 0,
                linked_entries: 0,
                cells_having_link: 0,
                max_link_length: 0,
            },
            consecutive_empty_cells: 0,
        }
    }

    pub(crate) fn enter_array(&mut self, num_cells: usize, current: bool, Ghost(tally): Ghost<Tally>)
        requires
            old(self).counts(tally),
            num_cells * 16 <= usize::MAX,
        ensures
            final(self).counts(tally.enter_array(num_cells as nat, current)),
    {
        let capacity = num_cells * 16;
        self.statistics.capacity = self.statistics.capacity.saturating_add(capacity);
        if current {
            self.statistics.effective_capacity = capacity;
        }
        self.statistics.cells = self.statistics.cells.saturating_add(num_cells);
        self.consecutive_empty_cells = 0;
    }

    pub(crate) fn add_cell(
        &mut self,
        size: usize,
        linked: usize,
        killed: bool,
        Ghost(tally): Ghost<Tally>,
        Ghost(exact_linked): Ghost<nat>,
    )
        requires
            old(self).counts(tally),
            linked == clamped(exact_linked),
        ensures
            final(self).counts(tally.add_cell(size as nat, exact_linked, killed)),
    {
        self.statistics.entries = self.statistics.entries.saturating_add(
            size.saturating_add(linked),
        );
        if size == 0 {
            self.statistics.empty_cells = self.statistics.empty_cells.saturating_add(1);
            self.consecutive_empty_cells = self.consecutive_empty_cells.saturating_add(1);
            if self.statistics.max_consecutive_empty_cells < self.consecutive_empty_cells {
                self.statistics.max_consecutive_empty_cells = self.consecutive_empty_cells;
            }
        } else {
            self.consecutive_empty_cells = 0;
        }
        if linked > 0 {
            self.statistics.linked_entries = self.statistics.linked_entries.saturating_add(linked);
            self.statistics.cells_having_link = self.statistics.cells_having_link.saturating_add(1);
            if self.statistics.max_link_length < linked {
                self.statistics.max_link_length = linked;
            }
        }
        if killed {
            self.statistics.killed_entries = self.statistics.killed_entries.saturating_add(1);
        }
    }

    pub(crate) fn finish(self, Ghost(tally): Ghost<Tally>) -> (statistics: Statistics)
        requires
            self.counts(tally),
        ensures
            statistics@ == clamped_tally(tally),
    {
        self.statistics
    }
}

impl Statistics {
    /// The number of primary slots of the arrays of the map, the old one included.
    pub fn capacity(&self) -> (n: usize)
        ensures
            n == self@.capacity,
    {
        self.capacity
    }

    /// The number of primary slots of the current array.
    pub fn effective_capacity(&self) -> (n: usize)
        ensures
            n == self@.effective_capacity,
    {
        self.effective_capacity
    }

    pub fn num_entries(&self) -> (n: usize)
        ensures
            n == self@.entries,
    {
        self.entries
    }

    /// The number of cells that are marked as drained.
    pub fn num_killed_entries(&self) -> (n: usize)
        ensures
            n == self@.killed_entries,
    {
        self.killed_entries
    }

    pub fn num_cells(&self) -> (n: usize)
        ensures
            n == self@.cells,
    {
        self.cells
    }

    /// The number of cells without an entry in their primary slots.
    pub fn num_empty_cells(&self) -> (n: usize)
        ensures
            n == self@.empty_cells,
    {
        self.empty_cells
    }

    pub fn max_consecutive_empty_cells(&self) -> (n: usize)
        ensures
            n == self@.max_consecutive_empty_cells,
    {
        self.max_consecutive_empty_cells
    }

    /// The number of entries in overflow chains.
    pub fn num_linked_entries(&self) -> (n: usize)
        ensures
            n == self@.linked_entries,
    {
        self.linked_entries
    }

    pub fn num_cells_having_link(&self) -> (n: usize)
        ensures
            n == self@.cells_having_link,
    {
        self.cells_having_link
    }

    /// The largest number of entries in the overflow chain of one cell.
    pub fn max_link_length(&self) -> (n: usize)
        ensures
            n == self@.max_link_length,
    {
        self.max_link_length
    }

    /// The figures in one line of text, each with its name. This is `format!` of the
    /// standard library; nothing is claimed of the text.
    #[verifier::external_body]
    pub fn describe(&self) -> (text: String) {
        format!(
            "capacity: {}, effective_capacity: {}, cells: {}, killed_entries: {}, empty_cells: {}, max_consecutive_empty_cells: {}, entries: {}, linked_entries: {}, cells_having_link: {}, max_link_length: {}",
            self.capacity,
            self.effective_capacity,
            self.cells,
            self.killed_entries,
            self.empty_cells,
            self.max_consecutive_empty_cells,
            self.entries,
            self.linked_entries,
            self.cells_having_link,
            self.max_link_length
        )
    }
}

} // verus!
