//! Sets and counts of cells that are emptied without being cleared.
//!
//! An entry counts only where its stamp is the current generation; raising the
//! generation forgets every entry.
use vstd::prelude::*;

use crate::board::CellIdx;

verus! {

/// A set of cells.
pub struct PadSet {
    stamp: Vec<u32>,
    gen: u32,
}

impl PadSet {
    /// How many cells there are to choose from.
    pub closed spec fn cells(&self) -> nat {
        self.stamp@.len()
    }

    /// No entry is from the future.
    pub closed spec fn wf(&self) -> bool {
        forall|i: int| 0 <= i < self.stamp@.len() ==> #[trigger] self.stamp@[i] <= self.gen
    }

    /// `c` is in the set.
    pub closed spec fn has(&self, c: CellIdx) -> bool {
        c < self.stamp@.len() && self.stamp@[c as int] == self.gen
    }

    /// A set of all `n` cells.
    pub fn new(n: usize) -> (s: PadSet)
        ensures
            s.wf(),
            s.cells() == n,
            forall|c: CellIdx| #[trigger] s.has(c) <==> c < n,
    {
        PadSet { stamp: vec![0; n], gen: 0 }
    }

    /// Makes the set hold exactly the given cells.
    pub fn load(&mut self, pads: &Vec<CellIdx>)
        requires
            old(self).wf(),
            forall|i: int| 0 <= i < pads@.len() ==> #[trigger] pads@[i] < old(self).cells(),
        ensures
            final(self).wf(),
            final(self).cells() == old(self).cells(),
            forall|c: CellIdx| #[trigger] final(self).has(c) <==> pads@.contains(c),
    {
        if self.gen == u32::MAX {
            let n: usize = self.stamp.len();
            let mut i: usize = 0;
            while i < n
                invariant
                    i <= n,
                    n == self.stamp@.len(),
                    n == old(self).stamp@.len(),
                    forall|j: int| 0 <= j < i ==> self.stamp@[j] == 0,
                decreases n - i,
            {
                self.stamp.set(i, 0);
                i += 1;
            }
            self.gen = 1;
        } else {
            self.gen = self.gen + 1;
        }
        let mut i: usize = 0;
        while i < pads.len()
            invariant
                i <= pads@.len(),
                self.wf(),
                self.cells() == old(self).cells(),
                forall|j: int| 0 <= j < pads@.len() ==> #[trigger] pads@[j] < self.cells(),
                forall|c: CellIdx| #[trigger]
                    self.has(c) <==> pads@.take(i as int).contains(c),
            decreases pads@.len() - i,
        {
            let ghost before = *self;
            self.stamp.set(pads[i] as usize, self.gen);
            proof {
                assert forall|c: CellIdx| #[trigger]
                    self.has(c) <==> pads@.take(i + 1).contains(c) by {
                    crate::grid::lemma_take_contains(pads@, i as int, c);
                    assert(before.has(c) <==> pads@.take(i as int).contains(c));
                }
            }
            i += 1;
        }
        assert(pads@.take(pads@.len() as int) =~= pads@);
    }

    /// Whether `c` is in the set.
    pub fn contains(&self, c: CellIdx) -> (b: bool)
        requires
            c < self.cells(),
        ensures
            b == self.has(c),
    {
        self.stamp[c as usize] == self.gen
    }
}

/// A count for each cell.
pub struct CountedCellSet {
    /// The count of each cell, where its stamp is current.
    pub count: Vec<u32>,
    /// When each count was last set.
    pub stamp: Vec<u32>,
    /// The current stamp.
    pub gen: u32,
}

impl CountedCellSet {
    /// How many cells are counted.
    pub closed spec fn cells(&self) -> nat {
        self.stamp@.len()
    }

    /// No entry is from the future.
    pub closed spec fn wf(&self) -> bool {
        &&& self.count@.len() == self.stamp@.len()
        &&& forall|i: int| 0 <= i < self.stamp@.len() ==> #[trigger] self.stamp@[i] <= self.gen
    }

    /// The count of `c`.
    pub closed spec fn counted(&self, c: CellIdx) -> u32 {
        if c < self.stamp@.len() && self.stamp@[c as int] == self.gen {
            self.count@[c as int]
        } else {
            0
        }
    }

    /// Counts for `n` cells.
    pub fn new(n: usize) -> (s: CountedCellSet)
        ensures
            s.wf(),
            s.cells() == n,
            forall|c: CellIdx| #[trigger] s.counted(c) == 0,
    {
        CountedCellSet { count: vec![0; n], stamp: vec![0; n], gen: 0 }
    }

    /// Sets every count to zero.
    pub fn clear(&mut self)
        requires
            old(self).wf(),
        ensures
            final(self).wf(),
            final(self).cells() == old(self).cells(),
            forall|c: CellIdx| #[trigger] final(self).counted(c) == 0,
    {
        if self.gen == u32::MAX {
            let n: usize = self.stamp.len();
            let mut i: usize = 0;
            while i < n
                invariant
                    i <= n,
                    n == self.stamp@.len(),
                    n == self.count@.len(),
                    n == old(self).stamp@.len(),
                    forall|j: int| 0 <= j < i ==> self.stamp@[j] == 0,
                decreases n - i,
            {
                self.stamp.set(i, 0);
                i += 1;
            }
            self.gen = 1;
        } else {
            self.gen = self.gen + 1;
        }
    }

    /// Counts `c` once more; a count stops at the largest number.
    pub fn increment(&mut self, c: CellIdx)
        requires
            old(self).wf(),
            c < old(self).cells(),
        ensures
            final(self).wf(),
            final(self).cells() == old(self).cells(),
            forall|x: CellIdx| #[trigger]
                final(self).counted(x) == if x == c {
                    crate::search::sat(old(self).counted(x) + 1)
                } else {
                    old(self).counted(x) as int
                },
    {
        let i: usize = c as usize;
        if self.stamp[i] == self.gen {
            let bumped: u32 = self.count[i].saturating_add(1);
            self.count.set(i, bumped);
        } else {
            self.stamp.set(i, self.gen);
            self.count.set(i, 1);
        }
    }

    /// Counts each of the given cells once more.
    pub fn increment_all(&mut self, cells: &Vec<CellIdx>)
        requires
            old(self).wf(),
            forall|i: int| 0 <= i < cells@.len() ==> #[trigger] cells@[i] < old(self).cells(),
        ensures
            final(self).wf(),
            final(self).cells() == old(self).cells(),
            forall|c: CellIdx| #[trigger]
                final(self).counted(c) == crate::search::sat(
                    old(self).counted(c) + crate::cells::occurrences(cells@, c),
                ),
    {
        let mut i: usize = 0;
        proof {
            assert(cells@.take(0) =~= Seq::<u32>::empty());
        }
        while i < cells.len()
            invariant
                i <= cells@.len(),
                self.wf(),
                self.cells() == old(self).cells(),
                forall|j: int| 0 <= j < cells@.len() ==> #[trigger] cells@[j] < self.cells(),
                forall|c: CellIdx| #[trigger]
                    self.counted(c) == crate::search::sat(
                        old(self).counted(c) + crate::cells::occurrences(
                            cells@.take(i as int),
                            c,
                        ),
                    ),
            decreases cells@.len() - i,
        {
            self.increment(cells[i]);
            proof {
                assert(cells@.take(i + 1).drop_last() =~= cells@.take(i as int));
            }
            i += 1;
        }
        assert(cells@.take(cells@.len() as int) =~= cells@);
    }

    /// The count of `c`.
    pub fn count(&self, c: CellIdx) -> (n: u32)
        requires
            self.wf(),
            c < self.cells(),
        ensures
            n == self.counted(c),
    {
        if self.stamp[c as usize] == self.gen {
            self.count[c as usize]
        } else {
            0
        }
    }
}

} // verus!
