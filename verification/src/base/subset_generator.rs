use vstd::prelude::*;

verus! {

/// Subset sequence generator
pub struct SubsetGenerator {
    set: usize,
    full: usize,
}

impl SubsetGenerator {
    /// The subset that was given out last, as a bit mask.
    pub closed spec fn current(&self) -> usize {
        self.set
    }

    /// The set whose subsets are given out, as a bit mask.
    pub closed spec fn fullset(&self) -> usize {
        self.full
    }

    /// Create from the fullset and the current subset.
    pub fn new(subset: usize, fullset: usize) -> (g: Self)
        ensures
            g.current() == subset,
            g.fullset() == fullset,
    {
        SubsetGenerator { set: subset, full: fullset }
    }

    /// The next smaller subset of the full set, or nothing once the empty
    /// subset has been given out.
    pub fn next(&mut self) -> (r: Option<usize>)
        ensures
            final(self).fullset() == old(self).fullset(),
            old(self).current() == 0 ==> r is None && final(self).current() == 0,
            old(self).current() != 0 ==> r == Some(
                ((old(self).current() - 1) as usize) & old(self).fullset(),
            ) && final(self).current() == r->0,
    {
        if self.set == 0 {
            return None;
        }
        self.set = (self.set - 1) & self.full;
        Some(self.set)
    }
}

} // verus!
