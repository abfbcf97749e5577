use vstd::prelude::*;

verus! {

/// Iterations and nanoseconds gathered over timed sections.
#[derive(Debug)]
pub struct ScopedTimer {
    iter: usize,
    elapsed: u128,
}

impl ScopedTimer {
    pub closed spec fn spec_iter(&self) -> usize {
        self.iter
    }

    pub closed spec fn spec_elapsed(&self) -> u128 {
        self.elapsed
    }

    pub fn new() -> (r: Self)
        ensures
            r.spec_iter() == 0,
            r.spec_elapsed() == 0,
    {
        ScopedTimer { iter: 0, elapsed: 0 }
    }

    pub fn reset(&mut self)
        ensures
            final(self).spec_iter() == 0,
            final(self).spec_elapsed() == 0,
    {
        self.iter = 0;
        self.elapsed = 0;
    }

    /// Adds one timed section of `cnt` iterations over `nanos` nanoseconds;
    /// both totals stop at their largest value.
    pub fn add_timing(&mut self, cnt: usize, nanos: u128)
        ensures
            final(self).spec_iter() == if old(self).spec_iter() + cnt > usize::MAX {
                usize::MAX as int
            } else {
                old(self).spec_iter() + cnt
            },
            final(self).spec_elapsed() == if old(self).spec_elapsed() + nanos > u128::MAX {
                u128::MAX as int
            } else {
                old(self).spec_elapsed() + nanos
            },
    {
        self.iter = self.iter.saturating_add(cnt);
        self.elapsed = self.elapsed.saturating_add(nanos);
    }

    pub fn iterations(&self) -> (r: usize)
        ensures
            r == self.spec_iter(),
    {
        self.iter
    }

    pub fn elapsed_nanos(&self) -> (r: u128)
        ensures
            r == self.spec_elapsed(),
    {
        self.elapsed
    }
}

} // verus!
