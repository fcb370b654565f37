//! The count of candidates processed so far, out of a known total.

use vstd::prelude::*;

verus! {

/// Counts processed candidates. The count only grows, by one per candidate,
/// and never passes the total.
#[derive(Debug, Clone, Copy, PartialEq, Eq)]
pub struct ProgressCounter {
    processed: usize,
    total: usize,
}

impl ProgressCounter {
    /// The number of candidates processed.
    pub closed spec fn spec_processed(&self) -> usize {
        self.processed
    }

    /// The number of candidates to process.
    pub closed spec fn spec_total(&self) -> usize {
        self.total
    }

    /// The count is at most the total.
    pub open spec fn wf(&self) -> bool {
        self.processed() <= self.total()
    }

    /// A counter at zero for `total` candidates.
    pub fn new(total: usize) -> (counter: ProgressCounter)
        ensures
            counter.wf(),
            counter.processed() == 0,
            counter.total() == total,
    {
        ProgressCounter { processed: 0, total }
    }

    /// The number of candidates processed.
    #[verifier::when_used_as_spec(spec_processed)]
    pub fn processed(&self) -> (n: usize)
        ensures
            n == self.processed(),
    {
        self.processed
    }

    /// The number of candidates to process.
    #[verifier::when_used_as_spec(spec_total)]
    pub fn total(&self) -> (n: usize)
        ensures
            n == self.total(),
    {
        self.total
    }

    /// Whether every candidate has been processed.
    pub fn is_complete(&self) -> (complete: bool)
        ensures
            complete == (self.processed() == self.total()),
    {
        self.processed == self.total
    }

    /// Counts one more candidate as processed.
    pub fn increment(&mut self)
        requires
            old(self).wf(),
            old(self).processed() < old(self).total(),
        ensures
            final(self).wf(),
            final(self).processed() == old(self).processed() + 1,
            final(self).total() == old(self).total(),
    {
        self.processed = self.processed + 1;
    }
}

} // verus!
