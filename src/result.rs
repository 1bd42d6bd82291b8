//! Sinks for the offsets a query reports.
use vstd::prelude::*;

verus! {

/// A sink receiving the offsets the engine reports, in order.
pub trait QueryResult: Sized {
    /// Every offset reported so far, in order.
    spec fn reported(&self) -> Seq<usize>;

    /// The sink is consistent with what it was told.
    spec fn result_inv(&self) -> bool;

    /// A sink with nothing reported.
    fn new() -> (r: Self)
        ensures
            r.result_inv(),
            r.reported() == Seq::<usize>::empty(),
    ;

    /// Report a match at the given offset.
    fn report(&mut self, idx: usize)
        requires
            old(self).result_inv(),
        ensures
            final(self).result_inv(),
            final(self).reported() == old(self).reported().push(idx),
    ;
}

/// The number of matches, saturating at the largest `u64`.
pub struct CountResult {
    count: u64,
    reports: Ghost<Seq<usize>>,
}

/// `n` capped at the largest `u64`.
pub open spec fn saturated(n: nat) -> u64 {
    if n <= u64::MAX {
        n as u64
    } else {
        u64::MAX
    }
}

impl CountResult {
    /// The number of matches reported.
    pub fn get(&self) -> (r: u64)
        requires
            self.result_inv(),
        ensures
            r == saturated(self.reported().len()),
    {
        self.count
    }
}

impl QueryResult for CountResult {
    closed spec fn reported(&self) -> Seq<usize> {
        self.reports@
    }

    closed spec fn result_inv(&self) -> bool {
        self.count == saturated(self.reports@.len())
    }

    fn new() -> (r: Self) {
        CountResult { count: 0, reports: Ghost(Seq::empty()) }
    }

    fn report(&mut self, idx: usize) {
        if self.count < u64::MAX {
            self.count = self.count + 1;
        }
        self.reports = Ghost(self.reports@.push(idx));
    }
}

/// The offsets of all matches, in the order they were reported.
pub struct IndexResult {
    indices: Vec<usize>,
}

impl IndexResult {
    /// The offsets reported.
    pub fn get(&self) -> (r: &Vec<usize>)
        ensures
            r@ == self.reported(),
    {
        &self.indices
    }
}

impl QueryResult for IndexResult {
    closed spec fn reported(&self) -> Seq<usize> {
        self.indices@
    }

    closed spec fn result_inv(&self) -> bool {
        true
    }

    fn new() -> (r: Self) {
        IndexResult { indices: Vec::new() }
    }

    fn report(&mut self, idx: usize) {
        self.indices.push(idx);
    }
}

} // verus!
