pub mod map;
pub mod pq;
pub mod primality;

use vstd::prelude::*;

use crate::pq::QueuePrimesIter;
use crate::primality::{emitted_ok, is_prime};

verus! {

/// Candidates from this value on are not classified: the generators shut
/// down rather than let a tracked composite outgrow a `u64`. Progress is
/// guaranteed for every prime below it.
pub const CANDIDATE_LIMIT: u64 = 0x1_0000_0000;

/// A generator of the primes in increasing order. It walks odd candidates
/// after the fixed start 2, 3, holding each discovered prime's next
/// composite multiple in a min-ordered collection of `(strike, stride)`
/// pairs.
pub struct PrimesIter {
    inner: QueuePrimesIter,
}

impl PrimesIter {
    /// The primes produced so far, in the order they came out.
    pub closed spec fn emitted(self) -> Seq<u64> {
        self.inner.emitted()
    }

    /// The next integer to be classified: every prime below it has been
    /// produced, and nothing else has.
    pub closed spec fn frontier(self) -> int {
        self.inner.frontier()
    }

    /// Whether the generator has shut down because a tracked value would
    /// no longer fit in a `u64`.
    pub closed spec fn failed(self) -> bool {
        self.inner.failed()
    }

    /// The generator is consistent.
    pub closed spec fn wf(self) -> bool {
        self.inner.wf()
    }

    /// A consistent generator's output is the increasing sequence of all
    /// primes below its frontier.
    pub proof fn lemma_wf_emitted_ok(self)
        requires
            self.wf(),
        ensures
            emitted_ok(self.emitted(), self.frontier()),
    {
        self.inner.lemma_wf_emitted_ok();
    }

    /// A fresh generator: nothing produced, first candidate is 2.
    pub fn new() -> (r: Self)
        ensures
            r.wf(),
            !r.failed(),
            r.emitted() == Seq::<u64>::empty(),
            r.frontier() == 2,
    {
        PrimesIter { inner: QueuePrimesIter::new() }
    }

    /// Produce the next prime, in increasing order.
    ///
    /// Returns `None` only when the tracker would have to book a composite
    /// beyond `u64::MAX`; the generator then stays shut down. Success is
    /// guaranteed while the next prime lies below `CANDIDATE_LIMIT`.
    pub fn next(&mut self) -> (r: Option<u64>)
        requires
            old(self).wf(),
        ensures
            final(self).wf(),
            emitted_ok(final(self).emitted(), final(self).frontier()),
            match r {
                Some(p) => {
                    &&& !old(self).failed()
                    &&& !final(self).failed()
                    &&& final(self).emitted() == old(self).emitted().push(p)
                    &&& is_prime(p as int)
                    &&& old(self).frontier() <= (p as int)
                    &&& (p as int) < final(self).frontier()
                },
                None => {
                    &&& final(self).failed()
                    &&& final(self).emitted() == old(self).emitted()
                },
            },
            old(self).frontier() <= final(self).frontier(),
            final(self).failed() ==> old(self).failed() || final(self).frontier()
                >= CANDIDATE_LIMIT as int,
            (!old(self).failed() && exists|q: int|
                old(self).frontier() <= q < CANDIDATE_LIMIT as int && is_prime(q)) ==> r is Some,
    {
        self.inner.next()
    }

    /// Produce the next `n` primes. The result is shorter than `n` only if
    /// the tracker shut down on overflow; requesting zero primes changes
    /// nothing.
    pub fn next_n(&mut self, n: usize) -> (r: Vec<u64>)
        requires
            old(self).wf(),
        ensures
            final(self).wf(),
            emitted_ok(final(self).emitted(), final(self).frontier()),
            final(self).emitted() == old(self).emitted() + r@,
            r@.len() <= n,
            !final(self).failed() ==> r@.len() == n,
            final(self).failed() ==> old(self).failed() || final(self).frontier()
                >= CANDIDATE_LIMIT as int,
            n == 0 ==> *final(self) == *old(self),
    {
        self.inner.next_n(n)
    }
}

impl Default for PrimesIter {
    /// Same as `new`: a fresh generator whose first output will be 2.
    fn default() -> (r: Self)
        ensures
            r.wf(),
            !r.failed(),
            r.emitted() == Seq::<u64>::empty(),
            r.frontier() == 2,
    {
        Self::new()
    }
}

} // verus!
