//! A metric that counts how often it is asked for a distance.

use vstd::prelude::*;
use crate::metric::Metric;

verus! {

/// A metric together with a counter of the distances it has computed. Counting can be
/// switched off and on again without touching the metric, and the counter can be reset.
pub struct CountingMetric<M> {
    inner: M,
    count: usize,
    enabled: bool,
}

impl<M> CountingMetric<M> {
    /// The metric that is counted.
    pub closed spec fn spec_inner(&self) -> M {
        self.inner
    }

    /// The number of distances counted so far.
    pub closed spec fn counted(&self) -> nat {
        self.count as nat
    }

    /// Whether distances are being counted.
    pub closed spec fn counting(&self) -> bool {
        self.enabled
    }

    /// Wraps a metric. Nothing is counted yet, and counting is on.
    pub fn new(inner: M) -> (c: Self)
        ensures
            c.spec_inner() == inner,
            c.counted() == 0,
            c.counting(),
    {
        CountingMetric { inner, count: 0, enabled: true }
    }

    /// Returns the metric that is counted.
    pub fn inner(&self) -> (m: &M)
        ensures
            *m == self.spec_inner(),
    {
        &self.inner
    }

    /// Switches counting off: the counter keeps its value until counting is switched on.
    pub fn disable_counting(&mut self)
        ensures
            !final(self).counting(),
            final(self).counted() == old(self).counted(),
            final(self).spec_inner() == old(self).spec_inner(),
    {
        self.enabled = false;
    }

    /// Switches counting on.
    pub fn enable_counting(&mut self)
        ensures
            final(self).counting(),
            final(self).counted() == old(self).counted(),
            final(self).spec_inner() == old(self).spec_inner(),
    {
        self.enabled = true;
    }

    /// Says whether distances are being counted.
    pub fn is_counting(&self) -> (b: bool)
        ensures
            b == self.counting(),
    {
        self.enabled
    }

    /// Returns the number of distances counted so far.
    pub fn count(&self) -> (n: usize)
        ensures
            n == self.counted(),
    {
        self.count
    }

    /// Sets the counter to zero and returns the value it had.
    pub fn reset_count(&mut self) -> (n: usize)
        ensures
            n == old(self).counted(),
            final(self).counted() == 0,
            final(self).counting() == old(self).counting(),
            final(self).spec_inner() == old(self).spec_inner(),
    {
        let n: usize = self.count;
        self.count = 0;
        n
    }

    /// Adds one to the counter, whether or not counting is on.
    pub fn increment(&mut self)
        requires
            old(self).counted() < usize::MAX,
        ensures
            final(self).counted() == old(self).counted() + 1,
            final(self).counting() == old(self).counting(),
            final(self).spec_inner() == old(self).spec_inner(),
    {
        self.count = self.count + 1;
    }

    /// Computes the distance between two instances, and counts it if counting is on.
    pub fn distance<T>(&mut self, a: &Vec<T>, b: &Vec<T>) -> (d: u64) where M: Metric<T>
        requires
            old(self).spec_inner().valid(),
            old(self).counting() ==> old(self).counted() < usize::MAX,
        ensures
            d == old(self).spec_inner().dist(a@, b@),
            final(self).counted() == old(self).counted() + if old(self).counting() {
                1nat
            } else {
                0nat
            },
            final(self).counting() == old(self).counting(),
            final(self).spec_inner() == old(self).spec_inner(),
    {
        if self.enabled {
            self.increment();
        }
        self.inner.distance(a, b)
    }

    /// Computes the distances from one instance to each of the others, in order, and
    /// counts each of them if counting is on.
    pub fn distances<T>(&mut self, a: &Vec<T>, others: &Vec<Vec<T>>) -> (ds: Vec<u64>) where
        M: Metric<T>,

        requires
            old(self).spec_inner().valid(),
            old(self).counting() ==> old(self).counted() + others@.len() <= usize::MAX,
        ensures
            ds@.len() == others@.len(),
            forall|i: int|
                0 <= i < others@.len() ==> #[trigger] ds@[i] == old(self).spec_inner().dist(
                    a@,
                    others@[i]@,
                ),
            final(self).counted() == old(self).counted() + if old(self).counting() {
                others@.len()
            } else {
                0nat
            },
            final(self).counting() == old(self).counting(),
            final(self).spec_inner() == old(self).spec_inner(),
    {
        let mut ds: Vec<u64> = Vec::new();
        let mut i: usize = 0;
        while i < others.len()
            invariant
                i <= others@.len(),
                self.spec_inner() == old(self).spec_inner(),
                self.spec_inner().valid(),
                self.counting() == old(self).counting(),
                old(self).counting() ==> old(self).counted() + others@.len() <= usize::MAX,
                self.counted() == old(self).counted() + if old(self).counting() {
                    i as nat
                } else {
                    0nat
                },
                ds@.len() == i,
                forall|j: int|
                    0 <= j < i ==> #[trigger] ds@[j] == old(self).spec_inner().dist(
                        a@,
                        others@[j]@,
                    ),
            decreases others@.len() - i,
        {
            let d: u64 = self.distance(a, &others[i]);
            ds.push(d);
            i = i + 1;
        }
        ds
    }
}

} // verus!
