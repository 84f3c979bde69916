//! Datasets: indexed collections of instances with a metric and a cache of distances.

use vstd::prelude::*;
use crate::metric::Metric;
use crate::sampling::choose_distinct;

verus! {

/// The distance between the instances at positions `i` and `j` of `xs`, as a dataset
/// reports it: zero from an instance to itself, and otherwise the metric's distance from
/// the instance with the smaller index to the one with the larger.
pub open spec fn pair_distance<T, M: Metric<T>>(m: M, xs: Seq<Seq<T>>, i: int, j: int) -> nat {
    if i == j {
        0
    } else if i < j {
        m.dist(xs[i], xs[j])
    } else {
        m.dist(xs[j], xs[i])
    }
}

/// The distance from a query to the instance at position `i` of `xs`.
pub open spec fn query_dist<T, M: Metric<T>>(m: M, xs: Seq<Seq<T>>, q: Seq<T>, i: int) -> nat {
    m.dist(q, xs[i])
}

/// Whether every entry of `indices` is an index into a dataset of `n` instances.
pub open spec fn in_range(indices: Seq<usize>, n: nat) -> bool {
    forall|k: int| 0 <= k < indices.len() ==> indices[k] < n
}

/// A dataset reports the same distance for a pair of indices in either order.
pub proof fn lemma_pair_distance_symmetric<T, M: Metric<T>>(m: M, xs: Seq<Seq<T>>, i: int, j: int)
    ensures
        pair_distance(m, xs, i, j) == pair_distance(m, xs, j, i),
{
}

/// Under a metric that declares symmetry, the distance that a dataset reports between two
/// different instances is the metric's distance in either direction.
pub proof fn lemma_pair_distance_is_metric<T, M: Metric<T>>(m: M, xs: Seq<Seq<T>>, i: int, j: int)
    requires
        m.valid(),
        m.symmetry(),
        i != j,
    ensures
        pair_distance(m, xs, i, j) == m.dist(xs[i], xs[j]),
        pair_distance(m, xs, i, j) == m.dist(xs[j], xs[i]),
{
    m.law_symmetry(xs[i], xs[j]);
}

/// An indexed collection of instances together with the metric that compares them.
///
/// The indices of a dataset of `n` instances are `0..n` and never change. Asking for a
/// distance may fill a cache, so it takes the dataset mutably; what the dataset holds and
/// the distances it reports stay the same.
pub trait Dataset<T, M: Metric<T>>: Sized {
    /// The invariant of the dataset.
    spec fn wf(&self) -> bool;

    /// The instances, by index.
    spec fn instances(&self) -> Seq<Seq<T>>;

    /// The metric of the dataset.
    spec fn spec_metric(&self) -> M;

    /// A well-formed dataset has a valid metric.
    proof fn lemma_metric_valid(&self)
        requires
            self.wf(),
        ensures
            self.spec_metric().valid(),
    ;

    /// Returns the metric used to compute distances between instances.
    fn metric(&self) -> (m: &M)
        requires
            self.wf(),
        ensures
            *m == self.spec_metric(),
    ;

    /// Returns the number of instances in the dataset.
    fn ninstances(&self) -> (n: usize)
        requires
            self.wf(),
        ensures
            n == self.instances().len(),
    ;

    /// Returns the shape of the dataset: the number of instances and their length.
    fn shape(&self) -> (s: Vec<usize>)
        requires
            self.wf(),
        ensures
            s@.len() == 2,
            s@[0] == self.instances().len(),
            forall|i: int| 0 <= i < self.instances().len() ==> self.instances()[i].len() == s@[1],
    ;

    /// Returns the instance at the given index.
    fn instance(&self, index: usize) -> (x: Vec<T>)
        requires
            self.wf(),
            index < self.instances().len(),
        ensures
            x@ == self.instances()[index as int],
    ;

    /// Returns the distance from a query to the instance at the given index.
    fn query_distance(&self, query: &Vec<T>, index: usize) -> (d: u64)
        requires
            self.wf(),
            index < self.instances().len(),
        ensures
            d == query_dist(self.spec_metric(), self.instances(), query@, index as int),
    ;

    /// Returns the distance between the two instances at the indices provided.
    fn distance(&mut self, left: usize, right: usize) -> (d: u64)
        requires
            old(self).wf(),
            left < old(self).instances().len(),
            right < old(self).instances().len(),
        ensures
            final(self).wf(),
            final(self).instances() == old(self).instances(),
            final(self).spec_metric() == old(self).spec_metric(),
            d == pair_distance(
                old(self).spec_metric(),
                old(self).instances(),
                left as int,
                right as int,
            ),
    ;

    /// Returns all the indices of the dataset, in order.
    fn indices(&self) -> (v: Vec<usize>)
        requires
            self.wf(),
        ensures
            v@.len() == self.instances().len(),
            forall|i: int| 0 <= i < v@.len() ==> v@[i] == i,
    {
        let n: usize = self.ninstances();
        let mut v: Vec<usize> = Vec::new();
        let mut i: usize = 0;
        while i < n
            invariant
                i <= n,
                v@.len() == i,
                forall|k: int| 0 <= k < i ==> v@[k] == k,
            decreases n - i,
        {
            v.push(i);
            i = i + 1;
        }
        v
    }

    /// Chooses at random up to `n` of the given indices, no index twice.
    fn choose_unique(&self, indices: Vec<usize>, n: usize) -> (chosen: Vec<usize>)
        ensures
            chosen@.no_duplicates(),
            forall|k: int| 0 <= k < chosen@.len() ==> indices@.contains(chosen@[k]),
            chosen@.len() <= n,
            chosen@.len() <= indices@.len(),
            indices@.no_duplicates() ==> chosen@.len() == if n <= indices@.len() {
                n as nat
            } else {
                indices@.len()
            },
            indices@.len() > 0 && n > 0 ==> chosen@.len() > 0,
    {
        choose_distinct(&indices, n, None)
    }

    /// Returns the distances from the instance at `left` to the instances at the indices
    /// in `right`, in the order of `right`.
    fn distances_from(&mut self, left: usize, right: &Vec<usize>) -> (ds: Vec<u64>)
        requires
            old(self).wf(),
            left < old(self).instances().len(),
            in_range(right@, old(self).instances().len()),
        ensures
            final(self).wf(),
            final(self).instances() == old(self).instances(),
            final(self).spec_metric() == old(self).spec_metric(),
            ds@.len() == right@.len(),
            forall|k: int|
                0 <= k < right@.len() ==> ds@[k] == pair_distance(
                    old(self).spec_metric(),
                    old(self).instances(),
                    left as int,
                    #[trigger] right@[k] as int,
                ),
    {
        let mut ds: Vec<u64> = Vec::new();
        let mut k: usize = 0;
        while k < right.len()
            invariant
                k <= right@.len(),
                self.wf(),
                self.instances() == old(self).instances(),
                self.spec_metric() == old(self).spec_metric(),
                left < self.instances().len(),
                in_range(right@, self.instances().len()),
                ds@.len() == k,
                forall|p: int|
                    0 <= p < k ==> ds@[p] == pair_distance(
                        old(self).spec_metric(),
                        old(self).instances(),
                        left as int,
                        #[trigger] right@[p] as int,
                    ),
            decreases right@.len() - k,
        {
            let d: u64 = self.distance(left, right[k]);
            ds.push(d);
            k = k + 1;
        }
        ds
    }

    /// Returns the distances from each instance at an index in `left` to each instance at
    /// an index in `right`: one row for each entry of `left`.
    fn distances_among(&mut self, left: &Vec<usize>, right: &Vec<usize>) -> (rows: Vec<Vec<u64>>)
        requires
            old(self).wf(),
            in_range(left@, old(self).instances().len()),
            in_range(right@, old(self).instances().len()),
        ensures
            final(self).wf(),
            final(self).instances() == old(self).instances(),
            final(self).spec_metric() == old(self).spec_metric(),
            rows@.len() == left@.len(),
            forall|p: int| 0 <= p < left@.len() ==> (#[trigger] rows@[p])@.len() == right@.len(),
            forall|p: int, k: int|
                0 <= p < left@.len() && 0 <= k < right@.len() ==> rows@[p]@[k] == pair_distance(
                    old(self).spec_metric(),
                    old(self).instances(),
                    #[trigger] left@[p] as int,
                    #[trigger] right@[k] as int,
                ),
    {
        let mut rows: Vec<Vec<u64>> = Vec::new();
        let mut p: usize = 0;
        while p < left.len()
            invariant
                p <= left@.len(),
                self.wf(),
                self.instances() == old(self).instances(),
                self.spec_metric() == old(self).spec_metric(),
                in_range(left@, self.instances().len()),
                in_range(right@, self.instances().len()),
                rows@.len() == p,
                forall|q: int| 0 <= q < p ==> (#[trigger] rows@[q])@.len() == right@.len(),
                forall|q: int, k: int|
                    0 <= q < p && 0 <= k < right@.len() ==> rows@[q]@[k] == pair_distance(
                        old(self).spec_metric(),
                        old(self).instances(),
                        #[trigger] left@[q] as int,
                        #[trigger] right@[k] as int,
                    ),
            decreases left@.len() - p,
        {
            let row: Vec<u64> = self.distances_from(left[p], right);
            rows.push(row);
            p = p + 1;
        }
        rows
    }

    /// Returns the pairwise distances between the instances at the given indices.
    fn pairwise_distances(&mut self, indices: &Vec<usize>) -> (rows: Vec<Vec<u64>>)
        requires
            old(self).wf(),
            in_range(indices@, old(self).instances().len()),
        ensures
            final(self).wf(),
            final(self).instances() == old(self).instances(),
            final(self).spec_metric() == old(self).spec_metric(),
            rows@.len() == indices@.len(),
            forall|p: int|
                0 <= p < indices@.len() ==> (#[trigger] rows@[p])@.len() == indices@.len(),
            forall|p: int, k: int|
                0 <= p < indices@.len() && 0 <= k < indices@.len() ==> rows@[p]@[k]
                    == pair_distance(
                    old(self).spec_metric(),
                    old(self).instances(),
                    #[trigger] indices@[p] as int,
                    #[trigger] indices@[k] as int,
                ),
    {
        self.distances_among(indices, indices)
    }
}

} // verus!
