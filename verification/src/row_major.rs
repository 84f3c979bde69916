//! A dataset held in memory as rows of equal length.

use vstd::prelude::*;
use std::collections::HashMap;
use crate::codec_data::copy_instance;
use crate::dataset::{pair_distance, Dataset};
use crate::error::ClamError;
use crate::metric::Metric;

verus! {

/// The key under which the distance between the instances `lo` and `hi` is cached.
pub open spec fn spec_pair_key(lo: usize, hi: usize) -> u128 {
    (lo * 0x1_0000_0000_0000_0000 + hi) as u128
}

/// Different pairs of indices have different keys.
pub proof fn lemma_pair_key_injective(a: usize, b: usize, c: usize, d: usize)
    requires
        spec_pair_key(a, b) == spec_pair_key(c, d),
    ensures
        a == c,
        b == d,
{
    assert(a * 0x1_0000_0000_0000_0000 + b < 0x1_0000_0000_0000_0000_0000_0000_0000_0000);
    assert(c * 0x1_0000_0000_0000_0000 + d < 0x1_0000_0000_0000_0000_0000_0000_0000_0000);
}

/// Computes the cache key of a pair of indices.
fn pair_key(lo: usize, hi: usize) -> (key: u128)
    ensures
        key == spec_pair_key(lo, hi),
{
    (lo as u128) * 0x1_0000_0000_0000_0000u128 + (hi as u128)
}

/// Whether a dataset caches or not, and whatever it has cached, it reports the same
/// distances: two datasets with the same rows and the same metric report the same
/// distance for a pair of indices, and the same for the pair in the other order.
pub proof fn lemma_cache_consistency<T: Copy, M: Metric<T>>(
    first: RowMajor<T, M>,
    second: RowMajor<T, M>,
    i: int,
    j: int,
)
    requires
        first.rows() == second.rows(),
        first.spec_metric() == second.spec_metric(),
    ensures
        pair_distance(first.spec_metric(), first.instances(), i, j) == pair_distance(
            second.spec_metric(),
            second.instances(),
            i,
            j,
        ),
        pair_distance(first.spec_metric(), first.instances(), i, j) == pair_distance(
            second.spec_metric(),
            second.instances(),
            j,
            i,
        ),
{
}

/// Whether all rows have the length `width`.
pub open spec fn rectangular<T>(rows: Seq<Vec<T>>, width: nat) -> bool {
    forall|i: int| 0 <= i < rows.len() ==> (#[trigger] rows[i])@.len() == width
}

/// A dataset stored as a 2-dimensional array in which rows are instances and columns are
/// their attributes, along with a metric.
///
/// The dataset can cache the distances it has computed, so that a distance between two
/// instances is computed at most once.
pub struct RowMajor<T, M> {
    data: Vec<Vec<T>>,
    width: usize,
    use_cache: bool,
    metric: M,
    cache: HashMap<u128, u64>,
}

impl<T: Copy, M: Metric<T>> RowMajor<T, M> {
    /// The rows of the dataset.
    pub closed spec fn rows(&self) -> Seq<Vec<T>> {
        self.data@
    }

    /// Whether the dataset caches the distances it computes.
    pub closed spec fn caching(&self) -> bool {
        self.use_cache
    }

    /// The pairs of indices whose distance is cached, as keys.
    pub closed spec fn cached(&self) -> Set<u128> {
        self.cache@.dom()
    }

    /// Creates a dataset from rows of equal length and a metric, which does or does not
    /// cache the distances it computes. Rows of different lengths are refused.
    pub fn new(data: Vec<Vec<T>>, metric: M, use_cache: bool) -> (r: Result<Self, ClamError>)
        requires
            metric.valid(),
        ensures
            match r {
                Ok(d) => {
                    &&& d.wf()
                    &&& d.rows() == data@
                    &&& d.spec_metric() == metric
                    &&& d.caching() == use_cache
                    &&& d.cached() == Set::<u128>::empty()
                    &&& exists|w: nat| rectangular(data@, w)
                },
                Err(e) => e == ClamError::RaggedData && !exists|w: nat| rectangular(data@, w),
            },
    {
        let width: usize = if data.len() == 0 {
            0
        } else {
            data[0].len()
        };
        let mut i: usize = 0;
        while i < data.len()
            invariant
                i <= data@.len(),
                data@.len() > 0 ==> width == data@[0]@.len(),
                forall|k: int| 0 <= k < i ==> (#[trigger] data@[k])@.len() == width,
            decreases data@.len() - i,
        {
            if data[i].len() != width {
                proof {
                    assert forall|w: nat| !rectangular(data@, w) by {
                        if rectangular(data@, w) {
                            assert(data@[0]@.len() == w);
                            assert(data@[i as int]@.len() == w);
                        }
                    }
                }
                return Err(ClamError::RaggedData);
            }
            i = i + 1;
        }
        proof {
            assert(rectangular(data@, width as nat));
        }
        let cache: HashMap<u128, u64> = HashMap::new();
        Ok(RowMajor { data, width, use_cache, metric, cache })
    }

    /// Clears the internal cache.
    pub fn clear_cache(&mut self)
        requires
            old(self).wf(),
        ensures
            final(self).wf(),
            final(self).rows() == old(self).rows(),
            final(self).instances() == old(self).instances(),
            final(self).spec_metric() == old(self).spec_metric(),
            final(self).caching() == old(self).caching(),
            final(self).cached() == Set::<u128>::empty(),
    {
        self.cache.clear();
    }

    /// Returns the number of distances in the internal cache.
    pub fn cache_size(&self) -> (n: Option<usize>)
        requires
            self.wf(),
        ensures
            n == Some(self.cached().len() as usize),
    {
        Some(self.cache.len())
    }

    /// Says whether the dataset caches the distances it computes.
    pub fn uses_cache(&self) -> (b: bool)
        ensures
            b == self.caching(),
    {
        self.use_cache
    }

    /// Returns the instance at the given index without copying it.
    pub fn row(&self, index: usize) -> (x: &Vec<T>)
        requires
            self.wf(),
            index < self.instances().len(),
        ensures
            x@ == self.instances()[index as int],
            *x == self.rows()[index as int],
    {
        &self.data[index]
    }
}

impl<T: Copy, M: Metric<T>> Dataset<T, M> for RowMajor<T, M> {
    closed spec fn wf(&self) -> bool {
        &&& self.metric.valid()
        &&& rectangular(self.data@, self.width as nat)
        &&& forall|i: usize, j: usize|
            i < j < self.data@.len() && self.cache@.contains_key(#[trigger] spec_pair_key(i, j))
                ==> self.cache@[spec_pair_key(i, j)] == self.metric.dist(
                self.data@[i as int]@,
                self.data@[j as int]@,
            )
    }

    open spec fn instances(&self) -> Seq<Seq<T>> {
        Seq::new(self.rows().len(), |i: int| self.rows()[i]@)
    }

    closed spec fn spec_metric(&self) -> M {
        self.metric
    }

    proof fn lemma_metric_valid(&self) {
    }

    fn metric(&self) -> (m: &M) {
        &self.metric
    }

    fn ninstances(&self) -> (n: usize) {
        self.data.len()
    }

    fn shape(&self) -> (s: Vec<usize>) {
        let mut s: Vec<usize> = Vec::new();
        s.push(self.data.len());
        s.push(self.width);
        s
    }

    fn instance(&self, index: usize) -> (x: Vec<T>) {
        copy_instance(&self.data[index])
    }

    fn query_distance(&self, query: &Vec<T>, index: usize) -> (d: u64) {
        self.metric.distance(query, &self.data[index])
    }

    fn distance(&mut self, left: usize, right: usize) -> (d: u64)
        ensures
            final(self).rows() == old(self).rows(),
            final(self).caching() == old(self).caching(),
            final(self).cached() == if old(self).caching() && left != right {
                old(self).cached().insert(
                    if left < right {
                        spec_pair_key(left, right)
                    } else {
                        spec_pair_key(right, left)
                    },
                )
            } else {
                old(self).cached()
            },
    {
        if left == right {
            return 0;
        }
        let lo: usize = if left < right {
            left
        } else {
            right
        };
        let hi: usize = if left < right {
            right
        } else {
            left
        };
        if !self.use_cache {
            return self.metric.distance(&self.data[lo], &self.data[hi]);
        }
        let key: u128 = pair_key(lo, hi);
        let known: Option<u64> = match self.cache.get(&key) {
            Some(d) => Some(*d),
            None => None,
        };
        match known {
            Some(d) => d,
            None => {
                let d: u64 = self.metric.distance(&self.data[lo], &self.data[hi]);
                self.cache.insert(key, d);
                proof {
                    assert forall|i: usize, j: usize|
                        i < j < self.data@.len() && self.cache@.contains_key(
                            #[trigger] spec_pair_key(i, j),
                        ) implies self.cache@[spec_pair_key(i, j)] == self.metric.dist(
                        self.data@[i as int]@,
                        self.data@[j as int]@,
                    ) by {
                        if spec_pair_key(i, j) == key {
                            lemma_pair_key_injective(i, j, lo, hi);
                        }
                    }
                }
                d
            },
        }
    }
}

} // verus!
