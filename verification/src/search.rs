//! The family of search algorithms, and what it means for two of them to agree.

use vstd::prelude::*;
use crate::best::{beaten, best_of, precedes};
use crate::cluster::Cluster;
use crate::dataset::{query_dist, Dataset};
use crate::knn::{is_knn_result, knn_breadth_first, knn_depth_first, knn_repeated_rnn};
use crate::metric::Metric;
use crate::rnn::{has_index, is_range_result, rnn_clustered, Hit};

verus! {

/// A search algorithm with its parameters.
#[derive(Clone, Copy, Debug, PartialEq, Eq)]
pub enum Algorithm {
    /// Range search with the given radius.
    RnnClustered(u64),
    /// Nearest-neighbour search for the given `k`, depth first.
    KnnDepthFirst(usize),
    /// Nearest-neighbour search for the given `k`, breadth first.
    KnnBreadthFirst(usize),
    /// Nearest-neighbour search for the given `k` by range searches whose radius grows
    /// by the given multiplier.
    KnnRepeatedRnn(usize, u64),
}

impl Algorithm {
    /// Whether `hits` answer the query `q` over the members `indices`, as this algorithm
    /// is to answer it.
    pub open spec fn answers<T, M: Metric<T>>(
        self,
        hits: Seq<Hit>,
        indices: Seq<usize>,
        m: M,
        xs: Seq<Seq<T>>,
        q: Seq<T>,
    ) -> bool {
        match self {
            Algorithm::RnnClustered(radius) => is_range_result(hits, indices, m, xs, q, radius),
            Algorithm::KnnDepthFirst(k) => is_knn_result(hits, indices, m, xs, q, k as nat),
            Algorithm::KnnBreadthFirst(k) => is_knn_result(hits, indices, m, xs, q, k as nat),
            Algorithm::KnnRepeatedRnn(k, _) => is_knn_result(hits, indices, m, xs, q, k as nat),
        }
    }

    /// Searches the tree for one query.
    pub fn search<T, M: Metric<T>, D: Dataset<T, M>, A>(
        &self,
        data: &D,
        root: &Cluster<A>,
        query: &Vec<T>,
    ) -> (hits: Vec<Hit>)
        requires
            data.wf(),
            root.wf(data.spec_metric(), data.instances()),
        ensures
            self.answers(hits@, root.indices@, data.spec_metric(), data.instances(), query@),
    {
        match self {
            Algorithm::RnnClustered(radius) => rnn_clustered(data, root, query, *radius),
            Algorithm::KnnDepthFirst(k) => knn_depth_first(data, root, query, *k),
            Algorithm::KnnBreadthFirst(k) => knn_breadth_first(data, root, query, *k),
            Algorithm::KnnRepeatedRnn(k, multiplier) => knn_repeated_rnn(
                data,
                root,
                query,
                *k,
                *multiplier,
            ),
        }
    }

    /// Searches the tree for each of the queries, and returns the hits in their order.
    pub fn batch_search<T, M: Metric<T>, D: Dataset<T, M>, A>(
        &self,
        data: &D,
        root: &Cluster<A>,
        queries: &Vec<Vec<T>>,
    ) -> (all: Vec<Vec<Hit>>)
        requires
            data.wf(),
            root.wf(data.spec_metric(), data.instances()),
        ensures
            all@.len() == queries@.len(),
            forall|i: int|
                0 <= i < queries@.len() ==> self.answers(
                    (#[trigger] all@[i])@,
                    root.indices@,
                    data.spec_metric(),
                    data.instances(),
                    queries@[i]@,
                ),
    {
        let mut all: Vec<Vec<Hit>> = Vec::new();
        let mut i: usize = 0;
        while i < queries.len()
            invariant
                i <= queries@.len(),
                data.wf(),
                root.wf(data.spec_metric(), data.instances()),
                all@.len() == i,
                forall|j: int|
                    0 <= j < i ==> self.answers(
                        (#[trigger] all@[j])@,
                        root.indices@,
                        data.spec_metric(),
                        data.instances(),
                        queries@[j]@,
                    ),
            decreases queries@.len() - i,
        {
            let hits: Vec<Hit> = self.search(data, root, &queries[i]);
            all.push(hits);
            i = i + 1;
        }
        all
    }
}

/// Two answers to the same range query hold the same hits.
pub proof fn lemma_range_results_agree<T, M: Metric<T>>(
    a: Seq<Hit>,
    b: Seq<Hit>,
    indices: Seq<usize>,
    m: M,
    xs: Seq<Seq<T>>,
    q: Seq<T>,
    radius: u64,
)
    requires
        is_range_result(a, indices, m, xs, q, radius),
        is_range_result(b, indices, m, xs, q, radius),
    ensures
        a.to_set() == b.to_set(),
{
    assert forall|h: Hit| a.to_set().contains(h) == b.to_set().contains(h) by {
        if a.contains(h) {
            lemma_range_hit_shared(a, b, indices, m, xs, q, radius, h);
        }
        if b.contains(h) {
            lemma_range_hit_shared(b, a, indices, m, xs, q, radius, h);
        }
    }
    assert(a.to_set() =~= b.to_set());
}

/// A hit of one answer to a range query is a hit of any other.
proof fn lemma_range_hit_shared<T, M: Metric<T>>(
    a: Seq<Hit>,
    b: Seq<Hit>,
    indices: Seq<usize>,
    m: M,
    xs: Seq<Seq<T>>,
    q: Seq<T>,
    radius: u64,
    h: Hit,
)
    requires
        is_range_result(a, indices, m, xs, q, radius),
        is_range_result(b, indices, m, xs, q, radius),
        a.contains(h),
    ensures
        b.contains(h),
{
    let j = choose|j: int| 0 <= j < a.len() && a[j] == h;
    assert(indices.contains(a[j].0));
    let w = choose|w: int| 0 <= w < indices.len() && indices[w] == h.0;
    assert(has_index(b, indices[w]));
    let e = choose|e: int| 0 <= e < b.len() && b[e].0 == h.0;
    assert(b[e].1 == query_dist(m, xs, q, b[e].0 as int));
    assert(b[e] == h);
}

/// A hit of one answer to a nearest-neighbour query is a hit of any other.
proof fn lemma_knn_hit_shared<T, M: Metric<T>>(
    a: Seq<Hit>,
    b: Seq<Hit>,
    seen: Set<usize>,
    m: M,
    xs: Seq<Seq<T>>,
    q: Seq<T>,
    k: nat,
    j: int,
)
    requires
        best_of(a, seen, m, xs, q, k),
        best_of(b, seen, m, xs, q, k),
        0 <= j < a.len(),
    ensures
        has_index(b, a[j].0),
    decreases a.len() - j,
{
    let i = a[j].0;
    assert(seen.contains(a[j].0));
    if !has_index(b, i) {
        // Then `b` is full and all of it comes before `a[j]`, so all of it is in `a`
        // before position `j`, which has room for fewer than `k`.
        assert(beaten(b, k, i, query_dist(m, xs, q, i as int)));
        assert forall|e: int| 0 <= e < b.len() implies precedes(#[trigger] b[e], a[j]) by {
            if e < k - 1 {
                assert(precedes(b[e], b[k - 1]));
            }
        }
        lemma_prefix_holds(a, b, seen, m, xs, q, k, j, b.len() as int);
    }
}

/// Hits of `b` that all come before `a[j]` and are all in `a` are fewer than `j + 1`.
proof fn lemma_prefix_holds<T, M: Metric<T>>(
    a: Seq<Hit>,
    b: Seq<Hit>,
    seen: Set<usize>,
    m: M,
    xs: Seq<Seq<T>>,
    q: Seq<T>,
    k: nat,
    j: int,
    n: int,
)
    requires
        best_of(a, seen, m, xs, q, k),
        best_of(b, seen, m, xs, q, k),
        0 <= j < a.len(),
        0 <= n <= b.len(),
        forall|e: int| 0 <= e < b.len() ==> precedes(#[trigger] b[e], a[j]),
    ensures
        n <= j,
        forall|e: int| 0 <= e < n ==> #[trigger] b[e] == a[e],
    decreases n,
{
    if n > 0 {
        lemma_prefix_holds(a, b, seen, m, xs, q, k, j, n - 1);
        // b[n - 1] is a hit for a member, so `a` has it or it comes after all of `a`.
        let h = b[n - 1];
        assert(seen.contains(b[n - 1].0));
        assert(precedes(h, a[j]));
        if has_index(a, h.0) {
            let p = choose|p: int| 0 <= p < a.len() && a[p].0 == h.0;
            assert(a[p].1 == query_dist(m, xs, q, a[p].0 as int));
            assert(a[p] == h);
            // It stands after the n - 1 hits before it and before a[j].
            if p < n - 1 {
                assert(b[p] == a[p]);
                assert(precedes(b[p], b[n - 1]));
            }
            if p >= j {
                if p > j {
                    assert(precedes(a[j], a[p]));
                }
            }
            if p > n - 1 {
                // a[n - 1] comes before a[p] = b[n - 1], and is a member's hit, so `b`
                // has it, at a position before n - 1, where `b` agrees with `a`.
                assert(precedes(a[n - 1], a[p]));
                assert(seen.contains(a[n - 1].0));
                if has_index(b, a[n - 1].0) {
                    let t = choose|t: int| 0 <= t < b.len() && b[t].0 == a[n - 1].0;
                    assert(b[t].1 == query_dist(m, xs, q, b[t].0 as int));
                    assert(b[t] == a[n - 1]);
                    if t < n - 1 {
                        assert(b[t] == a[t]);
                        assert(precedes(a[t], a[n - 1]));
                    } else if t > n - 1 {
                        assert(precedes(b[n - 1], b[t]));
                    }
                } else {
                    assert(beaten(b, k, a[n - 1].0, query_dist(m, xs, q, a[n - 1].0 as int)));
                    if n - 1 < k - 1 {
                        assert(precedes(b[n - 1], b[k - 1]));
                    }
                }
                assert(false);
            }
        } else {
            assert(beaten(a, k, h.0, query_dist(m, xs, q, h.0 as int)));
            if j < k - 1 {
                assert(precedes(a[j], a[k - 1]));
            }
            assert(false);
        }
    }
}

/// Two answers to the same nearest-neighbour query are the same hits in the same order.
pub proof fn lemma_knn_results_agree<T, M: Metric<T>>(
    a: Seq<Hit>,
    b: Seq<Hit>,
    indices: Seq<usize>,
    m: M,
    xs: Seq<Seq<T>>,
    q: Seq<T>,
    k: nat,
)
    requires
        is_knn_result(a, indices, m, xs, q, k),
        is_knn_result(b, indices, m, xs, q, k),
    ensures
        a == b,
{
    if k > 0 {
        let seen = indices.to_set();
        lemma_knn_prefix(a, b, seen, m, xs, q, k, a.len() as int);
        lemma_knn_prefix(b, a, seen, m, xs, q, k, b.len() as int);
        assert(a =~= b);
    } else {
        assert(a =~= b);
    }
}

/// The first `n` hits of one answer to a nearest-neighbour query are the first `n` of
/// any other.
proof fn lemma_knn_prefix<T, M: Metric<T>>(
    a: Seq<Hit>,
    b: Seq<Hit>,
    seen: Set<usize>,
    m: M,
    xs: Seq<Seq<T>>,
    q: Seq<T>,
    k: nat,
    n: int,
)
    requires
        best_of(a, seen, m, xs, q, k),
        best_of(b, seen, m, xs, q, k),
        0 <= n <= a.len(),
    ensures
        n <= b.len(),
        forall|e: int| 0 <= e < n ==> #[trigger] a[e] == b[e],
    decreases n,
{
    if n > 0 {
        lemma_knn_prefix(a, b, seen, m, xs, q, k, n - 1);
        let h = a[n - 1];
        lemma_knn_hit_shared(a, b, seen, m, xs, q, k, n - 1);
        let t = choose|t: int| 0 <= t < b.len() && b[t].0 == h.0;
        assert(b[t].1 == query_dist(m, xs, q, b[t].0 as int));
        assert(a[n - 1].1 == query_dist(m, xs, q, a[n - 1].0 as int));
        assert(b[t] == h);
        if t < n - 1 {
            assert(a[t] == b[t]);
            assert(precedes(a[t], a[n - 1]));
        } else if t > n - 1 {
            // b[n - 1] comes before b[t] = a[n - 1]; `a` has it, at a position after
            // n - 1 or before, and neither can be.
            assert(precedes(b[n - 1], b[t]));
            lemma_knn_hit_shared(b, a, seen, m, xs, q, k, n - 1);
            let p = choose|p: int| 0 <= p < a.len() && a[p].0 == b[n - 1].0;
            assert(a[p].1 == query_dist(m, xs, q, a[p].0 as int));
            assert(b[n - 1].1 == query_dist(m, xs, q, b[n - 1].0 as int));
            assert(a[p] == b[n - 1]);
            if p < n - 1 {
                assert(a[p] == b[p]);
                assert(precedes(b[p], b[n - 1]));
            } else if p > n - 1 {
                assert(precedes(a[n - 1], a[p]));
            }
            assert(false);
        }
    }
}

/// Searching the compressed form gives what searching the plain form gives: two answers
/// of one algorithm to one query, over trees with the same members and datasets with the
/// same instances and metric, hold the same hits.
pub proof fn lemma_search_equivalence<T, M: Metric<T>>(
    algorithm: Algorithm,
    a: Seq<Hit>,
    b: Seq<Hit>,
    indices: Seq<usize>,
    m: M,
    xs: Seq<Seq<T>>,
    q: Seq<T>,
)
    requires
        algorithm.answers(a, indices, m, xs, q),
        algorithm.answers(b, indices, m, xs, q),
    ensures
        a.to_set() == b.to_set(),
        !(algorithm is RnnClustered) ==> a == b,
{
    match algorithm {
        Algorithm::RnnClustered(radius) => {
            lemma_range_results_agree(a, b, indices, m, xs, q, radius);
        },
        Algorithm::KnnDepthFirst(k) => {
            lemma_knn_results_agree(a, b, indices, m, xs, q, k as nat);
        },
        Algorithm::KnnBreadthFirst(k) => {
            lemma_knn_results_agree(a, b, indices, m, xs, q, k as nat);
        },
        Algorithm::KnnRepeatedRnn(k, _) => {
            lemma_knn_results_agree(a, b, indices, m, xs, q, k as nat);
        },
    }
}

/// The three nearest-neighbour algorithms give the same hits for the same `k`, whatever
/// the order in which they visit the tree.
pub proof fn lemma_knn_variants_agree<T, M: Metric<T>>(
    first: Algorithm,
    second: Algorithm,
    k: usize,
    a: Seq<Hit>,
    b: Seq<Hit>,
    indices: Seq<usize>,
    m: M,
    xs: Seq<Seq<T>>,
    q: Seq<T>,
)
    requires
        first == Algorithm::KnnDepthFirst(k) || first == Algorithm::KnnBreadthFirst(k) || exists|
            x: u64,
        |
            first == Algorithm::KnnRepeatedRnn(k, x),
        second == Algorithm::KnnDepthFirst(k) || second == Algorithm::KnnBreadthFirst(k)
            || exists|x: u64| second == Algorithm::KnnRepeatedRnn(k, x),
        first.answers(a, indices, m, xs, q),
        second.answers(b, indices, m, xs, q),
    ensures
        a == b,
{
    lemma_knn_results_agree(a, b, indices, m, xs, q, k as nat);
}

} // verus!
