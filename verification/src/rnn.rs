//! Range search: all the members of a tree within a radius of a query.

use vstd::prelude::*;
use crate::cluster::Cluster;
use crate::dataset::{lemma_pair_distance_is_metric, pair_distance, query_dist, Dataset};
use crate::metric::Metric;

verus! {

/// A search result: the index of an instance and its distance from the query.
pub type Hit = (usize, u64);

/// Whether one of `hits` is for the instance at index `i`.
pub open spec fn has_index(hits: Seq<Hit>, i: usize) -> bool {
    exists|j: int| 0 <= j < hits.len() && (#[trigger] hits[j]).0 == i
}

/// Whether `hits` are the members of `indices` within `radius` of the query `q`, each
/// once and with its distance, in any order.
pub open spec fn is_range_result<T, M: Metric<T>>(
    hits: Seq<Hit>,
    indices: Seq<usize>,
    m: M,
    xs: Seq<Seq<T>>,
    q: Seq<T>,
    radius: u64,
) -> bool {
    &&& forall|k: int|
        0 <= k < hits.len() ==> {
            &&& indices.contains((#[trigger] hits[k]).0)
            &&& hits[k].1 == query_dist(m, xs, q, hits[k].0 as int)
            &&& hits[k].1 <= radius
        }
    &&& forall|k: int|
        0 <= k < indices.len() && query_dist(m, xs, q, #[trigger] indices[k] as int) <= radius
            ==> has_index(hits, indices[k])
    &&& forall|i: int, j: int|
        0 <= i < j < hits.len() ==> (#[trigger] hits[i]).0 != (#[trigger] hits[j]).0
}

/// The bound that lets a search skip a cluster: under a metric that declares symmetry and
/// the triangle inequality, a member `x` of a cluster with center `c` is no nearer to a
/// query than the center is, less the distance between `c` and `x`.
pub proof fn lemma_lower_bound<T, M: Metric<T>>(m: M, xs: Seq<Seq<T>>, q: Seq<T>, c: int, x: int)
    requires
        m.valid(),
        m.symmetry(),
        m.triangle_inequality(),
    ensures
        query_dist(m, xs, q, c) <= query_dist(m, xs, q, x) + pair_distance(m, xs, c, x),
{
    if c != x {
        lemma_pair_distance_is_metric(m, xs, c, x);
        m.law_triangle(q, xs[x], xs[c]);
    }
}

/// Says whether a search may skip clusters: only under a metric that declares both
/// symmetry and the triangle inequality.
pub fn may_prune<T, M: Metric<T>>(metric: &M) -> (b: bool)
    ensures
        b == (metric.symmetry() && metric.triangle_inequality()),
{
    metric.has_symmetry() && metric.obeys_triangle_inequality()
}

/// Collects the members of the subtree of `node` within `radius` of the query.
pub fn rnn_visit<T, M: Metric<T>, D: Dataset<T, M>, A>(
    data: &D,
    node: &Cluster<A>,
    query: &Vec<T>,
    radius: u64,
    prune: bool,
) -> (hits: Vec<Hit>)
    requires
        data.wf(),
        node.wf(data.spec_metric(), data.instances()),
        prune ==> data.spec_metric().symmetry() && data.spec_metric().triangle_inequality(),
    ensures
        is_range_result(hits@, node.indices@, data.spec_metric(), data.instances(), query@, radius),
    decreases node,
{
    let ghost m = data.spec_metric();
    let ghost xs = data.instances();
    proof {
        data.lemma_metric_valid();
        let w = choose|w: int| 0 <= w < node.indices@.len() && node.indices@[w] == node.center;
    }
    if prune {
        let to_center: u64 = data.query_distance(query, node.center);
        if to_center as u128 > radius as u128 + node.radius as u128 {
            proof {
                assert forall|k: int| 0 <= k < node.indices@.len() implies query_dist(
                    m,
                    xs,
                    query@,
                    #[trigger] node.indices@[k] as int,
                ) > radius by {
                    lemma_lower_bound(m, xs, query@, node.center as int, node.indices@[k] as int);
                }
            }
            return Vec::new();
        }
    }
    match node.children() {
        Some((l, r)) => {
            let mut hits: Vec<Hit> = rnn_visit(data, l, query, radius, prune);
            let mut more: Vec<Hit> = rnn_visit(data, r, query, radius, prune);
            let ghost hl = hits@;
            let ghost hr = more@;
            hits.append(&mut more);
            proof {
                assert(hits@ =~= hl + hr);
                assert forall|k: int| 0 <= k < hits@.len() implies node.indices@.contains(
                    (#[trigger] hits@[k]).0,
                ) by {
                    if k < hl.len() {
                        assert(hits@[k] == hl[k]);
                        let w = choose|w: int| 0 <= w < l.indices@.len() && l.indices@[w] == hl[k].0;
                    } else {
                        assert(hits@[k] == hr[k - hl.len()]);
                        let w = choose|w: int|
                            0 <= w < r.indices@.len() && r.indices@[w] == hr[k - hl.len()].0;
                    }
                }
                assert forall|k: int|
                    0 <= k < node.indices@.len() && query_dist(
                        m,
                        xs,
                        query@,
                        #[trigger] node.indices@[k] as int,
                    ) <= radius implies has_index(hits@, node.indices@[k]) by {
                    let x = node.indices@[k];
                    if l.indices@.contains(x) {
                        let w = choose|w: int| 0 <= w < l.indices@.len() && l.indices@[w] == x;
                        assert(has_index(hl, l.indices@[w]));
                        let v = choose|v: int| 0 <= v < hl.len() && hl[v].0 == x;
                        assert(hits@[v].0 == x);
                    } else {
                        let w = choose|w: int| 0 <= w < r.indices@.len() && r.indices@[w] == x;
                        assert(has_index(hr, r.indices@[w]));
                        let v = choose|v: int| 0 <= v < hr.len() && hr[v].0 == x;
                        assert(hits@[hl.len() + v].0 == x);
                    }
                }
                assert forall|i: int, j: int| 0 <= i < j < hits@.len() implies (#[trigger] hits@[i]).0
                    != (#[trigger] hits@[j]).0 by {
                    if j < hl.len() {
                        assert(hl[i].0 != hl[j].0);
                    } else if i >= hl.len() {
                        assert(hr[i - hl.len()].0 != hr[j - hl.len()].0);
                    } else {
                        let a = choose|a: int| 0 <= a < l.indices@.len() && l.indices@[a] == hl[i].0;
                        let b = choose|b: int|
                            0 <= b < r.indices@.len() && r.indices@[b] == hr[j - hl.len()].0;
                        assert(l.indices@[a] != r.indices@[b]);
                    }
                }
            }
            hits
        },
        None => {
            let mut hits: Vec<Hit> = Vec::new();
            let mut k: usize = 0;
            while k < node.indices.len()
                invariant
                    k <= node.indices@.len(),
                    data.wf(),
                    m == data.spec_metric(),
                    xs == data.instances(),
                    node.wf(m, xs),
                    is_range_result(hits@, node.indices@.take(k as int), m, xs, query@, radius),
                decreases node.indices@.len() - k,
            {
                let i: usize = node.indices[k];
                let d: u64 = data.query_distance(query, i);
                let ghost before = hits@;
                let ghost seen = node.indices@.take(k as int);
                let ghost next = node.indices@.take(k + 1);
                if d <= radius {
                    hits.push((i, d));
                }
                proof {
                    assert(next[k as int] == i);
                    assert forall|p: int| 0 <= p < hits@.len() implies next.contains(
                        (#[trigger] hits@[p]).0,
                    ) by {
                        if p < before.len() {
                            let w = choose|w: int| 0 <= w < seen.len() && seen[w] == before[p].0;
                            assert(next[w] == hits@[p].0);
                        }
                    }
                    assert forall|p: int|
                        0 <= p < next.len() && query_dist(m, xs, query@, #[trigger] next[p] as int)
                            <= radius implies has_index(hits@, next[p]) by {
                        if p < k {
                            assert(seen[p] == next[p]);
                            assert(has_index(before, seen[p]));
                            let v = choose|v: int| 0 <= v < before.len() && before[v].0 == seen[p];
                            assert(hits@[v].0 == next[p]);
                        } else {
                            assert(hits@[before.len() as int].0 == next[p]);
                        }
                    }
                    assert forall|a: int, b: int| 0 <= a < b < hits@.len() implies (
                    #[trigger] hits@[a]).0 != (#[trigger] hits@[b]).0 by {
                        if b >= before.len() {
                            let w = choose|w: int| 0 <= w < seen.len() && seen[w] == before[a].0;
                            assert(node.indices@[w] != node.indices@[k as int]);
                        }
                    }
                }
                k = k + 1;
            }
            proof {
                assert(node.indices@.take(node.indices@.len() as int) =~= node.indices@);
            }
            hits
        },
    }
}

/// Range search: returns the members of the tree within `radius` of the query, each once
/// and with its distance, in no particular order. Clusters that the triangle inequality
/// shows to lie outside the radius are skipped.
pub fn rnn_clustered<T, M: Metric<T>, D: Dataset<T, M>, A>(
    data: &D,
    root: &Cluster<A>,
    query: &Vec<T>,
    radius: u64,
) -> (hits: Vec<Hit>)
    requires
        data.wf(),
        root.wf(data.spec_metric(), data.instances()),
    ensures
        is_range_result(hits@, root.indices@, data.spec_metric(), data.instances(), query@, radius),
{
    let prune: bool = may_prune(data.metric());
    rnn_visit(data, root, query, radius, prune)
}

} // verus!
