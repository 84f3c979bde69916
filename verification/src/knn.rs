//! Nearest-neighbour search: the `k` members of a tree nearest to a query, found
//! depth first, breadth first, or by range searches of growing radius.

use vstd::prelude::*;
use vstd::seq_lib::seq_to_set_is_finite;
use vstd::set_lib::lemma_len_subset;
use crate::best::{beaten, best_of, offer, precedes};
use crate::cluster::{
    first_members,
    lemma_first_members_all,
    lemma_first_members_next,
    lemma_split_sets,
    Cluster,
};
use crate::dataset::{in_range, query_dist, Dataset};
use crate::metric::Metric;
use crate::rnn::{has_index, is_range_result, lemma_lower_bound, may_prune, rnn_visit, Hit};

verus! {

/// Whether `hits` are the `k` members of `indices` nearest to the query `q`, nearest
/// first, where of two members at the same distance the one with the smaller index is
/// nearer; or all the members, in that order, where there are fewer than `k`.
pub open spec fn is_knn_result<T, M: Metric<T>>(
    hits: Seq<Hit>,
    indices: Seq<usize>,
    m: M,
    xs: Seq<Seq<T>>,
    q: Seq<T>,
    k: nat,
) -> bool {
    if k == 0 {
        hits.len() == 0
    } else {
        best_of(hits, indices.to_set(), m, xs, q, k)
    }
}

/// The indices of the hits, in their order.
pub open spec fn hit_indices(hits: Seq<Hit>) -> Seq<usize> {
    Seq::new(hits.len(), |j: int| hits[j].0)
}

/// An answer to a nearest-neighbour query over members that are all different holds `k`
/// hits, or as many as there are members where those are fewer, and no member twice.
pub proof fn lemma_knn_result_len<T, M: Metric<T>>(
    hits: Seq<Hit>,
    indices: Seq<usize>,
    m: M,
    xs: Seq<Seq<T>>,
    q: Seq<T>,
    k: nat,
)
    requires
        is_knn_result(hits, indices, m, xs, q, k),
        indices.no_duplicates(),
    ensures
        hits.len() == if k <= indices.len() {
            k
        } else {
            indices.len()
        },
        hit_indices(hits).no_duplicates(),
{
    if k > 0 {
        let found = hit_indices(hits);
        let members = indices.to_set();
        assert forall|i: int, j: int| 0 <= i < j < found.len() implies found[i] != found[j] by {
            assert(precedes(hits[i], hits[j]));
            assert(hits[i].1 == query_dist(m, xs, q, hits[i].0 as int));
            assert(hits[j].1 == query_dist(m, xs, q, hits[j].0 as int));
        }
        found.unique_seq_to_set();
        indices.unique_seq_to_set();
        seq_to_set_is_finite(indices);
        seq_to_set_is_finite(found);
        assert forall|x: usize| found.to_set().contains(x) implies members.contains(x) by {
            let j = choose|j: int| 0 <= j < found.len() && found[j] == x;
            assert(members.contains(hits[j].0));
        }
        lemma_len_subset(found.to_set(), members);
        if hits.len() < k {
            assert forall|x: usize| members.contains(x) implies found.to_set().contains(x) by {
                assert(has_index(hits, x));
                let j = choose|j: int| 0 <= j < hits.len() && hits[j].0 == x;
                assert(found[j] == x);
            }
            lemma_len_subset(members, found.to_set());
        }
    } else {
        assert(hit_indices(hits).len() == 0);
    }
}

/// Offers every member of a cluster to the best hits seen so far.
fn scan_members<T, M: Metric<T>, D: Dataset<T, M>, A>(
    data: &D,
    node: &Cluster<A>,
    query: &Vec<T>,
    k: usize,
    best: &mut Vec<Hit>,
    Ghost(seen): Ghost<Set<usize>>,
)
    requires
        k > 0,
        data.wf(),
        in_range(node.indices@, data.instances().len()),
        best_of(old(best)@, seen, data.spec_metric(), data.instances(), query@, k as nat),
    ensures
        best_of(
            final(best)@,
            seen.union(node.members()),
            data.spec_metric(),
            data.instances(),
            query@,
            k as nat,
        ),
{
    let ghost m = data.spec_metric();
    let ghost xs = data.instances();
    proof {
        lemma_first_members_all(node.indices@);
        assert(seen.union(first_members(node.indices@, 0)) =~= seen);
    }
    let mut j: usize = 0;
    while j < node.indices.len()
        invariant
            j <= node.indices@.len(),
            k > 0,
            data.wf(),
            m == data.spec_metric(),
            xs == data.instances(),
            in_range(node.indices@, xs.len()),
            best_of(
                best@,
                seen.union(first_members(node.indices@, j as int)),
                m,
                xs,
                query@,
                k as nat,
            ),
        decreases node.indices@.len() - j,
    {
        let i: usize = node.indices[j];
        let d: u64 = data.query_distance(query, i);
        offer::<T, M>(
            best,
            k,
            (i, d),
            Ghost(seen.union(first_members(node.indices@, j as int))),
            Ghost(m),
            Ghost(xs),
            Ghost(query@),
        );
        proof {
            lemma_first_members_next(node.indices@, j as int);
            assert(seen.union(first_members(node.indices@, j as int)).insert(i) =~= seen.union(
                first_members(node.indices@, j + 1),
            ));
        }
        j = j + 1;
    }
}

/// Whether the best hits are full and the triangle inequality shows every member of a
/// cluster at `to_center` from the query to come after the last of them.
fn out_of_reach(best: &Vec<Hit>, k: usize, to_center: u64, radius: u64) -> (b: bool)
    requires
        k > 0,
    ensures
        b == (best@.len() == k && to_center > best@[k - 1].1 + radius),
{
    best.len() == k && to_center as u128 > best[k - 1].1 as u128 + radius as u128
}

/// A cluster that is out of reach adds nothing to the best hits.
proof fn lemma_out_of_reach<T, M: Metric<T>, A>(
    best: Seq<Hit>,
    seen: Set<usize>,
    node: Cluster<A>,
    m: M,
    xs: Seq<Seq<T>>,
    q: Seq<T>,
    k: nat,
)
    requires
        k > 0,
        m.valid(),
        m.symmetry(),
        m.triangle_inequality(),
        node.wf(m, xs),
        best_of(best, seen, m, xs, q, k),
        best.len() == k,
        query_dist(m, xs, q, node.center as int) > best[k - 1].1 + node.radius,
    ensures
        best_of(best, seen.union(node.members()), m, xs, q, k),
{
    assert forall|i: usize| #[trigger] seen.union(node.members()).contains(i) implies has_index(
        best,
        i,
    ) || beaten(best, k, i, query_dist(m, xs, q, i as int)) by {
        if !seen.contains(i) {
            let w = choose|w: int| 0 <= w < node.indices@.len() && node.indices@[w] == i;
            lemma_lower_bound(m, xs, q, node.center as int, node.indices@[w] as int);
        }
    }
}

/// Visits the subtree of `node`, nearer child first, and offers its members to the best
/// hits seen so far. A cluster that is out of reach is skipped.
fn knn_visit<T, M: Metric<T>, D: Dataset<T, M>, A>(
    data: &D,
    node: &Cluster<A>,
    query: &Vec<T>,
    k: usize,
    prune: bool,
    best: &mut Vec<Hit>,
    Ghost(seen): Ghost<Set<usize>>,
)
    requires
        k > 0,
        data.wf(),
        node.wf(data.spec_metric(), data.instances()),
        prune ==> data.spec_metric().symmetry() && data.spec_metric().triangle_inequality(),
        best_of(old(best)@, seen, data.spec_metric(), data.instances(), query@, k as nat),
    ensures
        best_of(
            final(best)@,
            seen.union(node.members()),
            data.spec_metric(),
            data.instances(),
            query@,
            k as nat,
        ),
    decreases node,
{
    let ghost m = data.spec_metric();
    let ghost xs = data.instances();
    proof {
        data.lemma_metric_valid();
        let w = choose|w: int| 0 <= w < node.indices@.len() && node.indices@[w] == node.center;
    }
    let to_center: u64 = data.query_distance(query, node.center);
    if prune && out_of_reach(best, k, to_center, node.radius) {
        proof {
            lemma_out_of_reach(best@, seen, *node, m, xs, query@, k as nat);
        }
        return ;
    }
    offer::<T, M>(best, k, (node.center, to_center), Ghost(seen), Ghost(m), Ghost(xs), Ghost(query@));
    let ghost with_center = seen.insert(node.center);
    match node.children() {
        Some((l, r)) => {
            proof {
                lemma_split_sets(node.indices@, l.indices@, r.indices@);
                assert(l.wf(m, xs));
                assert(r.wf(m, xs));
                let w = choose|w: int| 0 <= w < l.indices@.len() && l.indices@[w] == l.center;
                let v = choose|v: int| 0 <= v < r.indices@.len() && r.indices@[v] == r.center;
            }
            let to_left: u64 = data.query_distance(query, l.center);
            let to_right: u64 = data.query_distance(query, r.center);
            if to_left <= to_right {
                knn_visit(data, l, query, k, prune, best, Ghost(with_center));
                knn_visit(data, r, query, k, prune, best, Ghost(with_center.union(l.members())));
                proof {
                    assert(with_center.union(l.members()).union(r.members()) =~= seen.union(
                        node.members(),
                    ));
                }
            } else {
                knn_visit(data, r, query, k, prune, best, Ghost(with_center));
                knn_visit(data, l, query, k, prune, best, Ghost(with_center.union(r.members())));
                proof {
                    assert(with_center.union(r.members()).union(l.members()) =~= seen.union(
                        node.members(),
                    ));
                }
            }
        },
        None => {
            scan_members(data, node, query, k, best, Ghost(with_center));
            proof {
                assert(with_center.union(node.members()) =~= seen.union(node.members()));
            }
        },
    }
}

/// Does the work of `knn_depth_first`.
fn depth_first_search<T, M: Metric<T>, D: Dataset<T, M>, A>(
    data: &D,
    root: &Cluster<A>,
    query: &Vec<T>,
    k: usize,
) -> (hits: Vec<Hit>)
    requires
        data.wf(),
        root.wf(data.spec_metric(), data.instances()),
    ensures
        is_knn_result(
            hits@,
            root.indices@,
            data.spec_metric(),
            data.instances(),
            query@,
            k as nat,
        ),
{
    let mut best: Vec<Hit> = Vec::new();
    if k == 0 {
        return best;
    }
    let prune: bool = may_prune(data.metric());
    knn_visit(data, root, query, k, prune, &mut best, Ghost(Set::<usize>::empty()));
    proof {
        assert(Set::<usize>::empty().union(root.members()) =~= root.members());
    }
    best
}

/// Whether one of the clusters of `frontier` from position `from` on has the member `i`.
pub open spec fn covered<A>(frontier: Seq<&Cluster<A>>, from: int, i: usize) -> bool {
    exists|c: int|
        from <= c < frontier.len() && 0 <= c && (#[trigger] frontier[c]).indices@.contains(i)
}

/// Whether each cluster of `frontier` is well formed, has fewer than `budget` levels
/// below it, and has only members of `root`.
pub open spec fn frontier_ok<A, T, M: Metric<T>>(
    frontier: Seq<&Cluster<A>>,
    root: Seq<usize>,
    budget: nat,
    m: M,
    xs: Seq<Seq<T>>,
) -> bool {
    forall|c: int|
        0 <= c < frontier.len() ==> {
            &&& (#[trigger] frontier[c]).wf(m, xs)
            &&& frontier[c].height() < budget
            &&& forall|x: usize| frontier[c].indices@.contains(x) ==> root.contains(x)
        }
}

/// Does the work of `knn_breadth_first`.
fn breadth_first_search<T, M: Metric<T>, D: Dataset<T, M>, A>(
    data: &D,
    root: &Cluster<A>,
    query: &Vec<T>,
    k: usize,
) -> (hits: Vec<Hit>)
    requires
        data.wf(),
        root.wf(data.spec_metric(), data.instances()),
    ensures
        is_knn_result(
            hits@,
            root.indices@,
            data.spec_metric(),
            data.instances(),
            query@,
            k as nat,
        ),
{
    let ghost m = data.spec_metric();
    let ghost xs = data.instances();
    let mut best: Vec<Hit> = Vec::new();
    if k == 0 {
        return best;
    }
    proof {
        data.lemma_metric_valid();
    }
    let prune: bool = may_prune(data.metric());
    let mut frontier: Vec<&Cluster<A>> = Vec::new();
    frontier.push(root);
    let ghost mut seen: Set<usize> = Set::empty();
    let ghost mut budget: nat = root.height() + 1;
    proof {
        assert forall|i: usize| root.members().contains(i) implies seen.contains(i) || covered(
            frontier@,
            0,
            i,
        ) by {
            assert(frontier@[0].indices@.contains(i));
        }
    }
    while frontier.len() > 0
        invariant
            k > 0,
            data.wf(),
            m == data.spec_metric(),
            xs == data.instances(),
            m.valid(),
            prune ==> m.symmetry() && m.triangle_inequality(),
            best_of(best@, seen, m, xs, query@, k as nat),
            frontier_ok(frontier@, root.indices@, budget, m, xs),
            seen.subset_of(root.members()),
            forall|i: usize|
                root.members().contains(i) ==> seen.contains(i) || covered(frontier@, 0, i),
        decreases budget,
    {
        proof {
            assert(frontier@[0].height() < budget);
        }
        let mut next: Vec<&Cluster<A>> = Vec::new();
        let mut c: usize = 0;
        while c < frontier.len()
            invariant
                c <= frontier@.len(),
                k > 0,
                data.wf(),
                m == data.spec_metric(),
                xs == data.instances(),
                m.valid(),
                prune ==> m.symmetry() && m.triangle_inequality(),
                best_of(best@, seen, m, xs, query@, k as nat),
                frontier_ok(frontier@, root.indices@, budget, m, xs),
                budget > 0 ==> frontier_ok(next@, root.indices@, (budget - 1) as nat, m, xs),
                budget == 0 ==> next@.len() == 0,
                seen.subset_of(root.members()),
                forall|i: usize|
                    root.members().contains(i) ==> seen.contains(i) || covered(
                        frontier@,
                        c as int,
                        i,
                    ) || covered(next@, 0, i),
            decreases frontier@.len() - c,
        {
            let node: &Cluster<A> = frontier[c];
            let ghost old_seen = seen;
            let ghost old_next = next@;
            proof {
                assert(frontier@[c as int].wf(m, xs));
                let w = choose|w: int|
                    0 <= w < node.indices@.len() && node.indices@[w] == node.center;
                assert(node.indices@.contains(node.center));
            }
            let to_center: u64 = data.query_distance(query, node.center);
            if prune && out_of_reach(&best, k, to_center, node.radius) {
                proof {
                    lemma_out_of_reach(best@, seen, *node, m, xs, query@, k as nat);
                    seen = seen.union(node.members());
                }
            } else {
                offer::<T, M>(
                    &mut best,
                    k,
                    (node.center, to_center),
                    Ghost(seen),
                    Ghost(m),
                    Ghost(xs),
                    Ghost(query@),
                );
                match node.children() {
                    Some((l, r)) => {
                        next.push(l);
                        next.push(r);
                        proof {
                            seen = seen.insert(node.center);
                            assert(next@[old_next.len() as int] == l);
                            assert(next@[old_next.len() as int + 1] == r);
                            assert forall|e: int| 0 <= e < next@.len() implies {
                                &&& (#[trigger] next@[e]).wf(m, xs)
                                &&& next@[e].height() < (budget - 1) as nat
                                &&& forall|x: usize|
                                    next@[e].indices@.contains(x) ==> root.indices@.contains(x)
                            } by {
                                if e < old_next.len() {
                                    assert(next@[e] == old_next[e]);
                                } else {
                                    assert forall|x: usize|
                                        next@[e].indices@.contains(x) implies root.indices@.contains(
                                        x,
                                    ) by {
                                        let w = choose|w: int|
                                            0 <= w < next@[e].indices@.len() && next@[e].indices@[w]
                                                == x;
                                        assert(node.indices@.contains(next@[e].indices@[w]));
                                    }
                                }
                            }
                        }
                    },
                    None => {
                        scan_members(data, node, query, k, &mut best, Ghost(seen.insert(node.center)));
                        proof {
                            seen = seen.insert(node.center).union(node.members());
                        }
                    },
                }
            }
            proof {
                assert forall|i: usize| root.members().contains(i) implies seen.contains(i)
                    || covered(frontier@, c + 1, i) || covered(next@, 0, i) by {
                    if old_seen.contains(i) {
                    } else if covered(old_next, 0, i) {
                        let e = choose|e: int|
                            0 <= e < old_next.len() && (#[trigger] old_next[e]).indices@.contains(i);
                        assert(next@[e] == old_next[e]);
                    } else {
                        let e = choose|e: int|
                            c <= e < frontier@.len() && 0 <= e && (
                            #[trigger] frontier@[e]).indices@.contains(i);
                        if e == c {
                            if !seen.contains(i) {
                                let w = choose|w: int|
                                    0 <= w < node.indices@.len() && node.indices@[w] == i;
                                let l = next@[old_next.len() as int];
                                let r = next@[old_next.len() as int + 1];
                                assert(l.indices@.contains(node.indices@[w]) || r.indices@.contains(
                                    node.indices@[w],
                                ));
                            }
                        }
                    }
                }
                assert forall|x: usize| seen.contains(x) implies root.members().contains(x) by {
                    if !old_seen.contains(x) {
                        assert(node.indices@.contains(x));
                    }
                }
            }
            c = c + 1;
        }
        frontier = next;
        proof {
            if budget > 0 {
                budget = (budget - 1) as nat;
            }
        }
    }
    proof {
        assert(seen =~= root.members());
    }
    best
}

/// Returns `radius` times `step`, or the largest radius where that is too large.
fn grow_radius(radius: u64, step: u64) -> (wider: u64)
    ensures
        wider == if radius * step > u64::MAX {
            u64::MAX as int
        } else {
            radius * step
        },
{
    match radius.checked_mul(step) {
        Some(w) => w,
        None => u64::MAX,
    }
}

/// Does the work of `knn_repeated_rnn`.
fn repeated_rnn_search<T, M: Metric<T>, D: Dataset<T, M>, A>(
    data: &D,
    root: &Cluster<A>,
    query: &Vec<T>,
    k: usize,
    multiplier: u64,
) -> (hits: Vec<Hit>)
    requires
        data.wf(),
        root.wf(data.spec_metric(), data.instances()),
    ensures
        is_knn_result(
            hits@,
            root.indices@,
            data.spec_metric(),
            data.instances(),
            query@,
            k as nat,
        ),
{
    let ghost m = data.spec_metric();
    let ghost xs = data.instances();
    let mut best: Vec<Hit> = Vec::new();
    if k == 0 {
        return best;
    }
    if root.indices.len() < k {
        scan_members(data, root, query, k, &mut best, Ghost(Set::<usize>::empty()));
        proof {
            assert(Set::<usize>::empty().union(root.members()) =~= root.members());
        }
        return best;
    }
    let prune: bool = may_prune(data.metric());
    let step: u64 = if multiplier < 2 {
        2
    } else {
        multiplier
    };
    let mut radius: u64 = root.radius / (root.indices.len() as u64);
    if radius == 0 {
        radius = 1;
    }
    let mut found: Vec<Hit> = rnn_visit(data, root, query, radius, prune);
    while found.len() < k && radius < u64::MAX
        invariant
            data.wf(),
            m == data.spec_metric(),
            xs == data.instances(),
            root.wf(m, xs),
            prune ==> m.symmetry() && m.triangle_inequality(),
            step >= 2,
            radius >= 1,
            is_range_result(found@, root.indices@, m, xs, query@, radius),
        decreases u64::MAX - radius,
    {
        proof {
            assert(radius * step >= radius * 2) by (nonlinear_arith)
                requires
                    step >= 2,
                    radius >= 1,
            ;
        }
        radius = grow_radius(radius, step);
        found = rnn_visit(data, root, query, radius, prune);
    }
    if found.len() < k {
        scan_members(data, root, query, k, &mut best, Ghost(Set::<usize>::empty()));
        proof {
            assert(Set::<usize>::empty().union(root.members()) =~= root.members());
        }
        return best;
    }
    let ghost mut seen: Set<usize> = Set::empty();
    let mut j: usize = 0;
    while j < found.len()
        invariant
            j <= found@.len(),
            k > 0,
            is_range_result(found@, root.indices@, m, xs, query@, radius),
            best_of(best@, seen, m, xs, query@, k as nat),
            seen == Set::new(|x: usize| exists|t: int| 0 <= t < j && (#[trigger] found@[t]).0 == x),
            best@.len() == if j <= k {
                j as nat
            } else {
                k as nat
            },
            forall|e: int| 0 <= e < best@.len() ==> (#[trigger] best@[e]).1 <= radius,
            forall|e: int| 0 <= e < best@.len() ==> found@.contains(#[trigger] best@[e]),
        decreases found@.len() - j,
    {
        let hit: Hit = found[j];
        let ghost before = best@;
        proof {
            if has_index(before, hit.0) {
                let e = choose|e: int| 0 <= e < before.len() && before[e].0 == hit.0;
                assert(seen.contains(before[e].0));
                let t = choose|t: int| 0 <= t < j && (#[trigger] found@[t]).0 == hit.0;
                assert(found@[t].0 != found@[j as int].0);
            }
        }
        offer::<T, M>(&mut best, k, hit, Ghost(seen), Ghost(m), Ghost(xs), Ghost(query@));
        proof {
            let wider = Set::new(
                |x: usize| exists|t: int| 0 <= t < j + 1 && (#[trigger] found@[t]).0 == x,
            );
            assert forall|x: usize| seen.insert(hit.0).contains(x) == wider.contains(x) by {
                if seen.contains(x) {
                    let t = choose|t: int| 0 <= t < j && (#[trigger] found@[t]).0 == x;
                    assert(0 <= t < j + 1 && found@[t].0 == x);
                }
                if x == hit.0 {
                    assert(found@[j as int].0 == x);
                }
                if wider.contains(x) {
                    let t = choose|t: int| 0 <= t < j + 1 && (#[trigger] found@[t]).0 == x;
                    if t < j {
                        assert(seen.contains(x));
                    }
                }
            }
            assert(seen.insert(hit.0) =~= wider);
            seen = wider;
            assert forall|e: int| 0 <= e < best@.len() implies found@.contains(
                #[trigger] best@[e],
            ) by {
                if best@[e] == hit {
                    assert(found@[j as int] == hit);
                }
            }
            assert forall|e: int| 0 <= e < best@.len() implies (#[trigger] best@[e]).1
                <= radius by {
                let t = choose|t: int| 0 <= t < found@.len() && found@[t] == best@[e];
            }
        }
        j = j + 1;
    }
    proof {
        assert forall|e: int| 0 <= e < best@.len() implies root.members().contains(
            (#[trigger] best@[e]).0,
        ) by {
            let t = choose|t: int| 0 <= t < found@.len() && found@[t] == best@[e];
            assert(root.indices@.contains(found@[t].0));
        }
        assert forall|i: usize| #[trigger] root.members().contains(i) implies has_index(best@, i)
            || beaten(best@, k as nat, i, query_dist(m, xs, query@, i as int)) by {
            if !seen.contains(i) {
                let w = choose|w: int| 0 <= w < root.indices@.len() && root.indices@[w] == i;
                if query_dist(m, xs, query@, root.indices@[w] as int) <= radius {
                    assert(has_index(found@, root.indices@[w]));
                    let t = choose|t: int| 0 <= t < found@.len() && found@[t].0 == i;
                    assert(seen.contains(i));
                }
            }
        }
    }
    best
}

/// Nearest-neighbour search, depth first: returns the `k` members of the tree nearest to
/// the query, nearest first, or all of them where the tree has fewer. The nearer child
/// of a cluster is visited first, and a cluster is skipped once `k` hits are known and
/// the triangle inequality shows that none of its members can be among the nearest.
pub fn knn_depth_first<T, M: Metric<T>, D: Dataset<T, M>, A>(
    data: &D,
    root: &Cluster<A>,
    query: &Vec<T>,
    k: usize,
) -> (hits: Vec<Hit>)
    requires
        data.wf(),
        root.wf(data.spec_metric(), data.instances()),
    ensures
        is_knn_result(
            hits@,
            root.indices@,
            data.spec_metric(),
            data.instances(),
            query@,
            k as nat,
        ),
        hits@.len() == if k <= root.indices@.len() {
            k as nat
        } else {
            root.indices@.len()
        },
        hit_indices(hits@).no_duplicates(),
{
    let hits: Vec<Hit> = depth_first_search(data, root, query, k);
    proof {
        lemma_knn_result_len(
            hits@,
            root.indices@,
            data.spec_metric(),
            data.instances(),
            query@,
            k as nat,
        );
    }
    hits
}

/// Nearest-neighbour search, breadth first: returns the `k` members of the tree nearest
/// to the query, nearest first, or all of them where the tree has fewer. The tree is
/// visited level by level, the centers are offered on the way, and a cluster is skipped
/// once `k` hits are known and the triangle inequality shows that none of its members
/// can be among the nearest.
pub fn knn_breadth_first<T, M: Metric<T>, D: Dataset<T, M>, A>(
    data: &D,
    root: &Cluster<A>,
    query: &Vec<T>,
    k: usize,
) -> (hits: Vec<Hit>)
    requires
        data.wf(),
        root.wf(data.spec_metric(), data.instances()),
    ensures
        is_knn_result(
            hits@,
            root.indices@,
            data.spec_metric(),
            data.instances(),
            query@,
            k as nat,
        ),
        hits@.len() == if k <= root.indices@.len() {
            k as nat
        } else {
            root.indices@.len()
        },
        hit_indices(hits@).no_duplicates(),
{
    let hits: Vec<Hit> = breadth_first_search(data, root, query, k);
    proof {
        lemma_knn_result_len(
            hits@,
            root.indices@,
            data.spec_metric(),
            data.instances(),
            query@,
            k as nat,
        );
    }
    hits
}

/// Nearest-neighbour search by repeated range search: returns the `k` members of the
/// tree nearest to the query, nearest first, or all of them where the tree has fewer.
///
/// The first range search has the radius of the root divided by the number of its
/// members, and at least 1. While a search finds fewer than `k` members, the radius is
/// multiplied by `multiplier`, or by 2 where `multiplier` is smaller. A search may find
/// more than `k`; the nearest `k` of them are returned.
pub fn knn_repeated_rnn<T, M: Metric<T>, D: Dataset<T, M>, A>(
    data: &D,
    root: &Cluster<A>,
    query: &Vec<T>,
    k: usize,
    multiplier: u64,
) -> (hits: Vec<Hit>)
    requires
        data.wf(),
        root.wf(data.spec_metric(), data.instances()),
    ensures
        is_knn_result(
            hits@,
            root.indices@,
            data.spec_metric(),
            data.instances(),
            query@,
            k as nat,
        ),
        hits@.len() == if k <= root.indices@.len() {
            k as nat
        } else {
            root.indices@.len()
        },
        hit_indices(hits@).no_duplicates(),
{
    let hits: Vec<Hit> = repeated_rnn_search(data, root, query, k, multiplier);
    proof {
        lemma_knn_result_len(
            hits@,
            root.indices@,
            data.spec_metric(),
            data.instances(),
            query@,
            k as nat,
        );
    }
    hits
}

} // verus!
