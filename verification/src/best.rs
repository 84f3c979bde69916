//! The best hits seen so far: a bounded collection kept in order of distance.

use vstd::prelude::*;
use crate::metric::Metric;
use crate::dataset::query_dist;
use crate::rnn::{has_index, Hit};

verus! {

/// The order of hits: by distance, and by index where the distances are equal.
pub open spec fn precedes(a: Hit, b: Hit) -> bool {
    a.1 < b.1 || (a.1 == b.1 && a.0 < b.0)
}

/// Whether each hit precedes all later ones.
pub open spec fn sorted(hits: Seq<Hit>) -> bool {
    forall|i: int, j: int| 0 <= i < j < hits.len() ==> precedes(#[trigger] hits[i], #[trigger] hits[j])
}

/// Whether `best` is full and its last hit precedes one for the instance at index `i` at
/// distance `d`, so that such a hit has no place in it.
pub open spec fn beaten(best: Seq<Hit>, k: nat, i: usize, d: nat) -> bool {
    &&& best.len() == k
    &&& k > 0
    &&& best[k - 1].1 < d || (best[k - 1].1 == d && best[k - 1].0 < i)
}

/// Whether `best` holds the `k` first hits, in order, among those of the instances in
/// `seen`, or all of them where `seen` has fewer than `k`.
pub open spec fn best_of<T, M: Metric<T>>(
    best: Seq<Hit>,
    seen: Set<usize>,
    m: M,
    xs: Seq<Seq<T>>,
    q: Seq<T>,
    k: nat,
) -> bool {
    &&& best.len() <= k
    &&& sorted(best)
    &&& forall|j: int|
        0 <= j < best.len() ==> seen.contains((#[trigger] best[j]).0) && best[j].1 == query_dist(
            m,
            xs,
            q,
            best[j].0 as int,
        )
    &&& forall|i: usize| #[trigger]
        seen.contains(i) ==> has_index(best, i) || beaten(
            best,
            k,
            i,
            query_dist(m, xs, q, i as int),
        )
}

/// Says whether one hit precedes another.
pub fn comes_before(a: Hit, b: Hit) -> (r: bool)
    ensures
        r == precedes(a, b),
{
    a.1 < b.1 || (a.1 == b.1 && a.0 < b.0)
}

/// What a sequence holds after an insertion.
pub proof fn lemma_insert_entries(s: Seq<Hit>, p: int, h: Hit)
    requires
        0 <= p <= s.len(),
    ensures
        s.insert(p, h).len() == s.len() + 1,
        s.insert(p, h)[p] == h,
        forall|j: int| 0 <= j < p ==> #[trigger] s.insert(p, h)[j] == s[j],
        forall|j: int| p < j <= s.len() ==> #[trigger] s.insert(p, h)[j] == s[j - 1],
{
}

/// Offers a hit to the best hits seen so far. It takes its place in the order if there
/// is room or it precedes the last, and the last one leaves if there are then more than
/// `k`. A hit that is already there changes nothing.
pub(crate) fn offer<T, M: Metric<T>>(
    best: &mut Vec<Hit>,
    k: usize,
    hit: Hit,
    Ghost(seen): Ghost<Set<usize>>,
    Ghost(m): Ghost<M>,
    Ghost(xs): Ghost<Seq<Seq<T>>>,
    Ghost(q): Ghost<Seq<T>>,
)
    requires
        k > 0,
        best_of(old(best)@, seen, m, xs, q, k as nat),
        hit.1 == query_dist(m, xs, q, hit.0 as int),
    ensures
        best_of(final(best)@, seen.insert(hit.0), m, xs, q, k as nat),
        final(best)@.len() >= old(best)@.len(),
        !has_index(old(best)@, hit.0) && old(best)@.len() < k ==> final(best)@.len() == old(
            best,
        )@.len() + 1,
        forall|e: int|
            0 <= e < final(best)@.len() ==> #[trigger] final(best)@[e] == hit || old(
                best,
            )@.contains(final(best)@[e]),
{
    let ghost before = best@;
    let mut p: usize = 0;
    while p < best.len() && comes_before(best[p], hit)
        invariant
            p <= best@.len(),
            best@ == before,
            forall|j: int| 0 <= j < p ==> precedes(#[trigger] best@[j], hit),
        decreases best@.len() - p,
    {
        p = p + 1;
    }
    if p < best.len() && best[p].0 == hit.0 && best[p].1 == hit.1 {
        proof {
            assert(before[p as int] == hit);
            assert forall|i: usize| #[trigger]
                seen.insert(hit.0).contains(i) implies has_index(before, i) || beaten(
                before,
                k as nat,
                i,
                query_dist(m, xs, q, i as int),
            ) by {
                if i == hit.0 {
                    assert(before[p as int].0 == i);
                }
            }
        }
        return ;
    }
    if p >= k {
        proof {
            assert(precedes(before[k - 1], hit));
            assert forall|i: usize| #[trigger]
                seen.insert(hit.0).contains(i) implies has_index(before, i) || beaten(
                before,
                k as nat,
                i,
                query_dist(m, xs, q, i as int),
            ) by {
            }
        }
        return ;
    }
    best.insert(p, hit);
    let ghost grown = best@;
    proof {
        lemma_insert_entries(before, p as int, hit);
        assert(grown == before.insert(p as int, hit));
        assert forall|i: int, j: int| 0 <= i < j < grown.len() implies precedes(
            #[trigger] grown[i],
            #[trigger] grown[j],
        ) by {
            if j < p {
                assert(grown[i] == before[i] && grown[j] == before[j]);
            } else if j == p {
                assert(grown[i] == before[i]);
            } else if i < p {
                assert(grown[i] == before[i] && grown[j] == before[j - 1]);
                if i < j - 1 {
                    assert(precedes(before[i], before[j - 1]));
                } else {
                    assert(precedes(before[i], hit));
                    assert(precedes(hit, before[p as int]));
                }
            } else if i == p {
                assert(grown[j] == before[j - 1]);
                assert(!precedes(before[p as int], hit));
                assert(before[p as int] != hit);
                if j - 1 > p {
                    assert(precedes(before[p as int], before[j - 1]));
                }
            } else {
                assert(grown[i] == before[i - 1] && grown[j] == before[j - 1]);
                assert(precedes(before[i - 1], before[j - 1]));
            }
        }
    }
    if best.len() > k {
        best.pop();
    }
    proof {
        let now = best@;
        let wider = seen.insert(hit.0);
        assert(now.len() <= k);
        assert forall|e: int| 0 <= e < now.len() implies #[trigger] now[e] == hit
            || before.contains(now[e]) by {
            if e < p {
                assert(now[e] == before[e]);
            } else if e > p {
                assert(now[e] == before[e - 1]);
            }
        }
        assert(forall|j: int| 0 <= j < now.len() ==> now[j] == grown[j]);
        assert forall|j: int| 0 <= j < now.len() implies wider.contains((#[trigger] now[j]).0)
            && now[j].1 == query_dist(m, xs, q, now[j].0 as int) by {
            if j < p {
                assert(now[j] == before[j]);
            } else if j > p {
                assert(now[j] == before[j - 1]);
            }
        }
        assert forall|i: usize| #[trigger] wider.contains(i) implies has_index(now, i) || beaten(
            now,
            k as nat,
            i,
            query_dist(m, xs, q, i as int),
        ) by {
            if i == hit.0 {
                assert(now[p as int].0 == i);
            } else if has_index(before, i) {
                let j = choose|j: int| 0 <= j < before.len() && before[j].0 == i;
                let j2 = if j < p {
                    j
                } else {
                    j + 1
                };
                assert(grown[j2] == before[j]);
                if j2 < now.len() {
                    assert(now[j2].0 == i);
                } else {
                    assert(precedes(grown[k - 1], grown[k as int]));
                    assert(now[k - 1] == grown[k - 1]);
                }
            } else {
                assert(beaten(before, k as nat, i, query_dist(m, xs, q, i as int)));
                assert(grown[k as int] == before[k - 1]);
                assert(precedes(grown[k - 1], grown[k as int]));
                assert(now[k - 1] == grown[k - 1]);
            }
        }
    }
}

} // verus!
