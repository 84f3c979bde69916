//! Building the partition tree: splitting clusters in two until a criterion says stop.

use vstd::prelude::*;
use crate::cluster::{centered, farthest, leaf, splits, Ball, Cluster};
use crate::dataset::{in_range, pair_distance, Dataset};
use crate::error::ClamError;
use crate::metric::Metric;

verus! {

/// Whether the member at position `q` goes to the first child, given the positions of the
/// two poles and the distances of all members from each pole: the first pole does, the
/// second does not, and any other member does if it is at most as far from the first
/// pole as from the second.
pub open spec fn left_side(q: int, lp: int, rp: int, dl: Seq<u64>, dr: Seq<u64>) -> bool {
    q == lp || (q != rp && dl[q] <= dr[q])
}

/// Whether `lpole` and `rpole` are the poles of a cluster with the given center and
/// members, and `left` and `right` are its members divided between them.
///
/// The first pole is a member that is farthest from the center, and the second is, of
/// the other members, one that is farthest from the first pole. Each pole is in its own
/// set, and every other member is in the set of the pole that it is nearer to, in the
/// first where it is as near to both.
pub open spec fn poles_divide<T, M: Metric<T>>(
    m: M,
    xs: Seq<Seq<T>>,
    center: usize,
    parent: Seq<usize>,
    left: Seq<usize>,
    right: Seq<usize>,
    lpole: usize,
    rpole: usize,
) -> bool {
    &&& left.contains(lpole)
    &&& right.contains(rpole)
    &&& forall|k: int|
        0 <= k < parent.len() ==> pair_distance(m, xs, center as int, #[trigger] parent[k] as int)
            <= pair_distance(m, xs, center as int, lpole as int)
    &&& forall|k: int|
        0 <= k < parent.len() && #[trigger] parent[k] != lpole ==> pair_distance(
            m,
            xs,
            lpole as int,
            parent[k] as int,
        ) <= pair_distance(m, xs, lpole as int, rpole as int)
    &&& forall|k: int|
        0 <= k < left.len() ==> #[trigger] left[k] == lpole || pair_distance(
            m,
            xs,
            lpole as int,
            left[k] as int,
        ) <= pair_distance(m, xs, rpole as int, left[k] as int)
    &&& forall|k: int|
        0 <= k < right.len() ==> #[trigger] right[k] == rpole || pair_distance(
            m,
            xs,
            rpole as int,
            right[k] as int,
        ) < pair_distance(m, xs, lpole as int, right[k] as int)
}

/// Whether the members of a cluster are divided between two poles.
pub open spec fn divided_by_poles<T, M: Metric<T>>(
    m: M,
    xs: Seq<Seq<T>>,
    center: usize,
    parent: Seq<usize>,
    left: Seq<usize>,
    right: Seq<usize>,
) -> bool {
    exists|lpole: usize, rpole: usize|
        poles_divide(m, xs, center, parent, left, right, lpole, rpole)
}

/// Whether `x` is one of the first `k` entries of `indices`, at a position that goes to
/// the first child if `on_left` and to the second if not.
pub open spec fn placed(
    indices: Seq<usize>,
    k: int,
    x: usize,
    on_left: bool,
    lp: int,
    rp: int,
    dl: Seq<u64>,
    dr: Seq<u64>,
) -> bool {
    exists|q: int|
        0 <= q < k && q < indices.len() && #[trigger] indices[q] == x && left_side(q, lp, rp, dl, dr)
            == on_left
}

/// Divides the members of a cluster between two poles. The first pole is a member that is
/// farthest from the center, the second a member that is farthest from the first pole.
/// Each pole goes to its own side and every other member to the side of the nearer pole,
/// to the first where both are as near.
pub fn split_indices<T, M: Metric<T>, D: Dataset<T, M>>(
    data: &mut D,
    indices: &Vec<usize>,
    center: usize,
) -> (halves: (Vec<usize>, Vec<usize>))
    requires
        old(data).wf(),
        indices@.len() >= 2,
        indices@.no_duplicates(),
        in_range(indices@, old(data).instances().len()),
        center < old(data).instances().len(),
    ensures
        final(data).wf(),
        final(data).instances() == old(data).instances(),
        final(data).spec_metric() == old(data).spec_metric(),
        splits(indices@, halves.0@, halves.1@),
        halves.0@.no_duplicates(),
        halves.1@.no_duplicates(),
        divided_by_poles(
            old(data).spec_metric(),
            old(data).instances(),
            center,
            indices@,
            halves.0@,
            halves.1@,
        ),
{
    let ghost m = data.spec_metric();
    let ghost xs = data.instances();
    let dc: Vec<u64> = data.distances_from(center, indices);
    let lp: usize = farthest(&dc, None);
    let lpole: usize = indices[lp];
    let dl: Vec<u64> = data.distances_from(lpole, indices);
    let rp: usize = farthest(&dl, Some(lp));
    let rpole: usize = indices[rp];
    let dr: Vec<u64> = data.distances_from(rpole, indices);
    let mut left: Vec<usize> = Vec::new();
    let mut right: Vec<usize> = Vec::new();
    let mut k: usize = 0;
    while k < indices.len()
        invariant
            k <= indices@.len(),
            indices@.no_duplicates(),
            lp < indices@.len(),
            rp < indices@.len(),
            lp != rp,
            dl@.len() == indices@.len(),
            dr@.len() == indices@.len(),
            left@.len() + right@.len() == k,
            left@.no_duplicates(),
            right@.no_duplicates(),
            forall|p: int|
                0 <= p < left@.len() ==> placed(
                    indices@,
                    k as int,
                    #[trigger] left@[p],
                    true,
                    lp as int,
                    rp as int,
                    dl@,
                    dr@,
                ),
            forall|p: int|
                0 <= p < right@.len() ==> placed(
                    indices@,
                    k as int,
                    #[trigger] right@[p],
                    false,
                    lp as int,
                    rp as int,
                    dl@,
                    dr@,
                ),
            forall|q: int|
                0 <= q < k ==> if left_side(q, lp as int, rp as int, dl@, dr@) {
                    left@.contains(#[trigger] indices@[q])
                } else {
                    right@.contains(indices@[q])
                },
        decreases indices@.len() - k,
    {
        let x: usize = indices[k];
        let ghost old_left = left@;
        let ghost old_right = right@;
        let goes_left: bool = k == lp || (k != rp && dl[k] <= dr[k]);
        if goes_left {
            left.push(x);
        } else {
            right.push(x);
        }
        proof {
            assert forall|p: int| 0 <= p < old_left.len() implies old_left[p] != x by {
                assert(placed(indices@, k as int, old_left[p], true, lp as int, rp as int, dl@, dr@));
            }
            assert forall|p: int| 0 <= p < old_right.len() implies old_right[p] != x by {
                assert(placed(
                    indices@,
                    k as int,
                    old_right[p],
                    false,
                    lp as int,
                    rp as int,
                    dl@,
                    dr@,
                ));
            }
            assert forall|p: int| 0 <= p < left@.len() implies placed(
                indices@,
                k + 1,
                #[trigger] left@[p],
                true,
                lp as int,
                rp as int,
                dl@,
                dr@,
            ) by {
                if p < old_left.len() {
                    assert(placed(
                        indices@,
                        k as int,
                        old_left[p],
                        true,
                        lp as int,
                        rp as int,
                        dl@,
                        dr@,
                    ));
                } else {
                    assert(indices@[k as int] == left@[p]);
                }
            }
            assert forall|p: int| 0 <= p < right@.len() implies placed(
                indices@,
                k + 1,
                #[trigger] right@[p],
                false,
                lp as int,
                rp as int,
                dl@,
                dr@,
            ) by {
                if p < old_right.len() {
                    assert(placed(
                        indices@,
                        k as int,
                        old_right[p],
                        false,
                        lp as int,
                        rp as int,
                        dl@,
                        dr@,
                    ));
                } else {
                    assert(indices@[k as int] == right@[p]);
                }
            }
            assert forall|q: int| 0 <= q < k + 1 implies if left_side(
                q,
                lp as int,
                rp as int,
                dl@,
                dr@,
            ) {
                left@.contains(#[trigger] indices@[q])
            } else {
                right@.contains(indices@[q])
            } by {
                if q < k {
                    if left_side(q, lp as int, rp as int, dl@, dr@) {
                        let w = choose|w: int| 0 <= w < old_left.len() && old_left[w] == indices@[q];
                        assert(left@[w] == indices@[q]);
                    } else {
                        let w = choose|w: int|
                            0 <= w < old_right.len() && old_right[w] == indices@[q];
                        assert(right@[w] == indices@[q]);
                    }
                } else if goes_left {
                    assert(left@[old_left.len() as int] == indices@[q]);
                } else {
                    assert(right@[old_right.len() as int] == indices@[q]);
                }
            }
        }
        k = k + 1;
    }
    proof {
        assert(left@.contains(indices@[lp as int]));
        assert(right@.contains(indices@[rp as int]));
        assert forall|p: int| 0 <= p < left@.len() implies indices@.contains(
            #[trigger] left@[p],
        ) by {
            assert(placed(indices@, k as int, left@[p], true, lp as int, rp as int, dl@, dr@));
        }
        assert forall|p: int| 0 <= p < right@.len() implies indices@.contains(
            #[trigger] right@[p],
        ) by {
            assert(placed(indices@, k as int, right@[p], false, lp as int, rp as int, dl@, dr@));
        }
        assert forall|i: int, j: int|
            0 <= i < left@.len() && 0 <= j < right@.len() implies #[trigger] left@[i]
            != #[trigger] right@[j] by {
            assert(placed(indices@, k as int, left@[i], true, lp as int, rp as int, dl@, dr@));
            assert(placed(indices@, k as int, right@[j], false, lp as int, rp as int, dl@, dr@));
        }
        assert forall|p: int| 0 <= p < left@.len() implies #[trigger] left@[p] == lpole
            || pair_distance(m, xs, lpole as int, left@[p] as int) <= pair_distance(
            m,
            xs,
            rpole as int,
            left@[p] as int,
        ) by {
            assert(placed(indices@, k as int, left@[p], true, lp as int, rp as int, dl@, dr@));
        }
        assert forall|p: int| 0 <= p < right@.len() implies #[trigger] right@[p] == rpole
            || pair_distance(m, xs, rpole as int, right@[p] as int) < pair_distance(
            m,
            xs,
            lpole as int,
            right@[p] as int,
        ) by {
            assert(placed(indices@, k as int, right@[p], false, lp as int, rp as int, dl@, dr@));
        }
        assert forall|p: int| 0 <= p < indices@.len() implies pair_distance(
            m,
            xs,
            center as int,
            #[trigger] indices@[p] as int,
        ) <= pair_distance(m, xs, center as int, lpole as int) by {
            assert(dc@[p] <= dc@[lp as int]);
        }
        assert forall|p: int| 0 <= p < indices@.len() && #[trigger] indices@[p] != lpole implies pair_distance(
            m,
            xs,
            lpole as int,
            indices@[p] as int,
        ) <= pair_distance(m, xs, lpole as int, rpole as int) by {
            assert(p != lp);
            assert(dl@[p] <= dl@[rp as int]);
        }
        assert(poles_divide(m, xs, center, indices@, left@, right@, lpole, rpole));
    }
    (left, right)
}

impl Cluster<()> {
    /// The cluster without its children.
    pub open spec fn as_leaf(self) -> Ball {
        Cluster {
            indices: self.indices,
            center: self.center,
            radius: self.radius,
            depth: self.depth,
            left: None,
            right: None,
            extra: (),
        }
    }

    /// Whether the tree was split for as long as `criteria` asked: every cluster with
    /// children is one of which, before it had them, `criteria` said `true`; every leaf
    /// has one member, or `criteria` said `false` of it; and the children of every
    /// cluster are divided by poles and have a medoid of a sample as their center.
    pub open spec fn grown<T, M: Metric<T>, F: Fn(&Ball) -> bool>(
        self,
        criteria: F,
        m: M,
        xs: Seq<Seq<T>>,
    ) -> bool
        decreases self,
    {
        match (self.left, self.right) {
            (Some(l), Some(r)) => {
                &&& criteria.ensures((&self.as_leaf(),), true)
                &&& divided_by_poles(m, xs, self.center, self.indices@, l.indices@, r.indices@)
                &&& centered(m, xs, l.center, l.indices@)
                &&& centered(m, xs, r.center, r.indices@)
                &&& l.grown(criteria, m, xs)
                &&& r.grown(criteria, m, xs)
            },
            _ => self.indices@.len() == 1 || criteria.ensures((&self,), false),
        }
    }

    /// Whether this tree is `before` with some of its leaves grown into subtrees as
    /// `criteria` asked: where `before` has children, this tree has the same cluster and
    /// its children extend those of `before`; where `before` has a leaf, this tree has the
    /// same cluster, grown.
    pub open spec fn extends<T, M: Metric<T>, F: Fn(&Ball) -> bool>(
        self,
        before: Ball,
        criteria: F,
        m: M,
        xs: Seq<Seq<T>>,
    ) -> bool
        decreases before,
    {
        &&& self.as_leaf() == before.as_leaf()
        &&& match (before.left, before.right) {
            (Some(bl), Some(br)) => match (self.left, self.right) {
                (Some(l), Some(r)) => l.extends(*bl, criteria, m, xs) && r.extends(
                    *br,
                    criteria,
                    m,
                    xs,
                ),
                _ => false,
            },
            _ => self.grown(criteria, m, xs),
        }
    }

    /// Splits the cluster in two, and its children in turn, for as long as `criteria`
    /// says `true` of a cluster and the cluster has more than one member. Children that
    /// the cluster already had are discarded first.
    pub fn partition<T, M: Metric<T>, D: Dataset<T, M>, F: Fn(&Ball) -> bool>(
        self,
        data: &mut D,
        criteria: &F,
        seed: Option<u64>,
    ) -> (r: Ball)
        requires
            old(data).wf(),
            self.wf(old(data).spec_metric(), old(data).instances()),
            forall|b: Ball| criteria.requires((&b,)),
        ensures
            final(data).wf(),
            final(data).instances() == old(data).instances(),
            final(data).spec_metric() == old(data).spec_metric(),
            r.wf(old(data).spec_metric(), old(data).instances()),
            r.as_leaf() == self.as_leaf(),
            r.grown(*criteria, old(data).spec_metric(), old(data).instances()),
        decreases self.indices@.len(),
    {
        let ghost m = data.spec_metric();
        let ghost xs = data.instances();
        let mut node: Ball = self;
        node.left = None;
        node.right = None;
        assert(node == self.as_leaf());
        if node.indices.len() == 1 {
            return node;
        }
        if !criteria(&node) {
            return node;
        }
        proof {
            let w = choose|w: int| 0 <= w < node.indices@.len() && node.indices@[w] == node.center;
        }
        let halves: (Vec<usize>, Vec<usize>) = split_indices(data, &node.indices, node.center);
        let li: Vec<usize> = halves.0;
        let ri: Vec<usize> = halves.1;
        proof {
            assert forall|k: int| 0 <= k < li@.len() implies li@[k] < xs.len() by {
                let w = choose|w: int| 0 <= w < node.indices@.len() && node.indices@[w] == li@[k];
            }
            assert forall|k: int| 0 <= k < ri@.len() implies ri@[k] < xs.len() by {
                let w = choose|w: int| 0 <= w < node.indices@.len() && node.indices@[w] == ri@[k];
            }
        }
        let l: Ball = leaf(data, li, node.depth + 1, seed).partition(data, criteria, seed);
        let r: Ball = leaf(data, ri, node.depth + 1, seed).partition(data, criteria, seed);
        node.left = Some(Box::new(l));
        node.right = Some(Box::new(r));
        node
    }

    /// Grows a tree that was built before: every leaf is split for as long as `criteria`
    /// says `true` and there is more than one member, and no cluster that already has
    /// children is built again.
    pub fn partition_further<T, M: Metric<T>, D: Dataset<T, M>, F: Fn(&Ball) -> bool>(
        self,
        data: &mut D,
        criteria: &F,
        seed: Option<u64>,
    ) -> (r: Ball)
        requires
            old(data).wf(),
            self.wf(old(data).spec_metric(), old(data).instances()),
            forall|b: Ball| criteria.requires((&b,)),
        ensures
            final(data).wf(),
            final(data).instances() == old(data).instances(),
            final(data).spec_metric() == old(data).spec_metric(),
            r.wf(old(data).spec_metric(), old(data).instances()),
            r.extends(self, *criteria, old(data).spec_metric(), old(data).instances()),
        decreases self,
    {
        let Cluster { indices, center, radius, depth, left, right, extra } = self;
        match (left, right) {
            (Some(l), Some(r)) => {
                let nl: Ball = (*l).partition_further(data, criteria, seed);
                let nr: Ball = (*r).partition_further(data, criteria, seed);
                Cluster {
                    indices,
                    center,
                    radius,
                    depth,
                    left: Some(Box::new(nl)),
                    right: Some(Box::new(nr)),
                    extra,
                }
            },
            _ => {
                let node: Ball = Cluster {
                    indices,
                    center,
                    radius,
                    depth,
                    left: None,
                    right: None,
                    extra,
                };
                node.partition(data, criteria, seed)
            },
        }
    }
}

impl<A> Cluster<A> {
    /// Whether the members of every cluster that has children are divided between two
    /// poles, and the center of every child is the medoid of a sample of its members.
    pub open spec fn all_divided<T, M: Metric<T>>(&self, m: M, xs: Seq<Seq<T>>) -> bool
        decreases self,
    {
        match (self.left, self.right) {
            (Some(l), Some(r)) => {
                &&& divided_by_poles(m, xs, self.center, self.indices@, l.indices@, r.indices@)
                &&& centered(m, xs, l.center, l.indices@)
                &&& centered(m, xs, r.center, r.indices@)
                &&& l.all_divided(m, xs)
                &&& r.all_divided(m, xs)
            },
            _ => true,
        }
    }
}

/// In a tree that was grown, every cluster that has children is divided by poles.
pub proof fn lemma_grown_divided<T, M: Metric<T>, F: Fn(&Ball) -> bool>(
    ball: Ball,
    criteria: F,
    m: M,
    xs: Seq<Seq<T>>,
)
    requires
        ball.grown(criteria, m, xs),
    ensures
        ball.all_divided(m, xs),
    decreases ball,
{
    match (ball.left, ball.right) {
        (Some(l), Some(r)) => {
            lemma_grown_divided(*l, criteria, m, xs);
            lemma_grown_divided(*r, criteria, m, xs);
        },
        _ => {},
    }
}

/// A tree that extends one in which every cluster is divided by poles is one too.
pub proof fn lemma_extends_divided<T, M: Metric<T>, F: Fn(&Ball) -> bool>(
    after: Ball,
    before: Ball,
    criteria: F,
    m: M,
    xs: Seq<Seq<T>>,
)
    requires
        after.extends(before, criteria, m, xs),
        before.all_divided(m, xs),
    ensures
        after.all_divided(m, xs),
    decreases before,
{
    lemma_extends_root(after, before, criteria, m, xs);
    match (before.left, before.right) {
        (Some(bl), Some(br)) => {
            match (after.left, after.right) {
                (Some(l), Some(r)) => {
                    lemma_extends_root(*l, *bl, criteria, m, xs);
                    lemma_extends_root(*r, *br, criteria, m, xs);
                    lemma_extends_divided(*l, *bl, criteria, m, xs);
                    lemma_extends_divided(*r, *br, criteria, m, xs);
                },
                _ => {},
            }
        },
        _ => {
            lemma_grown_divided(after, criteria, m, xs);
        },
    }
}

/// The number of levels by which a tree is grown at a time, so that building it never
/// nests deeper than this.
pub fn max_recursion_depth() -> (d: usize)
    ensures
        d == 128,
{
    128
}

/// A tree that was grown for as long as a criterion that never says `false` asked has
/// leaves of one member only.
pub proof fn lemma_grown_to_singletons<T, M: Metric<T>, F: Fn(&Ball) -> bool>(
    ball: Ball,
    criteria: F,
    m: M,
    xs: Seq<Seq<T>>,
)
    requires
        ball.grown(criteria, m, xs),
        forall|b: Ball| !criteria.ensures((&b,), false),
    ensures
        ball.leaves_single(),
    decreases ball,
{
    match (ball.left, ball.right) {
        (Some(l), Some(r)) => {
            lemma_grown_to_singletons(*l, criteria, m, xs);
            lemma_grown_to_singletons(*r, criteria, m, xs);
        },
        _ => {},
    }
}

/// A tree that extends another has the members of the other at its root.
pub proof fn lemma_extends_root<T, M: Metric<T>, F: Fn(&Ball) -> bool>(
    after: Ball,
    before: Ball,
    criteria: F,
    m: M,
    xs: Seq<Seq<T>>,
)
    requires
        after.extends(before, criteria, m, xs),
    ensures
        after.indices@ == before.indices@,
        after.depth == before.depth,
        after.center == before.center,
        after.radius == before.radius,
{
    assert(after.as_leaf().indices@ == before.as_leaf().indices@);
}

/// Builds the tree over all the instances of a dataset, down to leaves of one member.
///
/// The root is split once, and the tree is then grown by `max_recursion_depth()` levels
/// at a time until no leaf has more than one member, so that no step nests deeper than
/// that. A dataset without instances has no tree.
pub fn build_tree<T, M: Metric<T>, D: Dataset<T, M>>(data: &mut D, seed: Option<u64>) -> (r: Result<
    Ball,
    ClamError,
>)
    requires
        old(data).wf(),
    ensures
        final(data).wf(),
        final(data).instances() == old(data).instances(),
        final(data).spec_metric() == old(data).spec_metric(),
        match r {
            Ok(ball) => {
                &&& old(data).instances().len() > 0
                &&& ball.wf(old(data).spec_metric(), old(data).instances())
                &&& ball.depth == 0
                &&& ball.indices@.len() == old(data).instances().len()
                &&& forall|i: int| 0 <= i < ball.indices@.len() ==> ball.indices@[i] == i
                &&& ball.leaves_single()
                &&& ball.all_divided(old(data).spec_metric(), old(data).instances())
                &&& centered(
                    old(data).spec_metric(),
                    old(data).instances(),
                    ball.center,
                    ball.indices@,
                )
            },
            Err(e) => e == ClamError::EmptyIndices && old(data).instances().len() == 0,
        },
{
    let ghost m = data.spec_metric();
    let ghost xs = data.instances();
    let indices: Vec<usize> = data.indices();
    let ghost all = indices@;
    let count: usize = indices.len();
    proof {
        assert(count == xs.len());
        assert(indices@.no_duplicates());
        assert(in_range(indices@, xs.len()));
    }
    let made: Result<Ball, ClamError> = Cluster::new(data, indices, 0, seed);
    let root: Ball = match made {
        Ok(b) => b,
        Err(e) => {
            return Err(e);
        },
    };
    let once = |c: &Ball| -> (b: bool)
        ensures
            b == (c.depth < 1),
        { c.depth < 1 };
    let mut ball: Ball = root.partition(data, &once, seed);
    proof {
        lemma_grown_divided(ball, once, m, xs);
    }
    let step: usize = max_recursion_depth();
    let mut depth: usize = 0;
    while !ball.all_singletons() && depth < usize::MAX
        invariant
            data.wf(),
            data.instances() == xs,
            data.spec_metric() == m,
            ball.wf(m, xs),
            ball.depth == 0,
            ball.indices@ == all,
            ball.all_divided(m, xs),
            centered(m, xs, ball.center, ball.indices@),
            step == 128,
        decreases usize::MAX - depth,
    {
        depth = depth.saturating_add(step);
        let bound: usize = depth;
        let deeper = |c: &Ball| -> (b: bool)
            ensures
                b == (c.depth < bound),
            { c.depth < bound };
        let ghost before = ball;
        ball = ball.partition_further(data, &deeper, seed);
        proof {
            lemma_extends_root(ball, before, deeper, m, xs);
            lemma_extends_divided(ball, before, deeper, m, xs);
        }
    }
    if !ball.all_singletons() {
        let always = |c: &Ball| -> (b: bool)
            ensures
                b,
            { true };
        ball = ball.partition(data, &always, seed);
        proof {
            lemma_grown_to_singletons(ball, always, m, xs);
            lemma_grown_divided(ball, always, m, xs);
        }
    }
    Ok(ball)
}

} // verus!
