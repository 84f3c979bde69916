//! Compression: a tree and a dataset are turned into a tree of the same shape that
//! records encoding references, and a dataset that stores differences.

use vstd::prelude::*;
use crate::cluster::{Ball, Cluster};
use crate::codec_data::{copy_instance, resolves, stores, CodecData, Entry};
use crate::dataset::Dataset;
use crate::error::ClamError;
use crate::metric::{Codec, Metric};

verus! {

/// What a cluster of a compressed tree keeps about encoding.
pub struct Squish {
    /// The index of the instance against which the center of the cluster is encoded:
    /// the center of the parent. The root has none.
    pub reference: Option<usize>,
}

/// A cluster of a compressed tree. It has the indices, center, radius and depth of the
/// cluster it was made from, and no instances.
pub type SquishyBall = Cluster<Squish>;

/// Whether two trees have the same shape: the same indices, center, radius and depth
/// in every cluster, and children in the same places.
pub open spec fn same_shape<A, B>(a: Cluster<A>, b: Cluster<B>) -> bool
    decreases a,
{
    &&& a.indices@ == b.indices@
    &&& a.center == b.center
    &&& a.radius == b.radius
    &&& a.depth == b.depth
    &&& match (a.left, a.right) {
        (Some(al), Some(ar)) => match (b.left, b.right) {
            (Some(bl), Some(br)) => same_shape(*al, *bl) && same_shape(*ar, *br),
            _ => false,
        },
        _ => b.left is None && b.right is None,
    }
}

/// Whether every cluster of the tree names the center of its parent as its reference,
/// and the root names `parent`.
pub open spec fn referenced(node: SquishyBall, parent: Option<usize>) -> bool
    decreases node,
{
    &&& node.extra.reference == parent
    &&& match (node.left, node.right) {
        (Some(l), Some(r)) => referenced(*l, Some(node.center)) && referenced(
            *r,
            Some(node.center),
        ),
        _ => true,
    }
}

/// A tree of the same shape as a well-formed tree is well formed.
pub proof fn lemma_same_shape_wf<A, B, T, M: Metric<T>>(
    a: Cluster<A>,
    b: Cluster<B>,
    m: M,
    xs: Seq<Seq<T>>,
)
    requires
        a.wf(m, xs),
        same_shape(a, b),
    ensures
        b.wf(m, xs),
    decreases a,
{
    match (a.left, a.right) {
        (Some(al), Some(ar)) => {
            match (b.left, b.right) {
                (Some(bl), Some(br)) => {
                    lemma_same_shape_wf(*al, *bl, m, xs);
                    lemma_same_shape_wf(*ar, *br, m, xs);
                },
                _ => {},
            }
        },
        _ => {},
    }
}

/// Makes the compressed tree of a tree: the same shape, and in every cluster the center
/// of its parent as the reference.
pub fn squish(ball: &Ball, parent: Option<usize>) -> (s: SquishyBall)
    ensures
        same_shape(*ball, s),
        referenced(s, parent),
    decreases ball,
{
    let indices: Vec<usize> = copy_instance(&ball.indices);
    let extra: Squish = Squish { reference: parent };
    match (&ball.left, &ball.right) {
        (Some(l), Some(r)) => {
            let sl: SquishyBall = squish(l, Some(ball.center));
            let sr: SquishyBall = squish(r, Some(ball.center));
            Cluster {
                indices,
                center: ball.center,
                radius: ball.radius,
                depth: ball.depth,
                left: Some(Box::new(sl)),
                right: Some(Box::new(sr)),
                extra,
            }
        },
        _ => Cluster {
            indices,
            center: ball.center,
            radius: ball.radius,
            depth: ball.depth,
            left: None,
            right: None,
            extra,
        },
    }
}

impl<A> Cluster<A> {
    /// Whether the tree has a cluster with the center `center` of which `x` is a member.
    pub open spec fn has_center_over(&self, center: usize, x: usize) -> bool
        decreases self,
    {
        ||| self.center == center && self.indices@.contains(x)
        ||| match (self.left, self.right) {
            (Some(l), Some(r)) => l.has_center_over(center, x) || r.has_center_over(center, x),
            _ => false,
        }
    }
}

/// Whether what `part` has as a center over a member, `whole` has too.
pub open spec fn lifts(whole: Ball, part: Ball) -> bool {
    forall|center: usize, x: usize| #[trigger]
        part.has_center_over(center, x) ==> whole.has_center_over(center, x)
}

/// Whether every instance of `xs` can be encoded against every other.
pub open spec fn all_encodable<T, M: Codec<T>>(m: M, xs: Seq<Seq<T>>) -> bool {
    forall|a: int, b: int|
        0 <= a < xs.len() && 0 <= b < xs.len() ==> m.encodable(#[trigger] xs[a], #[trigger] xs[b])
}

/// Whether the entries that are marked as filled store their instances: the one at
/// `root` as it is, and every other as its encoding against a reference that is filled
/// at a lower level and is the center of a cluster of `tree` that has the instance.
pub open spec fn filled_ok<T, M: Codec<T>>(
    entries: Seq<Entry<T>>,
    filled: Seq<bool>,
    levels: Seq<usize>,
    m: M,
    xs: Seq<Seq<T>>,
    root: usize,
    tree: Ball,
) -> bool {
    &&& entries.len() == xs.len()
    &&& filled.len() == xs.len()
    &&& levels.len() == xs.len()
    &&& forall|i: int|
        0 <= i < xs.len() && filled[i] ==> match #[trigger] entries[i] {
            Entry::Raw(v) => v@ == xs[i] && i == root,
            Entry::Diff { reference, bytes } => {
                &&& i != root
                &&& reference < xs.len()
                &&& tree.has_center_over(reference, i as usize)
                &&& filled[reference as int]
                &&& levels[reference as int] < levels[i]
                &&& m.encodable(xs[reference as int], xs[i])
                &&& bytes@ == m.encoded(xs[reference as int], xs[i])
                &&& m.decoded(xs[reference as int], bytes@) == Some(xs[i])
            },
        }
}

/// Whether the entries store the instances as compression stores them: the center of
/// the root and the instances that are not members as they are, and every other member
/// as its encoding against the center of a cluster of the tree that it is a member of.
pub open spec fn stored_as_compressed<T, M: Codec<T>>(
    entries: Seq<Entry<T>>,
    m: M,
    xs: Seq<Seq<T>>,
    tree: Ball,
) -> bool {
    let root = tree.center;
    let members = tree.indices@;
    &&& entries.len() == xs.len()
    &&& forall|i: int|
        0 <= i < xs.len() ==> match #[trigger] entries[i] {
            Entry::Raw(v) => v@ == xs[i] && (i == root || !members.contains(i as usize)),
            Entry::Diff { reference, bytes } => {
                &&& i != root
                &&& members.contains(i as usize)
                &&& members.contains(reference)
                &&& tree.has_center_over(reference, i as usize)
                &&& reference < xs.len()
                &&& m.encodable(xs[reference as int], xs[i])
                &&& bytes@ == m.encoded(xs[reference as int], xs[i])
            },
        }
}

/// Stores the instance at `target` as its difference from the instance at `reference`,
/// unless it is stored already.
fn store_diff<T: Copy, M: Codec<T>, D: Dataset<T, M>>(
    data: &D,
    reference: usize,
    target: usize,
    entries: &mut Vec<Entry<T>>,
    filled: &mut Vec<bool>,
    levels: &mut Vec<usize>,
    Ghost(root): Ghost<usize>,
    Ghost(tree): Ghost<Ball>,
) -> (r: Result<(), ClamError>)
    requires
        data.wf(),
        reference < data.instances().len(),
        target < data.instances().len(),
        filled_ok(
            old(entries)@,
            old(filled)@,
            old(levels)@,
            data.spec_metric(),
            data.instances(),
            root,
            tree,
        ),
        old(filled)@[reference as int],
        old(levels)@[reference as int] < usize::MAX,
        root < data.instances().len(),
        old(filled)@[root as int],
        tree.has_center_over(reference, target),
    ensures
        final(entries)@.len() == old(entries)@.len(),
        match r {
            Ok(_) => {
                &&& filled_ok(
                    final(entries)@,
                    final(filled)@,
                    final(levels)@,
                    data.spec_metric(),
                    data.instances(),
                    root,
                    tree,
                )
                &&& final(filled)@[target as int]
                &&& forall|i: int|
                    0 <= i < data.instances().len() && i != target ==> final(filled)@[i] == old(
                        filled,
                    )@[i] && final(levels)@[i] == old(levels)@[i]
                &&& old(filled)@[target as int] ==> final(levels)@[target as int] == old(
                    levels,
                )@[target as int]
                &&& !old(filled)@[target as int] ==> final(levels)@[target as int] == old(
                    levels,
                )@[reference as int] + 1
            },
            Err(e) => e == ClamError::NotEncodable && !all_encodable(
                data.spec_metric(),
                data.instances(),
            ),
        },
{
    let ghost m = data.spec_metric();
    let ghost xs = data.instances();
    if filled[target] {
        return Ok(());
    }
    proof {
        data.lemma_metric_valid();
    }
    let base: Vec<T> = data.instance(reference);
    let x: Vec<T> = data.instance(target);
    match data.metric().encode(&base, &x) {
        Ok(bytes) => {
            proof {
                m.law_round_trip(xs[reference as int], xs[target as int]);
            }
            let level: usize = levels[reference] + 1;
            entries.set(target, Entry::Diff { reference, bytes });
            filled.set(target, true);
            levels.set(target, level);
            Ok(())
        },
        Err(_) => {
            proof {
                assert(!m.encodable(xs[reference as int], xs[target as int]));
            }
            Err(ClamError::NotEncodable)
        },
    }
}

/// Whether the members that are filled are stored at a level of at most `bound`.
pub open spec fn levels_bounded(
    filled: Seq<bool>,
    levels: Seq<usize>,
    members: Seq<usize>,
    bound: usize,
) -> bool {
    forall|k: int|
        0 <= k < members.len() && filled[#[trigger] members[k] as int] ==> levels[members[k] as int]
            <= bound
}

/// Whether what was filled before is filled after, at the same level.
pub open spec fn kept(
    filled_before: Seq<bool>,
    levels_before: Seq<usize>,
    filled_after: Seq<bool>,
    levels_after: Seq<usize>,
) -> bool {
    forall|x: usize|
        x < filled_before.len() && #[trigger] filled_before[x as int] ==> filled_after[x as int]
            && levels_after[x as int] == levels_before[x as int]
}

/// Whether nothing but the entries of `members` was filled.
pub open spec fn only_members(
    filled_before: Seq<bool>,
    filled_after: Seq<bool>,
    members: Seq<usize>,
) -> bool {
    forall|x: usize|
        x < filled_before.len() && !members.contains(x) ==> #[trigger] filled_after[x as int]
            == filled_before[x as int]
}

/// Stores the members of the subtree of `node`: the centers of the children against the
/// center of `node`, and the members of a leaf against its center.
fn store_tree<T: Copy, M: Codec<T>, D: Dataset<T, M>>(
    data: &D,
    node: &Ball,
    entries: &mut Vec<Entry<T>>,
    filled: &mut Vec<bool>,
    levels: &mut Vec<usize>,
    Ghost(root): Ghost<usize>,
    Ghost(tree): Ghost<Ball>,
) -> (r: Result<(), ClamError>)
    requires
        data.wf(),
        node.wf(data.spec_metric(), data.instances()),
        filled_ok(
            old(entries)@,
            old(filled)@,
            old(levels)@,
            data.spec_metric(),
            data.instances(),
            root,
            tree,
        ),
        old(filled)@[node.center as int],
        levels_bounded(old(filled)@, old(levels)@, node.indices@, node.depth),
        root < data.instances().len(),
        old(filled)@[root as int],
        lifts(tree, *node),
    ensures
        final(entries)@.len() == old(entries)@.len(),
        match r {
            Ok(_) => {
                &&& filled_ok(
                    final(entries)@,
                    final(filled)@,
                    final(levels)@,
                    data.spec_metric(),
                    data.instances(),
                    root,
                    tree,
                )
                &&& kept(old(filled)@, old(levels)@, final(filled)@, final(levels)@)
                &&& only_members(old(filled)@, final(filled)@, node.indices@)
                &&& forall|k: int|
                    0 <= k < node.indices@.len() ==> final(filled)@[#[trigger] node.indices@[k] as int]
            },
            Err(e) => e == ClamError::NotEncodable && !all_encodable(
                data.spec_metric(),
                data.instances(),
            ),
        },
    decreases node, 0nat,
{
    let ghost m = data.spec_metric();
    let ghost xs = data.instances();
    let ghost f0 = filled@;
    let ghost v0 = levels@;
    proof {
        let w = choose|w: int| 0 <= w < node.indices@.len() && node.indices@[w] == node.center;
        assert(v0[node.indices@[w] as int] <= node.depth);
    }
    match (&node.left, &node.right) {
        (Some(l), Some(r)) => {
            proof {
                assert(l.wf(m, xs));
                assert(r.wf(m, xs));
                let a = choose|a: int| 0 <= a < l.indices@.len() && l.indices@[a] == l.center;
                let b = choose|b: int| 0 <= b < r.indices@.len() && r.indices@[b] == r.center;
                assert(node.indices@.contains(l.indices@[a]));
                assert(node.indices@.contains(r.indices@[b]));
                assert(node.has_center_over(node.center, l.center));
                assert(node.has_center_over(node.center, r.center));
                assert forall|center: usize, x: usize| #[trigger]
                    l.has_center_over(center, x) implies tree.has_center_over(center, x) by {
                    assert(node.has_center_over(center, x));
                }
                assert forall|center: usize, x: usize| #[trigger]
                    r.has_center_over(center, x) implies tree.has_center_over(center, x) by {
                    assert(node.has_center_over(center, x));
                }
            }
            match store_child::<T, M, D>(data, node, l, entries, filled, levels, Ghost(root), Ghost(tree)) {
                Ok(_) => {},
                Err(e) => {
                    return Err(e);
                },
            }
            let ghost f1 = filled@;
            let ghost v1 = levels@;
            proof {
                assert forall|k: int|
                    0 <= k < r.indices@.len() && f1[#[trigger] r.indices@[k] as int] implies v1[r.indices@[k] as int]
                    <= node.depth by {
                    let x = r.indices@[k];
                    assert(!l.indices@.contains(x)) by {
                        if l.indices@.contains(x) {
                            let a = choose|a: int| 0 <= a < l.indices@.len() && l.indices@[a] == x;
                            assert(l.indices@[a] != r.indices@[k]);
                        }
                    }
                    assert(f1[x as int] == f0[x as int]);
                    assert(node.indices@.contains(r.indices@[k]));
                    let w = choose|w: int| 0 <= w < node.indices@.len() && node.indices@[w] == x;
                    assert(v0[node.indices@[w] as int] <= node.depth);
                }
            }
            match store_child::<T, M, D>(data, node, r, entries, filled, levels, Ghost(root), Ghost(tree)) {
                Ok(_) => {},
                Err(e) => {
                    return Err(e);
                },
            }
            proof {
                assert forall|k: int| 0 <= k < node.indices@.len() implies filled@[
                #[trigger] node.indices@[k] as int] by {
                    let x = node.indices@[k];
                    if l.indices@.contains(x) {
                        let w = choose|w: int| 0 <= w < l.indices@.len() && l.indices@[w] == x;
                        assert(f1[l.indices@[w] as int]);
                    } else {
                        let w = choose|w: int| 0 <= w < r.indices@.len() && r.indices@[w] == x;
                        assert(filled@[r.indices@[w] as int]);
                    }
                }
                assert forall|x: usize|
                    x < f0.len() && !node.indices@.contains(x) implies #[trigger] filled@[x as int]
                    == f0[x as int] by {
                    assert(!l.indices@.contains(x)) by {
                        if l.indices@.contains(x) {
                            let w = choose|w: int| 0 <= w < l.indices@.len() && l.indices@[w] == x;
                            assert(node.indices@.contains(l.indices@[w]));
                        }
                    }
                    assert(!r.indices@.contains(x)) by {
                        if r.indices@.contains(x) {
                            let w = choose|w: int| 0 <= w < r.indices@.len() && r.indices@[w] == x;
                            assert(node.indices@.contains(r.indices@[w]));
                        }
                    }
                    assert(f1[x as int] == f0[x as int]);
                }
            }
            Ok(())
        },
        _ => {
            let mut k: usize = 0;
            while k < node.indices.len()
                invariant
                    k <= node.indices@.len(),
                    data.wf(),
                    m == data.spec_metric(),
                    xs == data.instances(),
                    node.wf(m, xs),
                    entries@.len() == old(entries)@.len(),
                    f0.len() == xs.len(),
                    filled_ok(entries@, filled@, levels@, m, xs, root, tree),
                    filled@[node.center as int],
                    levels@[node.center as int] <= node.depth,
                    root < xs.len(),
                    filled@[root as int],
                    lifts(tree, *node),
                    kept(f0, v0, filled@, levels@),
                    only_members(f0, filled@, node.indices@),
                    forall|p: int| 0 <= p < k ==> filled@[#[trigger] node.indices@[p] as int],
                decreases node.indices@.len() - k,
            {
                let x: usize = node.indices[k];
                let ghost f_before = filled@;
                proof {
                    assert(node.has_center_over(node.center, node.indices@[k as int]));
                }
                match store_diff::<T, M, D>(data, node.center, x, entries, filled, levels, Ghost(root), Ghost(tree)) {
                    Ok(_) => {},
                    Err(e) => {
                        return Err(e);
                    },
                }
                proof {
                    assert forall|y: usize|
                        y < f0.len() && !node.indices@.contains(y) implies #[trigger] filled@[y as int]
                        == f0[y as int] by {
                        assert(f_before[y as int] == f0[y as int]);
                    }
                    assert forall|p: int| 0 <= p < k + 1 implies filled@[
                    #[trigger] node.indices@[p] as int] by {
                        if p < k {
                            assert(f_before[node.indices@[p] as int]);
                        }
                    }
                }
                k = k + 1;
            }
            Ok(())
        },
    }
}

/// Stores the center of a child against the center of its parent, and then the subtree
/// of the child.
fn store_child<T: Copy, M: Codec<T>, D: Dataset<T, M>>(
    data: &D,
    node: &Ball,
    child: &Ball,
    entries: &mut Vec<Entry<T>>,
    filled: &mut Vec<bool>,
    levels: &mut Vec<usize>,
    Ghost(root): Ghost<usize>,
    Ghost(tree): Ghost<Ball>,
) -> (r: Result<(), ClamError>)
    requires
        data.wf(),
        child.wf(data.spec_metric(), data.instances()),
        node.center < data.instances().len(),
        node.depth < usize::MAX,
        child.depth == node.depth + 1,
        filled_ok(
            old(entries)@,
            old(filled)@,
            old(levels)@,
            data.spec_metric(),
            data.instances(),
            root,
            tree,
        ),
        old(filled)@[node.center as int],
        old(levels)@[node.center as int] <= node.depth,
        levels_bounded(old(filled)@, old(levels)@, child.indices@, node.depth),
        root < data.instances().len(),
        old(filled)@[root as int],
        lifts(tree, *child),
        tree.has_center_over(node.center, child.center),
    ensures
        final(entries)@.len() == old(entries)@.len(),
        match r {
            Ok(_) => {
                &&& filled_ok(
                    final(entries)@,
                    final(filled)@,
                    final(levels)@,
                    data.spec_metric(),
                    data.instances(),
                    root,
                    tree,
                )
                &&& kept(old(filled)@, old(levels)@, final(filled)@, final(levels)@)
                &&& only_members(old(filled)@, final(filled)@, child.indices@)
                &&& forall|k: int|
                    0 <= k < child.indices@.len() ==> final(filled)@[#[trigger] child.indices@[k] as int]
            },
            Err(e) => e == ClamError::NotEncodable && !all_encodable(
                data.spec_metric(),
                data.instances(),
            ),
        },
    decreases child, 1nat,
{
    let ghost m = data.spec_metric();
    let ghost xs = data.instances();
    let ghost f0 = filled@;
    let ghost v0 = levels@;
    proof {
        let w = choose|w: int| 0 <= w < child.indices@.len() && child.indices@[w] == child.center;
        assert(child.indices@.contains(child.center));
    }
    match store_diff::<T, M, D>(data, node.center, child.center, entries, filled, levels, Ghost(root), Ghost(tree)) {
        Ok(_) => {},
        Err(e) => {
            return Err(e);
        },
    }
    let ghost f1 = filled@;
    let ghost v1 = levels@;
    proof {
        assert forall|k: int|
            0 <= k < child.indices@.len() && f1[#[trigger] child.indices@[k] as int] implies v1[child.indices@[k] as int]
            <= child.depth by {
            let x = child.indices@[k];
            if x != child.center {
                assert(f0[x as int]);
            } else if f0[x as int] {
                assert(v0[child.indices@[k] as int] <= node.depth);
            }
        }
        assert(kept(f0, v0, f1, v1));
    }
    match store_tree::<T, M, D>(data, child, entries, filled, levels, Ghost(root), Ghost(tree)) {
        Ok(_) => {},
        Err(e) => {
            return Err(e);
        },
    }
    proof {
        assert forall|x: usize|
            x < f0.len() && !child.indices@.contains(x) implies #[trigger] filled@[x as int]
            == f0[x as int] by {
            assert(f1[x as int] == f0[x as int]);
        }
        assert forall|x: usize| x < f0.len() && #[trigger] f0[x as int] implies filled@[x as int]
            && levels@[x as int] == v0[x as int] by {
            assert(f1[x as int]);
        }
    }
    Ok(())
}

/// Returns the largest of the levels, or zero where there are none.
fn largest(levels: &Vec<usize>) -> (top: usize)
    ensures
        forall|k: int| 0 <= k < levels@.len() ==> #[trigger] levels@[k] <= top,
{
    let mut top: usize = 0;
    let mut k: usize = 0;
    while k < levels.len()
        invariant
            k <= levels@.len(),
            forall|p: int| 0 <= p < k ==> #[trigger] levels@[p] <= top,
        decreases levels@.len() - k,
    {
        if levels[k] > top {
            top = levels[k];
        }
        k = k + 1;
    }
    top
}

/// An entry that was stored at some level stores its instance within as many steps.
proof fn lemma_levels_resolve<T, M: Codec<T>>(
    entries: Seq<Entry<T>>,
    of_tree: Seq<Entry<T>>,
    in_tree: Seq<bool>,
    levels: Seq<usize>,
    m: M,
    xs: Seq<Seq<T>>,
    root: usize,
    tree: Ball,
    k: int,
    reach: nat,
)
    requires
        0 <= k < xs.len(),
        entries.len() == xs.len(),
        filled_ok(of_tree, in_tree, levels, m, xs, root, tree),
        forall|j: int| 0 <= j < xs.len() && in_tree[j] ==> #[trigger] entries[j] == of_tree[j],
        forall|j: int|
            0 <= j < xs.len() && !in_tree[j] ==> (#[trigger] entries[j] matches Entry::Raw(v)
                && v@ == xs[j]),
        levels[k] <= reach,
    ensures
        resolves(entries, m, k, reach) == Some(xs[k]),
    decreases reach,
{
    if in_tree[k] {
        assert(entries[k] == of_tree[k]);
        match of_tree[k] {
            Entry::Raw(v) => {},
            Entry::Diff { reference, bytes } => {
                lemma_levels_resolve(
                    entries,
                    of_tree,
                    in_tree,
                    levels,
                    m,
                    xs,
                    root,
                    tree,
                    reference as int,
                    (reach - 1) as nat,
                );
            },
        }
    }
}

/// Compresses a tree and its dataset. The compressed tree has the shape of `ball`, and
/// the compressed dataset holds every instance of `data`: the center of the root and the
/// instances outside the tree as they are, the center of every other cluster as its
/// difference from the center of the parent, and every other member of a leaf as its
/// difference from the center of the leaf. Neither `ball` nor `data` is changed.
///
/// Compression fails where an instance cannot be encoded against its reference, which
/// does not happen when every instance of the dataset can be encoded against every other.
pub fn from_ball_tree<T: Copy, M: Codec<T>, D: Dataset<T, M>>(
    ball: &Ball,
    data: &D,
    metric: M,
) -> (r: Result<(SquishyBall, CodecData<T, M>), ClamError>)
    requires
        data.wf(),
        ball.wf(data.spec_metric(), data.instances()),
        metric == data.spec_metric(),
    ensures
        match r {
            Ok((squishy, codec)) => {
                &&& same_shape(*ball, squishy)
                &&& referenced(squishy, None)
                &&& squishy.wf(data.spec_metric(), data.instances())
                &&& codec.wf()
                &&& codec.instances() == data.instances()
                &&& codec.spec_metric() == metric
                &&& stored_as_compressed(codec.stored(), metric, data.instances(), *ball)
            },
            Err(e) => e == ClamError::NotEncodable && !all_encodable(
                data.spec_metric(),
                data.instances(),
            ),
        },
{
    let ghost m = data.spec_metric();
    let ghost xs = data.instances();
    proof {
        data.lemma_metric_valid();
        let w = choose|w: int| 0 <= w < ball.indices@.len() && ball.indices@[w] == ball.center;
    }
    let n: usize = data.ninstances();
    let shape: Vec<usize> = data.shape();
    let width: usize = shape[1];
    let mut entries: Vec<Entry<T>> = Vec::new();
    let mut filled: Vec<bool> = Vec::new();
    let mut levels: Vec<usize> = Vec::new();
    let mut i: usize = 0;
    while i < n
        invariant
            i <= n,
            entries@.len() == i,
            filled@.len() == i,
            levels@.len() == i,
            forall|k: int| 0 <= k < i ==> !filled@[k],
            forall|k: int| 0 <= k < i ==> levels@[k] == 0,
        decreases n - i,
    {
        entries.push(Entry::Raw(Vec::new()));
        filled.push(false);
        levels.push(0);
        i = i + 1;
    }
    let root_center: Vec<T> = data.instance(ball.center);
    entries.set(ball.center, Entry::Raw(root_center));
    filled.set(ball.center, true);
    let ghost root = ball.center;
    let ghost tree = *ball;
    let ghost f0 = filled@;
    match store_tree::<T, M, D>(data, ball, &mut entries, &mut filled, &mut levels, Ghost(root), Ghost(tree)) {
        Ok(_) => {},
        Err(e) => {
            return Err(e);
        },
    }
    let ghost in_tree = filled@;
    let ghost of_tree = entries@;
    proof {
        assert forall|x: usize| x < xs.len() implies (#[trigger] in_tree[x as int]
            <==> ball.indices@.contains(x)) by {
            if ball.indices@.contains(x) {
                let w = choose|w: int| 0 <= w < ball.indices@.len() && ball.indices@[w] == x;
                assert(in_tree[ball.indices@[w] as int]);
            } else {
                assert(in_tree[x as int] == f0[x as int]);
            }
        }
    }
    let mut i: usize = 0;
    while i < n
        invariant
            i <= n,
            n == xs.len(),
            data.wf(),
            xs == data.instances(),
            m == data.spec_metric(),
            entries@.len() == n,
            levels@.len() == n,
            in_tree.len() == n,
            filled@ == in_tree,
            filled_ok(of_tree, in_tree, levels@, m, xs, root, *ball),
            forall|k: int| 0 <= k < n && in_tree[k] ==> #[trigger] entries@[k] == of_tree[k],
            forall|k: int|
                0 <= k < i && !in_tree[k] ==> (#[trigger] entries@[k] matches Entry::Raw(v) && v@
                    == xs[k]),
        decreases n - i,
    {
        if !filled[i] {
            let x: Vec<T> = data.instance(i);
            entries.set(i, Entry::Raw(x));
        }
        i = i + 1;
    }
    let reach: usize = largest(&levels);
    proof {
        assert forall|k: int| 0 <= k < xs.len() implies resolves(entries@, m, k, reach as nat)
            == Some(#[trigger] xs[k]) by {
            lemma_levels_resolve(
                entries@,
                of_tree,
                in_tree,
                levels@,
                m,
                xs,
                root,
                *ball,
                k,
                reach as nat,
            );
        }
        assert(stores(entries@, m, xs, reach as nat, width as nat));
        assert forall|k: int| 0 <= k < xs.len() implies match #[trigger] entries@[k] {
            Entry::Raw(v) => v@ == xs[k] && (k == root || !ball.indices@.contains(k as usize)),
            Entry::Diff { reference, bytes } => {
                &&& k != root
                &&& ball.indices@.contains(k as usize)
                &&& ball.indices@.contains(reference)
                &&& ball.has_center_over(reference, k as usize)
                &&& reference < xs.len()
                &&& m.encodable(xs[reference as int], xs[k])
                &&& bytes@ == m.encoded(xs[reference as int], xs[k])
            },
        } by {
            assert(in_tree[(k as usize) as int] <==> ball.indices@.contains(k as usize));
            if in_tree[k] {
                assert(entries@[k] == of_tree[k]);
                match of_tree[k] {
                    Entry::Diff { reference, bytes } => {
                        assert(in_tree[reference as int] <==> ball.indices@.contains(reference));
                    },
                    _ => {},
                }
            }
        }
        assert(stored_as_compressed(entries@, m, xs, *ball));
    }
    let codec: CodecData<T, M> = CodecData::assemble(metric, entries, width, reach, Ghost(xs));
    let squishy: SquishyBall = squish(ball, None);
    proof {
        lemma_same_shape_wf(*ball, squishy, m, xs);
    }
    Ok((squishy, codec))
}

} // verus!
