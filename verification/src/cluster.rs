//! Clusters: the nodes of the partition tree.

use vstd::prelude::*;
use crate::dataset::{in_range, pair_distance, Dataset};
use crate::error::ClamError;
use crate::metric::Metric;
use crate::sampling::choose_distinct;
use crate::validate::{all_distinct, all_in_range, no_marks};

verus! {

/// The largest number of members that are compared with each other to find a center.
pub const SAMPLE_LIMIT: usize = 100;

/// A node of the partition tree: a set of indices into a dataset, the index of a center
/// among them, the largest distance from the center to a member, the depth in the tree,
/// and either no children or two. `A` is what a kind of tree keeps in addition.
pub struct Cluster<A> {
    /// The indices of the members.
    pub indices: Vec<usize>,
    /// The index of the center, which is a member.
    pub center: usize,
    /// The largest distance from the center to a member.
    pub radius: u64,
    /// The depth of the cluster in its tree; the root of a tree has depth 0.
    pub depth: usize,
    /// The first child, if the cluster was split.
    pub left: Option<Box<Cluster<A>>>,
    /// The second child, if the cluster was split.
    pub right: Option<Box<Cluster<A>>>,
    /// What this kind of tree keeps in addition.
    pub extra: A,
}

/// A cluster of the partition tree as it is built from a dataset.
pub type Ball = Cluster<()>;

/// Whether `left` and `right` divide `parent` between them: both are non-empty, every
/// member of either is a member of `parent`, every member of `parent` is a member of one
/// of them, and none is a member of both.
pub open spec fn splits(parent: Seq<usize>, left: Seq<usize>, right: Seq<usize>) -> bool {
    &&& left.len() > 0
    &&& right.len() > 0
    &&& left.len() + right.len() == parent.len()
    &&& forall|k: int| 0 <= k < left.len() ==> parent.contains(#[trigger] left[k])
    &&& forall|k: int| 0 <= k < right.len() ==> parent.contains(#[trigger] right[k])
    &&& forall|k: int|
        0 <= k < parent.len() ==> left.contains(#[trigger] parent[k]) || right.contains(parent[k])
    &&& forall|i: int, j: int|
        0 <= i < left.len() && 0 <= j < right.len() ==> #[trigger] left[i] != #[trigger] right[j]
}

/// Whether `radius` is the largest distance from the instance at `center` to the
/// instances at `indices`.
pub open spec fn is_radius<T, M: Metric<T>>(
    m: M,
    xs: Seq<Seq<T>>,
    center: usize,
    indices: Seq<usize>,
    radius: u64,
) -> bool {
    &&& forall|k: int|
        0 <= k < indices.len() ==> pair_distance(m, xs, center as int, #[trigger] indices[k] as int)
            <= radius
    &&& exists|k: int|
        0 <= k < indices.len() && pair_distance(m, xs, center as int, #[trigger] indices[k] as int)
            == radius
}

impl<A> Cluster<A> {
    /// Whether the cluster has no children.
    pub open spec fn spec_is_leaf(&self) -> bool {
        self.left is None
    }

    /// The invariant of a tree of clusters over the instances `xs` under the metric `m`.
    ///
    /// Every cluster has at least one member and no member twice, all members are indices
    /// into `xs`, the center is a member, and the radius is the largest distance from the
    /// center to a member. A cluster has both children or none; children are one level
    /// deeper and divide the members of their parent between them.
    pub open spec fn wf<T, M: Metric<T>>(&self, m: M, xs: Seq<Seq<T>>) -> bool
        decreases self,
    {
        &&& self.indices@.len() > 0
        &&& self.indices@.no_duplicates()
        &&& in_range(self.indices@, xs.len())
        &&& self.indices@.contains(self.center)
        &&& is_radius(m, xs, self.center, self.indices@, self.radius)
        &&& self.depth + self.indices@.len() <= usize::MAX
        &&& (self.left is Some) == (self.right is Some)
        &&& match (self.left, self.right) {
            (Some(l), Some(r)) => {
                &&& l.wf(m, xs)
                &&& r.wf(m, xs)
                &&& l.depth == self.depth + 1
                &&& r.depth == self.depth + 1
                &&& splits(self.indices@, l.indices@, r.indices@)
            },
            _ => true,
        }
    }

    /// The number of levels below this cluster.
    pub open spec fn height(&self) -> nat
        decreases self,
    {
        match (self.left, self.right) {
            (Some(l), Some(r)) => {
                1 + if l.height() >= r.height() {
                    l.height()
                } else {
                    r.height()
                }
            },
            _ => 0,
        }
    }

    /// Returns the number of members.
    pub fn cardinality(&self) -> (n: usize)
        ensures
            n == self.indices@.len(),
    {
        self.indices.len()
    }

    /// Says whether the cluster has exactly one member.
    pub fn is_singleton(&self) -> (b: bool)
        ensures
            b == (self.indices@.len() == 1),
    {
        self.indices.len() == 1
    }

    /// Says whether the cluster has no children.
    pub fn is_leaf(&self) -> (b: bool)
        ensures
            b == self.spec_is_leaf(),
    {
        self.left.is_none()
    }

    /// Returns the depth of the cluster in its tree.
    pub fn depth(&self) -> (d: usize)
        ensures
            d == self.depth,
    {
        self.depth
    }

    /// Returns the index of the center.
    pub fn center(&self) -> (c: usize)
        ensures
            c == self.center,
    {
        self.center
    }

    /// Returns the radius.
    pub fn radius(&self) -> (r: u64)
        ensures
            r == self.radius,
    {
        self.radius
    }

    /// Returns the indices of the members.
    pub fn indices(&self) -> (v: &Vec<usize>)
        ensures
            v@ == self.indices@,
    {
        &self.indices
    }

    /// Whether every leaf of the tree has exactly one member.
    pub open spec fn leaves_single(&self) -> bool
        decreases self,
    {
        match (self.left, self.right) {
            (Some(l), Some(r)) => l.leaves_single() && r.leaves_single(),
            _ => self.indices@.len() == 1,
        }
    }

    /// The leaves of the tree, from the first to the last.
    pub open spec fn leaf_seq(&self) -> Seq<Cluster<A>>
        decreases self,
    {
        match (self.left, self.right) {
            (Some(l), Some(r)) => l.leaf_seq() + r.leaf_seq(),
            _ => seq![*self],
        }
    }

    /// Says whether every leaf of the tree has exactly one member.
    pub fn all_singletons(&self) -> (b: bool)
        ensures
            b == self.leaves_single(),
        decreases self,
    {
        match (&self.left, &self.right) {
            (Some(l), Some(r)) => l.all_singletons() && r.all_singletons(),
            _ => self.indices.len() == 1,
        }
    }

    /// Returns the leaves of the tree, from the first to the last.
    pub fn leaves(&self) -> (v: Vec<&Cluster<A>>)
        ensures
            v@.len() == self.leaf_seq().len(),
            forall|i: int| 0 <= i < v@.len() ==> *(#[trigger] v@[i]) == self.leaf_seq()[i],
        decreases self,
    {
        match (&self.left, &self.right) {
            (Some(l), Some(r)) => {
                let mut v: Vec<&Cluster<A>> = l.leaves();
                let mut w: Vec<&Cluster<A>> = r.leaves();
                v.append(&mut w);
                v
            },
            _ => {
                let mut v: Vec<&Cluster<A>> = Vec::new();
                v.push(self);
                v
            },
        }
    }

    /// Returns the two children of a cluster that was split.
    pub fn children(&self) -> (c: Option<(&Cluster<A>, &Cluster<A>)>)
        ensures
            match c {
                Some((l, r)) => self.left == Some(Box::new(*l)) && self.right == Some(Box::new(*r)),
                None => self.left is None || self.right is None,
            },
    {
        match (&self.left, &self.right) {
            (Some(l), Some(r)) => Some((&**l, &**r)),
            _ => None,
        }
    }
}

/// The first `j` entries of `indices`, as a set.
pub open spec fn first_members(indices: Seq<usize>, j: int) -> Set<usize> {
    Set::new(
        |x: usize| exists|p: int| 0 <= p < j && p < indices.len() && #[trigger] indices[p] == x,
    )
}

/// One entry more adds that entry to the set.
pub proof fn lemma_first_members_next(indices: Seq<usize>, j: int)
    requires
        0 <= j < indices.len(),
    ensures
        first_members(indices, j + 1) == first_members(indices, j).insert(indices[j]),
{
    assert forall|x: usize|
        first_members(indices, j + 1).contains(x) == first_members(indices, j).insert(
            indices[j],
        ).contains(x) by {
        if first_members(indices, j + 1).contains(x) {
            let p = choose|p: int| 0 <= p < j + 1 && p < indices.len() && indices[p] == x;
            if p < j {
                assert(first_members(indices, j).contains(x));
            }
        }
        if first_members(indices, j).contains(x) {
            let p = choose|p: int| 0 <= p < j && p < indices.len() && indices[p] == x;
            assert(0 <= p < j + 1 && indices[p] == x);
        }
        if x == indices[j] {
            assert(0 <= j < j + 1 && indices[j] == x);
        }
    }
    assert(first_members(indices, j + 1) =~= first_members(indices, j).insert(indices[j]));
}

/// All the entries make the set of the sequence.
pub proof fn lemma_first_members_all(indices: Seq<usize>)
    ensures
        first_members(indices, indices.len() as int) == indices.to_set(),
        first_members(indices, 0) == Set::<usize>::empty(),
{
    assert forall|x: usize|
        first_members(indices, indices.len() as int).contains(x) == indices.to_set().contains(
            x,
        ) by {
        if indices.contains(x) {
            let p = choose|p: int| 0 <= p < indices.len() && indices[p] == x;
            assert(0 <= p < indices.len() && p < indices.len() && indices[p] == x);
        }
    }
    assert(first_members(indices, indices.len() as int) =~= indices.to_set());
    assert(first_members(indices, 0) =~= Set::<usize>::empty());
}

/// Two sequences that divide a third between them hold, as sets, all that it holds and
/// nothing in common.
pub proof fn lemma_split_sets(parent: Seq<usize>, left: Seq<usize>, right: Seq<usize>)
    requires
        splits(parent, left, right),
    ensures
        left.to_set().union(right.to_set()) == parent.to_set(),
        left.to_set().disjoint(right.to_set()),
{
    assert forall|x: usize|
        left.to_set().union(right.to_set()).contains(x) == parent.to_set().contains(x) by {
        if left.contains(x) {
            let w = choose|w: int| 0 <= w < left.len() && left[w] == x;
            assert(parent.contains(left[w]));
        }
        if right.contains(x) {
            let w = choose|w: int| 0 <= w < right.len() && right[w] == x;
            assert(parent.contains(right[w]));
        }
        if parent.contains(x) {
            let w = choose|w: int| 0 <= w < parent.len() && parent[w] == x;
            assert(left.contains(parent[w]) || right.contains(parent[w]));
        }
    }
    assert(left.to_set().union(right.to_set()) =~= parent.to_set());
    assert forall|x: usize| !(left.to_set().contains(x) && right.to_set().contains(x)) by {
        if left.contains(x) && right.contains(x) {
            let a = choose|a: int| 0 <= a < left.len() && left[a] == x;
            let b = choose|b: int| 0 <= b < right.len() && right[b] == x;
            assert(left[a] != right[b]);
        }
    }
}

impl<A> Cluster<A> {
    /// The members of the cluster, as a set.
    pub open spec fn members(&self) -> Set<usize> {
        self.indices@.to_set()
    }

    /// Whether no member is lost or duplicated anywhere in the tree: of every cluster that
    /// was split, the members are those of its two children together, and the children
    /// have no member in common.
    pub open spec fn complete(&self) -> bool
        decreases self,
    {
        match (self.left, self.right) {
            (Some(l), Some(r)) => {
                &&& l.members().union(r.members()) == self.members()
                &&& l.members().disjoint(r.members())
                &&& l.complete()
                &&& r.complete()
            },
            _ => true,
        }
    }

    /// In a well-formed tree no member is lost or duplicated by a split, at any depth.
    pub proof fn lemma_partition_complete<T, M: Metric<T>>(&self, m: M, xs: Seq<Seq<T>>)
        requires
            self.wf(m, xs),
        ensures
            self.complete(),
        decreases self,
    {
        match (self.left, self.right) {
            (Some(l), Some(r)) => {
                lemma_split_sets(self.indices@, l.indices@, r.indices@);
                l.lemma_partition_complete(m, xs);
                r.lemma_partition_complete(m, xs);
            },
            _ => {},
        }
    }
}

/// A cluster that was split has at least two members, so a cluster of one is a leaf.
pub proof fn lemma_singleton_is_leaf<A, T, M: Metric<T>>(c: Cluster<A>, m: M, xs: Seq<Seq<T>>)
    requires
        c.wf(m, xs),
        c.indices@.len() == 1,
    ensures
        c.spec_is_leaf(),
{
}

/// Returns the position of a largest entry of `ds`, leaving out the position `skip`.
pub(crate) fn farthest(ds: &Vec<u64>, skip: Option<usize>) -> (best: usize)
    requires
        ds@.len() > 0,
        skip is Some ==> ds@.len() > 1,
    ensures
        best < ds@.len(),
        Some(best) != skip,
        forall|k: int| 0 <= k < ds@.len() && Some(k as usize) != skip ==> ds@[k] <= ds@[best as int],
{
    let mut best: usize = if skip == Some(0) {
        1
    } else {
        0
    };
    let mut k: usize = 0;
    while k < ds.len()
        invariant
            k <= ds@.len(),
            best < ds@.len(),
            Some(best) != skip,
            forall|p: int| 0 <= p < k && Some(p as usize) != skip ==> ds@[p] <= ds@[best as int],
        decreases ds@.len() - k,
    {
        if Some(k) != skip && ds[k] > ds[best] {
            best = k;
        }
        k = k + 1;
    }
    best
}

/// The sum of the first `n` distances.
pub open spec fn sum_of(ds: Seq<u64>, n: int) -> nat
    decreases n,
{
    if n <= 0 {
        0
    } else {
        sum_of(ds, n - 1) + ds[n - 1] as nat
    }
}

/// The sum of the distances from the instance at `c` to the first `n` of the instances
/// at the indices of `sample`.
pub open spec fn total_distance<T, M: Metric<T>>(
    m: M,
    xs: Seq<Seq<T>>,
    c: usize,
    sample: Seq<usize>,
    n: int,
) -> nat
    decreases n,
{
    if n <= 0 {
        0
    } else {
        total_distance(m, xs, c, sample, n - 1) + pair_distance(
            m,
            xs,
            c as int,
            sample[n - 1] as int,
        )
    }
}

/// Whether `center` is, of the instances at the indices of `sample`, one whose distances
/// to all of them have the smallest sum.
pub open spec fn is_medoid<T, M: Metric<T>>(
    m: M,
    xs: Seq<Seq<T>>,
    center: usize,
    sample: Seq<usize>,
) -> bool {
    &&& sample.contains(center)
    &&& forall|p: int|
        0 <= p < sample.len() ==> total_distance(m, xs, center, sample, sample.len() as int)
            <= total_distance(m, xs, #[trigger] sample[p], sample, sample.len() as int)
}

/// Whether `center` was chosen as the center of a cluster with the members `indices` is
/// to be: as the medoid of a sample of the members, which are all of them where there
/// are at most `SAMPLE_LIMIT`, and `SAMPLE_LIMIT` different ones otherwise.
pub open spec fn centered<T, M: Metric<T>>(
    m: M,
    xs: Seq<Seq<T>>,
    center: usize,
    indices: Seq<usize>,
) -> bool {
    exists|sample: Seq<usize>|
        {
            &&& #[trigger] sample.no_duplicates()
            &&& forall|k: int| 0 <= k < sample.len() ==> indices.contains(#[trigger] sample[k])
            &&& sample.len() == if indices.len() <= SAMPLE_LIMIT {
                indices.len()
            } else {
                SAMPLE_LIMIT as nat
            }
            &&& is_medoid(m, xs, center, sample)
        }
}

/// A row of distances from one instance to those of a sample sums to the total distance.
proof fn lemma_row_total<T, M: Metric<T>>(
    row: Seq<u64>,
    m: M,
    xs: Seq<Seq<T>>,
    c: usize,
    sample: Seq<usize>,
    n: int,
)
    requires
        0 <= n <= sample.len(),
        row.len() == sample.len(),
        forall|k: int|
            0 <= k < sample.len() ==> row[k] == pair_distance(
                m,
                xs,
                c as int,
                #[trigger] sample[k] as int,
            ),
    ensures
        sum_of(row, n) == total_distance(m, xs, c, sample, n),
    decreases n,
{
    if n > 0 {
        lemma_row_total(row, m, xs, c, sample, n - 1);
        assert(row[n - 1] == pair_distance(m, xs, c as int, sample[n - 1] as int));
    }
}

/// Returns the position of the row of `rows` with the smallest sum.
fn lightest(rows: &Vec<Vec<u64>>) -> (best: usize)
    requires
        0 < rows@.len() <= SAMPLE_LIMIT,
        forall|p: int| 0 <= p < rows@.len() ==> (#[trigger] rows@[p])@.len() <= SAMPLE_LIMIT,
    ensures
        best < rows@.len(),
        forall|p: int|
            0 <= p < rows@.len() ==> sum_of(rows@[best as int]@, rows@[best as int]@.len() as int)
                <= sum_of((#[trigger] rows@[p])@, rows@[p]@.len() as int),
{
    let mut best: usize = 0;
    let mut least: u128 = 0;
    let mut p: usize = 0;
    while p < rows.len()
        invariant
            p <= rows@.len(),
            best < rows@.len(),
            p > 0 ==> best < p,
            p > 0 ==> least == sum_of(rows@[best as int]@, rows@[best as int]@.len() as int),
            forall|q: int|
                0 <= q < p ==> least <= sum_of((#[trigger] rows@[q])@, rows@[q]@.len() as int),
            forall|p: int| 0 <= p < rows@.len() ==> (#[trigger] rows@[p])@.len() <= SAMPLE_LIMIT,
        decreases rows@.len() - p,
    {
        let row: &Vec<u64> = &rows[p];
        let mut sum: u128 = 0;
        let mut k: usize = 0;
        while k < row.len()
            invariant
                k <= row@.len(),
                row@.len() <= SAMPLE_LIMIT,
                sum <= k * u64::MAX,
                sum == sum_of(row@, k as int),
            decreases row@.len() - k,
        {
            sum = sum + row[k] as u128;
            k = k + 1;
        }
        if p == 0 || sum < least {
            best = p;
            least = sum;
        }
        p = p + 1;
    }
    best
}

/// Chooses a center among `indices`: of up to `SAMPLE_LIMIT` members chosen at random,
/// the one with the smallest sum of distances to the others.
fn choose_center<T, M: Metric<T>, D: Dataset<T, M>>(
    data: &mut D,
    indices: &Vec<usize>,
    seed: Option<u64>,
) -> (center: usize)
    requires
        old(data).wf(),
        indices@.len() > 0,
        indices@.no_duplicates(),
        in_range(indices@, old(data).instances().len()),
    ensures
        final(data).wf(),
        final(data).instances() == old(data).instances(),
        final(data).spec_metric() == old(data).spec_metric(),
        indices@.contains(center),
        centered(old(data).spec_metric(), old(data).instances(), center, indices@),
{
    let ghost m = data.spec_metric();
    let ghost xs = data.instances();
    let samples: Vec<usize> = choose_distinct(indices, SAMPLE_LIMIT, seed);
    proof {
        assert forall|k: int| 0 <= k < samples@.len() implies samples@[k] < data.instances().len() by {
            let w = choose|w: int| 0 <= w < indices@.len() && indices@[w] == samples@[k];
        }
    }
    let rows: Vec<Vec<u64>> = data.pairwise_distances(&samples);
    let best: usize = lightest(&rows);
    proof {
        let count = samples@.len() as int;
        assert forall|p: int| 0 <= p < samples@.len() implies total_distance(
            m,
            xs,
            samples@[best as int],
            samples@,
            count,
        ) <= total_distance(m, xs, #[trigger] samples@[p], samples@, count) by {
            lemma_row_total(rows@[best as int]@, m, xs, samples@[best as int], samples@, count);
            lemma_row_total(rows@[p]@, m, xs, samples@[p], samples@, count);
        }
        assert(samples@.contains(samples@[best as int]));
        assert(is_medoid(m, xs, samples@[best as int], samples@));
        assert(samples@.no_duplicates());
    }
    samples[best]
}

/// Builds a cluster without children over the given indices.
pub(crate) fn leaf<T, M: Metric<T>, D: Dataset<T, M>>(
    data: &mut D,
    indices: Vec<usize>,
    depth: usize,
    seed: Option<u64>,
) -> (c: Ball)
    requires
        old(data).wf(),
        indices@.len() > 0,
        indices@.no_duplicates(),
        in_range(indices@, old(data).instances().len()),
        depth + indices@.len() <= usize::MAX,
    ensures
        final(data).wf(),
        final(data).instances() == old(data).instances(),
        final(data).spec_metric() == old(data).spec_metric(),
        c.wf(old(data).spec_metric(), old(data).instances()),
        c.indices@ == indices@,
        c.depth == depth,
        c.spec_is_leaf(),
        centered(old(data).spec_metric(), old(data).instances(), c.center, c.indices@),
{
    let center: usize = choose_center(data, &indices, seed);
    proof {
        let w = choose|w: int| 0 <= w < indices@.len() && indices@[w] == center;
    }
    let ds: Vec<u64> = data.distances_from(center, &indices);
    let far: usize = farthest(&ds, None);
    let radius: u64 = ds[far];
    proof {
        assert(pair_distance(
            old(data).spec_metric(),
            old(data).instances(),
            center as int,
            indices@[far as int] as int,
        ) == radius);
    }
    Cluster { indices, center, radius, depth, left: None, right: None, extra: () }
}

impl Cluster<()> {
    /// Builds the root of a tree: a cluster without children over the given indices of
    /// the dataset, at the given depth. A seed makes the choice of the center repeatable.
    ///
    /// There must be at least one index, each must belong to the dataset, and none may
    /// occur twice. The depth and the number of indices together must not pass the
    /// largest number, so that every level below has a depth.
    pub fn new<T, M: Metric<T>, D: Dataset<T, M>>(
        data: &mut D,
        indices: Vec<usize>,
        depth: usize,
        seed: Option<u64>,
    ) -> (r: Result<Ball, ClamError>)
        requires
            old(data).wf(),
        ensures
            final(data).wf(),
            final(data).instances() == old(data).instances(),
            final(data).spec_metric() == old(data).spec_metric(),
            match r {
                Ok(c) => {
                    &&& indices@.len() > 0
                    &&& depth + indices@.len() <= usize::MAX
                    &&& in_range(indices@, old(data).instances().len())
                    &&& indices@.no_duplicates()
                    &&& c.wf(old(data).spec_metric(), old(data).instances())
                    &&& c.indices@ == indices@
                    &&& c.depth == depth
                    &&& c.spec_is_leaf()
                    &&& centered(
                        old(data).spec_metric(),
                        old(data).instances(),
                        c.center,
                        c.indices@,
                    )
                },
                Err(e) => {
                    &&& e == ClamError::EmptyIndices <==> indices@.len() == 0
                    &&& e == ClamError::TooDeep <==> indices@.len() > 0 && depth + indices@.len()
                        > usize::MAX
                    &&& e == ClamError::IndexOutOfBounds <==> indices@.len() > 0 && depth
                        + indices@.len() <= usize::MAX && !in_range(
                        indices@,
                        old(data).instances().len(),
                    )
                    &&& e == ClamError::DuplicateIndex <==> indices@.len() > 0 && depth
                        + indices@.len() <= usize::MAX && in_range(
                        indices@,
                        old(data).instances().len(),
                    ) && !indices@.no_duplicates()
                    &&& e == ClamError::EmptyIndices || e == ClamError::TooDeep || e
                        == ClamError::IndexOutOfBounds || e == ClamError::DuplicateIndex
                },
            },
    {
        if indices.len() == 0 {
            return Err(ClamError::EmptyIndices);
        }
        if depth > usize::MAX - indices.len() {
            return Err(ClamError::TooDeep);
        }
        let n: usize = data.ninstances();
        if !all_in_range(&indices, n) {
            return Err(ClamError::IndexOutOfBounds);
        }
        let mut marks: Vec<bool> = no_marks(n);
        if !all_distinct(&indices, &mut marks) {
            return Err(ClamError::DuplicateIndex);
        }
        Ok(leaf(data, indices, depth, seed))
    }
}

} // verus!
