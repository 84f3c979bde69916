//! Checking values that were not built here: a tree, a compressed tree and a compressed
//! dataset that come from storage are held to their invariants before they are used.

use vstd::prelude::*;
use vstd::laws_eq::obeys_concrete_eq;
use crate::cluster::{is_radius, splits, Cluster};
use crate::dataset::{in_range, pair_distance, Dataset};
use crate::metric::Metric;
use crate::squishy::same_shape;

verus! {

/// Whether no entry of `marks` is set.
pub open spec fn unmarked(marks: Seq<bool>) -> bool {
    forall|x: usize| x < marks.len() ==> !#[trigger] marks[x as int]
}

/// Whether the entries of `marks` that are set are those at the indices of `a` and `b`.
pub open spec fn marks_of(marks: Seq<bool>, a: Seq<usize>, b: Seq<usize>) -> bool {
    forall|x: usize| x < marks.len() ==> (#[trigger] marks[x as int] <==> a.contains(x) || b.contains(x))
}

/// Returns `n` marks, none of them set.
pub fn no_marks(n: usize) -> (marks: Vec<bool>)
    ensures
        marks@.len() == n,
        unmarked(marks@),
{
    let mut marks: Vec<bool> = Vec::new();
    let mut i: usize = 0;
    while i < n
        invariant
            i <= n,
            marks@.len() == i,
            unmarked(marks@),
        decreases n - i,
    {
        marks.push(false);
        i = i + 1;
    }
    marks
}

/// Says whether every entry of `indices` is below `n`.
pub fn all_in_range(indices: &Vec<usize>, n: usize) -> (ok: bool)
    ensures
        ok == in_range(indices@, n as nat),
{
    let mut k: usize = 0;
    while k < indices.len()
        invariant
            k <= indices@.len(),
            forall|p: int| 0 <= p < k ==> indices@[p] < n,
        decreases indices@.len() - k,
    {
        if indices[k] >= n {
            return false;
        }
        k = k + 1;
    }
    true
}

/// Sets the marks at the given indices.
fn set_marks(marks: &mut Vec<bool>, indices: &Vec<usize>, Ghost(others): Ghost<Seq<usize>>)
    requires
        in_range(indices@, old(marks)@.len()),
        marks_of(old(marks)@, others, Seq::<usize>::empty()),
    ensures
        final(marks)@.len() == old(marks)@.len(),
        marks_of(final(marks)@, others, indices@),
{
    let mut k: usize = 0;
    while k < indices.len()
        invariant
            k <= indices@.len(),
            marks@.len() == old(marks)@.len(),
            in_range(indices@, marks@.len()),
            marks_of(marks@, others, indices@.take(k as int)),
        decreases indices@.len() - k,
    {
        let ghost before = marks@;
        let x: usize = indices[k];
        marks.set(x, true);
        proof {
            let seen = indices@.take(k as int);
            let next = indices@.take(k + 1);
            assert(next[k as int] == x);
            assert forall|y: usize| y < marks@.len() implies (#[trigger] marks@[y as int]
                <==> others.contains(y) || next.contains(y)) by {
                if seen.contains(y) {
                    let w = choose|w: int| 0 <= w < seen.len() && seen[w] == y;
                    assert(next[w] == y);
                }
                if next.contains(y) && y != x {
                    let w = choose|w: int| 0 <= w < next.len() && next[w] == y;
                    assert(seen[w] == y);
                }
                assert(before[y as int] <==> others.contains(y) || seen.contains(y));
            }
        }
        k = k + 1;
    }
    proof {
        assert(indices@.take(indices@.len() as int) =~= indices@);
    }
}

/// Clears the marks at the given indices.
fn clear_marks(marks: &mut Vec<bool>, indices: &Vec<usize>)
    requires
        in_range(indices@, old(marks)@.len()),
        forall|x: usize| x < old(marks)@.len() && #[trigger] old(marks)@[x as int] ==> indices@.contains(x),
    ensures
        final(marks)@.len() == old(marks)@.len(),
        unmarked(final(marks)@),
{
    let mut k: usize = 0;
    while k < indices.len()
        invariant
            k <= indices@.len(),
            marks@.len() == old(marks)@.len(),
            in_range(indices@, marks@.len()),
            forall|x: usize|
                x < marks@.len() && #[trigger] marks@[x as int] ==> exists|p: int|
                    k <= p < indices@.len() && indices@[p] == x,
        decreases indices@.len() - k,
    {
        let ghost before = marks@;
        let x: usize = indices[k];
        marks.set(x, false);
        proof {
            assert forall|y: usize| y < marks@.len() && #[trigger] marks@[y as int] implies exists|
                p: int,
            |
                k + 1 <= p < indices@.len() && indices@[p] == y by {
                assert(before[y as int]);
                let p = choose|p: int| k <= p < indices@.len() && indices@[p] == y;
                assert(p != k);
            }
        }
        k = k + 1;
    }
    proof {
        assert forall|x: usize| x < marks@.len() implies !#[trigger] marks@[x as int] by {
            if marks@[x as int] {
                let p = choose|p: int| k <= p < indices@.len() && indices@[p] == x;
            }
        }
    }
}

/// Says whether the marks at all the given indices are set.
fn all_marked(marks: &Vec<bool>, indices: &Vec<usize>) -> (ok: bool)
    requires
        in_range(indices@, marks@.len()),
    ensures
        ok == forall|k: int| 0 <= k < indices@.len() ==> marks@[#[trigger] indices@[k] as int],
{
    let mut k: usize = 0;
    while k < indices.len()
        invariant
            k <= indices@.len(),
            in_range(indices@, marks@.len()),
            forall|p: int| 0 <= p < k ==> marks@[#[trigger] indices@[p] as int],
        decreases indices@.len() - k,
    {
        if !marks[indices[k]] {
            return false;
        }
        k = k + 1;
    }
    true
}

/// Says whether none of the marks at the given indices is set.
fn none_marked(marks: &Vec<bool>, indices: &Vec<usize>) -> (ok: bool)
    requires
        in_range(indices@, marks@.len()),
    ensures
        ok == forall|k: int| 0 <= k < indices@.len() ==> !marks@[#[trigger] indices@[k] as int],
{
    let mut k: usize = 0;
    while k < indices.len()
        invariant
            k <= indices@.len(),
            in_range(indices@, marks@.len()),
            forall|p: int| 0 <= p < k ==> !marks@[#[trigger] indices@[p] as int],
        decreases indices@.len() - k,
    {
        if marks[indices[k]] {
            return false;
        }
        k = k + 1;
    }
    true
}

/// Says whether no index occurs twice. The marks are a scratch pad that is handed back
/// as it came: all clear.
pub fn all_distinct(indices: &Vec<usize>, marks: &mut Vec<bool>) -> (ok: bool)
    requires
        in_range(indices@, old(marks)@.len()),
        unmarked(old(marks)@),
    ensures
        final(marks)@.len() == old(marks)@.len(),
        unmarked(final(marks)@),
        ok == indices@.no_duplicates(),
{
    let mut ok: bool = true;
    let mut k: usize = 0;
    while k < indices.len() && ok
        invariant
            k <= indices@.len(),
            marks@.len() == old(marks)@.len(),
            in_range(indices@, marks@.len()),
            forall|x: usize|
                x < marks@.len() ==> (#[trigger] marks@[x as int] <==> exists|p: int|
                    0 <= p < k && p < indices@.len() && indices@[p] == x),
            ok ==> forall|p: int, q: int| 0 <= p < q < k ==> indices@[p] != indices@[q],
            !ok ==> !indices@.no_duplicates(),
        decreases indices@.len() - k + if ok { 1nat } else { 0nat },
    {
        let x: usize = indices[k];
        if marks[x] {
            proof {
                let p = choose|p: int| 0 <= p < k && p < indices@.len() && indices@[p] == x;
                assert(indices@[p] == indices@[k as int]);
            }
            ok = false;
        } else {
            let ghost before = marks@;
            marks.set(x, true);
            proof {
                assert forall|y: usize| y < marks@.len() implies (#[trigger] marks@[y as int]
                    <==> exists|p: int| 0 <= p < k + 1 && p < indices@.len() && indices@[p] == y) by {
                    if y == x {
                        assert(indices@[k as int] == y);
                    } else if before[y as int] {
                        let p = choose|p: int| 0 <= p < k && p < indices@.len() && indices@[p] == y;
                        assert(0 <= p < k + 1 && indices@[p] == y);
                    }
                }
            }
            k = k + 1;
        }
    }
    proof {
        assert forall|x: usize| x < marks@.len() && #[trigger] marks@[x as int] implies indices@.contains(
            x,
        ) by {
            let p = choose|p: int| 0 <= p < k && p < indices@.len() && indices@[p] == x;
        }
    }
    clear_marks(marks, indices);
    ok
}

/// Says whether `left` and `right` divide `parent` between them. The marks are a scratch
/// pad that is handed back as it came: all clear.
pub fn check_split(
    parent: &Vec<usize>,
    left: &Vec<usize>,
    right: &Vec<usize>,
    marks: &mut Vec<bool>,
) -> (ok: bool)
    requires
        in_range(parent@, old(marks)@.len()),
        in_range(left@, old(marks)@.len()),
        in_range(right@, old(marks)@.len()),
        unmarked(old(marks)@),
    ensures
        final(marks)@.len() == old(marks)@.len(),
        unmarked(final(marks)@),
        ok == splits(parent@, left@, right@),
{
    let sizes_fit: bool = left.len() > 0 && right.len() > 0 && left.len() <= parent.len()
        && right.len() == parent.len() - left.len();
    proof {
        assert(marks_of(marks@, Seq::<usize>::empty(), Seq::<usize>::empty()));
    }
    set_marks(marks, left, Ghost(Seq::<usize>::empty()));
    proof {
        assert forall|x: usize| x < marks@.len() implies (#[trigger] marks@[x as int] <==> left@.contains(
            x,
        )) by {
        }
    }
    let apart: bool = none_marked(marks, right);
    proof {
        assert(marks_of(marks@, left@, Seq::<usize>::empty()));
    }
    set_marks(marks, right, Ghost(left@));
    let covered: bool = all_marked(marks, parent);
    proof {
        assert forall|x: usize| x < marks@.len() && #[trigger] marks@[x as int] implies (left@
            + right@).contains(x) by {
            if left@.contains(x) {
                let w = choose|w: int| 0 <= w < left@.len() && left@[w] == x;
                assert((left@ + right@)[w] == x);
            } else {
                let w = choose|w: int| 0 <= w < right@.len() && right@[w] == x;
                assert((left@ + right@)[left@.len() + w] == x);
            }
        }
    }
    let ghost both = marks@;
    clear_both(marks, left, right);
    proof {
        assert(marks_of(marks@, Seq::<usize>::empty(), Seq::<usize>::empty()));
    }
    set_marks(marks, parent, Ghost(Seq::<usize>::empty()));
    let left_inside: bool = all_marked(marks, left);
    let right_inside: bool = all_marked(marks, right);
    let ghost of_parent = marks@;
    proof {
        assert forall|x: usize| x < marks@.len() && #[trigger] marks@[x as int] implies parent@.contains(
            x,
        ) by {
        }
    }
    clear_marks(marks, parent);
    let ok: bool = sizes_fit && apart && covered && left_inside && right_inside;
    proof {
        if ok {
            assert forall|k: int| 0 <= k < left@.len() implies parent@.contains(
                #[trigger] left@[k],
            ) by {
                assert(of_parent[left@[k] as int]);
            }
            assert forall|k: int| 0 <= k < right@.len() implies parent@.contains(
                #[trigger] right@[k],
            ) by {
                assert(of_parent[right@[k] as int]);
            }
            assert forall|k: int| 0 <= k < parent@.len() implies left@.contains(
                #[trigger] parent@[k],
            ) || right@.contains(parent@[k]) by {
                assert(both[parent@[k] as int]);
            }
            assert forall|i: int, j: int|
                0 <= i < left@.len() && 0 <= j < right@.len() implies #[trigger] left@[i]
                != #[trigger] right@[j] by {
                if left@[i] == right@[j] {
                    assert(left@.contains(right@[j]));
                }
            }
        }
        if splits(parent@, left@, right@) {
            assert(sizes_fit);
            assert forall|k: int| 0 <= k < right@.len() implies !left@.contains(
                #[trigger] right@[k],
            ) by {
                if left@.contains(right@[k]) {
                    let w = choose|w: int| 0 <= w < left@.len() && left@[w] == right@[k];
                    assert(left@[w] != right@[k]);
                }
            }
            assert(apart);
            assert(covered);
            assert(left_inside);
            assert(right_inside);
        }
    }
    ok
}

/// Clears the marks at the indices of two lists.
fn clear_both(marks: &mut Vec<bool>, left: &Vec<usize>, right: &Vec<usize>)
    requires
        in_range(left@, old(marks)@.len()),
        in_range(right@, old(marks)@.len()),
        forall|x: usize|
            x < old(marks)@.len() && #[trigger] old(marks)@[x as int] ==> left@.contains(x)
                || right@.contains(x),
    ensures
        final(marks)@.len() == old(marks)@.len(),
        unmarked(final(marks)@),
{
    let mut k: usize = 0;
    while k < left.len()
        invariant
            k <= left@.len(),
            marks@.len() == old(marks)@.len(),
            in_range(left@, marks@.len()),
            forall|x: usize|
                x < marks@.len() && #[trigger] marks@[x as int] ==> right@.contains(x) || exists|
                    p: int,
                |
                    k <= p < left@.len() && left@[p] == x,
        decreases left@.len() - k,
    {
        let ghost before = marks@;
        let x: usize = left[k];
        marks.set(x, false);
        proof {
            assert forall|y: usize|
                y < marks@.len() && #[trigger] marks@[y as int] implies right@.contains(y)
                || exists|p: int| k + 1 <= p < left@.len() && left@[p] == y by {
                assert(before[y as int]);
                if !right@.contains(y) {
                    let p = choose|p: int| k <= p < left@.len() && left@[p] == y;
                    assert(p != k);
                }
            }
        }
        k = k + 1;
    }
    clear_marks(marks, right);
}

/// Says whether `radius` is the largest of the distances.
fn is_largest(ds: &Vec<u64>, radius: u64) -> (ok: bool)
    ensures
        ok == ((forall|k: int| 0 <= k < ds@.len() ==> #[trigger] ds@[k] <= radius) && exists|k: int|
            0 <= k < ds@.len() && #[trigger] ds@[k] == radius),
{
    let mut reached: bool = false;
    let mut k: usize = 0;
    while k < ds.len()
        invariant
            k <= ds@.len(),
            forall|p: int| 0 <= p < k ==> #[trigger] ds@[p] <= radius,
            reached <==> exists|p: int| 0 <= p < k && #[trigger] ds@[p] == radius,
        decreases ds@.len() - k,
    {
        if ds[k] > radius {
            return false;
        }
        if ds[k] == radius {
            reached = true;
        }
        k = k + 1;
    }
    reached
}

/// Says whether `x` is one of `indices`.
fn is_member(indices: &Vec<usize>, x: usize) -> (ok: bool)
    ensures
        ok == indices@.contains(x),
{
    let mut k: usize = 0;
    while k < indices.len()
        invariant
            k <= indices@.len(),
            forall|p: int| 0 <= p < k ==> indices@[p] != x,
        decreases indices@.len() - k,
    {
        if indices[k] == x {
            return true;
        }
        k = k + 1;
    }
    false
}

impl<A> Cluster<A> {
    /// Whether this cluster alone is as a cluster of a tree over `xs` under `m` has to be,
    /// whatever its children are.
    pub open spec fn node_ok<T, M: Metric<T>>(&self, m: M, xs: Seq<Seq<T>>) -> bool {
        &&& self.indices@.len() > 0
        &&& self.indices@.no_duplicates()
        &&& in_range(self.indices@, xs.len())
        &&& self.indices@.contains(self.center)
        &&& is_radius(m, xs, self.center, self.indices@, self.radius)
        &&& self.depth + self.indices@.len() <= usize::MAX
        &&& (self.left is Some) == (self.right is Some)
    }

    /// Checks this cluster alone.
    fn check_node<T, M: Metric<T>, D: Dataset<T, M>>(
        &self,
        data: &mut D,
        marks: &mut Vec<bool>,
    ) -> (ok: bool)
        requires
            old(data).wf(),
            old(marks)@.len() == old(data).instances().len(),
            unmarked(old(marks)@),
        ensures
            final(data).wf(),
            final(data).instances() == old(data).instances(),
            final(data).spec_metric() == old(data).spec_metric(),
            final(marks)@.len() == old(marks)@.len(),
            unmarked(final(marks)@),
            ok == self.node_ok(old(data).spec_metric(), old(data).instances()),
    {
        let n: usize = marks.len();
        if self.indices.len() == 0 {
            return false;
        }
        if self.depth > usize::MAX - self.indices.len() {
            return false;
        }
        if self.left.is_some() != self.right.is_some() {
            return false;
        }
        if !all_in_range(&self.indices, n) {
            return false;
        }
        if !all_distinct(&self.indices, marks) {
            return false;
        }
        if !is_member(&self.indices, self.center) {
            return false;
        }
        proof {
            let w = choose|w: int|
                0 <= w < self.indices@.len() && self.indices@[w] == self.center;
        }
        let ds: Vec<u64> = data.distances_from(self.center, &self.indices);
        let ok: bool = is_largest(&ds, self.radius);
        proof {
            let m = old(data).spec_metric();
            let xs = old(data).instances();
            if ok {
                let k = choose|k: int| 0 <= k < ds@.len() && #[trigger] ds@[k] == self.radius;
                assert(pair_distance(m, xs, self.center as int, self.indices@[k] as int)
                    == self.radius);
                assert forall|k: int| 0 <= k < self.indices@.len() implies pair_distance(
                    m,
                    xs,
                    self.center as int,
                    #[trigger] self.indices@[k] as int,
                ) <= self.radius by {
                    assert(ds@[k] <= self.radius);
                }
            }
            if is_radius(m, xs, self.center, self.indices@, self.radius) {
                let k = choose|k: int|
                    0 <= k < self.indices@.len() && pair_distance(
                        m,
                        xs,
                        self.center as int,
                        #[trigger] self.indices@[k] as int,
                    ) == self.radius;
                assert(ds@[k] == self.radius);
                assert forall|k: int| 0 <= k < ds@.len() implies #[trigger] ds@[k]
                    <= self.radius by {
                    assert(pair_distance(m, xs, self.center as int, self.indices@[k] as int)
                        <= self.radius);
                }
            }
        }
        ok
    }

    /// Checks the subtree of this cluster with a scratch pad of marks.
    fn check_with<T, M: Metric<T>, D: Dataset<T, M>>(
        &self,
        data: &mut D,
        marks: &mut Vec<bool>,
    ) -> (ok: bool)
        requires
            old(data).wf(),
            old(marks)@.len() == old(data).instances().len(),
            unmarked(old(marks)@),
        ensures
            final(data).wf(),
            final(data).instances() == old(data).instances(),
            final(data).spec_metric() == old(data).spec_metric(),
            final(marks)@.len() == old(marks)@.len(),
            unmarked(final(marks)@),
            ok == self.wf(old(data).spec_metric(), old(data).instances()),
        decreases self,
    {
        if !self.check_node(data, marks) {
            return false;
        }
        match (&self.left, &self.right) {
            (Some(l), Some(r)) => {
                if !l.check_with(data, marks) {
                    return false;
                }
                if !r.check_with(data, marks) {
                    return false;
                }
                if self.depth == usize::MAX || l.depth != self.depth + 1 || r.depth != self.depth
                    + 1 {
                    return false;
                }
                check_split(&self.indices, &l.indices, &r.indices, marks)
            },
            _ => true,
        }
    }

    /// Says whether the tree is well formed over the dataset: whether every cluster has
    /// members, all of them different indices of the dataset, a center among them and
    /// for its radius the largest distance from the center to a member, and whether the
    /// children of every cluster that has any are one level deeper and divide its
    /// members between them.
    pub fn check<T, M: Metric<T>, D: Dataset<T, M>>(&self, data: &mut D) -> (ok: bool)
        requires
            old(data).wf(),
        ensures
            final(data).wf(),
            final(data).instances() == old(data).instances(),
            final(data).spec_metric() == old(data).spec_metric(),
            ok == self.wf(old(data).spec_metric(), old(data).instances()),
    {
        let n: usize = data.ninstances();
        let mut marks: Vec<bool> = no_marks(n);
        self.check_with(data, &mut marks)
    }
}

/// Says whether two lists of indices are the same.
fn same_indices(a: &Vec<usize>, b: &Vec<usize>) -> (same: bool)
    ensures
        same == (a@ == b@),
{
    if a.len() != b.len() {
        return false;
    }
    let mut k: usize = 0;
    while k < a.len()
        invariant
            k <= a@.len(),
            a@.len() == b@.len(),
            forall|p: int| 0 <= p < k ==> a@[p] == b@[p],
        decreases a@.len() - k,
    {
        if a[k] != b[k] {
            return false;
        }
        k = k + 1;
    }
    proof {
        assert(a@ =~= b@);
    }
    true
}

/// Says whether two trees have the same shape: the same indices, center, radius and
/// depth in every cluster, and children in the same places.
pub fn shapes_match<A, B>(a: &Cluster<A>, b: &Cluster<B>) -> (same: bool)
    ensures
        same == same_shape(*a, *b),
    decreases a,
{
    if !same_indices(&a.indices, &b.indices) || a.center != b.center || a.radius != b.radius
        || a.depth != b.depth {
        return false;
    }
    match (&a.left, &a.right) {
        (Some(al), Some(ar)) => match (&b.left, &b.right) {
            (Some(bl), Some(br)) => shapes_match(al, bl) && shapes_match(ar, br),
            _ => false,
        },
        _ => b.left.is_none() && b.right.is_none(),
    }
}

/// Says whether two instances are the same.
fn same_instance<T: PartialEq>(a: &Vec<T>, b: &Vec<T>) -> (same: bool)
    requires
        obeys_concrete_eq::<T>(),
    ensures
        same == (a@ == b@),
{
    if a.len() != b.len() {
        return false;
    }
    let mut k: usize = 0;
    while k < a.len()
        invariant
            k <= a@.len(),
            a@.len() == b@.len(),
            obeys_concrete_eq::<T>(),
            forall|p: int| 0 <= p < k ==> a@[p] == b@[p],
        decreases a@.len() - k,
    {
        proof {
            reveal(obeys_concrete_eq);
        }
        if a[k] != b[k] {
            return false;
        }
        k = k + 1;
    }
    proof {
        assert(a@ =~= b@);
    }
    true
}

/// Says whether two datasets hold the same instances at the same indices.
pub fn same_instances<T: PartialEq, M: Metric<T>, N: Metric<T>, D: Dataset<T, M>, E: Dataset<T, N>>(
    first: &D,
    second: &E,
) -> (same: bool)
    requires
        first.wf(),
        second.wf(),
        obeys_concrete_eq::<T>(),
    ensures
        same == (first.instances() == second.instances()),
{
    let n: usize = first.ninstances();
    if second.ninstances() != n {
        return false;
    }
    let mut i: usize = 0;
    while i < n
        invariant
            i <= n,
            first.wf(),
            second.wf(),
            obeys_concrete_eq::<T>(),
            n == first.instances().len(),
            n == second.instances().len(),
            forall|p: int| 0 <= p < i ==> first.instances()[p] == second.instances()[p],
        decreases n - i,
    {
        let a: Vec<T> = first.instance(i);
        let b: Vec<T> = second.instance(i);
        if !same_instance(&a, &b) {
            return false;
        }
        i = i + 1;
    }
    proof {
        assert(first.instances() =~= second.instances());
    }
    true
}

} // verus!
