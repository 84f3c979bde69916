//! A metric made from a function.

use vstd::prelude::*;
use crate::metric::Metric;

verus! {

/// The properties that a metric declares.
#[derive(Clone, Copy, Debug, PartialEq, Eq)]
pub struct Properties {
    /// Every instance is at distance zero from itself.
    pub identity: bool,
    /// No distance is negative.
    pub non_negativity: bool,
    /// The distance is the same in both directions.
    pub symmetry: bool,
    /// A detour through a third instance is never shorter.
    pub triangle_inequality: bool,
    /// The distance is costly enough to be worth caching.
    pub expensive: bool,
}

/// Whether the function `f` may give the distance `r` for the instances `x` and `y`.
pub open spec fn gives<T, F: Fn(&Vec<T>, &Vec<T>) -> u64>(f: F, x: Vec<T>, y: Vec<T>, r: u64) -> bool {
    f.ensures((&x, &y), r)
}

/// Whether `f` can be called on any two instances, and every distance it gives is the
/// one that `model` assigns to what the instances hold.
pub open spec fn computes<T, F: Fn(&Vec<T>, &Vec<T>) -> u64>(
    f: F,
    model: spec_fn(Seq<T>, Seq<T>) -> nat,
) -> bool {
    &&& forall|x: Vec<T>, y: Vec<T>| #[trigger] f.requires((&x, &y))
    &&& forall|x: Vec<T>, y: Vec<T>, r: u64| #[trigger] gives(f, x, y, r) ==> r == model(x@, y@)
}

/// Whether the distances that `model` assigns have the properties that are declared.
pub open spec fn obeys<T>(model: spec_fn(Seq<T>, Seq<T>) -> nat, declared: Properties) -> bool {
    &&& declared.identity ==> forall|a: Seq<T>| #[trigger] model(a, a) == 0
    &&& declared.symmetry ==> forall|a: Seq<T>, b: Seq<T>| #[trigger] model(a, b) == model(b, a)
    &&& declared.triangle_inequality ==> forall|a: Seq<T>, b: Seq<T>, c: Seq<T>|
        model(a, c) <= #[trigger] model(a, b) + #[trigger] model(b, c)
}

/// The distance that the function `f` gives for two instances: what some call of `f` on
/// instances that hold `a` and `b` gives.
pub open spec fn fn_dist<T, F: Fn(&Vec<T>, &Vec<T>) -> u64>(f: F, a: Seq<T>, b: Seq<T>) -> nat {
    let found = choose|x: Vec<T>, y: Vec<T>, r: u64| x@ == a && y@ == b && #[trigger] gives(f, x, y, r);
    found.2 as nat
}

/// Whether what `f` gives depends on nothing but what the instances hold.
pub open spec fn is_function_of_views<T, F: Fn(&Vec<T>, &Vec<T>) -> u64>(f: F) -> bool {
    forall|x: Vec<T>, y: Vec<T>, r: u64, v: Vec<T>, w: Vec<T>, s: u64|
        x@ == v@ && y@ == w@ && #[trigger] gives(f, x, y, r) && #[trigger] gives(f, v, w, s) ==> r
            == s
}

/// A metric whose distance is computed by a function, with a name and the properties
/// that are declared of it. Whoever makes one answers for the function having the
/// properties.
#[verifier::reject_recursive_types(T)]
pub struct FnMetric<T, F> {
    f: F,
    label: String,
    declared: Properties,
    model: Ghost<spec_fn(Seq<T>, Seq<T>) -> nat>,
}

impl<T, F: Fn(&Vec<T>, &Vec<T>) -> u64> FnMetric<T, F> {
    /// The function that computes the distance.
    pub closed spec fn function(&self) -> F {
        self.f
    }

    /// The distances that the metric assigns.
    pub closed spec fn spec_model(&self) -> spec_fn(Seq<T>, Seq<T>) -> nat {
        self.model@
    }

    /// The name of the metric.
    pub closed spec fn spec_label(&self) -> Seq<char> {
        self.label@
    }

    /// The properties that the metric declares.
    pub closed spec fn spec_declared(&self) -> Properties {
        self.declared
    }

    /// Makes a metric from a function, a name and the properties of the function. The
    /// distances of the metric are those that the function gives.
    pub fn new(f: F, label: String, declared: Properties) -> (m: Self)
        requires
            forall|x: Vec<T>, y: Vec<T>| #[trigger] f.requires((&x, &y)),
            is_function_of_views::<T, F>(f),
            obeys::<T>(|a: Seq<T>, b: Seq<T>| fn_dist(f, a, b), declared),
        ensures
            m.valid(),
            m.function() == f,
            m.spec_label() == label@,
            m.spec_declared() == declared,
            forall|a: Seq<T>, b: Seq<T>| #[trigger] m.dist(a, b) == fn_dist(f, a, b),
    {
        let ghost model = |a: Seq<T>, b: Seq<T>| fn_dist(f, a, b);
        proof {
            assert forall|x: Vec<T>, y: Vec<T>, r: u64| #[trigger] gives(f, x, y, r) implies r
                == model(x@, y@) by {
                let found = choose|v: Vec<T>, w: Vec<T>, s: u64|
                    v@ == x@ && w@ == y@ && #[trigger] gives(f, v, w, s);
                assert(gives(f, found.0, found.1, found.2));
            }
        }
        FnMetric { f, label, declared, model: Ghost(model) }
    }

    /// Makes a metric from a function, a name, the properties of the function and the
    /// distances that the function computes.
    pub fn with_model(
        f: F,
        label: String,
        declared: Properties,
        Ghost(model): Ghost<spec_fn(Seq<T>, Seq<T>) -> nat>,
    ) -> (m: Self)
        requires
            computes::<T, F>(f, model),
            obeys::<T>(model, declared),
        ensures
            m.valid(),
            m.function() == f,
            m.spec_label() == label@,
            m.spec_declared() == declared,
            m.spec_model() == model,
    {
        FnMetric { f, label, declared, model: Ghost(model) }
    }
}

impl<T, F: Fn(&Vec<T>, &Vec<T>) -> u64> Metric<T> for FnMetric<T, F> {
    open spec fn valid(&self) -> bool {
        computes::<T, F>(self.function(), self.spec_model()) && obeys::<T>(
            self.spec_model(),
            self.spec_declared(),
        )
    }

    open spec fn dist(&self, a: Seq<T>, b: Seq<T>) -> nat {
        (self.spec_model())(a, b)
    }

    open spec fn label(&self) -> Seq<char> {
        self.spec_label()
    }

    open spec fn identity(&self) -> bool {
        self.spec_declared().identity
    }

    open spec fn non_negativity(&self) -> bool {
        self.spec_declared().non_negativity
    }

    open spec fn symmetry(&self) -> bool {
        self.spec_declared().symmetry
    }

    open spec fn triangle_inequality(&self) -> bool {
        self.spec_declared().triangle_inequality
    }

    open spec fn expensive(&self) -> bool {
        self.spec_declared().expensive
    }

    fn distance(&self, a: &Vec<T>, b: &Vec<T>) -> (d: u64) {
        let d: u64 = (self.f)(a, b);
        proof {
            assert(gives(self.f, *a, *b, d));
        }
        d
    }

    fn name(&self) -> (s: String) {
        self.label.clone()
    }

    fn has_identity(&self) -> (b: bool) {
        self.declared.identity
    }

    fn has_non_negativity(&self) -> (b: bool) {
        self.declared.non_negativity
    }

    fn has_symmetry(&self) -> (b: bool) {
        self.declared.symmetry
    }

    fn obeys_triangle_inequality(&self) -> (b: bool) {
        self.declared.triangle_inequality
    }

    fn is_expensive(&self) -> (b: bool) {
        self.declared.expensive
    }

    proof fn law_identity(&self, a: Seq<T>) {
    }

    proof fn law_symmetry(&self, a: Seq<T>, b: Seq<T>) {
    }

    proof fn law_triangle(&self, a: Seq<T>, b: Seq<T>, c: Seq<T>) {
    }
}

} // verus!
