//! The distance function of a metric space and the properties it declares.

use vstd::prelude::*;
use crate::error::ClamError;

verus! {

/// A distance function between instances, which are sequences of elements of type `T`.
///
/// The function itself is `dist`; `distance` computes it. Identity, symmetry and the
/// triangle inequality each come with a law that an implementation has to prove where it
/// declares the property, so a declared property is one that holds. No distance is
/// negative, whatever a metric declares.
pub trait Metric<T> {
    /// Holds of a metric value that the laws below may be applied to.
    spec fn valid(&self) -> bool;

    /// The distance between two instances.
    spec fn dist(&self, a: Seq<T>, b: Seq<T>) -> nat;

    /// The name of the metric.
    spec fn label(&self) -> Seq<char>;

    /// Whether every instance is at distance zero from itself.
    spec fn identity(&self) -> bool;

    /// Whether no distance is negative.
    spec fn non_negativity(&self) -> bool;

    /// Whether the distance is the same in both directions.
    spec fn symmetry(&self) -> bool;

    /// Whether a detour through a third instance is never shorter.
    spec fn triangle_inequality(&self) -> bool;

    /// Whether the distance is costly enough to be worth caching.
    spec fn expensive(&self) -> bool;

    /// Computes the distance between two instances.
    fn distance(&self, a: &Vec<T>, b: &Vec<T>) -> (d: u64)
        requires
            self.valid(),
        ensures
            d == self.dist(a@, b@),
    ;

    /// Returns the name of the metric.
    fn name(&self) -> (s: String)
        ensures
            s@ == self.label(),
    ;

    /// Says whether the metric declares identity.
    fn has_identity(&self) -> (b: bool)
        ensures
            b == self.identity(),
    ;

    /// Says whether the metric declares non-negativity.
    fn has_non_negativity(&self) -> (b: bool)
        ensures
            b == self.non_negativity(),
    ;

    /// Says whether the metric declares symmetry.
    fn has_symmetry(&self) -> (b: bool)
        ensures
            b == self.symmetry(),
    ;

    /// Says whether the metric declares the triangle inequality.
    fn obeys_triangle_inequality(&self) -> (b: bool)
        ensures
            b == self.triangle_inequality(),
    ;

    /// Says whether callers should cache the distances of this metric.
    fn is_expensive(&self) -> (b: bool)
        ensures
            b == self.expensive(),
    ;

    /// Under a metric that declares identity, an instance is at distance zero from itself.
    proof fn law_identity(&self, a: Seq<T>)
        requires
            self.valid(),
            self.identity(),
        ensures
            self.dist(a, a) == 0,
    ;

    /// Under a metric that declares symmetry, the distance does not depend on direction.
    proof fn law_symmetry(&self, a: Seq<T>, b: Seq<T>)
        requires
            self.valid(),
            self.symmetry(),
        ensures
            self.dist(a, b) == self.dist(b, a),
    ;

    /// Under a metric that declares the triangle inequality, the distance from `a` to `c`
    /// is at most the distance from `a` to `b` plus the distance from `b` to `c`.
    proof fn law_triangle(&self, a: Seq<T>, b: Seq<T>, c: Seq<T>)
        requires
            self.valid(),
            self.triangle_inequality(),
        ensures
            self.dist(a, c) <= self.dist(a, b) + self.dist(b, c),
    ;
}

/// A metric that can also describe one instance by its difference from another.
///
/// `encode` turns a target into bytes that say how it differs from a reference, and
/// `decode` rebuilds the target from the reference and those bytes, exactly.
pub trait Codec<T>: Metric<T> {
    /// Whether `target` can be encoded against `reference`.
    spec fn encodable(&self, reference: Seq<T>, target: Seq<T>) -> bool;

    /// The bytes that encode `target` against `reference`.
    spec fn encoded(&self, reference: Seq<T>, target: Seq<T>) -> Seq<u8>;

    /// The instance that `bytes` describe against `reference`, if they describe one.
    spec fn decoded(&self, reference: Seq<T>, bytes: Seq<u8>) -> Option<Seq<T>>;

    /// Encodes `target` as its difference from `reference`.
    fn encode(&self, reference: &Vec<T>, target: &Vec<T>) -> (r: Result<Vec<u8>, ClamError>)
        requires
            self.valid(),
        ensures
            match r {
                Ok(bytes) => self.encodable(reference@, target@) && bytes@ == self.encoded(
                    reference@,
                    target@,
                ),
                Err(e) => !self.encodable(reference@, target@) && e == ClamError::NotEncodable,
            },
    ;

    /// Rebuilds an instance from `reference` and the bytes that encode it.
    fn decode(&self, reference: &Vec<T>, bytes: &Vec<u8>) -> (r: Result<Vec<T>, ClamError>)
        requires
            self.valid(),
        ensures
            match r {
                Ok(x) => self.decoded(reference@, bytes@) == Some(x@),
                Err(e) => self.decoded(reference@, bytes@) is None && e
                    == ClamError::CorruptEncoding,
            },
    ;

    /// Decoding what was encoded against the same reference gives the target back.
    proof fn law_round_trip(&self, reference: Seq<T>, target: Seq<T>)
        requires
            self.valid(),
            self.encodable(reference, target),
        ensures
            self.decoded(reference, self.encoded(reference, target)) == Some(target),
    ;
}

} // verus!
