//! A metric with encoding and decoding, made from functions.

use vstd::prelude::*;
use crate::error::ClamError;
use crate::fn_metric::FnMetric;
use crate::metric::{Codec, Metric};

verus! {

/// What an optional list of values holds.
pub open spec fn held<A>(v: Option<Vec<A>>) -> Option<Seq<A>> {
    match v {
        Some(x) => Some(x@),
        None => None,
    }
}

/// Whether the function `e` may give `r` when it encodes `y` against `x`.
pub open spec fn encodes<T, E: Fn(&Vec<T>, &Vec<T>) -> Option<Vec<u8>>>(
    e: E,
    x: Vec<T>,
    y: Vec<T>,
    r: Option<Vec<u8>>,
) -> bool {
    e.ensures((&x, &y), r)
}

/// Whether the function `d` may give `r` when it decodes `bytes` against `x`.
pub open spec fn decodes<T, D: Fn(&Vec<T>, &Vec<u8>) -> Option<Vec<T>>>(
    d: D,
    x: Vec<T>,
    bytes: Vec<u8>,
    r: Option<Vec<T>>,
) -> bool {
    d.ensures((&x, &bytes), r)
}

/// Whether `e` can be called on any two instances, and whatever it gives is what
/// `model` assigns to what the instances hold.
pub open spec fn encoder_computes<T, E: Fn(&Vec<T>, &Vec<T>) -> Option<Vec<u8>>>(
    e: E,
    model: spec_fn(Seq<T>, Seq<T>) -> Option<Seq<u8>>,
) -> bool {
    &&& forall|x: Vec<T>, y: Vec<T>| #[trigger] e.requires((&x, &y))
    &&& forall|x: Vec<T>, y: Vec<T>, r: Option<Vec<u8>>| #[trigger]
        encodes(e, x, y, r) ==> held(r) == model(x@, y@)
}

/// Whether `d` can be called on any instance and any bytes, and whatever it gives is
/// what `model` assigns to what they hold.
pub open spec fn decoder_computes<T, D: Fn(&Vec<T>, &Vec<u8>) -> Option<Vec<T>>>(
    d: D,
    model: spec_fn(Seq<T>, Seq<u8>) -> Option<Seq<T>>,
) -> bool {
    &&& forall|x: Vec<T>, bytes: Vec<u8>| #[trigger] d.requires((&x, &bytes))
    &&& forall|x: Vec<T>, bytes: Vec<u8>, r: Option<Vec<T>>| #[trigger]
        decodes(d, x, bytes, r) ==> held(r) == model(x@, bytes@)
}

/// Whether decoding undoes encoding: what encodes against a reference decodes against it
/// to what was encoded.
pub open spec fn round_trips<T>(
    encoded: spec_fn(Seq<T>, Seq<T>) -> Option<Seq<u8>>,
    decoded: spec_fn(Seq<T>, Seq<u8>) -> Option<Seq<T>>,
) -> bool {
    forall|reference: Seq<T>, target: Seq<T>|
        (#[trigger] encoded(reference, target)) matches Some(bytes) ==> decoded(reference, bytes)
            == Some(target)
}

/// A metric made from a function, with functions that encode an instance against a
/// reference and decode it again. Whoever makes one answers for decoding undoing
/// encoding.
#[verifier::reject_recursive_types(T)]
pub struct FnCodec<T, F, E, D> {
    metric: FnMetric<T, F>,
    encoder: E,
    decoder: D,
    encoded_model: Ghost<spec_fn(Seq<T>, Seq<T>) -> Option<Seq<u8>>>,
    decoded_model: Ghost<spec_fn(Seq<T>, Seq<u8>) -> Option<Seq<T>>>,
}

impl<
    T,
    F: Fn(&Vec<T>, &Vec<T>) -> u64,
    E: Fn(&Vec<T>, &Vec<T>) -> Option<Vec<u8>>,
    D: Fn(&Vec<T>, &Vec<u8>) -> Option<Vec<T>>,
> FnCodec<T, F, E, D> {
    /// The metric.
    pub closed spec fn spec_metric(&self) -> FnMetric<T, F> {
        self.metric
    }

    /// The function that encodes.
    pub closed spec fn spec_encoder(&self) -> E {
        self.encoder
    }

    /// The function that decodes.
    pub closed spec fn spec_decoder(&self) -> D {
        self.decoder
    }

    /// What encoding gives.
    pub closed spec fn spec_encoded(&self) -> spec_fn(Seq<T>, Seq<T>) -> Option<Seq<u8>> {
        self.encoded_model@
    }

    /// What decoding gives.
    pub closed spec fn spec_decoded(&self) -> spec_fn(Seq<T>, Seq<u8>) -> Option<Seq<T>> {
        self.decoded_model@
    }

    /// Makes a metric with encoding from a metric, the two functions, and what the two
    /// functions compute.
    pub fn with_models(
        metric: FnMetric<T, F>,
        encoder: E,
        decoder: D,
        Ghost(encoded): Ghost<spec_fn(Seq<T>, Seq<T>) -> Option<Seq<u8>>>,
        Ghost(decoded): Ghost<spec_fn(Seq<T>, Seq<u8>) -> Option<Seq<T>>>,
    ) -> (c: Self)
        requires
            metric.valid(),
            encoder_computes::<T, E>(encoder, encoded),
            decoder_computes::<T, D>(decoder, decoded),
            round_trips::<T>(encoded, decoded),
        ensures
            c.valid(),
            c.spec_metric() == metric,
            c.spec_encoder() == encoder,
            c.spec_decoder() == decoder,
            c.spec_encoded() == encoded,
            c.spec_decoded() == decoded,
    {
        FnCodec {
            metric,
            encoder,
            decoder,
            encoded_model: Ghost(encoded),
            decoded_model: Ghost(decoded),
        }
    }

    /// Makes a metric with encoding from a metric and the two functions. What encoding
    /// and decoding give is what the functions give.
    pub fn new(metric: FnMetric<T, F>, encoder: E, decoder: D) -> (c: Self)
        requires
            metric.valid(),
            encoder_computes::<T, E>(encoder, |a: Seq<T>, b: Seq<T>| encoder_gives(encoder, a, b)),
            decoder_computes::<T, D>(
                decoder,
                |a: Seq<T>, bytes: Seq<u8>| decoder_gives(decoder, a, bytes),
            ),
            round_trips::<T>(
                |a: Seq<T>, b: Seq<T>| encoder_gives(encoder, a, b),
                |a: Seq<T>, bytes: Seq<u8>| decoder_gives(decoder, a, bytes),
            ),
        ensures
            c.valid(),
            c.spec_metric() == metric,
            c.spec_encoder() == encoder,
            c.spec_decoder() == decoder,
    {
        FnCodec {
            metric,
            encoder,
            decoder,
            encoded_model: Ghost(|a: Seq<T>, b: Seq<T>| encoder_gives(encoder, a, b)),
            decoded_model: Ghost(|a: Seq<T>, bytes: Seq<u8>| decoder_gives(decoder, a, bytes)),
        }
    }
}

/// What the function `e` gives when it encodes an instance that holds `b` against one
/// that holds `a`: what some such call gives.
pub open spec fn encoder_gives<T, E: Fn(&Vec<T>, &Vec<T>) -> Option<Vec<u8>>>(
    e: E,
    a: Seq<T>,
    b: Seq<T>,
) -> Option<Seq<u8>> {
    let found = choose|x: Vec<T>, y: Vec<T>, r: Option<Vec<u8>>|
        x@ == a && y@ == b && #[trigger] encodes(e, x, y, r);
    held(found.2)
}

/// What the function `d` gives when it decodes `bytes` against an instance that holds
/// `a`: what some such call gives.
pub open spec fn decoder_gives<T, D: Fn(&Vec<T>, &Vec<u8>) -> Option<Vec<T>>>(
    d: D,
    a: Seq<T>,
    bytes: Seq<u8>,
) -> Option<Seq<T>> {
    let found = choose|x: Vec<T>, y: Vec<u8>, r: Option<Vec<T>>|
        x@ == a && y@ == bytes && #[trigger] decodes(d, x, y, r);
    held(found.2)
}

impl<
    T,
    F: Fn(&Vec<T>, &Vec<T>) -> u64,
    E: Fn(&Vec<T>, &Vec<T>) -> Option<Vec<u8>>,
    D: Fn(&Vec<T>, &Vec<u8>) -> Option<Vec<T>>,
> Metric<T> for FnCodec<T, F, E, D> {
    open spec fn valid(&self) -> bool {
        &&& self.spec_metric().valid()
        &&& encoder_computes::<T, E>(self.spec_encoder(), self.spec_encoded())
        &&& decoder_computes::<T, D>(self.spec_decoder(), self.spec_decoded())
        &&& round_trips::<T>(self.spec_encoded(), self.spec_decoded())
    }

    open spec fn dist(&self, a: Seq<T>, b: Seq<T>) -> nat {
        self.spec_metric().dist(a, b)
    }

    open spec fn label(&self) -> Seq<char> {
        self.spec_metric().label()
    }

    open spec fn identity(&self) -> bool {
        self.spec_metric().identity()
    }

    open spec fn non_negativity(&self) -> bool {
        self.spec_metric().non_negativity()
    }

    open spec fn symmetry(&self) -> bool {
        self.spec_metric().symmetry()
    }

    open spec fn triangle_inequality(&self) -> bool {
        self.spec_metric().triangle_inequality()
    }

    open spec fn expensive(&self) -> bool {
        self.spec_metric().expensive()
    }

    fn distance(&self, a: &Vec<T>, b: &Vec<T>) -> (d: u64) {
        self.metric.distance(a, b)
    }

    fn name(&self) -> (s: String) {
        self.metric.name()
    }

    fn has_identity(&self) -> (b: bool) {
        self.metric.has_identity()
    }

    fn has_non_negativity(&self) -> (b: bool) {
        self.metric.has_non_negativity()
    }

    fn has_symmetry(&self) -> (b: bool) {
        self.metric.has_symmetry()
    }

    fn obeys_triangle_inequality(&self) -> (b: bool) {
        self.metric.obeys_triangle_inequality()
    }

    fn is_expensive(&self) -> (b: bool) {
        self.metric.is_expensive()
    }

    proof fn law_identity(&self, a: Seq<T>) {
        self.spec_metric().law_identity(a);
    }

    proof fn law_symmetry(&self, a: Seq<T>, b: Seq<T>) {
        self.spec_metric().law_symmetry(a, b);
    }

    proof fn law_triangle(&self, a: Seq<T>, b: Seq<T>, c: Seq<T>) {
        self.spec_metric().law_triangle(a, b, c);
    }
}

impl<
    T,
    F: Fn(&Vec<T>, &Vec<T>) -> u64,
    E: Fn(&Vec<T>, &Vec<T>) -> Option<Vec<u8>>,
    D: Fn(&Vec<T>, &Vec<u8>) -> Option<Vec<T>>,
> Codec<T> for FnCodec<T, F, E, D> {
    open spec fn encodable(&self, reference: Seq<T>, target: Seq<T>) -> bool {
        (self.spec_encoded())(reference, target) is Some
    }

    open spec fn encoded(&self, reference: Seq<T>, target: Seq<T>) -> Seq<u8> {
        (self.spec_encoded())(reference, target)->0
    }

    open spec fn decoded(&self, reference: Seq<T>, bytes: Seq<u8>) -> Option<Seq<T>> {
        (self.spec_decoded())(reference, bytes)
    }

    fn encode(&self, reference: &Vec<T>, target: &Vec<T>) -> (r: Result<Vec<u8>, ClamError>) {
        let made: Option<Vec<u8>> = (self.encoder)(reference, target);
        proof {
            assert(encodes(self.encoder, *reference, *target, made));
        }
        match made {
            Some(bytes) => Ok(bytes),
            None => Err(ClamError::NotEncodable),
        }
    }

    fn decode(&self, reference: &Vec<T>, bytes: &Vec<u8>) -> (r: Result<Vec<T>, ClamError>) {
        let made: Option<Vec<T>> = (self.decoder)(reference, bytes);
        proof {
            assert(decodes(self.decoder, *reference, *bytes, made));
        }
        match made {
            Some(x) => Ok(x),
            None => Err(ClamError::CorruptEncoding),
        }
    }

    proof fn law_round_trip(&self, reference: Seq<T>, target: Seq<T>) {
    }
}

} // verus!
