//! A dataset whose instances are stored as differences from reference instances.

use vstd::prelude::*;
use crate::dataset::Dataset;
use crate::error::ClamError;
use crate::metric::{Codec, Metric};

verus! {

/// How one instance is stored.
pub enum Entry<T> {
    /// The instance itself.
    Raw(Vec<T>),
    /// The bytes that encode the instance against the instance at `reference`.
    Diff { reference: usize, bytes: Vec<u8> },
}

/// A dataset that stores most of its instances as differences from reference instances
/// and decodes them when they are asked for. What it hands out is exactly what was put in.
pub struct CodecData<T, M> {
    metric: M,
    entries: Vec<Entry<T>>,
    width: usize,
    reach: usize,
    held: Ghost<Seq<Seq<T>>>,
}

/// The instance that the entry at index `i` stores, found by decoding at most `reach`
/// times: an entry that holds its instance stores that, and an entry that holds bytes
/// stores what they decode to against the instance that its reference stores. There is
/// none where a reference is no index, where bytes do not decode, or where the chain
/// of references is longer than `reach`.
pub open spec fn resolves<T, M: Codec<T>>(entries: Seq<Entry<T>>, m: M, i: int, reach: nat) -> Option<
    Seq<T>,
>
    decreases reach,
{
    if 0 <= i < entries.len() {
        match entries[i] {
            Entry::Raw(v) => Some(v@),
            Entry::Diff { reference, bytes } => if reach > 0 {
                match resolves(entries, m, reference as int, (reach - 1) as nat) {
                    Some(base) => m.decoded(base, bytes@),
                    None => None,
                }
            } else {
                None
            },
        }
    } else {
        None
    }
}

/// Whether `entries` store the instances `xs`, all of length `width`, within `reach`.
pub open spec fn stores<T, M: Codec<T>>(
    entries: Seq<Entry<T>>,
    m: M,
    xs: Seq<Seq<T>>,
    reach: nat,
    width: nat,
) -> bool {
    &&& entries.len() == xs.len()
    &&& forall|i: int| 0 <= i < xs.len() ==> resolves(entries, m, i, reach) == Some(#[trigger] xs[i])
    &&& forall|i: int| 0 <= i < xs.len() ==> (#[trigger] xs[i]).len() == width
}

/// The instances that `entries` store, if every entry stores one within as many steps
/// as there are entries and all the instances have the same length.
pub open spec fn readable<T, M: Codec<T>>(entries: Seq<Entry<T>>, m: M) -> Option<Seq<Seq<T>>> {
    if forall|i: int|
        0 <= i < entries.len() ==> {
            &&& #[trigger] resolves(entries, m, i, entries.len()) matches Some(x)
            &&& resolves(entries, m, 0, entries.len()) matches Some(first)
            &&& x.len() == first.len()
        } {
        Some(Seq::new(entries.len(), |i: int| resolves(entries, m, i, entries.len())->0))
    } else {
        None
    }
}

/// The number of bytes that the first `n` entries take as encodings: for each encoded
/// instance its bytes and eight more for the index of its reference.
pub open spec fn encoded_bytes<T>(entries: Seq<Entry<T>>, n: int) -> nat
    decreases n,
{
    if n <= 0 {
        0
    } else {
        encoded_bytes(entries, n - 1) + match entries[n - 1] {
            Entry::Raw(_) => 0nat,
            Entry::Diff { reference, bytes } => bytes@.len() + 8,
        }
    }
}

/// Copies a list of values.
pub fn copy_instance<T: Copy>(x: &Vec<T>) -> (y: Vec<T>)
    ensures
        y@ == x@,
{
    let mut y: Vec<T> = Vec::new();
    let mut k: usize = 0;
    while k < x.len()
        invariant
            k <= x@.len(),
            y@ == x@.take(k as int),
        decreases x@.len() - k,
    {
        y.push(x[k]);
        proof {
            assert(x@.take(k as int).push(x@[k as int]) =~= x@.take(k + 1));
        }
        k = k + 1;
    }
    proof {
        assert(x@.take(x@.len() as int) =~= x@);
    }
    y
}

/// Finds the instance that the entry at `index` stores, by decoding at most `reach`
/// times.
fn resolve<T: Copy, M: Codec<T>>(entries: &Vec<Entry<T>>, metric: &M, index: usize, reach: usize) -> (r:
    Option<Vec<T>>)
    requires
        metric.valid(),
    ensures
        match r {
            Some(x) => resolves(entries@, *metric, index as int, reach as nat) == Some(x@),
            None => resolves(entries@, *metric, index as int, reach as nat) is None,
        },
    decreases reach,
{
    if index >= entries.len() {
        return None;
    }
    match &entries[index] {
        Entry::Raw(v) => Some(copy_instance(v)),
        Entry::Diff { reference, bytes } => {
            if reach == 0 {
                return None;
            }
            match resolve(entries, metric, *reference, reach - 1) {
                Some(base) => match metric.decode(&base, bytes) {
                    Ok(x) => Some(x),
                    Err(_) => None,
                },
                None => None,
            }
        },
    }
}

impl<T: Copy, M: Codec<T>> CodecData<T, M> {
    /// The entries of the dataset, by index.
    pub closed spec fn stored(&self) -> Seq<Entry<T>> {
        self.entries@
    }

    /// Puts a compressed dataset together from its entries, as they may have been read
    /// back from storage. Every entry is decoded once to see that it can be: entries
    /// with a reference that is no index or with bytes that do not decode, entries whose
    /// references go in a circle, and entries whose instances differ in length are
    /// refused.
    pub fn from_entries(metric: M, entries: Vec<Entry<T>>) -> (r: Result<Self, ClamError>)
        requires
            metric.valid(),
        ensures
            match r {
                Ok(d) => {
                    &&& d.wf()
                    &&& d.spec_metric() == metric
                    &&& d.stored() == entries@
                    &&& readable(entries@, metric) == Some(d.instances())
                },
                Err(e) => e == ClamError::CorruptEncoding && readable(entries@, metric) is None,
            },
    {
        let n: usize = entries.len();
        let mut width: usize = 0;
        let mut i: usize = 0;
        while i < n
            invariant
                i <= n,
                n == entries@.len(),
                metric.valid(),
                forall|k: int|
                    0 <= k < i ==> {
                        &&& #[trigger] resolves(entries@, metric, k, n as nat) matches Some(x)
                        &&& x.len() == width
                    },
            decreases n - i,
        {
            match resolve(&entries, &metric, i, n) {
                Some(x) => {
                    if i == 0 {
                        width = x.len();
                    } else if x.len() != width {
                        proof {
                            assert(resolves(entries@, metric, 0, n as nat) is Some);
                        }
                        return Err(ClamError::CorruptEncoding);
                    }
                },
                None => {
                    return Err(ClamError::CorruptEncoding);
                },
            }
            i = i + 1;
        }
        let ghost xs: Seq<Seq<T>> = Seq::new(
            n as nat,
            |k: int| resolves(entries@, metric, k, n as nat)->0,
        );
        proof {
            if n > 0 {
                assert(resolves(entries@, metric, 0, n as nat) is Some);
            }
            assert forall|k: int| 0 <= k < n implies {
                &&& #[trigger] resolves(entries@, metric, k, n as nat) matches Some(x)
                &&& resolves(entries@, metric, 0, n as nat) matches Some(first)
                &&& x.len() == first.len()
            } by {
                assert(resolves(entries@, metric, 0, n as nat) is Some);
            }
        }
        Ok(CodecData { metric, entries, width, reach: n, held: Ghost(xs) })
    }

    /// Puts a compressed dataset together from entries that are known to store `xs`.
    pub(crate) fn assemble(
        metric: M,
        entries: Vec<Entry<T>>,
        width: usize,
        reach: usize,
        Ghost(xs): Ghost<Seq<Seq<T>>>,
    ) -> (d: Self)
        requires
            metric.valid(),
            stores(entries@, metric, xs, reach as nat, width as nat),
        ensures
            d.wf(),
            d.spec_metric() == metric,
            d.instances() == xs,
            d.stored() == entries@,
    {
        CodecData { metric, entries, width, reach, held: Ghost(xs) }
    }

    /// Returns how each instance is stored, by index.
    pub fn entries(&self) -> (e: &Vec<Entry<T>>)
        ensures
            e@ == self.stored(),
    {
        &self.entries
    }

    /// Returns the number of bytes that the encoded instances take: for each of them its
    /// bytes and eight more for the index of its reference.
    /// The count stops at the largest number that fits.
    pub fn encoded_size(&self) -> (n: u64)
        ensures
            n == if encoded_bytes(self.stored(), self.stored().len() as int) <= u64::MAX {
                encoded_bytes(self.stored(), self.stored().len() as int)
            } else {
                u64::MAX as nat
            },
    {
        let mut total: u64 = 0;
        let mut i: usize = 0;
        while i < self.entries.len()
            invariant
                i <= self.entries@.len(),
                total == if encoded_bytes(self.entries@, i as int) <= u64::MAX {
                    encoded_bytes(self.entries@, i as int)
                } else {
                    u64::MAX as nat
                },
            decreases self.entries@.len() - i,
        {
            match &self.entries[i] {
                Entry::Raw(_) => {},
                Entry::Diff { reference: _, bytes } => {
                    let size: u64 = (bytes.len() as u64).saturating_add(8);
                    total = total.saturating_add(size);
                },
            }
            i = i + 1;
        }
        total
    }

    /// Decodes the instance at the given index.
    fn decode_at(&self, index: usize) -> (x: Vec<T>)
        requires
            self.wf(),
            index < self.instances().len(),
        ensures
            x@ == self.instances()[index as int],
    {
        match resolve(&self.entries, &self.metric, index, self.reach) {
            Some(x) => x,
            None => {
                proof {
                    assert(resolves(self.entries@, self.metric, index as int, self.reach as nat)
                        == Some(self.held@[index as int]));
                }
                Vec::new()
            },
        }
    }
}

impl<T: Copy, M: Codec<T>> Dataset<T, M> for CodecData<T, M> {
    closed spec fn wf(&self) -> bool {
        &&& self.metric.valid()
        &&& stores(self.entries@, self.metric, self.held@, self.reach as nat, self.width as nat)
    }

    closed spec fn instances(&self) -> Seq<Seq<T>> {
        self.held@
    }

    closed spec fn spec_metric(&self) -> M {
        self.metric
    }

    proof fn lemma_metric_valid(&self) {
    }

    fn metric(&self) -> (m: &M) {
        &self.metric
    }

    fn ninstances(&self) -> (n: usize) {
        self.entries.len()
    }

    fn shape(&self) -> (s: Vec<usize>) {
        let mut s: Vec<usize> = Vec::new();
        s.push(self.entries.len());
        s.push(self.width);
        s
    }

    fn instance(&self, index: usize) -> (x: Vec<T>) {
        self.decode_at(index)
    }

    fn query_distance(&self, query: &Vec<T>, index: usize) -> (d: u64) {
        let x: Vec<T> = self.decode_at(index);
        self.metric.distance(query, &x)
    }

    fn distance(&mut self, left: usize, right: usize) -> (d: u64) {
        if left == right {
            return 0;
        }
        let lo: usize = if left < right {
            left
        } else {
            right
        };
        let hi: usize = if left < right {
            right
        } else {
            left
        };
        let a: Vec<T> = self.decode_at(lo);
        let b: Vec<T> = self.decode_at(hi);
        self.metric.distance(&a, &b)
    }
}

} // verus!
