//! The Hamming metric: the number of positions at which two instances differ.

use vstd::prelude::*;
use vstd::laws_eq::obeys_concrete_eq;
use crate::metric::Metric;

verus! {

/// Whether two instances differ at position `i`. A position that only one of them has
/// counts as a difference.
pub open spec fn differs<T>(a: Seq<T>, b: Seq<T>, i: int) -> bool {
    if i < a.len() && i < b.len() {
        a[i] != b[i]
    } else {
        (i < a.len()) != (i < b.len())
    }
}

/// The number of positions below `n` at which two instances differ.
pub open spec fn mismatches<T>(a: Seq<T>, b: Seq<T>, n: nat) -> nat
    decreases n,
{
    if n == 0 {
        0
    } else {
        mismatches(a, b, (n - 1) as nat) + if differs(a, b, n - 1) {
            1nat
        } else {
            0nat
        }
    }
}

/// The length of the longer of two instances.
pub open spec fn longer<T>(a: Seq<T>, b: Seq<T>) -> nat {
    if a.len() >= b.len() {
        a.len()
    } else {
        b.len()
    }
}

/// The Hamming distance: the number of positions at which two instances differ, where
/// the positions that the longer one has alone all count.
pub open spec fn hamming_distance<T>(a: Seq<T>, b: Seq<T>) -> nat {
    mismatches(a, b, longer(a, b))
}

/// Counting further than both instances reach adds nothing.
pub proof fn lemma_mismatches_beyond<T>(a: Seq<T>, b: Seq<T>, n: nat)
    requires
        n >= longer(a, b),
    ensures
        mismatches(a, b, n) == hamming_distance(a, b),
    decreases n,
{
    if n > longer(a, b) {
        lemma_mismatches_beyond(a, b, (n - 1) as nat);
    }
}

/// An instance differs from itself nowhere.
pub proof fn lemma_mismatches_identity<T>(a: Seq<T>, n: nat)
    ensures
        mismatches(a, a, n) == 0,
    decreases n,
{
    if n > 0 {
        lemma_mismatches_identity(a, (n - 1) as nat);
    }
}

/// Two instances differ at the same positions in either order.
pub proof fn lemma_mismatches_symmetry<T>(a: Seq<T>, b: Seq<T>, n: nat)
    ensures
        mismatches(a, b, n) == mismatches(b, a, n),
    decreases n,
{
    if n > 0 {
        lemma_mismatches_symmetry(a, b, (n - 1) as nat);
    }
}

/// Where `a` and `c` differ, `b` differs from one of them.
pub proof fn lemma_mismatches_triangle<T>(a: Seq<T>, b: Seq<T>, c: Seq<T>, n: nat)
    ensures
        mismatches(a, c, n) <= mismatches(a, b, n) + mismatches(b, c, n),
    decreases n,
{
    if n > 0 {
        lemma_mismatches_triangle(a, b, c, (n - 1) as nat);
    }
}

/// Past the end of the shorter instance, every position of the longer one is a difference.
pub proof fn lemma_mismatches_tail<T>(a: Seq<T>, b: Seq<T>, m: nat, n: nat)
    requires
        m <= n,
        m == if a.len() <= b.len() { a.len() } else { b.len() },
        n <= longer(a, b),
    ensures
        mismatches(a, b, n) == mismatches(a, b, m) + (n - m),
    decreases n,
{
    if n > m {
        lemma_mismatches_tail(a, b, m, (n - 1) as nat);
    }
}

/// The Hamming metric over instances whose elements are compared with `==`.
pub struct Hamming {}

impl Hamming {
    /// Creates the Hamming metric.
    pub fn new() -> (m: Self)
        ensures
            m == (Hamming {  }),
    {
        Hamming {  }
    }
}

impl<T: PartialEq> Metric<T> for Hamming {
    open spec fn valid(&self) -> bool {
        obeys_concrete_eq::<T>()
    }

    open spec fn dist(&self, a: Seq<T>, b: Seq<T>) -> nat {
        hamming_distance(a, b)
    }

    open spec fn label(&self) -> Seq<char> {
        "hamming"@
    }

    open spec fn identity(&self) -> bool {
        true
    }

    open spec fn non_negativity(&self) -> bool {
        true
    }

    open spec fn symmetry(&self) -> bool {
        true
    }

    open spec fn triangle_inequality(&self) -> bool {
        true
    }

    open spec fn expensive(&self) -> bool {
        false
    }

    fn distance(&self, a: &Vec<T>, b: &Vec<T>) -> (d: u64) {
        let shorter: usize = if a.len() <= b.len() {
            a.len()
        } else {
            b.len()
        };
        let longer_len: usize = if a.len() <= b.len() {
            b.len()
        } else {
            a.len()
        };
        let mut count: usize = 0;
        let mut i: usize = 0;
        while i < shorter
            invariant
                obeys_concrete_eq::<T>(),
                i <= shorter,
                shorter <= a.len(),
                shorter <= b.len(),
                count == mismatches(a@, b@, i as nat),
                count <= i,
            decreases shorter - i,
        {
            proof {
                reveal(obeys_concrete_eq);
            }
            if a[i] != b[i] {
                count = count + 1;
            }
            i = i + 1;
        }
        proof {
            lemma_mismatches_tail(a@, b@, shorter as nat, longer_len as nat);
        }
        (count + (longer_len - shorter)) as u64
    }

    fn name(&self) -> (s: String) {
        "hamming".to_string()
    }

    fn has_identity(&self) -> (b: bool) {
        true
    }

    fn has_non_negativity(&self) -> (b: bool) {
        true
    }

    fn has_symmetry(&self) -> (b: bool) {
        true
    }

    fn obeys_triangle_inequality(&self) -> (b: bool) {
        true
    }

    fn is_expensive(&self) -> (b: bool) {
        false
    }

    proof fn law_identity(&self, a: Seq<T>) {
        lemma_mismatches_identity(a, longer(a, a));
    }

    proof fn law_symmetry(&self, a: Seq<T>, b: Seq<T>) {
        lemma_mismatches_symmetry(a, b, longer(a, b));
    }

    proof fn law_triangle(&self, a: Seq<T>, b: Seq<T>, c: Seq<T>) {
        let n = longer(longer_of(a, b), c);
        lemma_mismatches_triangle(a, b, c, n);
        lemma_mismatches_beyond(a, c, n);
        lemma_mismatches_beyond(a, b, n);
        lemma_mismatches_beyond(b, c, n);
    }
}

/// The longer of two instances.
pub open spec fn longer_of<T>(a: Seq<T>, b: Seq<T>) -> Seq<T> {
    if a.len() >= b.len() {
        a
    } else {
        b
    }
}

} // verus!
