//! Random choice of indices.

use vstd::prelude::*;
use rand::rngs::StdRng;
use rand::seq::IteratorRandom;
use rand::SeedableRng;

verus! {

/// A random number generator of the `rand` crate.
#[verifier::external_type_specification]
#[verifier::external_body]
pub struct ExStdRng(StdRng);

/// Calls `SeedableRng::seed_from_u64` for `StdRng`, which builds a generator from a seed.
/// Nothing is claimed of the generator.
#[verifier::external_body]
fn rng_from_seed(seed: u64) -> (rng: StdRng) {
    StdRng::seed_from_u64(seed)
}

/// Calls `SeedableRng::from_entropy` for `StdRng`, which builds a generator seeded by
/// the operating system, and fails only where the system has no randomness to give.
/// Nothing is claimed of the generator.
#[verifier::external_body]
fn rng_from_entropy() -> (rng: StdRng) {
    StdRng::from_entropy()
}

/// Calls `IteratorRandom::choose_multiple` on the items of `items`. It fills a reservoir
/// with the first `amount` items and then lets each later item replace one of them or
/// none, so what it returns are the items at `amount` different positions of `items`, in
/// some order. The contract says so by naming such positions. The call reserves room for
/// `amount` items at once, so no more are asked for than there are.
#[verifier::external_body]
fn choose_multiple(rng: &mut StdRng, items: &Vec<usize>, amount: usize) -> (chosen: Vec<usize>)
    requires
        amount <= items@.len(),
    ensures
        chosen@.len() == amount,
        exists|at: Seq<int>|
            #![trigger at.len()]
            at.len() == chosen@.len() && at.no_duplicates() && forall|k: int|
                #![trigger at[k]]
                0 <= k < at.len() ==> 0 <= at[k] < items@.len() && chosen@[k] == items@[at[k]],
{
    items.iter().copied().choose_multiple(rng, amount)
}

/// Keeps the first occurrence of each entry of `items`, in order.
pub fn dedup(items: &Vec<usize>) -> (kept: Vec<usize>)
    ensures
        kept@.no_duplicates(),
        forall|k: int| 0 <= k < kept@.len() ==> items@.contains(#[trigger] kept@[k]),
        forall|k: int| 0 <= k < items@.len() ==> kept@.contains(#[trigger] items@[k]),
        kept@.len() <= items@.len(),
        items@.no_duplicates() ==> kept@ == items@,
{
    let mut kept: Vec<usize> = Vec::new();
    let mut i: usize = 0;
    while i < items.len()
        invariant
            i <= items@.len(),
            kept@.no_duplicates(),
            kept@.len() <= i,
            forall|k: int| 0 <= k < kept@.len() ==> items@.take(i as int).contains(#[trigger] kept@[k]),
            forall|k: int| 0 <= k < i ==> kept@.contains(#[trigger] items@[k]),
            items@.no_duplicates() ==> kept@ == items@.take(i as int),
        decreases items@.len() - i,
    {
        let x: usize = items[i];
        let mut seen: bool = false;
        let mut j: usize = 0;
        while j < kept.len()
            invariant
                j <= kept@.len(),
                seen <==> exists|k: int| 0 <= k < j && kept@[k] == x,
            decreases kept@.len() - j,
        {
            if kept[j] == x {
                seen = true;
            }
            j = j + 1;
        }
        let ghost before = kept@;
        if !seen {
            kept.push(x);
        }
        proof {
            let next = items@.take(i + 1);
            assert(next[i as int] == x);
            assert forall|k: int| 0 <= k < kept@.len() implies next.contains(#[trigger] kept@[k]) by {
                if k < before.len() {
                    let w = choose|w: int|
                        0 <= w < items@.take(i as int).len() && items@.take(i as int)[w] == before[k];
                    assert(next[w] == kept@[k]);
                } else {
                    assert(next[i as int] == kept@[k]);
                }
            }
            assert forall|k: int| 0 <= k < i + 1 implies kept@.contains(#[trigger] items@[k]) by {
                if k < i {
                    let w = choose|w: int| 0 <= w < before.len() && before[w] == items@[k];
                    assert(kept@[w] == items@[k]);
                } else if seen {
                    let w = choose|w: int| 0 <= w < before.len() && before[w] == x;
                    assert(kept@[w] == items@[k]);
                } else {
                    assert(kept@[before.len() as int] == items@[k]);
                }
            }
            if items@.no_duplicates() {
                if seen {
                    let w = choose|w: int| 0 <= w < before.len() && before[w] == x;
                    assert(items@[w] == x && items@[i as int] == x);
                    assert(false);
                }
                assert(kept@ =~= next);
            }
        }
        i = i + 1;
    }
    proof {
        assert(items@.take(items@.len() as int) =~= items@);
    }
    kept
}

/// Chooses at random up to `n` of the given indices, no index twice. With a seed the
/// choice is made by a generator built from it, otherwise by one seeded by the system.
pub fn choose_distinct(indices: &Vec<usize>, n: usize, seed: Option<u64>) -> (chosen: Vec<usize>)
    ensures
        chosen@.no_duplicates(),
        forall|k: int| 0 <= k < chosen@.len() ==> indices@.contains(chosen@[k]),
        chosen@.len() <= n,
        chosen@.len() <= indices@.len(),
        indices@.no_duplicates() ==> chosen@.len() == if n <= indices@.len() {
            n as nat
        } else {
            indices@.len()
        },
        indices@.len() > 0 && n > 0 ==> chosen@.len() > 0,
{
    let mut rng: StdRng = match seed {
        Some(s) => rng_from_seed(s),
        None => rng_from_entropy(),
    };
    let amount: usize = if n <= indices.len() {
        n
    } else {
        indices.len()
    };
    let picked: Vec<usize> = choose_multiple(&mut rng, indices, amount);
    let chosen: Vec<usize> = dedup(&picked);
    proof {
        let at = choose|at: Seq<int>|
            #![trigger at.len()]
            at.len() == picked@.len() && at.no_duplicates() && forall|k: int|
                #![trigger at[k]]
                0 <= k < at.len() ==> 0 <= at[k] < indices@.len() && picked@[k] == indices@[at[k]];
        assert forall|k: int| 0 <= k < chosen@.len() implies indices@.contains(chosen@[k]) by {
            assert(picked@.contains(chosen@[k]));
            let w = choose|w: int| 0 <= w < picked@.len() && picked@[w] == chosen@[k];
            assert(indices@[at[w]] == chosen@[k]);
        }
        if indices@.no_duplicates() {
            assert forall|a: int, b: int|
                0 <= a < picked@.len() && 0 <= b < picked@.len() && a != b implies picked@[a]
                != picked@[b] by {
                assert(at[a] != at[b]);
            }
            assert(picked@.no_duplicates());
        }
        if indices@.len() > 0 && n > 0 {
            assert(picked@.len() > 0);
            assert(chosen@.contains(picked@[0]));
        }
    }
    chosen
}

} // verus!
