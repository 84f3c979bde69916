//! Encoding under the Hamming metric: an instance is described by the positions at which
//! it differs from a reference, each with the value it has there.

use vstd::prelude::*;
use vstd::bytes::{
    lemma_auto_spec_u64_to_from_le_bytes,
    spec_u64_from_le_bytes,
    spec_u64_to_le_bytes,
    u64_from_le_bytes,
    u64_to_le_bytes,
};
use vstd::slice::slice_subrange;
use crate::codec_data::copy_instance;
use crate::error::ClamError;
use crate::hamming::Hamming;
use crate::metric::Codec;

verus! {

/// The bytes that say that the target has `value` at position `pos`: eight for the
/// position, in little-endian order, and one for the value.
pub open spec fn record(pos: int, value: u8) -> Seq<u8> {
    spec_u64_to_le_bytes(pos as u64).push(value)
}

/// The records of the differences between `reference` and `target` at positions below
/// `n`, in order of position.
pub open spec fn edits(reference: Seq<u8>, target: Seq<u8>, n: int) -> Seq<u8>
    decreases n,
{
    if n <= 0 {
        Seq::empty()
    } else {
        let rest = edits(reference, target, n - 1);
        if reference[n - 1] != target[n - 1] {
            rest + record(n - 1, target[n - 1])
        } else {
            rest
        }
    }
}

/// What `current` becomes when the first `r` records of `bytes` are applied to it, or
/// `None` if one of them names a position that it does not have.
pub open spec fn patched(current: Seq<u8>, bytes: Seq<u8>, r: int) -> Option<Seq<u8>>
    decreases r,
{
    if r <= 0 {
        Some(current)
    } else {
        match patched(current, bytes, r - 1) {
            None => None,
            Some(cur) => {
                let at = 9 * (r - 1);
                let pos = spec_u64_from_le_bytes(bytes.subrange(at, at + 8));
                if pos < cur.len() {
                    Some(cur.update(pos as int, bytes[at + 8]))
                } else {
                    None
                }
            },
        }
    }
}

/// Whether `target` can be encoded against `reference`: they have the same length.
pub open spec fn hamming_encodable(reference: Seq<u8>, target: Seq<u8>) -> bool {
    reference.len() == target.len() && reference.len() <= u64::MAX
}

/// The records of all the differences between `reference` and `target`.
pub open spec fn hamming_encoded(reference: Seq<u8>, target: Seq<u8>) -> Seq<u8> {
    edits(reference, target, reference.len() as int)
}

/// The instance that `bytes` describe against `reference`: the reference with every
/// record applied, if the bytes are whole records that name positions of the reference.
pub open spec fn hamming_decoded(reference: Seq<u8>, bytes: Seq<u8>) -> Option<Seq<u8>> {
    if bytes.len() % 9 != 0 {
        None
    } else {
        patched(reference, bytes, bytes.len() as int / 9)
    }
}

/// The target up to position `n`, and the reference from there on.
pub open spec fn mixed(reference: Seq<u8>, target: Seq<u8>, n: int) -> Seq<u8> {
    Seq::new(
        reference.len(),
        |i: int|
            if i < n {
                target[i]
            } else {
                reference[i]
            },
    )
}

/// The edits are whole records, at most one for each position.
pub proof fn lemma_edits_len(reference: Seq<u8>, target: Seq<u8>, n: int)
    requires
        0 <= n,
    ensures
        edits(reference, target, n).len() % 9 == 0,
        edits(reference, target, n).len() <= 9 * n,
    decreases n,
{
    if n > 0 {
        lemma_edits_len(reference, target, n - 1);
        lemma_auto_spec_u64_to_from_le_bytes();
    }
}

/// Patching keeps the length.
pub proof fn lemma_patched_len(current: Seq<u8>, bytes: Seq<u8>, r: int)
    ensures
        patched(current, bytes, r) matches Some(out) ==> out.len() == current.len(),
    decreases r,
{
    if r > 0 {
        lemma_patched_len(current, bytes, r - 1);
    }
}

/// Once a record cannot be applied, no later one makes up for it.
pub proof fn lemma_patched_fails(current: Seq<u8>, bytes: Seq<u8>, r: int, later: int)
    requires
        r <= later,
        patched(current, bytes, r) is None,
    ensures
        patched(current, bytes, later) is None,
    decreases later - r,
{
    if r < later {
        lemma_patched_fails(current, bytes, r, later - 1);
    }
}

/// The first records do not depend on the bytes that follow them.
pub proof fn lemma_patched_prefix(current: Seq<u8>, a: Seq<u8>, b: Seq<u8>, r: int)
    requires
        9 * r <= a.len(),
    ensures
        patched(current, a + b, r) == patched(current, a, r),
    decreases r,
{
    if r > 0 {
        lemma_patched_prefix(current, a, b, r - 1);
        let at = 9 * (r - 1);
        assert((a + b).subrange(at, at + 8) =~= a.subrange(at, at + 8));
        assert((a + b)[at + 8] == a[at + 8]);
    }
}

/// Applying the edits of the positions below `n` gives the target up to `n`.
pub proof fn lemma_edits_patch(reference: Seq<u8>, target: Seq<u8>, n: int)
    requires
        hamming_encodable(reference, target),
        0 <= n <= reference.len(),
    ensures
        patched(
            reference,
            edits(reference, target, n),
            edits(reference, target, n).len() as int / 9,
        ) == Some(mixed(reference, target, n)),
    decreases n,
{
    if n == 0 {
        assert(mixed(reference, target, 0) =~= reference);
    } else {
        lemma_edits_patch(reference, target, n - 1);
        lemma_edits_len(reference, target, n - 1);
        lemma_auto_spec_u64_to_from_le_bytes();
        let before = edits(reference, target, n - 1);
        let count = before.len() as int / 9;
        if reference[n - 1] != target[n - 1] {
            let rec = record(n - 1, target[n - 1]);
            let all = before + rec;
            assert(all.len() == before.len() + 9);
            assert(all.len() as int / 9 == count + 1);
            lemma_patched_prefix(reference, before, rec, count);
            assert(all.subrange(9 * count, 9 * count + 8) =~= spec_u64_to_le_bytes((n - 1) as u64));
            assert(all[9 * count + 8] == target[n - 1]);
            assert(mixed(reference, target, n - 1).update(n - 1, target[n - 1]) =~= mixed(
                reference,
                target,
                n,
            ));
        } else {
            assert(mixed(reference, target, n - 1) =~= mixed(reference, target, n));
        }
    }
}

impl Codec<u8> for Hamming {
    open spec fn encodable(&self, reference: Seq<u8>, target: Seq<u8>) -> bool {
        hamming_encodable(reference, target)
    }

    open spec fn encoded(&self, reference: Seq<u8>, target: Seq<u8>) -> Seq<u8> {
        hamming_encoded(reference, target)
    }

    open spec fn decoded(&self, reference: Seq<u8>, bytes: Seq<u8>) -> Option<Seq<u8>> {
        hamming_decoded(reference, bytes)
    }

    fn encode(&self, reference: &Vec<u8>, target: &Vec<u8>) -> (r: Result<Vec<u8>, ClamError>) {
        if reference.len() != target.len() {
            return Err(ClamError::NotEncodable);
        }
        let mut out: Vec<u8> = Vec::new();
        let mut i: usize = 0;
        while i < reference.len()
            invariant
                i <= reference@.len(),
                reference@.len() == target@.len(),
                out@ == edits(reference@, target@, i as int),
            decreases reference@.len() - i,
        {
            if reference[i] != target[i] {
                let ghost before = out@;
                let mut pos: Vec<u8> = u64_to_le_bytes(i as u64);
                out.append(&mut pos);
                out.push(target[i]);
                proof {
                    assert(out@ =~= before + record(i as int, target@[i as int]));
                }
            }
            i = i + 1;
        }
        Ok(out)
    }

    fn decode(&self, reference: &Vec<u8>, bytes: &Vec<u8>) -> (r: Result<Vec<u8>, ClamError>) {
        if bytes.len() % 9 != 0 {
            return Err(ClamError::CorruptEncoding);
        }
        let count: usize = bytes.len() / 9;
        let mut out: Vec<u8> = copy_instance(reference);
        let mut r: usize = 0;
        while r < count
            invariant
                r <= count,
                count == bytes@.len() / 9,
                9 * count == bytes@.len(),
                bytes@.len() <= usize::MAX,
                out@.len() == reference@.len(),
                patched(reference@, bytes@, r as int) == Some(out@),
            decreases count - r,
        {
            let at: usize = 9 * r;
            let pos: u64 = u64_from_le_bytes(slice_subrange(bytes.as_slice(), at, at + 8));
            if pos >= out.len() as u64 {
                proof {
                    assert(patched(reference@, bytes@, r + 1) is None);
                    lemma_patched_fails(reference@, bytes@, r + 1, count as int);
                }
                return Err(ClamError::CorruptEncoding);
            }
            out.set(pos as usize, bytes[at + 8]);
            r = r + 1;
        }
        Ok(out)
    }

    proof fn law_round_trip(&self, reference: Seq<u8>, target: Seq<u8>) {
        lemma_edits_patch(reference, target, reference.len() as int);
        lemma_edits_len(reference, target, reference.len() as int);
        assert(mixed(reference, target, reference.len() as int) =~= target);
    }
}

} // verus!
