//! Spec-level arithmetic on byte sequences: the effect of a positioned write
//! on a store's contents, and facts about such writes on disjoint regions.

use vstd::prelude::*;

verus! {

/// `count` zero bytes (an empty sequence when `count <= 0`).
pub open spec fn zeros(count: int) -> Seq<u8> {
    if count <= 0 {
        Seq::<u8>::empty()
    } else {
        Seq::new(count as nat, |i: int| 0u8)
    }
}

/// The contents of a store after writing `patch` at position `at`: the gap
/// between the old end and `at`, if any, is filled with zeros, and the result
/// extends past the old end where the patch requires it. Writing nothing
/// changes nothing, even past the end.
pub open spec fn pad_overwrite(base: Seq<u8>, at: int, patch: Seq<u8>) -> Seq<u8>
    recommends
        0 <= at,
{
    if patch.len() == 0 {
        base
    } else {
        let n = if base.len() >= at + patch.len() { base.len() as int } else { at + patch.len() };
        Seq::new(n as nat, |p: int|
            if at <= p < at + patch.len() {
                patch[p - at]
            } else if p < base.len() {
                base[p]
            } else {
                0u8
            })
    }
}

/// A positioned write never shortens the contents.
pub proof fn lemma_pad_overwrite_len(base: Seq<u8>, at: int, patch: Seq<u8>)
    requires
        0 <= at,
    ensures
        pad_overwrite(base, at, patch).len() >= base.len(),
        pad_overwrite(base, at, patch).len() >= at + patch.len() || patch.len() == 0,
{
}

/// What each position holds after a positioned write.
pub proof fn lemma_pad_overwrite_at(base: Seq<u8>, at: int, patch: Seq<u8>, p: int)
    requires
        0 <= at,
        0 <= p < pad_overwrite(base, at, patch).len(),
    ensures
        at <= p < at + patch.len() ==> pad_overwrite(base, at, patch)[p] == patch[p - at],
        !(at <= p < at + patch.len()) && p < base.len() ==> pad_overwrite(base, at, patch)[p]
            == base[p],
        !(at <= p < at + patch.len()) && p >= base.len() ==> pad_overwrite(base, at, patch)[p]
            == 0u8,
{
}

/// A positioned write leaves every region below the old end and disjoint from
/// the written range unchanged.
pub proof fn lemma_pad_overwrite_preserves(base: Seq<u8>, at: int, patch: Seq<u8>, lo: int, hi: int)
    requires
        0 <= at,
        0 <= lo <= hi <= base.len(),
        hi <= at || at + patch.len() <= lo,
    ensures
        pad_overwrite(base, at, patch).subrange(lo, hi) == base.subrange(lo, hi),
{
    assert(pad_overwrite(base, at, patch).subrange(lo, hi) =~= base.subrange(lo, hi));
}

/// The written range reads back as the patch.
pub proof fn lemma_pad_overwrite_patch(base: Seq<u8>, at: int, patch: Seq<u8>)
    requires
        0 <= at,
        patch.len() > 0 || at <= base.len(),
    ensures
        pad_overwrite(base, at, patch).subrange(at, at + patch.len()) == patch,
{
    assert(pad_overwrite(base, at, patch).subrange(at, at + patch.len()) =~= patch);
}

} // verus!
