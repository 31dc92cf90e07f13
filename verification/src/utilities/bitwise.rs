//! Questions about single bits of bytes and byte sequences.
use vstd::prelude::*;

verus! {

/// Whether bit `bit` of `byte` is set, bit 0 being the least significant.
pub open spec fn bit_is_set(byte: u8, bit: u8) -> bool {
    (byte >> bit) & 1u8 == 1u8
}

/// Whether every bit that is set in `new` is also set in `existing`.
pub open spec fn byte_is_subset(new: u8, existing: u8) -> bool {
    new | existing == existing
}

/// Whether `new` is a bit subset of `existing`: `new` is not longer than
/// `existing`, and every bit set in a byte of `new` is set in the byte of
/// `existing` at the same position.
pub open spec fn is_bit_subset(new: Seq<u8>, existing: Seq<u8>) -> bool {
    &&& new.len() <= existing.len()
    &&& forall|i: int| 0 <= i < new.len() ==> byte_is_subset(#[trigger] new[i], existing[i])
}

/// Tests bit `bit` of `byte`.
pub fn is_set(byte: u8, bit: u8) -> (set: bool)
    requires
        bit < 8,
    ensures
        set == bit_is_set(byte, bit),
{
    (byte >> bit) & 1u8 == 1u8
}

/// Tests whether `new` could be programmed over `existing` without an
/// erase, that is whether `new` is a bit subset of `existing`.
pub fn is_subset_of(new: &[u8], existing: &[u8]) -> (subset: bool)
    ensures
        subset == is_bit_subset(new@, existing@),
{
    if new.len() > existing.len() {
        return false;
    }
    let mut i: usize = 0;
    while i < new.len()
        invariant
            i <= new@.len() <= existing@.len(),
            forall|j: int| 0 <= j < i ==> byte_is_subset(#[trigger] new@[j], existing@[j]),
        decreases new@.len() - i,
    {
        if new[i] | existing[i] != existing[i] {
            return false;
        }
        i += 1;
    }
    true
}

/// A byte is a bit subset of an erased byte, whatever it holds.
pub proof fn lemma_subset_of_erased(new: u8)
    ensures
        byte_is_subset(new, 0xFFu8),
{
    assert(new | 0xFFu8 == 0xFFu8) by (bit_vector);
}

/// Programming can only clear bits: where `new` is a bit subset of
/// `existing`, the bytes that result from programming `new` over `existing`
/// are `new` itself.
pub proof fn lemma_subset_programs_exactly(new: u8, existing: u8)
    requires
        byte_is_subset(new, existing),
    ensures
        existing & new == new,
{
    assert(new | existing == existing ==> existing & new == new) by (bit_vector);
}

} // verus!
