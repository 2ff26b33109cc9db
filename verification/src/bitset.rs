//! The fixed-size bit vector of the `fixedbitset` crate, as this library
//! sees it: a sequence of booleans of fixed length.

use vstd::prelude::*;
use fixedbitset::FixedBitSet;
use crate::marks::marked;

verus! {

#[verifier::external_type_specification]
#[verifier::external_body]
pub struct ExFixedBitSet(FixedBitSet);

/// The bits of a bit vector, from bit 0 upwards.
pub uninterp spec fn bits_of(set: FixedBitSet) -> Seq<bool>;

/// `FixedBitSet::clone`: the copy has the same bits.
pub assume_specification[ <FixedBitSet as Clone>::clone ](set: &FixedBitSet) -> (copy: FixedBitSet)
    ensures
        bits_of(copy) == bits_of(*set),
;

/// `FixedBitSet::with_capacity`: a vector of `bits` bits, all clear.
#[verifier::external_body]
pub(crate) fn bitset_with_capacity(bits: usize) -> (set: FixedBitSet)
    ensures
        bits_of(set) == Seq::new(bits as nat, |i: int| false),
{
    FixedBitSet::with_capacity(bits)
}

/// `FixedBitSet::len`: the number of bits, set or clear.
#[verifier::external_body]
pub(crate) fn bitset_len(set: &FixedBitSet) -> (n: usize)
    ensures
        n == bits_of(*set).len(),
{
    set.len()
}

/// `FixedBitSet::put`: sets the bit and returns what it was. The method
/// panics on a bit beyond the length, which the precondition excludes.
#[verifier::external_body]
pub(crate) fn bitset_put(set: &mut FixedBitSet, bit: usize) -> (was: bool)
    requires
        bit < bits_of(*old(set)).len(),
    ensures
        was == bits_of(*old(set))[bit as int],
        bits_of(*final(set)) == bits_of(*old(set)).update(bit as int, true),
{
    set.put(bit)
}

/// `FixedBitSet::contains`: whether the bit is set; a bit beyond the length
/// counts as clear.
#[verifier::external_body]
pub(crate) fn bitset_contains(set: &FixedBitSet, bit: usize) -> (is_set: bool)
    ensures
        is_set == (bit < bits_of(*set).len() && bits_of(*set)[bit as int]),
{
    set.contains(bit)
}

/// `FixedBitSet::set`: gives the bit the value `enabled`. The method panics
/// on a bit beyond the length, which the precondition excludes.
#[verifier::external_body]
pub(crate) fn bitset_set(set: &mut FixedBitSet, bit: usize, enabled: bool)
    requires
        bit < bits_of(*old(set)).len(),
    ensures
        bits_of(*final(set)) == bits_of(*old(set)).update(bit as int, enabled),
{
    set.set(bit, enabled)
}

/// `FixedBitSet::ones`, collected: the indices of the set bits, ascending.
#[verifier::external_body]
pub(crate) fn bitset_ones(set: &FixedBitSet) -> (ones: Vec<usize>)
    ensures
        ones@.map_values(|i: usize| i as int) == marked(
            bits_of(*set),
            0,
            bits_of(*set).len() as int,
        ),
{
    set.ones().collect()
}

/// `FixedBitSet::clear`: clears every bit and keeps the length.
#[verifier::external_body]
pub(crate) fn bitset_clear(set: &mut FixedBitSet)
    ensures
        bits_of(*final(set)) == Seq::new(bits_of(*old(set)).len(), |i: int| false),
{
    set.clear()
}

} // verus!
