//! The allocation bitmap of one tier.

use fixedbitset::FixedBitSet;
use vstd::prelude::*;

verus! {

#[verifier::external_type_specification]
#[verifier::external_body]
pub struct ExFixedBitSet(FixedBitSet);

/// The bits of a set, by index, up to its fixed length.
pub uninterp spec fn bit_states(bits: FixedBitSet) -> Seq<bool>;

/// `FixedBitSet::with_capacity`: a set of `count` clear bits.
#[verifier::external_body]
pub(crate) fn bits_with_capacity(count: usize) -> (bits: FixedBitSet)
    ensures
        bit_states(bits) == Seq::new(count as nat, |i: int| false),
{
    FixedBitSet::with_capacity(count)
}

/// `FixedBitSet::contains`: whether bit `index` is set; bits past the length
/// never are.
#[verifier::external_body]
pub(crate) fn bits_contain(bits: &FixedBitSet, index: usize) -> (set: bool)
    ensures
        set == (index < bit_states(*bits).len() && bit_states(*bits)[index as int]),
{
    bits.contains(index)
}

/// `FixedBitSet::set`: stores `enabled` in bit `index`, which must be in range.
#[verifier::external_body]
pub(crate) fn bits_set(bits: &mut FixedBitSet, index: usize, enabled: bool)
    requires
        index < bit_states(*old(bits)).len(),
    ensures
        bit_states(*final(bits)) == bit_states(*old(bits)).update(index as int, enabled),
{
    bits.set(index, enabled)
}

/// `FixedBitSet::insert`: sets bit `index`, which must be in range.
#[verifier::external_body]
pub(crate) fn bits_insert(bits: &mut FixedBitSet, index: usize)
    requires
        index < bit_states(*old(bits)).len(),
    ensures
        bit_states(*final(bits)) == bit_states(*old(bits)).update(index as int, true),
{
    bits.insert(index)
}

/// `FixedBitSet::ones`: the indexes of the set bits, in ascending order.
#[verifier::external_body]
pub(crate) fn bits_ones(bits: &FixedBitSet) -> (indexes: Vec<usize>)
    ensures
        ascending_where(indexes@, bit_states(*bits), true),
{
    bits.ones().collect()
}

/// `FixedBitSet::zeroes`: the indexes of the clear bits, in ascending order.
#[verifier::external_body]
pub(crate) fn bits_zeroes(bits: &FixedBitSet) -> (indexes: Vec<usize>)
    ensures
        ascending_where(indexes@, bit_states(*bits), false),
{
    bits.zeroes().collect()
}

/// `indexes` lists, in ascending order, exactly the places where `states` holds
/// `wanted`.
pub open spec fn ascending_where(indexes: Seq<usize>, states: Seq<bool>, wanted: bool) -> bool {
    &&& forall|i: int, j: int| 0 <= i < j < indexes.len() ==> indexes[i] < indexes[j]
    &&& forall|i: int|
        0 <= i < indexes.len() ==> (#[trigger] indexes[i]) < states.len()
            && states[indexes[i] as int] == wanted
    &&& forall|b: usize|
        b < states.len() && states[b as int] == wanted ==> #[trigger] indexes.contains(b)
}

} // verus!
