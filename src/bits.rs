//! The outside bit set that holds the membership index, seen through the
//! set of numbers it contains.
use vstd::prelude::*;

verus! {

#[verifier::external_type_specification]
#[verifier::external_body]
#[verifier::reject_recursive_types(B)]
pub struct ExBitSet<B>(bit_set::BitSet<B>);

/// The numbers that a bit set contains.
pub uninterp spec fn bitset_members(s: bit_set::BitSet) -> Set<nat>;

/// Relies on bit_set::BitSet::new: a set with no members.
#[verifier::external_body]
pub(crate) fn bitset_new() -> (r: bit_set::BitSet)
    ensures
        bitset_members(r) == Set::<nat>::empty(),
{
    bit_set::BitSet::new()
}

/// Relies on bit_set::BitSet::insert: afterwards `v` is a member and no other
/// membership changed. Growing to `v + 1` bits must not overflow.
#[verifier::external_body]
pub(crate) fn bitset_insert(s: &mut bit_set::BitSet, v: usize)
    requires
        v < usize::MAX,
    ensures
        bitset_members(*final(s)) == bitset_members(*old(s)).insert(v as nat),
{
    s.insert(v);
}

/// Relies on bit_set::BitSet::remove: afterwards `v` is not a member and no
/// other membership changed.
#[verifier::external_body]
pub(crate) fn bitset_remove(s: &mut bit_set::BitSet, v: usize)
    ensures
        bitset_members(*final(s)) == bitset_members(*old(s)).remove(v as nat),
{
    s.remove(v);
}

/// Relies on bit_set::BitSet::contains: whether `v` is a member.
#[verifier::external_body]
pub(crate) fn bitset_contains(s: &bit_set::BitSet, v: usize) -> (r: bool)
    ensures
        r == bitset_members(*s).contains(v as nat),
{
    s.contains(v)
}

} // verus!
