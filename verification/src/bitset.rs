//! Trusted interface to `fixedbitset::FixedBitSet`.
//!
//! A bit set is described by two names: the set of enabled bit positions and
//! the capacity (in bits) it currently has. Every wrapper below states, over
//! those two names, what the crate's source does to them.
use fixedbitset::FixedBitSet;
use vstd::prelude::*;

verus! {

#[verifier::external_type_specification]
#[verifier::external_body]
pub struct ExFixedBitSet(FixedBitSet);

/// The positions of the enabled bits of a `FixedBitSet`.
pub uninterp spec fn bits_of(b: FixedBitSet) -> Set<usize>;

/// The capacity in bits (`len()`) of a `FixedBitSet`.
pub uninterp spec fn capacity_of(b: FixedBitSet) -> nat;

/// A bit set whose enabled bits all lie below its capacity, as every value
/// built through the wrappers of this module is.
pub open spec fn bitset_ok(b: FixedBitSet) -> bool {
    &&& bits_of(b).finite()
    &&& forall|i: usize| #[trigger] bits_of(b).contains(i) ==> (i as nat) < capacity_of(b)
}

/// `FixedBitSet::with_capacity`: a set of `n` bits, none enabled.
#[verifier::external_body]
pub(crate) fn bitset_with_capacity(n: usize) -> (r: FixedBitSet)
    ensures
        bits_of(r) == Set::<usize>::empty(),
        capacity_of(r) == n as nat,
{
    FixedBitSet::with_capacity(n)
}

/// `FixedBitSet::len`: the capacity in bits.
#[verifier::external_body]
pub(crate) fn bitset_len(b: &FixedBitSet) -> (r: usize)
    ensures
        r as nat == capacity_of(*b),
{
    b.len()
}

/// `FixedBitSet::contains`: whether bit `i` is enabled (bits at or beyond the
/// capacity are never enabled).
#[verifier::external_body]
pub(crate) fn bitset_contains(b: &FixedBitSet, i: usize) -> (r: bool)
    ensures
        r == bits_of(*b).contains(i),
{
    b.contains(i)
}

/// `FixedBitSet::insert`: enables bit `i`; the crate panics when `i` is not
/// below the capacity.
#[verifier::external_body]
pub(crate) fn bitset_insert(b: &mut FixedBitSet, i: usize)
    requires
        (i as nat) < capacity_of(*old(b)),
    ensures
        bits_of(*final(b)) == bits_of(*old(b)).insert(i),
        capacity_of(*final(b)) == capacity_of(*old(b)),
{
    b.insert(i)
}

/// `FixedBitSet::set` with `false`: disables bit `i`; the crate panics when
/// `i` is not below the capacity.
#[verifier::external_body]
pub(crate) fn bitset_disable(b: &mut FixedBitSet, i: usize)
    requires
        (i as nat) < capacity_of(*old(b)),
    ensures
        bits_of(*final(b)) == bits_of(*old(b)).remove(i),
        capacity_of(*final(b)) == capacity_of(*old(b)),
{
    b.set(i, false)
}

/// `FixedBitSet::grow`: raises the capacity to `n` when it is below `n`;
/// enabled bits are kept.
#[verifier::external_body]
pub(crate) fn bitset_grow(b: &mut FixedBitSet, n: usize)
    ensures
        bits_of(*final(b)) == bits_of(*old(b)),
        capacity_of(*final(b)) == (if capacity_of(*old(b)) < n as nat {
            n as nat
        } else {
            capacity_of(*old(b))
        }),
{
    b.grow(n)
}

/// `FixedBitSet::union_with`: enables every bit enabled in `o`; the capacity
/// rises to that of `o` when it is larger.
#[verifier::external_body]
pub(crate) fn bitset_union_with(b: &mut FixedBitSet, o: &FixedBitSet)
    ensures
        bits_of(*final(b)) == bits_of(*old(b)).union(bits_of(*o)),
        capacity_of(*final(b)) == (if capacity_of(*old(b)) < capacity_of(*o) {
            capacity_of(*o)
        } else {
            capacity_of(*old(b))
        }),
{
    b.union_with(o)
}

/// `FixedBitSet::intersect_with`: keeps only the bits also enabled in `o`;
/// the capacity is unchanged.
#[verifier::external_body]
pub(crate) fn bitset_intersect_with(b: &mut FixedBitSet, o: &FixedBitSet)
    ensures
        bits_of(*final(b)) == bits_of(*old(b)).intersect(bits_of(*o)),
        capacity_of(*final(b)) == capacity_of(*old(b)),
{
    b.intersect_with(o)
}

/// `FixedBitSet::ones`, collected: every enabled bit once, in increasing
/// order (the iterator walks the blocks in order and each block from its
/// lowest set bit up).
#[verifier::external_body]
pub(crate) fn bitset_ones(b: &FixedBitSet) -> (r: Vec<usize>)
    ensures
        r@.to_set() == bits_of(*b),
        r@.no_duplicates(),
        forall|i: int, j: int| 0 <= i < j < r@.len() ==> r@[i] < r@[j],
{
    b.ones().collect()
}

/// `FixedBitSet::count_ones` over the whole set: the number of enabled bits,
/// for a set whose enabled bits all lie below its capacity (the method
/// counts only below the capacity).
#[verifier::external_body]
pub(crate) fn bitset_count_ones(b: &FixedBitSet) -> (r: usize)
    requires
        bitset_ok(*b),
    ensures
        r as nat == bits_of(*b).len(),
{
    b.count_ones(..)
}

/// `FixedBitSet::clone`: a copy with the same bits and capacity.
#[verifier::external_body]
pub(crate) fn bitset_clone(b: &FixedBitSet) -> (r: FixedBitSet)
    ensures
        bits_of(r) == bits_of(*b),
        capacity_of(r) == capacity_of(*b),
{
    b.clone()
}

} // verus!
