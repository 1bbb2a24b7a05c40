//! Fixed-width bounds-safe bitset.
//!
//! Backed by `bitvec`'s packed bit vector.  The width is fixed when the
//! set is created; every accessor demands an in-range index, so no call
//! site can reach unchecked memory access.

use vstd::prelude::*;

verus! {

/// What the bitset holds, bit by bit.
pub uninterp spec fn bitset_view(b: BitSet) -> Seq<bool>;

/// A packed sequence of bits of fixed width.
#[verifier::external_body]
pub struct BitSet {
    bits: bitvec::vec::BitVec<u64, bitvec::order::Lsb0>,
}

impl BitSet {
    /// Relies on `bitvec::vec::BitVec::repeat`: a bit-vector of `len`
    /// copies of `bit`.
    #[verifier::external_body]
    pub fn repeat(bit: bool, len: usize) -> (r: BitSet)
        ensures
            bitset_view(r) == Seq::new(len as nat, |i: int| bit),
    {
        BitSet { bits: bitvec::vec::BitVec::repeat(bit, len) }
    }

    /// Relies on `bitvec::slice::BitSlice::len`: the number of bits.
    #[verifier::external_body]
    pub fn len(&self) -> (r: usize)
        ensures
            r == bitset_view(*self).len(),
    {
        self.bits.len()
    }

    /// Relies on the `bitvec::slice::BitSlice` index operator: the bit
    /// at `i`, which must be in range.
    #[verifier::external_body]
    pub fn get(&self, i: usize) -> (r: bool)
        requires
            i < bitset_view(*self).len(),
        ensures
            r == bitset_view(*self)[i as int],
    {
        self.bits[i]
    }

    /// Relies on `bitvec::slice::BitSlice::set`: writes the bit at `i`,
    /// which must be in range; no other bit changes.
    #[verifier::external_body]
    pub fn set(&mut self, i: usize, value: bool)
        requires
            i < bitset_view(*old(self)).len(),
        ensures
            bitset_view(*final(self)) == bitset_view(*old(self)).update(i as int, value),
    {
        self.bits.set(i, value);
    }
}

} // verus!
