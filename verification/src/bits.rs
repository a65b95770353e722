//! Boundary bitmaps, backed by the `bitvec` crate.
//!
//! A [`BoundaryBitmap`] holds one bit per byte offset of a region.  The
//! backing store is a `bitvec::vec::BitVec`, which Verus cannot look into,
//! so the struct is opaque: its contents are named by the uninterpreted
//! function [`bits_of`], and every operation the analysis uses is a trusted
//! wrapper with an exact contract over that name.

use vstd::prelude::*;

verus! {

/// A bit per byte offset, stored in a `bitvec::vec::BitVec`.
#[verifier::external_body]
pub struct BoundaryBitmap {
    bits: bitvec::vec::BitVec,
}

/// The sequence of bits that a bitmap holds, in index order.
pub uninterp spec fn bits_of(b: BoundaryBitmap) -> Seq<bool>;

/// A bit length that every `BitVec` can hold: `bitvec` caps a vector's
/// length at `BitSlice::MAX_BITS`, which is `usize::MAX` shifted right by
/// three bits, so staying below `usize::MAX / 64` is always encodable.
pub open spec fn bitvec_max_bits() -> int {
    usize::MAX as int / 64
}

impl BoundaryBitmap {
    /// Relies on `BitVec::repeat`: a bit-vector of `n` copies of the given
    /// bit.  `repeat` panics above `BitSlice::MAX_BITS`, which
    /// `bitvec_max_bits()` stays below on every platform.
    #[verifier::external_body]
    pub(crate) fn repeat(bit: bool, n: usize) -> (b: BoundaryBitmap)
        requires
            n as int <= bitvec_max_bits(),
        ensures
            bits_of(b) == Seq::new(n as nat, |i: int| bit),
    {
        BoundaryBitmap { bits: bitvec::vec::BitVec::repeat(bit, n) }
    }

    /// Relies on `BitVec::new`: a new bit-vector is empty.
    #[verifier::external_body]
    pub(crate) fn new() -> (b: BoundaryBitmap)
        ensures
            bits_of(b) == Seq::<bool>::empty(),
    {
        BoundaryBitmap { bits: bitvec::vec::BitVec::new() }
    }

    /// Relies on `BitVec::push`: appends one bit.  `push` panics above
    /// `BitSlice::MAX_BITS`, which `bitvec_max_bits()` stays below.
    #[verifier::external_body]
    pub(crate) fn push(&mut self, value: bool)
        requires
            bits_of(*old(self)).len() < bitvec_max_bits(),
        ensures
            bits_of(*final(self)) == bits_of(*old(self)).push(value),
    {
        self.bits.push(value)
    }

    /// Relies on `BitSlice::set` (reached through `BitVec`'s deref): writes
    /// one bit in place; panics when the index is out of bounds, which the
    /// precondition rules out.
    #[verifier::external_body]
    pub(crate) fn set(&mut self, index: usize, value: bool)
        requires
            index < bits_of(*old(self)).len(),
        ensures
            bits_of(*final(self)) == bits_of(*old(self)).update(index as int, value),
    {
        self.bits.set(index, value)
    }

    /// Relies on `BitSlice`'s `Index<usize>` impl: reads one bit; panics
    /// when the index is out of bounds, which the precondition rules out.
    #[verifier::external_body]
    pub fn get(&self, index: usize) -> (value: bool)
        requires
            index < bits_of(*self).len(),
        ensures
            value == bits_of(*self)[index as int],
    {
        self.bits[index]
    }

    /// Relies on `BitSlice::len` (reached through `BitVec`'s deref): the
    /// number of bits held, which always fits in `usize`.
    #[verifier::external_body]
    pub fn len(&self) -> (n: usize)
        ensures
            n as nat == bits_of(*self).len(),
    {
        self.bits.len()
    }
}

} // verus!
