use vstd::prelude::*;
use bitvec::vec::BitVec;

verus! {

/// A row of flags, one per stop or per route, kept in a `bitvec` bit-vector.
/// Verus sees nothing inside; what it holds is named by `marks_of`.
#[verifier::external_body]
pub struct Marks {
    bits: BitVec,
}

/// The flags that a `Marks` holds, in index order.
pub uninterp spec fn marks_of(m: Marks) -> Seq<bool>;

impl Marks {
    /// Calls `BitVec::repeat(false, len)` of bitvec: `len` cleared flags.
    /// bitvec panics when `len` exceeds `BitSlice::MAX_BITS`, which is `usize::MAX >> 3`.
    #[verifier::external_body]
    pub(crate) fn cleared(len: usize) -> (m: Marks)
        requires
            len <= usize::MAX / 8,
        ensures
            marks_of(m) == Seq::new(len as nat, |_i: int| false),
    {
        Marks { bits: BitVec::repeat(false, len) }
    }

    /// Calls `BitSlice::set` of bitvec: writes `value` at `index`, the other flags unchanged.
    /// bitvec panics when `index` is out of bounds.
    #[verifier::external_body]
    pub(crate) fn set(&mut self, index: usize, value: bool)
        requires
            index < marks_of(*old(self)).len(),
        ensures
            marks_of(*final(self)) == marks_of(*old(self)).update(index as int, value),
    {
        self.bits.set(index, value)
    }

    /// Calls `BitSlice::not_any` of bitvec: true when no flag is set.
    #[verifier::external_body]
    pub(crate) fn not_any(&self) -> (r: bool)
        ensures
            r == (forall|i: int| 0 <= i < marks_of(*self).len() ==> !marks_of(*self)[i]),
    {
        self.bits.not_any()
    }

    /// Calls `BitSlice::iter_ones` of bitvec and collects the indices it yields:
    /// the indices of the set flags, in increasing order.
    #[verifier::external_body]
    pub(crate) fn iter_ones(&self) -> (r: Vec<usize>)
        ensures
            forall|i: int, j: int| 0 <= i < j < r@.len() ==> r@[i] < r@[j],
            forall|i: int| 0 <= i < r@.len() ==> r@[i] < marks_of(*self).len(),
            forall|i: int| 0 <= i < r@.len() ==> marks_of(*self)[r@[i] as int],
            forall|k: int| 0 <= k < marks_of(*self).len() && marks_of(*self)[k] ==> r@.contains(k as usize),
    {
        self.bits.iter_ones().collect()
    }

    /// Calls `BitSlice::fill(false)` of bitvec: clears every flag, the length unchanged.
    #[verifier::external_body]
    pub(crate) fn fill(&mut self, value: bool)
        ensures
            marks_of(*final(self)) == Seq::new(marks_of(*old(self)).len(), |_i: int| value),
    {
        self.bits.fill(value)
    }
}

} // verus!
