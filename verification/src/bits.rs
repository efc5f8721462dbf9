use vstd::prelude::*;

verus! {

// The solver and the validator keep their visited-vertex markers in a
// `bitvec::vec::BitVec`, as a compact bit set. Verus refuses a declaration of
// that type (its generics are bounded by bitvec's own traits), so the vector
// sits in the private field of an opaque struct; `bits_of` names the bits it
// holds, and the wrappers below state what each operation does to them.

/// A fixed-length set of bits, indexed from zero.
#[verifier::external_body]
pub struct BitSet {
    inner: bitvec::vec::BitVec<usize, bitvec::order::Lsb0>,
}

/// The sequence of bits held by a bit set, in index order.
pub uninterp spec fn bits_of(bv: BitSet) -> Seq<bool>;

/// Relies on bitvec's `BitVec::repeat`: a vector of `len` copies of `bit`.
#[verifier::external_body]
pub fn bits_repeat(bit: bool, len: usize) -> (r: BitSet)
    ensures
        bits_of(r) == Seq::new(len as nat, |i: int| bit),
{
    BitSet { inner: bitvec::vec::BitVec::repeat(bit, len) }
}

/// Relies on bitvec's `BitSlice::set`: writes one bit in place. It panics on
/// an out-of-range index, which the precondition rules out.
#[verifier::external_body]
pub fn bits_set(bv: &mut BitSet, index: usize, value: bool)
    requires
        index < bits_of(*old(bv)).len(),
    ensures
        bits_of(*final(bv)) == bits_of(*old(bv)).update(index as int, value),
{
    bv.inner.set(index, value);
}

/// Relies on bitvec's `Index<usize>` for `BitSlice`: reads one bit. It panics
/// on an out-of-range index, which the precondition rules out.
#[verifier::external_body]
pub fn bits_get(bv: &BitSet, index: usize) -> (r: bool)
    requires
        index < bits_of(*bv).len(),
    ensures
        r == bits_of(*bv)[index as int],
{
    bv.inner[index]
}

} // verus!
