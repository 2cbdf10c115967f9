//! The bit store behind a lattice: `bitvec`'s `BitVec`, seen through the
//! sequence of bits it holds.
use bitvec::vec::BitVec;
use vstd::prelude::*;

verus! {

/// A dense vector of bits, stored by `bitvec`. Verus sees it only through
/// `bits_of`. `BitVec` is held here rather than declared to Verus because
/// its type parameters are bound by `bitvec`'s own traits, which Verus
/// refuses in such a declaration.
#[verifier::external_body]
pub struct VoxelBits {
    store: BitVec,
}

/// The bits held by a bit vector, in index order.
pub uninterp spec fn bits_of(v: VoxelBits) -> Seq<bool>;

/// Number of `true` entries in a sequence of bits.
pub open spec fn count_true(s: Seq<bool>) -> nat
    decreases s.len(),
{
    if s.len() == 0 {
        0
    } else {
        count_true(s.drop_last()) + (if s.last() { 1nat } else { 0nat })
    }
}

/// Relies on `BitVec::repeat`: `len` copies of `bit`.
#[verifier::external_body]
pub(crate) fn bits_repeat(bit: bool, len: usize) -> (r: VoxelBits)
    ensures
        bits_of(r) == Seq::new(len as nat, |_i: int| bit),
{
    VoxelBits { store: BitVec::repeat(bit, len) }
}

/// Relies on indexing a `BitSlice`: the bit at `index`, which must be in range.
#[verifier::external_body]
pub(crate) fn bits_get(v: &VoxelBits, index: usize) -> (r: bool)
    requires
        index < bits_of(*v).len(),
    ensures
        r == bits_of(*v)[index as int],
{
    v.store[index]
}

/// Relies on `BitSlice::set`: writes one bit, which must be in range.
#[verifier::external_body]
pub(crate) fn bits_set(v: &mut VoxelBits, index: usize, value: bool)
    requires
        index < bits_of(*old(v)).len(),
    ensures
        bits_of(*final(v)) == bits_of(*old(v)).update(index as int, value),
{
    v.store.set(index, value)
}

/// Relies on `BitSlice::fill`: every bit becomes `value`, the length stays.
#[verifier::external_body]
pub(crate) fn bits_fill(v: &mut VoxelBits, value: bool)
    ensures
        bits_of(*final(v)) == Seq::new(bits_of(*old(v)).len(), |_i: int| value),
{
    v.store.fill(value)
}

/// Relies on `Clone` for `BitVec`: a copy holding the same bits.
#[verifier::external_body]
pub(crate) fn bits_clone(v: &VoxelBits) -> (r: VoxelBits)
    ensures
        bits_of(r) == bits_of(*v),
{
    VoxelBits { store: v.store.clone() }
}

/// Relies on `BitSlice::count_ones`: the number of set bits.
#[verifier::external_body]
pub(crate) fn bits_count_ones(v: &VoxelBits) -> (r: usize)
    ensures
        r == count_true(bits_of(*v)),
{
    v.store.count_ones()
}

} // verus!
