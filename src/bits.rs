//! Bit sequences, held in `bit_vec::BitVec` and seen by the proofs as `Seq<bool>`.
use bit_vec::BitVec;
use vstd::prelude::*;

verus! {

#[verifier::external_type_specification]
#[verifier::external_body]
#[verifier::reject_recursive_types(B)]
pub struct ExBitVec<B>(BitVec<B>);

/// The bits that a `BitVec` holds, first bit first: its first `len()` bits,
/// bit `i` being what `get(i)` reads.
pub uninterp spec fn bits_of(b: BitVec<u32>) -> Seq<bool>;

/// The vector keeps the representation rules that `BitVec`'s methods rely on:
/// its storage holds exactly the blocks that its bits need, and the unused bits
/// of the last block are zero. Vectors made by `BitVec`'s own methods keep them;
/// one read back through `Deserialize` need not.
pub uninterp spec fn bits_valid(b: BitVec<u32>) -> bool;

/// Relies on `BitVec::new`: the new vector holds no bits.
#[verifier::external_body]
pub(crate) fn new_bits() -> (r: BitVec<u32>)
    ensures
        bits_of(r) == Seq::<bool>::empty(),
        bits_valid(r),
{
    BitVec::new()
}

/// Relies on `BitVec::push`: appends one bit to a vector that keeps the
/// representation rules; it panics when the length overflows.
#[verifier::external_body]
pub(crate) fn push_bit(b: &mut BitVec<u32>, bit: bool)
    requires
        bits_valid(*old(b)),
        bits_of(*old(b)).len() < usize::MAX,
    ensures
        bits_of(*final(b)) == bits_of(*old(b)).push(bit),
        bits_valid(*final(b)),
{
    b.push(bit)
}

/// Relies on `BitVec::len`: the number of bits held.
#[verifier::external_body]
pub(crate) fn bits_len(b: &BitVec<u32>) -> (r: usize)
    ensures
        r as int == bits_of(*b).len(),
{
    b.len()
}

/// Relies on `BitVec::get`: `None` past the end, or where the storage lacks
/// the block of the bit; otherwise the bit at position `i`.
#[verifier::external_body]
pub(crate) fn get_bit(b: &BitVec<u32>, i: usize) -> (r: Option<bool>)
    ensures
        i >= bits_of(*b).len() ==> r is None,
        r matches Some(x) ==> i < bits_of(*b).len() && x == bits_of(*b)[i as int],
        bits_valid(*b) && i < bits_of(*b).len() ==> r is Some,
{
    b.get(i)
}

/// Relies on `BitVec`'s `Clone`: the copy holds the same bits and storage.
#[verifier::external_body]
pub(crate) fn copy_bits(b: &BitVec<u32>) -> (r: BitVec<u32>)
    ensures
        bits_of(r) == bits_of(*b),
        bits_valid(*b) ==> bits_valid(r),
{
    b.clone()
}

/// Relies on `BitVec`'s `Extend<bool>`: appends the bits of `b`, in order, one
/// push each; both vectors keep the representation rules.
#[verifier::external_body]
pub(crate) fn extend_bits(a: &mut BitVec<u32>, b: &BitVec<u32>)
    requires
        bits_valid(*old(a)),
        bits_valid(*b),
        bits_of(*old(a)).len() + bits_of(*b).len() <= usize::MAX,
    ensures
        bits_of(*final(a)) == bits_of(*old(a)) + bits_of(*b),
        bits_valid(*final(a)),
{
    a.extend(b.iter())
}

} // verus!
