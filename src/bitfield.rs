//! The `bit_vec::BitVec` that records which live slots are reachable only
//! through a forwarding cell, seen by the verifier as a sequence of booleans.
use vstd::prelude::*;

verus! {

#[verifier::external_type_specification]
#[verifier::external_body]
#[verifier::reject_recursive_types(B)]
pub struct ExBitVec<B>(bit_vec::BitVec<B>);

/// The bits that a `BitVec` holds, in index order.
pub uninterp spec fn bits_of(b: bit_vec::BitVec) -> Seq<bool>;

/// Relies on `BitVec::from_elem`: `n` bits, each equal to `bit`.
#[verifier::external_body]
pub(crate) fn bits_filled(n: usize, bit: bool) -> (r: bit_vec::BitVec)
    ensures
        bits_of(r) == Seq::new(n as nat, |_i: int| bit),
{
    bit_vec::BitVec::from_elem(n, bit)
}

/// Relies on `BitVec::get`: the bit at `i`, or `None` past the end.
#[verifier::external_body]
pub(crate) fn bit_at(b: &bit_vec::BitVec, i: usize) -> (r: Option<bool>)
    ensures
        r == (if i < bits_of(*b).len() { Some(bits_of(*b)[i as int]) } else { None::<bool> }),
{
    b.get(i)
}

/// Relies on `BitVec::set`: writes one bit; it panics past the end.
#[verifier::external_body]
pub(crate) fn set_bit(b: &mut bit_vec::BitVec, i: usize, x: bool)
    requires
        i < bits_of(*old(b)).len(),
    ensures
        bits_of(*final(b)) == bits_of(*old(b)).update(i as int, x),
{
    b.set(i, x)
}

/// Relies on `BitVec::clear`: every bit becomes false, the length stays.
#[verifier::external_body]
pub(crate) fn clear_bits(b: &mut bit_vec::BitVec)
    ensures
        bits_of(*final(b)) == Seq::new(bits_of(*old(b)).len(), |_i: int| false),
{
    b.clear()
}

/// Relies on `BitVec::grow`: appends `n` copies of `value`; it panics when
/// the new length overflows.
#[verifier::external_body]
pub(crate) fn grow_bits(b: &mut bit_vec::BitVec, n: usize, value: bool)
    requires
        bits_of(*old(b)).len() + n <= usize::MAX,
    ensures
        bits_of(*final(b)) == bits_of(*old(b)) + Seq::new(n as nat, |_i: int| value),
{
    b.grow(n, value)
}

} // verus!
