//! A vector of bits, kept by `bit_vec`.

use vstd::prelude::*;
use bit_vec::BitVec;

verus! {

/// `bit_vec::BitVec`, made known as a type whose inside stays hidden: what
/// is said of a value of it is said through `bits_of`.
#[verifier::external_type_specification]
#[verifier::external_body]
#[verifier::reject_recursive_types(B)]
pub struct ExBitVec<B>(BitVec<B>);

/// The bits that `flags` holds, in order.
pub uninterp spec fn bits_of(flags: BitVec<u32>) -> Seq<bool>;

/// Makes a vector of `nbits` bits with `BitVec::from_elem`, which sets each
/// of them to `bit`.
#[verifier::external_body]
pub(crate) fn flags_from_elem(nbits: usize, bit: bool) -> (flags: BitVec<u32>)
    ensures
        bits_of(flags) == Seq::new(nbits as nat, |i: int| bit),
{
    BitVec::from_elem(nbits, bit)
}

/// Sets bit `i` to `x` with `BitVec::set`, which changes that bit and no
/// other, and panics where there is no bit `i`.
#[verifier::external_body]
pub(crate) fn set_flag(flags: &mut BitVec<u32>, i: usize, x: bool)
    requires
        i < bits_of(*old(flags)).len(),
    ensures
        bits_of(*final(flags)) == bits_of(*old(flags)).update(i as int, x),
{
    flags.set(i, x)
}

/// Reads bit `i` with `BitVec::get`, which gives `None` where there is no
/// bit `i`.
#[verifier::external_body]
pub(crate) fn get_flag(flags: &BitVec<u32>, i: usize) -> (bit: Option<bool>)
    ensures
        bit == if i < bits_of(*flags).len() {
            Some(bits_of(*flags)[i as int])
        } else {
            None
        },
{
    flags.get(i)
}

} // verus!
