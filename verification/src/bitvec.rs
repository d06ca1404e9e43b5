use vstd::prelude::*;

verus! {

// `bit_vec::BitVec` is declared so that it can stand in signatures; Verus
// sees nothing of the inside of a value of it.
#[verifier::external_type_specification]
#[verifier::external_body]
#[verifier::reject_recursive_types(B)]
pub struct ExBitVec<B>(bit_vec::BitVec<B>);

/// The bits a `bit_vec::BitVec` holds, in order.
pub uninterp spec fn bits_of(v: bit_vec::BitVec) -> Seq<bool>;

/// Relies on bit_vec::BitVec::new: the new vector is empty.
#[verifier::external_body]
pub(crate) fn bitvec_new() -> (r: bit_vec::BitVec)
    ensures
        bits_of(r) == Seq::<bool>::empty(),
{
    bit_vec::BitVec::new()
}

/// Relies on bit_vec::BitVec::push: appends one bit at the end.  The call
/// panics when the bit count would overflow `usize`, so that case is kept out.
#[verifier::external_body]
pub(crate) fn bitvec_push(v: &mut bit_vec::BitVec, b: bool)
    requires
        bits_of(*old(v)).len() < usize::MAX,
    ensures
        bits_of(*final(v)) == bits_of(*old(v)).push(b),
{
    v.push(b)
}

/// Relies on bit_vec::BitVec::iter, which yields the bits in order.
#[verifier::external_body]
pub(crate) fn bitvec_to_bools(v: &bit_vec::BitVec) -> (r: Vec<bool>)
    ensures
        r@ == bits_of(*v),
{
    v.iter().collect()
}

} // verus!
