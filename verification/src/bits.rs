//! The bit vector that carries codes and encoded text, and what this
//! library assumes of it.

use bit_vec::BitVec;
use vstd::prelude::*;

verus! {

/// The bit vector of the crate `bit_vec`. Nothing inside it is visible
/// here: what it holds is named by `bit_seq`.
#[verifier::external_type_specification]
#[verifier::external_body]
#[verifier::reject_recursive_types(B)]
pub struct ExBitVec<B>(BitVec<B>);

/// The bits that a bit vector holds, first to last.
pub uninterp spec fn bit_seq(v: BitVec<u32>) -> Seq<bool>;

/// `BitVec::new`: the new vector holds no bits.
#[verifier::external_body]
pub(crate) fn bits_new() -> (v: BitVec<u32>)
    ensures
        bit_seq(v) == Seq::<bool>::empty(),
{
    BitVec::new()
}

/// `BitVec::len`: the number of bits held.
#[verifier::external_body]
pub(crate) fn bits_len(v: &BitVec<u32>) -> (n: usize)
    ensures
        n == bit_seq(*v).len(),
{
    v.len()
}

/// `BitVec::get`: the bit at position `i`, or `None` past the end.
#[verifier::external_body]
pub(crate) fn bits_get(v: &BitVec<u32>, i: usize) -> (b: Option<bool>)
    ensures
        i < bit_seq(*v).len() ==> b == Some(bit_seq(*v)[i as int]),
        i >= bit_seq(*v).len() ==> b.is_none(),
{
    v.get(i)
}

/// `BitVec::push`: appends one bit. The outside function panics when the
/// length would pass `usize::MAX`, so that case is excluded.
#[verifier::external_body]
pub(crate) fn bits_push(v: &mut BitVec<u32>, bit: bool)
    requires
        bit_seq(*old(v)).len() < usize::MAX,
    ensures
        bit_seq(*final(v)) == bit_seq(*old(v)).push(bit),
{
    v.push(bit)
}

/// `Clone::clone` of a `BitVec`: the copy holds the same bits.
#[verifier::external_body]
pub(crate) fn bits_clone(v: &BitVec<u32>) -> (w: BitVec<u32>)
    ensures
        bit_seq(w) == bit_seq(*v),
{
    v.clone()
}

/// `Extend::extend` of a `BitVec` with the bits of another: the bits of
/// `src` are appended in order. Each bit is pushed, so the total length has
/// to stay within `usize::MAX`.
#[verifier::external_body]
pub(crate) fn bits_extend(dst: &mut BitVec<u32>, src: &BitVec<u32>)
    requires
        bit_seq(*old(dst)).len() + bit_seq(*src).len() <= usize::MAX,
    ensures
        bit_seq(*final(dst)) == bit_seq(*old(dst)) + bit_seq(*src),
{
    dst.extend(src.iter())
}

} // verus!
