//! The bit vector that backs a binary image.
//!
//! The vector itself is `bit_vec::BitVec`. Nothing here is proved about it:
//! each function below states what the corresponding method of `BitVec`
//! does, in terms of the sequence of bits that the vector holds.

use bit_vec::BitVec;
use vstd::prelude::*;

verus! {

#[verifier::external_type_specification]
#[verifier::external_body]
#[verifier::reject_recursive_types(B)]
pub struct ExBitVec<B>(BitVec<B>);

/// The bits that a vector holds, in index order.
pub uninterp spec fn bits(v: BitVec<u32>) -> Seq<bool>;

/// Bit `k` of a byte, counted from the most significant bit.
pub open spec fn byte_bit(b: u8, k: int) -> bool {
    (b >> ((7 - k) as u8)) & 1u8 == 1u8
}

/// The bits of a byte sequence: eight per byte, the most significant bit
/// of each byte first.
pub open spec fn unpack_bits(bytes: Seq<u8>) -> Seq<bool> {
    Seq::new(8 * bytes.len(), |j: int| byte_bit(bytes[j / 8], j % 8))
}

/// True when `bytes` is the packing of `b`: one byte for every eight bits,
/// the first bit in the most significant position, the last byte padded
/// with zero bits.
pub open spec fn packs(bytes: Seq<u8>, b: Seq<bool>) -> bool {
    &&& bytes.len() == (b.len() + 7) / 8
    &&& forall|j: int|
        0 <= j < 8 * bytes.len() ==> #[trigger] byte_bit(bytes[j / 8], j % 8) == (j < b.len()
            && b[j])
}

/// `BitVec::from_elem`: a vector of `nbits` bits, each equal to `bit`.
#[verifier::external_body]
pub(crate) fn bitvec_from_elem(nbits: usize, bit: bool) -> (v: BitVec)
    ensures
        bits(v) == Seq::new(nbits as nat, |i: int| bit),
{
    BitVec::from_elem(nbits, bit)
}

/// `BitVec::len`: the number of bits.
#[verifier::external_body]
pub(crate) fn bitvec_len(v: &BitVec) -> (n: usize)
    ensures
        n == bits(*v).len(),
{
    v.len()
}

/// `BitVec::get`: the bit at index `i`, or `None` when `i` is out of bounds.
#[verifier::external_body]
pub(crate) fn bitvec_get(v: &BitVec, i: usize) -> (r: Option<bool>)
    ensures
        r == (if i < bits(*v).len() {
            Some(bits(*v)[i as int])
        } else {
            None
        }),
{
    v.get(i)
}

/// `BitVec::set`: sets the bit at index `i` to `x`; it panics when `i` is
/// out of bounds, which the precondition excludes.
#[verifier::external_body]
pub(crate) fn bitvec_set(v: &mut BitVec, i: usize, x: bool)
    requires
        i < bits(*old(v)).len(),
    ensures
        bits(*final(v)) == bits(*old(v)).update(i as int, x),
{
    v.set(i, x);
}

/// `BitVec::to_bytes`: the bits packed into bytes, most significant bit
/// first, the last byte padded with zeros.
#[verifier::external_body]
pub(crate) fn bitvec_to_bytes(v: &BitVec) -> (bytes: Vec<u8>)
    ensures
        packs(bytes@, bits(*v)),
{
    v.to_bytes()
}

/// `BitVec::from_bytes`: each byte becomes eight bits, the most significant
/// bit of each byte first; it panics when eight times the length overflows,
/// which the precondition excludes.
#[verifier::external_body]
pub(crate) fn bitvec_from_bytes(bytes: &[u8]) -> (v: BitVec)
    requires
        8 * bytes@.len() <= usize::MAX,
    ensures
        bits(v) == unpack_bits(bytes@),
{
    BitVec::from_bytes(bytes)
}

/// `BitVec::clone`: a vector that holds the same bits.
#[verifier::external_body]
pub(crate) fn bitvec_clone(v: &BitVec) -> (c: BitVec)
    ensures
        bits(c) == bits(*v),
{
    v.clone()
}

} // verus!
